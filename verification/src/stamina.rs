//! Stamina: sustained aggression tires a unit, and rest restores it.

use crate::orders::{order_of, Orders};
use crate::unit::{roster, Order, Stamina, Team, Unit, UnitView, MAX_STAMINA};
use vstd::prelude::*;

verus! {

/// What a tick of charging, or of an all-out attack, costs.
pub const STAMINA_DRAIN: u32 = 5;

/// What a tick of holding, or of standing idle, gives back.
pub const STAMINA_RECOVERY: u32 = 5;

/// A unit with less stamina than this is winded.
pub const WINDED_BELOW: u32 = 25;

/// The stamina is too low for a charge to hit harder.
pub open spec fn winded(stamina: u32) -> bool {
    stamina < WINDED_BELOW
}

pub open spec fn tiring(order: Order) -> bool {
    order == Order::Charge || order == Order::Unleash
}

pub open spec fn restful(order: Order) -> bool {
    order == Order::Hold || order == Order::Idle
}

/// The stamina after a tick under an order.
pub open spec fn stamina_after(stamina: u32, order: Order) -> u32 {
    if tiring(order) {
        if stamina < STAMINA_DRAIN {
            0
        } else {
            (stamina - STAMINA_DRAIN) as u32
        }
    } else if restful(order) && stamina < MAX_STAMINA {
        if stamina + STAMINA_RECOVERY > MAX_STAMINA {
            MAX_STAMINA
        } else {
            (stamina + STAMINA_RECOVERY) as u32
        }
    } else {
        stamina
    }
}

impl Stamina {
    /// Whether the stamina is too low for a charge to hit harder.
    pub fn is_winded(self) -> (r: bool)
        ensures
            r == winded(self.0),
    {
        self.0 < WINDED_BELOW
    }

    /// The stamina after a tick under an order.
    pub fn after(self, order: Order) -> (s: Stamina)
        ensures
            s.0 == stamina_after(self.0, order),
    {
        match order {
            Order::Charge | Order::Unleash => {
                if self.0 < STAMINA_DRAIN {
                    Stamina(0)
                } else {
                    Stamina(self.0 - STAMINA_DRAIN)
                }
            },
            Order::Hold | Order::Idle => {
                if self.0 >= MAX_STAMINA {
                    self
                } else if self.0 + STAMINA_RECOVERY > MAX_STAMINA {
                    Stamina(MAX_STAMINA)
                } else {
                    Stamina(self.0 + STAMINA_RECOVERY)
                }
            },
            Order::March | Order::Retreat => self,
        }
    }
}

/// A unit after the exertion of a tick.
pub open spec fn exerted(orders: Map<(Team, u8), Order>, u: UnitView) -> UnitView {
    UnitView { stamina: stamina_after(u.stamina, order_of(orders, u.team, u.group)), ..u }
}

/// The units after the exertion of a tick.
pub open spec fn all_exerted(
    orders: Map<(Team, u8), Order>,
    units: Seq<UnitView>,
) -> Seq<UnitView> {
    Seq::new(units.len(), |i: int| exerted(orders, units[i]))
}

/// Charging and unleashed units tire, holding and idle ones recover.
pub fn update_stamina(orders: &Orders, units: &mut Vec<Unit>)
    ensures
        roster(final(units)@) == all_exerted(orders@, roster(old(units)@)),
{
    let ghost all = roster(units@);
    let mut i: usize = 0;
    while i < units.len()
        invariant
            i <= units@.len(),
            units@.len() == all.len(),
            forall|j: int| 0 <= j < i ==> #[trigger] roster(units@)[j] == exerted(orders@, all[j]),
            forall|j: int| i <= j < all.len() ==> #[trigger] roster(units@)[j] == all[j],
        decreases units@.len() - i,
    {
        let ghost row = roster(units@);
        assert(row[i as int] == all[i as int]);
        let order: Order = orders.get(units[i].team, units[i].group.0);
        let stamina: Stamina = units[i].stamina.after(order);
        units[i].stamina = stamina;
        assert forall|j: int| 0 <= j < all.len() && j != i implies #[trigger] roster(units@)[j]
            == row[j] by {}
        assert(roster(units@)[i as int] == exerted(orders@, all[i as int]));
        i = i + 1;
    }
    assert(roster(units@) =~= all_exerted(orders@, all));
}

/// The stamina after some ticks under the same order.
pub open spec fn stamina_in(stamina: u32, order: Order, ticks: nat) -> u32
    decreases ticks,
{
    if ticks == 0 {
        stamina
    } else {
        stamina_after(stamina_in(stamina, order, (ticks - 1) as nat), order)
    }
}

/// Charging and all-out attacks cost stamina while there is any, holding and
/// standing idle give it back up to the full measure, and other orders leave it
/// alone.
pub proof fn law_aggression_tires_and_rest_restores(stamina: u32, order: Order)
    ensures
        tiring(order) && stamina > 0 ==> stamina_after(stamina, order) < stamina,
        restful(order) && stamina < MAX_STAMINA ==> stamina < stamina_after(stamina, order)
            <= MAX_STAMINA,
        !tiring(order) && !restful(order) ==> stamina_after(stamina, order) == stamina,
        stamina <= MAX_STAMINA ==> stamina_after(stamina, order) <= MAX_STAMINA,
{
}

/// Whoever keeps charging runs out of breath, and whoever rests gets it back: from
/// any stamina that a unit can have, sixteen ticks of aggression leave it winded,
/// and five of rest end that.
pub proof fn law_long_charges_wind(stamina: u32, order: Order, ticks: nat)
    requires
        stamina <= MAX_STAMINA,
    ensures
        tiring(order) ==> stamina_in(stamina, order, ticks) == (if stamina >= STAMINA_DRAIN
            * ticks {
            stamina - STAMINA_DRAIN * ticks
        } else {
            0
        }),
        restful(order) ==> stamina_in(stamina, order, ticks) == (if stamina + STAMINA_RECOVERY
            * ticks <= MAX_STAMINA {
            stamina + STAMINA_RECOVERY * ticks
        } else {
            MAX_STAMINA as int
        }),
        tiring(order) && ticks >= 16 ==> winded(stamina_in(stamina, order, ticks)),
        restful(order) && ticks >= 5 ==> !winded(stamina_in(stamina, order, ticks)),
    decreases ticks,
{
    if ticks > 0 {
        law_long_charges_wind(stamina, order, (ticks - 1) as nat);
    }
}

} // verus!
