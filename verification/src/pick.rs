//! Choosing the best of a numbered row of candidates.

use vstd::prelude::*;

verus! {

/// Among the candidates below `n` that are `ok`, the one of least `key`; the
/// first such one where several share it.
pub open spec fn first_least(
    n: nat,
    ok: spec_fn(int) -> bool,
    key: spec_fn(int) -> int,
) -> Option<int>
    decreases n,
{
    if n == 0 {
        None
    } else {
        let prev = first_least((n - 1) as nat, ok, key);
        if ok(n - 1) && (prev is None || key(n - 1) < key(prev->0)) {
            Some(n - 1)
        } else {
            prev
        }
    }
}

/// [`first_least`] picks a candidate that is least, and first among the least.
pub proof fn law_first_least(n: nat, ok: spec_fn(int) -> bool, key: spec_fn(int) -> int)
    ensures
        match first_least(n, ok, key) {
            Some(i) => {
                &&& 0 <= i < n
                &&& ok(i)
                &&& forall|j: int| 0 <= j < n && #[trigger] ok(j) ==> key(i) <= key(j)
                &&& forall|j: int| 0 <= j < i && #[trigger] ok(j) ==> key(i) < key(j)
            },
            None => forall|j: int| 0 <= j < n ==> !#[trigger] ok(j),
        },
    decreases n,
{
    if n > 0 {
        law_first_least((n - 1) as nat, ok, key);
    }
}

} // verus!
