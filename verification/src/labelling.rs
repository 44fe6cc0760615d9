//! Partial labellings of spins: how many are assigned, the state they name when complete, which
//! spins stay free once the assigned ones are pinned, and how a state of the free spins is put
//! back on all of them.

use vstd::prelude::*;

verus! {

/// How many entries of `labels` are assigned.
pub open spec fn count_assigned(labels: Seq<Option<i8>>) -> nat
    decreases labels.len(),
{
    if labels.len() == 0 {
        0
    } else {
        count_assigned(labels.drop_last()) + (if labels.last() is Some {
            1nat
        } else {
            0nat
        })
    }
}

/// How many spins `labels` assigns.
pub fn assigned(labels: &[Option<i8>]) -> (count: usize)
    ensures
        count == count_assigned(labels@),
{
    let mut count: usize = 0;
    let mut i: usize = 0;
    while i < labels.len()
        invariant
            i <= labels@.len(),
            count == count_assigned(labels@.subrange(0, i as int)),
            count <= i,
        decreases labels@.len() - i,
    {
        proof {
            let pre = labels@.subrange(0, i as int + 1);
            assert(pre.drop_last() =~= labels@.subrange(0, i as int));
        }
        if labels[i].is_some() {
            count += 1;
        }
        i += 1;
    }
    assert(labels@.subrange(0, labels@.len() as int) =~= labels@);
    count
}

/// The state `labels` names, when it assigns every spin; `None` when any spin is unassigned.
pub fn complete_state(labels: &[Option<i8>]) -> (state: Option<Vec<i8>>)
    ensures
        state is Some <==> forall|i: int| 0 <= i < labels@.len() ==> (#[trigger] labels@[i]) is Some,
        state matches Some(s) ==> s@.len() == labels@.len() && forall|i: int|
            0 <= i < labels@.len() ==> labels@[i] == Some(#[trigger] s@[i]),
{
    let mut s: Vec<i8> = Vec::new();
    let mut i: usize = 0;
    while i < labels.len()
        invariant
            i <= labels@.len(),
            s@.len() == i,
            forall|r: int| 0 <= r < i ==> labels@[r] == Some(#[trigger] s@[r]),
        decreases labels@.len() - i,
    {
        match labels[i] {
            Some(v) => s.push(v),
            None => {
                return None;
            },
        }
        i += 1;
    }
    assert forall|i: int| 0 <= i < labels@.len() implies (#[trigger] labels@[i]) is Some by {
        assert(labels@[i] == Some(s@[i]));
    }
    Some(s)
}

/// The spins `pinned` leaves unassigned, in increasing order.
pub fn free_spins(pinned: &[Option<i8>]) -> (free: Vec<usize>)
    ensures
        forall|a: int, b: int| 0 <= a < b < free@.len() ==> free@[a] < free@[b],
        forall|k: int| 0 <= k < free@.len() ==> (#[trigger] free@[k]) < pinned@.len() && pinned@[free@[k] as int] is None,
        forall|i: int| 0 <= i < pinned@.len() && pinned@[i] is None ==> free@.contains(i as usize),
{
    let mut free: Vec<usize> = Vec::new();
    let mut i: usize = 0;
    while i < pinned.len()
        invariant
            i <= pinned@.len(),
            forall|a: int, b: int| 0 <= a < b < free@.len() ==> free@[a] < free@[b],
            forall|k: int| 0 <= k < free@.len() ==> (#[trigger] free@[k]) < i && pinned@[free@[k] as int] is None,
            forall|r: int| 0 <= r < i && pinned@[r] is None ==> free@.contains(r as usize),
        decreases pinned@.len() - i,
    {
        if pinned[i].is_none() {
            proof {
                assert forall|r: int| 0 <= r < i && pinned@[r] is None implies free@.push(i).contains(r as usize) by {
                    let k = choose|k: int| 0 <= k < free@.len() && free@[k] == r as usize;
                    assert(free@.push(i)[k] == r as usize);
                }
                assert(free@.push(i)[free@.len() as int] == i);
            }
            free.push(i);
        }
        i += 1;
    }
    free
}

/// Whether slot `k` is the last of the first `end` slots of `free` that names spin `i`.
pub open spec fn last_before(free: Seq<usize>, i: int, k: int, end: int) -> bool {
    &&& 0 <= k < end
    &&& free[k] == i
    &&& forall|later: int| k < later < end ==> free[later] != i
}

/// Whether slot `k` is the last slot of `free` that names spin `i`.
pub open spec fn last_slot(free: Seq<usize>, i: int, k: int) -> bool {
    last_before(free, i, k, free.len() as int)
}

/// A state of the free spins put back on all the spins: each spin named in `free` takes the value
/// `sub` gives its last slot, every other spin its pinned value, or 0 where it has none.
pub fn lift(pinned: &[Option<i8>], free: &[usize], sub: &[i8]) -> (s: Vec<i8>)
    requires
        sub@.len() == free@.len(),
        forall|k: int| 0 <= k < free@.len() ==> (#[trigger] free@[k]) < pinned@.len(),
    ensures
        s@.len() == pinned@.len(),
        forall|i: int|
            0 <= i < pinned@.len() && !free@.contains(i as usize) ==> #[trigger] s@[i] == match pinned@[i] {
                Some(v) => v,
                None => 0i8,
            },
        forall|i: int, k: int| #[trigger] last_slot(free@, i, k) ==> s@[i] == sub@[k],
{
    let mut s: Vec<i8> = Vec::new();
    let mut i: usize = 0;
    while i < pinned.len()
        invariant
            i <= pinned@.len(),
            s@.len() == i,
            forall|r: int| 0 <= r < i ==> #[trigger] s@[r] == match pinned@[r] {
                Some(v) => v,
                None => 0i8,
            },
        decreases pinned@.len() - i,
    {
        let v = match pinned[i] {
            Some(v) => v,
            None => 0i8,
        };
        s.push(v);
        i += 1;
    }
    let mut k: usize = 0;
    while k < free.len()
        invariant
            k <= free@.len(),
            sub@.len() == free@.len(),
            s@.len() == pinned@.len(),
            forall|t: int| 0 <= t < free@.len() ==> (#[trigger] free@[t]) < pinned@.len(),
            forall|r: int|
                0 <= r < pinned@.len() && !free@.subrange(0, k as int).contains(r as usize) ==> #[trigger] s@[r]
                    == match pinned@[r] {
                    Some(v) => v,
                    None => 0i8,
                },
            forall|r: int, t: int| #[trigger] last_before(free@, r, t, k as int) ==> s@[r] == sub@[t],
        decreases free@.len() - k,
    {
        let ghost before = s@;
        let ghost f = free@[k as int];
        s.set(free[k], sub[k]);
        proof {
            assert forall|r: int|
                0 <= r < pinned@.len() && !free@.subrange(0, k as int + 1).contains(r as usize) implies #[trigger] s@[r]
                    == match pinned@[r] {
                    Some(v) => v,
                    None => 0i8,
                } by {
                assert(free@.subrange(0, k as int + 1)[k as int] == f);
                if free@.subrange(0, k as int).contains(r as usize) {
                    let t = choose|t: int| 0 <= t < k && free@.subrange(0, k as int)[t] == r as usize;
                    assert(free@.subrange(0, k as int + 1)[t] == r as usize);
                }
                assert(r != f);
            }
            assert forall|r: int, t: int| #[trigger] last_before(free@, r, t, k + 1) implies s@[r] == sub@[t] by {
                if t < k {
                    assert(free@[k as int] != r);
                    assert(last_before(free@, r, t, k as int));
                }
            }
        }
        k += 1;
    }
    proof {
        assert(free@.subrange(0, free@.len() as int) =~= free@);
        assert forall|i: int, k: int| #[trigger] last_slot(free@, i, k) implies s@[i] == sub@[k] by {
            assert(last_before(free@, i, k, free@.len() as int));
        }
    }
    s
}

} // verus!
