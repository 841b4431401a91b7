//! Choosing among scored candidates: the lowest score wins, and of several
//! candidates with the lowest score the earliest one.

use vstd::prelude::*;

verus! {

/// Whether place `k` holds the lowest of the scores `keys`, and no place before
/// it holds the same score. A place that holds `None` is no candidate.
pub open spec fn is_first_minimum(keys: Seq<Option<int>>, k: int) -> bool {
    &&& 0 <= k < keys.len()
    &&& keys[k] is Some
    &&& forall|j: int|
        0 <= j < keys.len() && keys[j] is Some ==> keys[k]->Some_0 <= (#[trigger] keys[j])->Some_0
    &&& forall|j: int|
        0 <= j < k && keys[j] is Some ==> keys[k]->Some_0 < (#[trigger] keys[j])->Some_0
}

/// Whether no place of `keys` holds a candidate.
pub open spec fn no_candidate(keys: Seq<Option<int>>) -> bool {
    forall|j: int| 0 <= j < keys.len() ==> (#[trigger] keys[j]) is None
}

/// Whether `a` and `b` hold candidates at the same places and order them in
/// the same way.
pub open spec fn same_order(a: Seq<Option<int>>, b: Seq<Option<int>>) -> bool {
    &&& a.len() == b.len()
    &&& forall|i: int| 0 <= i < a.len() ==> ((#[trigger] a[i]) is Some <==> b[i] is Some)
    &&& forall|i: int, j: int|
        0 <= i < a.len() && 0 <= j < a.len() && a[i] is Some && a[j] is Some ==> ((
        #[trigger] a[i])->Some_0 <= (#[trigger] a[j])->Some_0 <==> b[i]->Some_0 <= b[j]->Some_0)
}

/// The scores as numbers without a bound.
pub open spec fn unbounded(keys: Seq<Option<u128>>) -> Seq<Option<int>> {
    Seq::new(
        keys.len(),
        |i: int|
            match keys[i] {
                Some(key) => Some(key as int),
                None => None,
            },
    )
}

/// The choice is determined: at most one place is the first minimum.
pub proof fn law_first_minimum_unique(keys: Seq<Option<int>>, k: int, m: int)
    requires
        is_first_minimum(keys, k),
        is_first_minimum(keys, m),
    ensures
        k == m,
{
    if k < m {
        assert(keys[m]->Some_0 < keys[k]->Some_0);
    }
    if m < k {
        assert(keys[k]->Some_0 < keys[m]->Some_0);
    }
}

/// Scores that order the candidates in the same way have the same first
/// minimum, and one has a candidate where the other has.
pub proof fn lemma_same_order(a: Seq<Option<int>>, b: Seq<Option<int>>, k: int)
    requires
        same_order(a, b),
    ensures
        is_first_minimum(a, k) ==> is_first_minimum(b, k),
        no_candidate(a) ==> no_candidate(b),
{
    if is_first_minimum(a, k) {
        assert(b[k] is Some);
        assert forall|j: int| 0 <= j < b.len() && b[j] is Some implies b[k]->Some_0 <= (
        #[trigger] b[j])->Some_0 by {
            assert(a[k]->Some_0 <= a[j]->Some_0);
        }
        assert forall|j: int| 0 <= j < k && b[j] is Some implies b[k]->Some_0 < (
        #[trigger] b[j])->Some_0 by {
            assert(a[k]->Some_0 < a[j]->Some_0);
            assert(!(a[j]->Some_0 <= a[k]->Some_0));
        }
    }
    if no_candidate(a) {
        assert forall|j: int| 0 <= j < b.len() implies (#[trigger] b[j]) is None by {
            assert(a[j] is None);
        }
    }
}

/// The place of the first minimum of `keys`, or `None` where there is no
/// candidate.
pub fn first_minimum(keys: &Vec<Option<u128>>) -> (r: Option<usize>)
    ensures
        match r {
            Some(k) => is_first_minimum(unbounded(keys@), k as int),
            None => no_candidate(unbounded(keys@)),
        },
{
    let mut best: Option<usize> = None;
    let mut i: usize = 0;
    while i < keys.len()
        invariant
            i <= keys.len(),
            match best {
                Some(k) => k < i && is_first_minimum(
                    unbounded(keys@).subrange(0, i as int),
                    k as int,
                ),
                None => no_candidate(unbounded(keys@).subrange(0, i as int)),
            },
        decreases keys.len() - i,
    {
        let ghost seen = unbounded(keys@).subrange(0, i as int);
        let ghost next = unbounded(keys@).subrange(0, i + 1);
        assert(forall|j: int| 0 <= j < i ==> seen[j] == next[j]);
        assert(next[i as int] == unbounded(keys@)[i as int]);
        match keys[i] {
            None => {},
            Some(score) => {
                match best {
                    None => {
                        best = Some(i);
                    },
                    Some(k) => {
                        assert(seen[k as int] == unbounded(keys@)[k as int]);
                        if score < keys[k].unwrap() {
                            best = Some(i);
                        }
                    },
                }
            },
        }
        i += 1;
    }
    assert(unbounded(keys@).subrange(0, i as int) =~= unbounded(keys@));
    best
}

} // verus!
