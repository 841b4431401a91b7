//! Bounded histories: a sequence of fixed capacity to which items are appended
//! and which drops its oldest item when a new one arrives past the capacity.

use vstd::prelude::*;

verus! {

/// The history `s` after `x` arrived, under the capacity `cap`.
pub open spec fn ring_push<T>(s: Seq<T>, x: T, cap: nat) -> Seq<T> {
    if s.len() < cap {
        s.push(x)
    } else {
        s.push(x).subrange(1, s.len() as int + 1)
    }
}

/// The history `s` after each of `xs` arrived, in order, under the capacity
/// `cap`.
pub open spec fn ring_extend<T>(s: Seq<T>, xs: Seq<T>, cap: nat) -> Seq<T>
    decreases xs.len(),
{
    if xs.len() == 0 {
        s
    } else {
        ring_push(ring_extend(s, xs.drop_last(), cap), xs.last(), cap)
    }
}

/// The history that is left of all the arrivals `xs`, under the capacity `cap`.
pub open spec fn ring_fill<T>(xs: Seq<T>, cap: nat) -> Seq<T> {
    ring_extend(Seq::empty(), xs, cap)
}

/// The last `cap` items of `xs`, or all of them where there are fewer.
pub open spec fn latest<T>(xs: Seq<T>, cap: nat) -> Seq<T> {
    if xs.len() <= cap {
        xs
    } else {
        xs.subrange(xs.len() - cap, xs.len() as int)
    }
}

/// A history within its capacity stays within it, and holds the latest of
/// what it held and what arrived since, oldest first.
pub proof fn law_ring_extend<T>(s: Seq<T>, xs: Seq<T>, cap: nat)
    requires
        s.len() <= cap,
    ensures
        ring_extend(s, xs, cap) == latest(s + xs, cap),
        ring_extend(s, xs, cap).len() <= cap,
    decreases xs.len(),
{
    if xs.len() == 0 {
        assert(s + xs =~= s);
    } else {
        let before = xs.drop_last();
        law_ring_extend(s, before, cap);
        assert((s + xs).drop_last() =~= s + before);
        assert(ring_push(latest(s + before, cap), xs.last(), cap) =~= latest(s + xs, cap));
    }
}

/// A bounded history holds the latest arrivals, oldest first, and never more
/// than its capacity: of `cap + 1` arrivals the first is gone and the others
/// are kept in their order.
pub proof fn law_ring_keeps_latest<T>(xs: Seq<T>, cap: nat)
    ensures
        ring_fill(xs, cap) == latest(xs, cap),
        ring_fill(xs, cap).len() <= cap,
{
    law_ring_extend(Seq::<T>::empty(), xs, cap);
    assert(Seq::<T>::empty() + xs =~= xs);
}

/// Appends `x` to the history `v`, and drops the oldest item where the
/// capacity `cap` is passed.
pub fn ring_append<T>(v: &mut Vec<T>, x: T, cap: usize)
    ensures
        final(v)@ == ring_push(old(v)@, x, cap as nat),
        old(v).len() <= cap ==> final(v).len() <= cap,
{
    v.push(x);
    if v.len() > cap {
        let _ = v.remove(0);
    }
    assert(v@ =~= ring_push(old(v)@, x, cap as nat));
}

} // verus!
