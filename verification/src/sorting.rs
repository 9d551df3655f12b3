//! Stable sorting, stated on sequences.

use vstd::prelude::*;

verus! {

/// `s` with `x` put behind the last element that comes no later than `x`.
pub open spec fn inserted<T>(s: Seq<T>, x: T, le: spec_fn(T, T) -> bool) -> Seq<T>
    decreases s.len(),
{
    if s.len() == 0 || le(s.last(), x) {
        s.push(x)
    } else {
        inserted(s.drop_last(), x, le).push(s.last())
    }
}

/// `s` in the order `le`; elements that come no later than each other keep their order.
pub open spec fn stably_sorted<T>(s: Seq<T>, le: spec_fn(T, T) -> bool) -> Seq<T>
    decreases s.len(),
{
    if s.len() == 0 {
        Seq::empty()
    } else {
        inserted(stably_sorted(s.drop_last(), le), s.last(), le)
    }
}

/// Of two elements one comes no later than the other, and the order is transitive.
pub open spec fn is_order<T>(le: spec_fn(T, T) -> bool) -> bool {
    &&& forall|a: T, b: T| #[trigger] le(a, b) || le(b, a)
    &&& forall|a: T, b: T, c: T| #[trigger] le(a, b) && #[trigger] le(b, c) ==> le(a, c)
}

/// No element comes before one that it follows in the order.
pub open spec fn in_order<T>(s: Seq<T>, le: spec_fn(T, T) -> bool) -> bool {
    forall|i: int, j: int| #![trigger s[i], s[j]] 0 <= i < j < s.len() ==> le(s[i], s[j])
}

/// Insertion adds one element.
proof fn lemma_inserted_multiset<T>(s: Seq<T>, x: T, le: spec_fn(T, T) -> bool)
    ensures
        inserted(s, x, le).len() == s.len() + 1,
        inserted(s, x, le).to_multiset() == s.to_multiset().insert(x),
    decreases s.len(),
{
    broadcast use vstd::seq_lib::group_to_multiset_ensures;

    if s.len() == 0 || le(s.last(), x) {
    } else {
        lemma_inserted_multiset(s.drop_last(), x, le);
        assert(s =~= s.drop_last().push(s.last()));
        assert(s.drop_last().to_multiset().insert(x).insert(s.last())
            =~= s.drop_last().to_multiset().insert(s.last()).insert(x));
    }
}

/// Insertion into an ordered sequence keeps the order.
proof fn lemma_inserted_in_order<T>(s: Seq<T>, x: T, le: spec_fn(T, T) -> bool)
    requires
        is_order(le),
        in_order(s, le),
    ensures
        in_order(inserted(s, x, le), le),
        forall|i: int|
            0 <= i < inserted(s, x, le).len() ==> #[trigger] inserted(s, x, le)[i] == x || s.contains(
                inserted(s, x, le)[i],
            ),
    decreases s.len(),
{
    let r = inserted(s, x, le);
    if s.len() == 0 || le(s.last(), x) {
        assert forall|i: int| 0 <= i < s.len() implies le(#[trigger] s[i], x) by {
            if i < s.len() - 1 {
                assert(le(s[i], s[s.len() - 1]));
            }
        }
        assert forall|i: int| 0 <= i < r.len() implies #[trigger] r[i] == x || s.contains(r[i]) by {
            if i < s.len() {
                assert(s[i] == r[i]);
            }
        }
    } else {
        let init = s.drop_last();
        assert(in_order(init, le));
        lemma_inserted_in_order(init, x, le);
        let p = inserted(init, x, le);
        assert forall|i: int| 0 <= i < p.len() implies le(#[trigger] p[i], s.last()) by {
            assert(le(x, s.last()));
            if p[i] != x {
                let j = choose|j: int| 0 <= j < init.len() && init[j] == p[i];
                assert(le(s[j], s[s.len() - 1]));
            }
        }
        assert forall|i: int| 0 <= i < r.len() implies #[trigger] r[i] == x || s.contains(r[i]) by {
            if i < p.len() {
                assert(r[i] == p[i]);
                if p[i] != x {
                    let j = choose|j: int| 0 <= j < init.len() && init[j] == p[i];
                    assert(s[j] == p[i]);
                }
            } else {
                assert(s[s.len() - 1] == r[i]);
            }
        }
    }
}

/// The elements that come no later and no earlier than `z`.
pub open spec fn level_with<T>(z: T, le: spec_fn(T, T) -> bool) -> spec_fn(T) -> bool {
    |y: T| le(z, y) && le(y, z)
}

/// Insertion puts an element behind its equals.
proof fn lemma_inserted_stable<T>(s: Seq<T>, x: T, le: spec_fn(T, T) -> bool, z: T)
    requires
        is_order(le),
    ensures
        inserted(s, x, le).filter(level_with(z, le)) == s.push(x).filter(level_with(z, le)),
    decreases s.len(),
{
    let keep = level_with(z, le);
    if s.len() == 0 || le(s.last(), x) {
    } else {
        let init = s.drop_last();
        let last = s.last();
        lemma_inserted_stable(init, x, le, z);
        reveal(Seq::filter);
        assert(inserted(init, x, le).push(last).drop_last() =~= inserted(init, x, le));
        assert(init.push(x).drop_last() =~= init);
        assert(s.push(x).drop_last() =~= s);
        assert(!(keep(last) && keep(x)));
        let kept = init.filter(keep);
        assert(s.filter(keep) == if keep(last) {
            kept.push(last)
        } else {
            kept
        });
        assert(init.push(x).filter(keep) == if keep(x) {
            kept.push(x)
        } else {
            kept
        });
        assert(s.push(x).filter(keep) == if keep(x) {
            s.filter(keep).push(x)
        } else {
            s.filter(keep)
        });
        assert(inserted(s, x, le).filter(keep) == if keep(last) {
            inserted(init, x, le).filter(keep).push(last)
        } else {
            inserted(init, x, le).filter(keep)
        });
    }
}

/// A stable sort puts the elements in order.
pub proof fn lemma_sorted_in_order<T>(s: Seq<T>, le: spec_fn(T, T) -> bool)
    requires
        is_order(le),
    ensures
        in_order(stably_sorted(s, le), le),
    decreases s.len(),
{
    if s.len() > 0 {
        lemma_sorted_in_order(s.drop_last(), le);
        lemma_inserted_in_order(stably_sorted(s.drop_last(), le), s.last(), le);
    }
}

/// A stable sort keeps every element, as often as it occurs.
pub proof fn lemma_sorted_multiset<T>(s: Seq<T>, le: spec_fn(T, T) -> bool)
    ensures
        stably_sorted(s, le).len() == s.len(),
        stably_sorted(s, le).to_multiset() == s.to_multiset(),
    decreases s.len(),
{
    broadcast use vstd::seq_lib::group_to_multiset_ensures;

    if s.len() > 0 {
        lemma_sorted_multiset(s.drop_last(), le);
        lemma_inserted_multiset(stably_sorted(s.drop_last(), le), s.last(), le);
        assert(s =~= s.drop_last().push(s.last()));
    } else {
        assert(s =~= Seq::empty());
    }
}

/// A stable sort leaves elements that come no later than each other in their order.
pub proof fn lemma_sorted_stable<T>(s: Seq<T>, le: spec_fn(T, T) -> bool, z: T)
    requires
        is_order(le),
    ensures
        stably_sorted(s, le).filter(level_with(z, le)) == s.filter(level_with(z, le)),
    decreases s.len(),
{
    if s.len() > 0 {
        let init = s.drop_last();
        lemma_sorted_stable(init, le, z);
        lemma_inserted_stable(stably_sorted(init, le), s.last(), le, z);
        reveal(Seq::filter);
        assert(stably_sorted(init, le).push(s.last()).drop_last() =~= stably_sorted(init, le));
    } else {
        assert(s =~= Seq::empty());
    }
}

/// A sequence that is in order already is left as it is.
pub proof fn lemma_sorted_fixed<T>(s: Seq<T>, le: spec_fn(T, T) -> bool)
    requires
        in_order(s, le),
    ensures
        stably_sorted(s, le) == s,
    decreases s.len(),
{
    if s.len() > 0 {
        let init = s.drop_last();
        assert(in_order(init, le));
        lemma_sorted_fixed(init, le);
        if init.len() > 0 {
            assert(le(s[s.len() - 2], s[s.len() - 1]));
        }
        assert(init.push(s.last()) =~= s);
    } else {
        assert(stably_sorted(s, le) =~= s);
    }
}

/// Sorting does not see what the order does not look at: a change of the elements that the
/// order does not notice can as well be made after sorting.
pub proof fn lemma_sorted_map<T>(s: Seq<T>, le: spec_fn(T, T) -> bool, f: spec_fn(T) -> T)
    requires
        forall|a: T, b: T| #[trigger] le(f(a), f(b)) == le(a, b),
    ensures
        stably_sorted(s.map_values(f), le) == stably_sorted(s, le).map_values(f),
    decreases s.len(),
{
    if s.len() > 0 {
        let init = s.drop_last();
        lemma_sorted_map(init, le, f);
        assert(s.map_values(f).drop_last() =~= init.map_values(f));
        lemma_inserted_map(stably_sorted(init, le), s.last(), le, f);
    } else {
        assert(stably_sorted(s.map_values(f), le) =~= stably_sorted(s, le).map_values(f));
    }
}

/// A change that the order does not notice can as well be made after insertion.
proof fn lemma_inserted_map<T>(s: Seq<T>, x: T, le: spec_fn(T, T) -> bool, f: spec_fn(T) -> T)
    requires
        forall|a: T, b: T| #[trigger] le(f(a), f(b)) == le(a, b),
    ensures
        inserted(s.map_values(f), f(x), le) == inserted(s, x, le).map_values(f),
    decreases s.len(),
{
    if s.len() == 0 || le(s.last(), x) {
        assert(s.map_values(f).push(f(x)) =~= s.push(x).map_values(f));
        if s.len() > 0 {
            assert(le(f(s.last()), f(x)));
        }
    } else {
        let init = s.drop_last();
        assert(!le(f(s.last()), f(x)));
        assert(s.map_values(f).drop_last() =~= init.map_values(f));
        lemma_inserted_map(init, x, le, f);
        assert(inserted(init, x, le).map_values(f).push(f(s.last())) =~= inserted(init, x, le).push(
            s.last(),
        ).map_values(f));
    }
}

} // verus!
