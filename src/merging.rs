use vstd::multiset::Multiset;
use vstd::prelude::*;
use vstd::std_specs::cmp::PartialOrdSpec;

verus! {

/// `a` comes no later than `b` in the order that `T`'s `partial_cmp` gives.
pub open spec fn le<T: PartialOrd>(a: T, b: T) -> bool {
    a.partial_cmp_spec(&b) matches Some(core::cmp::Ordering::Less | core::cmp::Ordering::Equal)
}

/// Any two values drawn from `a` or `b` are comparable.
pub open spec fn comparable_values<T: PartialOrd>(a: Seq<T>, b: Seq<T>) -> bool {
    forall|x: T, y: T|
        (a.contains(x) || b.contains(x)) && (a.contains(y) || b.contains(y)) ==> #[trigger] le(
            x,
            y,
        ) || le(y, x)
}

/// Each value is at most the one after it.
pub open spec fn non_decreasing<T: PartialOrd>(s: Seq<T>) -> bool {
    forall|i: int| 0 <= i < s.len() - 1 ==> le(#[trigger] s[i], s[i + 1])
}

/// The standard merge step: repeatedly take the smaller head, the head of
/// `a` when the two compare less-or-equal.
pub open spec fn merged<T: PartialOrd>(a: Seq<T>, b: Seq<T>) -> Seq<T>
    decreases a.len() + b.len(),
{
    if a.len() == 0 {
        b
    } else if b.len() == 0 {
        a
    } else if le(a[0], b[0]) {
        seq![a[0]] + merged(a.drop_first(), b)
    } else {
        seq![b[0]] + merged(a, b.drop_first())
    }
}

/// `r` is `a` and `b` woven together, each keeping its own order.
pub open spec fn is_interleaving<T>(r: Seq<T>, a: Seq<T>, b: Seq<T>) -> bool
    decreases r.len(),
{
    if r.len() == 0 {
        a.len() == 0 && b.len() == 0
    } else {
        ||| (a.len() > 0 && r[0] == a[0] && is_interleaving(r.drop_first(), a.drop_first(), b))
        ||| (b.len() > 0 && r[0] == b[0] && is_interleaving(r.drop_first(), a, b.drop_first()))
    }
}

/// When the head of `a` is taken, the rest is the merge of what remains.
pub(crate) proof fn lemma_merged_take_left<T: PartialOrd>(a: Seq<T>, b: Seq<T>)
    requires
        a.len() > 0,
        b.len() == 0 || le(a[0], b[0]),
    ensures
        merged(a, b) == seq![a[0]] + merged(a.drop_first(), b),
{
    if b.len() == 0 {
        assert(a =~= seq![a[0]] + a.drop_first());
    }
}

/// When the head of `b` is taken, the rest is the merge of what remains.
pub(crate) proof fn lemma_merged_take_right<T: PartialOrd>(a: Seq<T>, b: Seq<T>)
    requires
        b.len() > 0,
        a.len() == 0 || !le(a[0], b[0]),
    ensures
        merged(a, b) == seq![b[0]] + merged(a, b.drop_first()),
{
    if a.len() == 0 {
        assert(b =~= seq![b[0]] + b.drop_first());
    }
}

/// The merge of `a` and `b` is an interleaving of the two, of length
/// `a.len() + b.len()`, whatever their order.
pub proof fn lemma_merged_interleaves<T: PartialOrd>(a: Seq<T>, b: Seq<T>)
    ensures
        is_interleaving(merged(a, b), a, b),
        merged(a, b).len() == a.len() + b.len(),
    decreases a.len() + b.len(),
{
    let m = merged(a, b);
    if a.len() == 0 {
        assert(a =~= Seq::<T>::empty());
        lemma_interleaving_with_empty(b);
    } else if b.len() == 0 {
        assert(b =~= Seq::<T>::empty());
        lemma_interleaving_with_empty_right(a);
    } else if le(a[0], b[0]) {
        lemma_merged_interleaves(a.drop_first(), b);
        assert(m.drop_first() =~= merged(a.drop_first(), b));
    } else {
        lemma_merged_interleaves(a, b.drop_first());
        assert(m.drop_first() =~= merged(a, b.drop_first()));
    }
}

/// `f` and `g` place `a` and `b` in `r`: each is strictly increasing, sends
/// every value to an equal value of `r`, the two never meet, and together
/// they cover every position of `r`.
pub open spec fn places<T>(r: Seq<T>, a: Seq<T>, b: Seq<T>, f: Seq<int>, g: Seq<int>) -> bool {
    &&& f.len() == a.len()
    &&& g.len() == b.len()
    &&& forall|i: int| 0 <= i < a.len() ==> 0 <= #[trigger] f[i] < r.len() && r[f[i]] == a[i]
    &&& forall|j: int| 0 <= j < b.len() ==> 0 <= #[trigger] g[j] < r.len() && r[g[j]] == b[j]
    &&& forall|i: int, j: int| 0 <= i < j < a.len() ==> #[trigger] f[i] < #[trigger] f[j]
    &&& forall|i: int, j: int| 0 <= i < j < b.len() ==> #[trigger] g[i] < #[trigger] g[j]
    &&& forall|i: int, j: int| 0 <= i < a.len() && 0 <= j < b.len() ==> #[trigger] f[i] != #[trigger] g[j]
    &&& forall|k: int| 0 <= k < r.len() ==> f.contains(k) || g.contains(k)
}

/// An interleaving of `a` and `b` places each in it by a strictly increasing
/// map of positions, the two maps disjoint and covering it.
pub proof fn lemma_interleaving_positions<T>(r: Seq<T>, a: Seq<T>, b: Seq<T>) -> (fg: (
    Seq<int>,
    Seq<int>,
))
    requires
        is_interleaving(r, a, b),
    ensures
        places(r, a, b, fg.0, fg.1),
    decreases r.len(),
{
    if r.len() == 0 {
        (Seq::empty(), Seq::empty())
    } else if a.len() > 0 && r[0] == a[0] && is_interleaving(r.drop_first(), a.drop_first(), b) {
        let (f1, g1) = lemma_interleaving_positions(r.drop_first(), a.drop_first(), b);
        let f = seq![0int] + f1.map_values(|x: int| x + 1);
        let g = g1.map_values(|x: int| x + 1);
        assert forall|i: int| 0 <= i < a.len() implies 0 <= #[trigger] f[i] < r.len() && r[f[i]]
            == a[i] by {
            if i > 0 {
                assert(f[i] == f1[i - 1] + 1);
            }
        }
        assert forall|i: int, j: int| 0 <= i < j < a.len() implies #[trigger] f[i]
            < #[trigger] f[j] by {
            assert(f[j] == f1[j - 1] + 1);
            if i > 0 {
                assert(f[i] == f1[i - 1] + 1);
                assert(f1[i - 1] < f1[j - 1]);
            } else {
                assert(f1[j - 1] >= 0);
            }
        }
        assert forall|i: int, j: int| 0 <= i < a.len() && 0 <= j < b.len() implies #[trigger] f[i]
            != #[trigger] g[j] by {
            assert(g[j] == g1[j] + 1 && g1[j] >= 0);
            if i > 0 {
                assert(f[i] == f1[i - 1] + 1);
                assert(f1[i - 1] != g1[j]);
            }
        }
        assert forall|k: int| 0 <= k < r.len() implies f.contains(k) || g.contains(k) by {
            if k == 0 {
                assert(f[0] == 0);
            } else if f1.contains(k - 1) {
                let i = choose|i: int| 0 <= i < f1.len() && f1[i] == k - 1;
                assert(f[i + 1] == k);
            } else {
                let j = choose|j: int| 0 <= j < g1.len() && g1[j] == k - 1;
                assert(g[j] == k);
            }
        }
        (f, g)
    } else {
        let (f1, g1) = lemma_interleaving_positions(r.drop_first(), a, b.drop_first());
        let f = f1.map_values(|x: int| x + 1);
        let g = seq![0int] + g1.map_values(|x: int| x + 1);
        assert forall|j: int| 0 <= j < b.len() implies 0 <= #[trigger] g[j] < r.len() && r[g[j]]
            == b[j] by {
            if j > 0 {
                assert(g[j] == g1[j - 1] + 1);
            }
        }
        assert forall|i: int, j: int| 0 <= i < j < b.len() implies #[trigger] g[i]
            < #[trigger] g[j] by {
            assert(g[j] == g1[j - 1] + 1);
            if i > 0 {
                assert(g[i] == g1[i - 1] + 1);
                assert(g1[i - 1] < g1[j - 1]);
            } else {
                assert(g1[j - 1] >= 0);
            }
        }
        assert forall|i: int, j: int| 0 <= i < a.len() && 0 <= j < b.len() implies #[trigger] f[i]
            != #[trigger] g[j] by {
            assert(f[i] == f1[i] + 1 && f1[i] >= 0);
            if j > 0 {
                assert(g[j] == g1[j - 1] + 1);
                assert(f1[i] != g1[j - 1]);
            }
        }
        assert forall|k: int| 0 <= k < r.len() implies f.contains(k) || g.contains(k) by {
            if k == 0 {
                assert(g[0] == 0);
            } else if g1.contains(k - 1) {
                let j = choose|j: int| 0 <= j < g1.len() && g1[j] == k - 1;
                assert(g[j + 1] == k);
            } else {
                let i = choose|i: int| 0 <= i < f1.len() && f1[i] == k - 1;
                assert(f[i] == k);
            }
        }
        (f, g)
    }
}

/// Adding a value of `a` behind an interleaving keeps it one.
pub(crate) proof fn lemma_interleaving_push_left<T>(r: Seq<T>, a: Seq<T>, b: Seq<T>, x: T)
    requires
        is_interleaving(r, a, b),
    ensures
        is_interleaving(r.push(x), a.push(x), b),
    decreases r.len(),
{
    assert(r.push(x).drop_first() =~= if r.len() == 0 { r } else { r.drop_first().push(x) });
    if r.len() == 0 {
        assert(a.push(x).drop_first() =~= a);
    } else if a.len() > 0 && r[0] == a[0] && is_interleaving(r.drop_first(), a.drop_first(), b) {
        lemma_interleaving_push_left(r.drop_first(), a.drop_first(), b, x);
        assert(a.push(x).drop_first() =~= a.drop_first().push(x));
    } else {
        lemma_interleaving_push_left(r.drop_first(), a, b.drop_first(), x);
    }
}

/// Adding a value of `b` behind an interleaving keeps it one.
pub(crate) proof fn lemma_interleaving_push_right<T>(r: Seq<T>, a: Seq<T>, b: Seq<T>, x: T)
    requires
        is_interleaving(r, a, b),
    ensures
        is_interleaving(r.push(x), a, b.push(x)),
    decreases r.len(),
{
    assert(r.push(x).drop_first() =~= if r.len() == 0 { r } else { r.drop_first().push(x) });
    if r.len() == 0 {
        assert(b.push(x).drop_first() =~= b);
    } else if a.len() > 0 && r[0] == a[0] && is_interleaving(r.drop_first(), a.drop_first(), b) {
        lemma_interleaving_push_right(r.drop_first(), a.drop_first(), b, x);
    } else {
        lemma_interleaving_push_right(r.drop_first(), a, b.drop_first(), x);
        assert(b.push(x).drop_first() =~= b.drop_first().push(x));
    }
}

proof fn lemma_interleaving_with_empty<T>(b: Seq<T>)
    ensures
        is_interleaving(b, Seq::<T>::empty(), b),
    decreases b.len(),
{
    if b.len() > 0 {
        lemma_interleaving_with_empty(b.drop_first());
    }
}

proof fn lemma_interleaving_with_empty_right<T>(a: Seq<T>)
    ensures
        is_interleaving(a, a, Seq::<T>::empty()),
    decreases a.len(),
{
    if a.len() > 0 {
        lemma_interleaving_with_empty_right(a.drop_first());
    }
}

/// The first value of a merge of two lists, not both empty, is the head of
/// one of them.
proof fn lemma_merged_head<T: PartialOrd>(a: Seq<T>, b: Seq<T>)
    requires
        a.len() + b.len() > 0,
    ensures
        merged(a, b).len() > 0,
        (a.len() > 0 && merged(a, b)[0] == a[0]) || (b.len() > 0 && merged(a, b)[0] == b[0]),
{
    lemma_merged_interleaves(a, b);
}

/// Merging two non-decreasing sequences gives a non-decreasing sequence,
/// when `T`'s comparison is described by `partial_cmp_spec` and any two of
/// their values are comparable.
pub proof fn lemma_merged_sorted<T: PartialOrd>(a: Seq<T>, b: Seq<T>)
    requires
        T::obeys_partial_cmp_spec(),
        comparable_values(a, b),
        non_decreasing(a),
        non_decreasing(b),
    ensures
        non_decreasing(merged(a, b)),
    decreases a.len() + b.len(),
{
    let m = merged(a, b);
    if a.len() == 0 || b.len() == 0 {
    } else if le(a[0], b[0]) {
        let (a1, rest) = (a.drop_first(), merged(a.drop_first(), b));
        assert(non_decreasing(a1)) by {
            assert forall|i: int| 0 <= i < a1.len() - 1 implies le(#[trigger] a1[i], a1[i + 1]) by {
                assert(le(a[i + 1], a[i + 2]));
            }
        }
        assert forall|x: T| a1.contains(x) implies a.contains(x) by {
            let k = choose|k: int| 0 <= k < a1.len() && a1[k] == x;
            assert(a[k + 1] == x);
        }
        lemma_merged_sorted(a1, b);
        lemma_merged_head(a1, b);
        if a1.len() > 0 {
            assert(le(a[0], a[1]));
        }
        assert(m =~= seq![a[0]] + rest);
        assert forall|i: int| 0 <= i < m.len() - 1 implies le(#[trigger] m[i], m[i + 1]) by {
            if i > 0 {
                assert(m[i] == rest[i - 1] && m[i + 1] == rest[i]);
                assert(le(rest[i - 1], rest[(i - 1) + 1]));
            }
        }
    } else {
        let (b1, rest) = (b.drop_first(), merged(a, b.drop_first()));
        assert(non_decreasing(b1)) by {
            assert forall|i: int| 0 <= i < b1.len() - 1 implies le(#[trigger] b1[i], b1[i + 1]) by {
                assert(le(b[i + 1], b[i + 2]));
            }
        }
        assert forall|x: T| b1.contains(x) implies b.contains(x) by {
            let k = choose|k: int| 0 <= k < b1.len() && b1[k] == x;
            assert(b[k + 1] == x);
        }
        lemma_merged_sorted(a, b1);
        lemma_merged_head(a, b1);
        assert(a.contains(a[0]) && b.contains(b[0]));
        assert(le(b[0], a[0]));
        if b1.len() > 0 {
            assert(le(b[0], b[1]));
        }
        assert(m =~= seq![b[0]] + rest);
        assert forall|i: int| 0 <= i < m.len() - 1 implies le(#[trigger] m[i], m[i + 1]) by {
            if i > 0 {
                assert(m[i] == rest[i - 1] && m[i + 1] == rest[i]);
                assert(le(rest[i - 1], rest[(i - 1) + 1]));
            }
        }
    }
}

/// The merge holds exactly the values of `a` and `b`, with multiplicity.
pub proof fn lemma_merged_permutation<T: PartialOrd>(a: Seq<T>, b: Seq<T>)
    ensures
        merged(a, b).to_multiset() == a.to_multiset().add(b.to_multiset()),
    decreases a.len() + b.len(),
{
    broadcast use vstd::seq_lib::group_to_multiset_ensures;

    if a.len() == 0 {
        assert(a.to_multiset() =~= Multiset::empty());
        assert(b.to_multiset() =~= Multiset::empty().add(b.to_multiset()));
    } else if b.len() == 0 {
        assert(b.to_multiset() =~= Multiset::empty());
        assert(a.to_multiset() =~= a.to_multiset().add(Multiset::empty()));
    } else if le(a[0], b[0]) {
        lemma_merged_permutation(a.drop_first(), b);
        vstd::seq_lib::lemma_multiset_commutative(seq![a[0]], merged(a.drop_first(), b));
        assert(a =~= seq![a[0]] + a.drop_first());
        vstd::seq_lib::lemma_multiset_commutative(seq![a[0]], a.drop_first());
        assert(merged(a, b).to_multiset() =~= a.to_multiset().add(b.to_multiset()));
    } else {
        lemma_merged_permutation(a, b.drop_first());
        vstd::seq_lib::lemma_multiset_commutative(seq![b[0]], merged(a, b.drop_first()));
        assert(b =~= seq![b[0]] + b.drop_first());
        vstd::seq_lib::lemma_multiset_commutative(seq![b[0]], b.drop_first());
        assert(merged(a, b).to_multiset() =~= a.to_multiset().add(b.to_multiset()));
    }
}

/// Merging with an empty list, on either side, gives the other list unchanged.
pub proof fn lemma_merged_with_empty<T: PartialOrd>(l: Seq<T>)
    ensures
        merged(Seq::<T>::empty(), l) == l,
        merged(l, Seq::<T>::empty()) == l,
{
}

} // verus!
