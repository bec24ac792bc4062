use vstd::prelude::*;
use vstd::std_specs::cmp::PartialOrdSpec;

use crate::merging::{
    is_interleaving, lemma_interleaving_push_left, lemma_interleaving_push_right,
    lemma_merged_take_left, lemma_merged_take_right, merged,
};

verus! {

/// One element of the chain: a value and the arena index of its successor.
struct Node<T> {
    val: T,
    next: Option<usize>,
}

impl<T> Node<T> {
    fn new(t: T) -> (n: Node<T>)
        ensures
            n.val == t,
            n.next is None,
    {
        Node { val: t, next: None }
    }
}

/// A singly-linked list with tail append. Its nodes live in an arena and are
/// linked by index; `start` and `end` name the first and the last node.
pub struct LinkedList<T> {
    length: u32,
    nodes: Vec<Node<T>>,
    start: Option<usize>,
    end: Option<usize>,
}

impl<T> View for LinkedList<T> {
    type V = Seq<T>;

    /// The values of the chain, from `start` to `end`.
    closed spec fn view(&self) -> Seq<T> {
        self.nodes@.map_values(|n: Node<T>| n.val)
    }
}

impl<T> Default for LinkedList<T> {
    fn default() -> (r: Self)
        ensures
            r.wf(),
            r@ == Seq::<T>::empty(),
    {
        Self::new()
    }
}

impl<T> LinkedList<T> {
    /// The chain runs from `start` through the `next` links to `end`, visiting
    /// the arena in order; `length` counts its nodes.
    pub closed spec fn wf(&self) -> bool {
        let len = self.nodes@.len();
        &&& len == self.length as int
        &&& self.start == (if len == 0 { None } else { Some(0usize) })
        &&& self.end == (if len == 0 { None } else { Some((len - 1) as usize) })
        &&& forall|i: int|
            0 <= i < len ==> (#[trigger] self.nodes@[i]).next == (if i + 1 < len {
                Some((i + 1) as usize)
            } else {
                None
            })
    }

    /// An empty list.
    pub fn new() -> (r: Self)
        ensures
            r.wf(),
            r@ == Seq::<T>::empty(),
    {
        LinkedList { length: 0, nodes: Vec::new(), start: None, end: None }
    }

    /// The number of values in the list.
    pub fn length(&self) -> (r: u32)
        requires
            self.wf(),
        ensures
            r as int == self@.len(),
    {
        self.length
    }

    /// Appends `obj` after the last value.
    pub fn add(&mut self, obj: T)
        requires
            old(self).wf(),
            old(self)@.len() < u32::MAX,
        ensures
            final(self).wf(),
            final(self)@ == old(self)@.push(obj),
    {
        let node = Node::new(obj);
        let idx = self.nodes.len();
        match self.end {
            None => {
                self.start = Some(idx);
            },
            Some(last) => {
                self.nodes[last].next = Some(idx);
            },
        }
        self.nodes.push(node);
        self.end = Some(idx);
        self.length = self.length + 1;
        proof {
            assert(self@ =~= old(self)@.push(obj));
        }
    }

    /// The value at position `index`, or `None` when `index` is negative or
    /// not below the length. Walks the chain from `start`.
    pub fn get(&self, index: i32) -> (r: Option<&T>)
        requires
            self.wf(),
        ensures
            r == (if 0 <= index < self@.len() {
                Some(&self@[index as int])
            } else {
                None
            }),
    {
        self.get_ith_node(self.start, index)
    }

    /// Consumes both lists and moves their values, without copying them, into
    /// a new list: at each step the smaller head is taken, the head of
    /// `list_a` when the two compare less-or-equal. For element types whose
    /// comparison `partial_cmp_spec` describes, the result is `merged` of the
    /// two; in any case it interleaves the two, each in its own order.
    pub fn merge(list_a: LinkedList<T>, list_b: LinkedList<T>) -> (r: Self) where T: PartialOrd
        requires
            list_a.wf(),
            list_b.wf(),
            list_a@.len() + list_b@.len() <= u32::MAX,
        ensures
            r.wf(),
            r@.len() == list_a@.len() + list_b@.len(),
            r@.to_multiset() == list_a@.to_multiset().add(list_b@.to_multiset()),
            is_interleaving(r@, list_a@, list_b@),
            T::obeys_partial_cmp_spec() ==> r@ == merged(list_a@, list_b@),
    {
        broadcast use vstd::seq_lib::group_to_multiset_ensures;

        let ghost a = list_a@;
        let ghost b = list_b@;
        let mut new_list = LinkedList::new();
        let mut rest_a = list_a.into_values_reversed();
        let mut rest_b = list_b.into_values_reversed();
        let ghost mut ia: int = 0;
        let ghost mut ib: int = 0;
        proof {
            assert(a.subrange(0, a.len() as int) =~= a);
            assert(b.subrange(0, b.len() as int) =~= b);
            assert(new_list@ + merged(a, b) =~= merged(a, b));
            assert(a.subrange(0, 0) =~= Seq::<T>::empty());
            assert(b.subrange(0, 0) =~= Seq::<T>::empty());
        }
        while rest_a.len() > 0 || rest_b.len() > 0
            invariant
                new_list.wf(),
                a.len() + b.len() <= u32::MAX,
                0 <= ia <= a.len(),
                0 <= ib <= b.len(),
                rest_a@.len() == a.len() - ia,
                rest_b@.len() == b.len() - ib,
                forall|k: int| 0 <= k < rest_a@.len() ==> #[trigger] rest_a@[k] == a[a.len() - 1 - k],
                forall|k: int| 0 <= k < rest_b@.len() ==> #[trigger] rest_b@[k] == b[b.len() - 1 - k],
                new_list@.len() == ia + ib,
                is_interleaving(new_list@, a.subrange(0, ia), b.subrange(0, ib)),
                new_list@.to_multiset() == a.subrange(0, ia).to_multiset().add(
                    b.subrange(0, ib).to_multiset(),
                ),
                T::obeys_partial_cmp_spec() ==> new_list@ + merged(
                    a.subrange(ia, a.len() as int),
                    b.subrange(ib, b.len() as int),
                ) == merged(a, b),
            decreases rest_a@.len() + rest_b@.len(),
        {
            let ghost sa = a.subrange(ia, a.len() as int);
            let ghost sb = b.subrange(ib, b.len() as int);
            let ghost before = new_list@;
            let take_a = if rest_a.len() == 0 {
                false
            } else if rest_b.len() == 0 {
                true
            } else {
                rest_a[rest_a.len() - 1] <= rest_b[rest_b.len() - 1]
            };
            if take_a {
                let val = rest_a.pop().unwrap();
                new_list.add(val);
                proof {
                    assert(a.subrange(0, ia + 1) =~= a.subrange(0, ia).push(a[ia]));
                    assert(new_list@ =~= before.push(a[ia]));
                    lemma_interleaving_push_left(before, a.subrange(0, ia), b.subrange(0, ib), a[ia]);
                    vstd::seq_lib::to_multiset_build(before, a[ia]);
                    vstd::seq_lib::to_multiset_build(a.subrange(0, ia), a[ia]);
                    assert(new_list@.to_multiset() =~= a.subrange(0, ia + 1).to_multiset().add(
                        b.subrange(0, ib).to_multiset(),
                    ));
                    if T::obeys_partial_cmp_spec() {
                        lemma_merged_take_left(sa, sb);
                        assert(sa.drop_first() =~= a.subrange(ia + 1, a.len() as int));
                        assert(new_list@ + merged(sa.drop_first(), sb) =~= before + (seq![sa[0]]
                            + merged(sa.drop_first(), sb)));
                    }
                    ia = ia + 1;
                }
            } else {
                let val = rest_b.pop().unwrap();
                new_list.add(val);
                proof {
                    assert(b.subrange(0, ib + 1) =~= b.subrange(0, ib).push(b[ib]));
                    assert(new_list@ =~= before.push(b[ib]));
                    lemma_interleaving_push_right(before, a.subrange(0, ia), b.subrange(0, ib), b[ib]);
                    vstd::seq_lib::to_multiset_build(before, b[ib]);
                    vstd::seq_lib::to_multiset_build(b.subrange(0, ib), b[ib]);
                    assert(new_list@.to_multiset() =~= a.subrange(0, ia).to_multiset().add(
                        b.subrange(0, ib + 1).to_multiset(),
                    ));
                    if T::obeys_partial_cmp_spec() {
                        lemma_merged_take_right(sa, sb);
                        assert(sb.drop_first() =~= b.subrange(ib + 1, b.len() as int));
                        assert(new_list@ + merged(sa, sb.drop_first()) =~= before + (seq![sb[0]]
                            + merged(sa, sb.drop_first())));
                    }
                    ib = ib + 1;
                }
            }
        }
        proof {
            assert(a.subrange(0, ia) =~= a);
            assert(b.subrange(0, ib) =~= b);
            if T::obeys_partial_cmp_spec() {
                assert(a.subrange(ia, a.len() as int) =~= Seq::<T>::empty());
                assert(b.subrange(ib, b.len() as int) =~= Seq::<T>::empty());
                assert(new_list@ + Seq::<T>::empty() =~= new_list@);
            }
        }
        new_list
    }

    /// Takes the values out of the chain, last to first, dropping the nodes.
    fn into_values_reversed(self) -> (r: Vec<T>)
        requires
            self.wf(),
        ensures
            r@.len() == self@.len(),
            forall|k: int| 0 <= k < r@.len() ==> #[trigger] r@[k] == self@[self@.len() - 1 - k],
    {
        let ghost v = self@;
        let mut nodes = self.nodes;
        let mut r: Vec<T> = Vec::new();
        while nodes.len() > 0
            invariant
                nodes@.len() + r@.len() == v.len(),
                forall|i: int| 0 <= i < nodes@.len() ==> #[trigger] nodes@[i].val == v[i],
                forall|k: int| 0 <= k < r@.len() ==> #[trigger] r@[k] == v[v.len() - 1 - k],
            decreases nodes@.len(),
        {
            let node = nodes.pop().unwrap();
            r.push(node.val);
        }
        r
    }

    /// Follows `index` links from the node at `node`; `None` for a negative
    /// `index` or one that walks off the end.
    fn get_ith_node(&self, node: Option<usize>, index: i32) -> (r: Option<&T>)
        requires
            self.wf(),
            match node {
                Some(p) => p < self@.len(),
                None => true,
            },
        ensures
            r == (match node {
                Some(p) => if 0 <= index && p + index < self@.len() {
                    Some(&self@[p + index])
                } else {
                    None
                },
                None => None,
            }),
        decreases index,
    {
        if index < 0 {
            return None;
        }
        match node {
            None => None,
            Some(p) => {
                if index == 0 {
                    Some(&self.nodes[p].val)
                } else {
                    self.get_ith_node(self.nodes[p].next, index - 1)
                }
            },
        }
    }
}

} // verus!
