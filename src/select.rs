//! Lazy filtering of node sequences by a selector list, from the front, from
//! the back, or both.

use vstd::prelude::*;
use crate::chars::CaseSensitivity;
use crate::selector::{list_matches, SelectorView, Selectors};
use crate::tree::{NodeData, Tree};

verus! {

/// Node `n` matches the selector list, names compared exactly.
pub open spec fn node_matches(t: Seq<NodeData>, l: Seq<SelectorView>, n: usize) -> bool {
    list_matches(t, l, n as int, CaseSensitivity::CaseSensitive)
}

/// The nodes of `s` that match the list, in the order of `s`.
pub open spec fn filtered(t: Seq<NodeData>, l: Seq<SelectorView>, s: Seq<usize>) -> Seq<usize>
    decreases s.len(),
{
    if s.len() == 0 {
        s
    } else if node_matches(t, l, s[0]) {
        seq![s[0]] + filtered(t, l, s.drop_first())
    } else {
        filtered(t, l, s.drop_first())
    }
}

/// Filtering a concatenation filters each part.
pub proof fn lemma_filtered_append(
    t: Seq<NodeData>,
    l: Seq<SelectorView>,
    a: Seq<usize>,
    b: Seq<usize>,
)
    ensures
        filtered(t, l, a + b) == filtered(t, l, a) + filtered(t, l, b),
    decreases a.len(),
{
    if a.len() == 0 {
        assert(a + b =~= b);
        assert(filtered(t, l, a) + filtered(t, l, b) =~= filtered(t, l, b));
    } else {
        assert((a + b).drop_first() =~= a.drop_first() + b);
        lemma_filtered_append(t, l, a.drop_first(), b);
        assert((a + b)[0] == a[0]);
        if node_matches(t, l, a[0]) {
            assert(seq![a[0]] + (filtered(t, l, a.drop_first()) + filtered(t, l, b)) =~= (seq![a[0]]
                + filtered(t, l, a.drop_first())) + filtered(t, l, b));
        }
    }
}

/// Filtering a sequence with one more node at its end.
pub proof fn lemma_filtered_push(t: Seq<NodeData>, l: Seq<SelectorView>, s: Seq<usize>, x: usize)
    ensures
        filtered(t, l, s.push(x)) == if node_matches(t, l, x) {
            filtered(t, l, s).push(x)
        } else {
            filtered(t, l, s)
        },
{
    lemma_filtered_append(t, l, s, seq![x]);
    assert(s.push(x) =~= s + seq![x]);
    assert(seq![x].drop_first() =~= Seq::<usize>::empty());
    assert(filtered(t, l, Seq::<usize>::empty()) == Seq::<usize>::empty());
    assert(seq![x][0] == x);
    if node_matches(t, l, x) {
        assert(filtered(t, l, seq![x]) =~= seq![x]);
    } else {
        assert(filtered(t, l, seq![x]) =~= Seq::<usize>::empty());
    }
}

/// A filter in progress over a node sequence: the nodes between `front` and
/// `back` have not been pulled yet.
pub struct Select<'a> {
    tree: &'a Tree,
    selectors: &'a Selectors,
    nodes: Vec<usize>,
    front: usize,
    back: usize,
}

impl<'a> Select<'a> {
    /// The nodes not pulled yet.
    pub closed spec fn remaining(&self) -> Seq<usize> {
        self.nodes@.subrange(self.front as int, self.back as int)
    }

    /// The document the nodes belong to.
    pub closed spec fn tree_view(&self) -> Seq<NodeData> {
        self.tree@
    }

    /// The selector list that nodes are held to.
    pub closed spec fn list_view(&self) -> Seq<SelectorView> {
        self.selectors@
    }

    /// The nodes still to come, once filtered.
    pub open spec fn pending(&self) -> Seq<usize> {
        filtered(self.tree_view(), self.list_view(), self.remaining())
    }

    pub closed spec fn wf(&self) -> bool {
        self.front <= self.back <= self.nodes@.len() && self.tree.wf()
    }

    /// Pulls the next matching node from the front.
    pub fn next(&mut self) -> (r: Option<usize>)
        requires
            old(self).wf(),
        ensures
            final(self).wf(),
            final(self).tree_view() == old(self).tree_view(),
            final(self).list_view() == old(self).list_view(),
            old(self).pending().len() == 0 ==> r is None && final(self).remaining().len() == 0,
            old(self).pending().len() > 0 ==> r == Some(old(self).pending()[0])
                && final(self).pending() == old(self).pending().drop_first(),
            r is Some ==> final(self).remaining().len() < old(self).remaining().len(),
            final(self).remaining() == old(self).remaining().subrange(
                old(self).remaining().len() - final(self).remaining().len(),
                old(self).remaining().len() as int,
            ),
    {
        let ghost t = self.tree@;
        let ghost l = self.selectors@;
        let ghost start = self.front;
        let ghost target = self.pending();
        while self.front < self.back
            invariant
                self.wf(),
                self.tree@ == t,
                self.selectors@ == l,
                t == old(self).tree@,
                l == old(self).selectors@,
                self.nodes@ == old(self).nodes@,
                self.back == old(self).back,
                start == old(self).front,
                start <= self.front,
                target == old(self).pending(),
                target == filtered(t, l, self.remaining()),
            decreases self.back - self.front,
        {
            let n = self.nodes[self.front];
            assert(self.remaining()[0] == n);
            assert(self.remaining().drop_first() =~= self.nodes@.subrange(
                self.front + 1,
                self.back as int,
            ));
            let m = n < self.tree.len() && self.selectors.matches(self.tree, n);
            assert(m == node_matches(t, l, n));
            self.front = self.front + 1;
            if m {
                assert(self.remaining() =~= old(self).remaining().subrange(
                    old(self).remaining().len() - self.remaining().len(),
                    old(self).remaining().len() as int,
                ));
                assert(seq![n] + self.pending() == target);
                assert((seq![n] + self.pending()).drop_first() =~= self.pending());
                return Some(n);
            }
        }
        assert(self.remaining() =~= Seq::<usize>::empty());
        assert(self.remaining() =~= old(self).remaining().subrange(
            old(self).remaining().len() - self.remaining().len(),
            old(self).remaining().len() as int,
        ));
        None
    }

    /// Pulls the next matching node from the back.
    pub fn next_back(&mut self) -> (r: Option<usize>)
        requires
            old(self).wf(),
        ensures
            final(self).wf(),
            final(self).tree_view() == old(self).tree_view(),
            final(self).list_view() == old(self).list_view(),
            old(self).pending().len() == 0 ==> r is None && final(self).remaining().len() == 0,
            old(self).pending().len() > 0 ==> r == Some(old(self).pending().last())
                && final(self).pending() == old(self).pending().drop_last(),
            r is Some ==> final(self).remaining().len() < old(self).remaining().len(),
            final(self).remaining() == old(self).remaining().subrange(
                0,
                final(self).remaining().len() as int,
            ),
    {
        let ghost t = self.tree@;
        let ghost l = self.selectors@;
        let ghost target = self.pending();
        while self.front < self.back
            invariant
                self.wf(),
                self.tree@ == t,
                self.selectors@ == l,
                t == old(self).tree@,
                l == old(self).selectors@,
                self.nodes@ == old(self).nodes@,
                self.front == old(self).front,
                self.back <= old(self).back,
                old(self).wf(),
                target == old(self).pending(),
                target == filtered(t, l, self.remaining()),
            decreases self.back - self.front,
        {
            let n = self.nodes[self.back - 1];
            let ghost rem = self.remaining();
            assert(rem =~= self.nodes@.subrange(self.front as int, self.back - 1).push(n));
            proof {
                lemma_filtered_push(t, l, self.nodes@.subrange(self.front as int, self.back - 1), n);
            }
            let m = n < self.tree.len() && self.selectors.matches(self.tree, n);
            assert(m == node_matches(t, l, n));
            self.back = self.back - 1;
            if m {
                assert(self.remaining() =~= old(self).remaining().subrange(
                    0,
                    self.remaining().len() as int,
                ));
                assert(target == self.pending().push(n));
                assert(self.pending().push(n).drop_last() =~= self.pending());
                return Some(n);
            }
        }
        assert(self.remaining() =~= Seq::<usize>::empty());
        assert(self.remaining() =~= old(self).remaining().subrange(
            0,
            self.remaining().len() as int,
        ));
        None
    }
}

impl<'a> Select<'a> {
    /// Pulls every remaining match from the front, in order.
    pub fn collect_rest(&mut self) -> (r: Vec<usize>)
        requires
            old(self).wf(),
        ensures
            final(self).wf(),
            r@ == old(self).pending(),
            final(self).remaining().len() == 0,
    {
        let mut r: Vec<usize> = Vec::new();
        loop
            invariant
                self.wf(),
                self.tree_view() == old(self).tree_view(),
                self.list_view() == old(self).list_view(),
                r@ + self.pending() == old(self).pending(),
            decreases self.remaining().len(),
        {
            let ghost before = self.pending();
            match self.next() {
                Some(n) => {
                    let ghost prev = r@;
                    r.push(n);
                    assert(before == seq![n] + self.pending()) by {
                        assert(before =~= seq![before[0]] + before.drop_first());
                    }
                    assert(r@ + self.pending() =~= prev + before);
                },
                None => {
                    assert(self.pending() =~= Seq::<usize>::empty()) by {
                        assert(filtered(self.tree_view(), self.list_view(), self.remaining())
                            == self.remaining());
                    }
                    assert(r@ =~= r@ + self.pending());
                    return r;
                },
            }
        }
    }

    /// Pulls every remaining match from the back: the matches in reverse order.
    pub fn collect_rev(&mut self) -> (r: Vec<usize>)
        requires
            old(self).wf(),
        ensures
            final(self).wf(),
            r@ == old(self).pending().reverse(),
            final(self).remaining().len() == 0,
    {
        let mut r: Vec<usize> = Vec::new();
        loop
            invariant
                self.wf(),
                self.tree_view() == old(self).tree_view(),
                self.list_view() == old(self).list_view(),
                self.pending() + r@.reverse() == old(self).pending(),
            decreases self.remaining().len(),
        {
            let ghost before = self.pending();
            match self.next_back() {
                Some(n) => {
                    let ghost prev = r@;
                    r.push(n);
                    assert(before == self.pending().push(n)) by {
                        assert(before =~= before.drop_last().push(before.last()));
                    }
                    assert(r@.reverse() =~= seq![n] + prev.reverse());
                    assert(self.pending() + r@.reverse() =~= before + prev.reverse());
                },
                None => {
                    assert(self.pending() =~= Seq::<usize>::empty()) by {
                        assert(filtered(self.tree_view(), self.list_view(), self.remaining())
                            == self.remaining());
                    }
                    assert(r@.reverse() =~= self.pending() + r@.reverse());
                    assert(r@ =~= r@.reverse().reverse());
                    return r;
                },
            }
        }
    }
}

impl Selectors {
    /// Filters `nodes`, lazily, by this selector list.
    pub fn filter<'a>(&'a self, tree: &'a Tree, nodes: Vec<usize>) -> (r: Select<'a>)
        requires
            tree.wf(),
        ensures
            r.wf(),
            r.tree_view() == tree@,
            r.list_view() == self@,
            r.remaining() == nodes@,
    {
        let back = nodes.len();
        let r = Select { tree, selectors: self, nodes, front: 0, back };
        assert(r.remaining() =~= nodes@);
        r
    }
}

} // verus!
