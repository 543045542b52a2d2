//! Listing, one by one, the keys stored below a node.

use crate::label::TrieLabel;
use crate::trie::{entries_of, labels_of, lemma_prepend_all_twice, prepend_all, Trie};
use vstd::prelude::*;

verus! {

/// A node whose children are being visited.
struct Frame {
    node: u64,
    children: Vec<u64>,
    next: usize,
}

/// The nodes of the frames with the place of the child each visits next.
spec fn places(stack: Seq<Frame>) -> Seq<(int, int)> {
    Seq::new(stack.len(), |d: int| (stack[d].node as int, stack[d].next as int))
}

/// What a stack of nodes has yet to yield: from the top of the stack down,
/// what each node lists from its place on, behind the labels that lead to
/// the node.
pub open spec fn pending<L: Ord, V>(trie: Trie<L, V>, places: Seq<(int, int)>, path: Seq<L>, base: int) -> Seq<(Seq<L>, V)>
    decreases places.len(),
{
    if places.len() == 0 {
        Seq::empty()
    } else {
        let d = places.len() - 1;
        prepend_all(path.take(base + d), trie.entries_from(places[d].0, places[d].1)) + pending(
            trie,
            places.drop_last(),
            path,
            base,
        )
    }
}

/// How many steps it takes to visit the children of node `n` from place
/// `i` on, with all that is below them.
pub open spec fn work<L: Ord, V>(trie: Trie<L, V>, n: int, i: int) -> nat
    decreases trie.node_count() - n, trie.children_of(n).len() - i,
{
    let cs = trie.children_of(n);
    if !trie.has_node(n) || i < 0 || i >= cs.len() {
        1
    } else {
        let c = cs[i] as int;
        1 + (if n < c <= trie.node_count() && trie.cell_of(c) is Label {
            work(trie, c, 0)
        } else {
            0
        }) + work(trie, n, i + 1)
    }
}

/// The steps that a stack of nodes still takes.
pub open spec fn total_work<L: Ord, V>(trie: Trie<L, V>, places: Seq<(int, int)>) -> nat
    decreases places.len(),
{
    if places.len() == 0 {
        0
    } else {
        work(trie, places.last().0, places.last().1) + total_work(trie, places.drop_last())
    }
}

/// What is pending does not depend on the labels beyond the top of the stack.
pub proof fn lemma_pending_path<L: Ord, V>(trie: Trie<L, V>, places: Seq<(int, int)>, path: Seq<L>, other: Seq<L>, base: int)
    requires
        0 <= base,
        base + places.len() - 1 <= path.len(),
        base + places.len() - 1 <= other.len(),
        path.take(base + places.len() - 1) == other.take(base + places.len() - 1),
    ensures
        pending(trie, places, path, base) == pending(trie, places, other, base),
    decreases places.len(),
{
    if places.len() > 0 {
        let d = places.len() - 1;
        if d > 0 {
            assert(path.take(base + d - 1) =~= path.take(base + d).take(base + d - 1));
            assert(other.take(base + d - 1) =~= other.take(base + d).take(base + d - 1));
            lemma_pending_path(trie, places.drop_last(), path, other, base);
        }
    }
}

/// Lists the keys stored below a node, one by one and in order, each
/// behind a fixed prefix and with its value.
pub struct PostfixIter<'a, Label, Value> {
    trie: &'a Trie<Label, Value>,
    stack: Vec<Frame>,
    path: Vec<&'a Label>,
    base: usize,
}

impl<'a, L: Ord, V> PostfixIter<'a, L, V> {
    /// The trie that is searched.
    pub closed spec fn trie(&self) -> Trie<L, V> {
        *self.trie
    }

    /// What is yet to be yielded, in order.
    pub closed spec fn remaining(&self) -> Seq<(Seq<L>, V)> {
        pending(*self.trie, places(self.stack@), labels_of(self.path@), self.base as int)
    }

    /// The trie is well formed and the stack describes a walk in it.
    pub closed spec fn wf(&self) -> bool {
        &&& self.trie.wf()
        &&& self.path@.len() == self.base + if self.stack@.len() == 0 {
            0
        } else {
            self.stack@.len() - 1
        }
        &&& forall|d: int|
            0 <= d < self.stack@.len() ==> {
                &&& self.trie.has_node((#[trigger] self.stack@[d]).node as int)
                &&& self.stack@[d].children@ == self.trie.children_of(self.stack@[d].node as int)
            }
    }

    /// A listing that yields nothing.
    pub(crate) fn empty(trie: &'a Trie<L, V>) -> (r: Self)
        requires
            trie.wf(),
        ensures
            r.wf(),
            r.trie() == *trie,
            r.remaining() == Seq::<(Seq<L>, V)>::empty(),
    {
        PostfixIter { trie, stack: Vec::new(), path: Vec::new(), base: 0 }
    }

    /// A listing of what `entries_from` lists for a node and a place, with
    /// the labels of `prefix` in front of each key.
    pub(crate) fn new(trie: &'a Trie<L, V>, node_num: u64, from: usize, prefix: Vec<&'a L>) -> (r: Self)
        requires
            trie.wf(),
            trie.has_node(node_num as int),
        ensures
            r.wf(),
            r.trie() == *trie,
            r.remaining() == prepend_all(labels_of(prefix@), trie.entries_from(node_num as int, from as int)),
    {
        let children = trie.children_node_nums(node_num);
        let mut stack: Vec<Frame> = Vec::new();
        stack.push(Frame { node: node_num, children, next: from });
        let base = prefix.len();
        let r = PostfixIter { trie, stack, path: prefix, base };
        proof {
            let ps = places(r.stack@);
            let path = labels_of(prefix@);
            assert(pending(*trie, ps.drop_last(), path, base as int) =~= Seq::<(Seq<L>, V)>::empty());
            assert(path.take(base as int) =~= path);
        }
        r
    }

    /// The next key with its value, if there is one left.
    pub fn next(&mut self) -> (r: Option<(Vec<&'a L>, &'a V)>)
        requires
            old(self).wf(),
        ensures
            final(self).wf(),
            final(self).trie() == old(self).trie(),
            match r {
                Some(entry) => {
                    &&& old(self).remaining().len() > 0
                    &&& (labels_of(entry.0@), *entry.1) == old(self).remaining()[0]
                    &&& final(self).remaining() == old(self).remaining().skip(1)
                },
                None => old(self).remaining().len() == 0 && final(self).remaining().len() == 0,
            },
    {
        let trie: &'a Trie<L, V> = self.trie;
        loop
            invariant
                self.wf(),
                self.trie == trie,
                self.trie() == old(self).trie(),
                self.remaining() == old(self).remaining(),
            decreases total_work(*trie, places(self.stack@)),
        {
            let depth = self.stack.len();
            if depth == 0 {
                return None;
            }
            let ghost before = places(self.stack@);
            let ghost path = labels_of(self.path@);
            let ghost base = self.base as int;
            let ghost d = depth - 1;
            let frame = self.stack.pop().unwrap();
            let ghost below = places(self.stack@);
            let ghost n = frame.node as int;
            let ghost i = frame.next as int;
            proof {
                assert(below =~= before.drop_last());
                assert(trie.wf_at(n));
                assert(path.take(base + d) =~= path);
            }
            if frame.next >= frame.children.len() {
                if self.stack.len() > 0 {
                    self.path.pop();
                    proof {
                        let shorter = labels_of(self.path@);
                        assert(shorter.take(base + below.len() - 1) =~= path.take(base + below.len() - 1));
                        lemma_pending_path(*trie, below, path, shorter, base);
                    }
                }
                continue ;
            }
            let child = frame.children[frame.next];
            let node = frame.node;
            let children = frame.children;
            let next = frame.next + 1;
            self.stack.push(Frame { node, children, next });
            let ghost after = places(self.stack@);
            proof {
                assert(after.drop_last() =~= below);
            }
            match trie.trie_label(child) {
                TrieLabel::Value(v) => {
                    let found = (self.path.clone(), v);
                    return Some(found);
                },
                TrieLabel::Label(label) => {
                    self.path.push(label);
                    let grandchildren = trie.children_node_nums(child);
                    self.stack.push(Frame { node: child, children: grandchildren, next: 0 });
                    proof {
                        let longer = labels_of(self.path@);
                        let top = places(self.stack@);
                        let below_child = trie.entries_from(child as int, 0);
                        assert(longer =~= path + seq![*label]);
                        assert(top.drop_last() =~= after);
                        lemma_prepend_all_twice(path, seq![*label], below_child);
                        assert(longer.take(base + d) =~= path.take(base + d));
                        lemma_pending_path(*trie, after, path, longer, base);
                        assert(longer.take(base + d + 1) =~= longer);
                        assert(total_work(*trie, after) == work(*trie, n, i + 1) + total_work(*trie, below));
                    }
                },
            }
        }
    }

    /// All that is left, in order.
    pub fn collect(self) -> (r: Vec<(Vec<&'a L>, &'a V)>)
        requires
            self.wf(),
        ensures
            entries_of(r@) == self.remaining(),
    {
        let ghost all = self.remaining();
        let mut rest = self;
        let mut found: Vec<(Vec<&'a L>, &'a V)> = Vec::new();
        loop
            invariant
                rest.wf(),
                entries_of(found@) + rest.remaining() == all,
            ensures
                entries_of(found@) == all,
            decreases rest.remaining().len(),
        {
            match rest.next() {
                Some(entry) => {
                    found.push(entry);
                },
                None => {
                    break ;
                },
            }
        }
        found
    }
}

} // verus!
