//! Walking a trie level by level, closing each list of siblings with a mark.

use crate::naive_trie::NaiveTrie;
use std::collections::VecDeque;
use vstd::prelude::*;

verus! {

/// How much walking an item still causes: a mark is yielded once, a node is
/// yielded, and then its children and the mark after them.
pub open spec fn weight<L, V>(item: NaiveTrie<L, V>) -> nat
    decreases item,
{
    match item {
        NaiveTrie::PhantomSibling => 1,
        _ => 2 + queue_weight(item.kids()),
    }
}

/// The weights of the items of a queue, summed.
pub open spec fn queue_weight<L, V>(queue: Seq<NaiveTrie<L, V>>) -> nat
    decreases queue,
{
    if queue.len() == 0 {
        0
    } else {
        queue_weight(queue.drop_last()) + weight(queue.last())
    }
}

/// The queue after its first item was taken out: a node leaves its
/// children and one mark at the back.
pub open spec fn after_pop<L, V>(queue: Seq<NaiveTrie<L, V>>) -> Seq<NaiveTrie<L, V>> {
    if queue[0] is PhantomSibling {
        queue.skip(1)
    } else {
        queue.skip(1) + queue[0].kids() + seq![NaiveTrie::PhantomSibling]
    }
}

/// Everything that walking yields from a queue on, in order.
pub open spec fn level_order<L, V>(queue: Seq<NaiveTrie<L, V>>) -> Seq<NaiveTrie<L, V>>
    decreases queue_weight(queue),
    via level_order_decreases::<L, V>
{
    if queue.len() == 0 {
        Seq::empty()
    } else {
        seq![queue[0]] + level_order(after_pop(queue))
    }
}

#[via_fn]
proof fn level_order_decreases<L, V>(queue: Seq<NaiveTrie<L, V>>) {
    if queue.len() > 0 {
        lemma_weight_after_pop(queue);
    }
}

/// The weight of two queues joined is the sum of their weights.
pub proof fn lemma_queue_weight_add<L, V>(a: Seq<NaiveTrie<L, V>>, b: Seq<NaiveTrie<L, V>>)
    ensures
        queue_weight(a + b) == queue_weight(a) + queue_weight(b),
    decreases b.len(),
{
    if b.len() > 0 {
        lemma_queue_weight_add(a, b.drop_last());
        assert((a + b).drop_last() =~= a + b.drop_last());
    }
}

/// The weight of a queue of one item is the weight of the item.
pub proof fn lemma_queue_weight_one<L, V>(item: NaiveTrie<L, V>)
    ensures
        queue_weight(seq![item]) == weight(item),
{
    let queue = seq![item];
    assert(queue.drop_last() =~= Seq::<NaiveTrie<L, V>>::empty());
    assert(queue_weight(Seq::<NaiveTrie<L, V>>::empty()) == 0);
}

/// Taking an item out of the queue lowers the weight by one.
pub proof fn lemma_weight_after_pop<L, V>(queue: Seq<NaiveTrie<L, V>>)
    requires
        queue.len() > 0,
    ensures
        queue_weight(after_pop(queue)) + 1 == queue_weight(queue),
{
    let rest = queue.skip(1);
    assert(queue =~= seq![queue[0]] + rest);
    lemma_queue_weight_add(seq![queue[0]], rest);
    lemma_queue_weight_one(queue[0]);
    if !(queue[0] is PhantomSibling) {
        let mark = seq![NaiveTrie::<L, V>::PhantomSibling];
        lemma_queue_weight_one(NaiveTrie::<L, V>::PhantomSibling);
        lemma_queue_weight_add(rest, queue[0].kids());
        lemma_queue_weight_add(rest + queue[0].kids(), mark);
    }
}

/// Iterates over a trie level by level.
///
/// Each node is followed, later in the walk, by its children and then a
/// `PhantomSibling`; nodes are handed out without their children.
#[derive(Debug)]
pub struct NaiveTrieBFIter<Label, Value> {
    unvisited: VecDeque<NaiveTrie<Label, Value>>,
}

impl<L, V> View for NaiveTrieBFIter<L, V> {
    type V = Seq<NaiveTrie<L, V>>;

    /// The items waiting to be yielded, with their children still in them.
    closed spec fn view(&self) -> Seq<NaiveTrie<L, V>> {
        self.unvisited@
    }
}

/// `bare` is `item` with its children taken out.
pub open spec fn stripped<L, V>(item: NaiveTrie<L, V>, bare: NaiveTrie<L, V>) -> bool {
    &&& bare.kids() == Seq::<NaiveTrie<L, V>>::empty()
    &&& bare is Root <==> item is Root
    &&& bare is IntermOrLeaf <==> item is IntermOrLeaf
    &&& bare is IntermOrLeaf ==> bare.cell() == item.cell()
}

impl<L: Ord, V> NaiveTrieBFIter<L, V> {
    /// A walk that starts at `iter_start`.
    pub fn new(iter_start: NaiveTrie<L, V>) -> (r: Self)
        ensures
            r@ == seq![iter_start],
    {
        let mut unvisited = VecDeque::new();
        unvisited.push_back(iter_start);
        Self { unvisited }
    }

    /// The next item of the walk: `None` once everything was yielded, else
    /// the first waiting item, stripped of the children that now wait in its
    /// place.
    pub fn next(&mut self) -> (r: Option<NaiveTrie<L, V>>)
        ensures
            old(self)@.len() == 0 ==> r is None && final(self)@ == old(self)@,
            old(self)@.len() > 0 ==> r is Some && stripped(old(self)@[0], r->Some_0) && final(self)@ == after_pop(
                old(self)@,
            ),
    {
        match self.unvisited.pop_front() {
            None => None,
            Some(mut trie) => {
                let ghost rest = self.unvisited@;
                match trie {
                    NaiveTrie::PhantomSibling => {},
                    _ => {
                        let children = trie.drain_children();
                        let ghost kids = children@;
                        for child in it: children
                            invariant
                                it.seq() == kids,
                                self.unvisited@ == rest + kids.take(it.index()),
                        {
                            self.unvisited.push_back(child);
                        }
                        self.unvisited.push_back(NaiveTrie::PhantomSibling);
                    },
                }
                Some(trie)
            },
        }
    }
}

} // verus!
