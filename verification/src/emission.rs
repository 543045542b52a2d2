//! What a level-order walk of a trie emits, and why the emitted bit string
//! is the LOUDS encoding of that trie.

use crate::label::TrieLabel;
use crate::lbs::{degree_sum, encodes, lemma_degree_sum_monotonic, lemma_degree_sum_prefix, lemma_encodes_append};
use crate::naive_trie::NaiveTrie;
use crate::naive_trie_b_f_iter::{after_pop, level_order, lemma_weight_after_pop, queue_weight};
use vstd::prelude::*;

verus! {

/// The nodes among `items`, in order: the sibling marks are left out.
pub open spec fn nodes_of<L, V>(items: Seq<NaiveTrie<L, V>>) -> Seq<NaiveTrie<L, V>>
    decreases items.len(),
{
    if items.len() == 0 {
        Seq::empty()
    } else if items.last() is PhantomSibling {
        nodes_of(items.drop_last())
    } else {
        nodes_of(items.drop_last()).push(items.last())
    }
}

/// The bit string emitted for a walk: `true, false` for the top, then for
/// each further item `true` if it is a node and `false` if it is a mark.
pub open spec fn emission_bits<L, V>(stream: Seq<NaiveTrie<L, V>>) -> Seq<bool> {
    Seq::new(
        if stream.len() == 0 {
            2
        } else {
            stream.len() + 1
        },
        |i: int|
            if i == 0 {
                true
            } else if i == 1 {
                false
            } else {
                !(stream[i - 1] is PhantomSibling)
            },
    )
}

/// The number of children of each node.
pub open spec fn degrees_of<L, V>(nodes: Seq<NaiveTrie<L, V>>) -> Seq<nat> {
    Seq::new(nodes.len(), |i: int| nodes[i].kids().len())
}

/// The cells of all nodes but the first, which is the top and has none.
pub open spec fn cells_of<L, V>(nodes: Seq<NaiveTrie<L, V>>) -> Seq<TrieLabel<L, V>> {
    Seq::new(
        if nodes.len() == 0 {
            0
        } else {
            (nodes.len() - 1) as nat
        },
        |i: int| nodes[i + 1].cell(),
    )
}

/// The place among all nodes, in level order, of child `j` of node `q`:
/// after the top and the children of all nodes before `q`. Among all items
/// it stands `q` places further on, after the marks of those nodes.
pub open spec fn child_index(degrees: Seq<nat>, q: int, j: int) -> int {
    1 + degree_sum(degrees, q) + j
}

/// The state of a walk of which `done` was yielded and `queue` waits: what
/// was ever enqueued is the top, then for each of the `p` nodes yielded so
/// far its children followed by one mark, and nothing else.
pub open spec fn walk_inv<L: Ord, V>(done: Seq<NaiveTrie<L, V>>, queue: Seq<NaiveTrie<L, V>>) -> bool {
    let all = done + queue;
    let nodes = nodes_of(all);
    let p = nodes_of(done).len() as int;
    let degrees = degrees_of(nodes).take(p);
    &&& all.len() > 0
    &&& !(all[0] is PhantomSibling)
    &&& p <= nodes.len()
    &&& encodes(emission_bits(all), degrees)
    &&& nodes.len() == 1 + degree_sum(degrees, p)
    &&& forall|q: int, j: int|
        0 <= q < p && 0 <= j < nodes[q].kids().len() ==> {
            &&& nodes[#[trigger] child_index(degrees, q, j)] == nodes[q].kids()[j]
            &&& all[child_index(degrees, q, j) + q] == nodes[q].kids()[j]
        }
    &&& forall|q: int| 0 <= q < p ==> q <= #[trigger] degree_sum(degrees, q)
    &&& forall|i: int| 0 <= i < nodes.len() ==> (#[trigger] nodes[i]).wf_node() && (i >= 1 ==> nodes[i] is IntermOrLeaf)
}

/// The nodes of two stretches joined are the nodes of each, joined.
pub proof fn lemma_nodes_of_add<L, V>(a: Seq<NaiveTrie<L, V>>, b: Seq<NaiveTrie<L, V>>)
    ensures
        nodes_of(a + b) == nodes_of(a) + nodes_of(b),
    decreases b.len(),
{
    if b.len() > 0 {
        lemma_nodes_of_add(a, b.drop_last());
        assert((a + b).drop_last() =~= a + b.drop_last());
    }
}

/// A stretch without marks consists of its nodes.
pub proof fn lemma_nodes_of_nodes<L, V>(items: Seq<NaiveTrie<L, V>>)
    requires
        forall|i: int| 0 <= i < items.len() ==> !((#[trigger] items[i]) is PhantomSibling),
    ensures
        nodes_of(items) == items,
    decreases items.len(),
{
    if items.len() > 0 {
        lemma_nodes_of_nodes(items.drop_last());
    }
}

/// A single item: itself if it is a node, nothing if it is a mark.
pub proof fn lemma_nodes_of_one<L, V>(item: NaiveTrie<L, V>)
    ensures
        nodes_of(seq![item]) == if item is PhantomSibling {
            Seq::<NaiveTrie<L, V>>::empty()
        } else {
            seq![item]
        },
{
    let s = seq![item];
    assert(nodes_of(s.drop_last()) =~= Seq::<NaiveTrie<L, V>>::empty());
}

/// There are at most as many nodes as items.
pub proof fn lemma_nodes_of_len<L, V>(items: Seq<NaiveTrie<L, V>>)
    ensures
        nodes_of(items).len() <= items.len(),
    decreases items.len(),
{
    if items.len() > 0 {
        lemma_nodes_of_len(items.drop_last());
    }
}

/// Yielding one more item keeps the state of a walk.
pub proof fn lemma_walk_step<L: Ord, V>(done: Seq<NaiveTrie<L, V>>, queue: Seq<NaiveTrie<L, V>>)
    requires
        walk_inv(done, queue),
        queue.len() > 0,
    ensures
        walk_inv(done.push(queue[0]), after_pop(queue)),
{
    let item = queue[0];
    let all = done + queue;
    let nodes = nodes_of(all);
    let p = nodes_of(done).len() as int;
    let degrees = degrees_of(nodes).take(p);
    let done2 = done.push(item);
    let queue2 = after_pop(queue);
    let all2 = done2 + queue2;
    let rest = queue.skip(1);
    assert(queue =~= seq![item] + rest);
    assert(done2 =~= done + seq![item]);
    lemma_nodes_of_add(done, queue);
    lemma_nodes_of_add(done, seq![item]);
    lemma_nodes_of_add(seq![item], rest);
    lemma_nodes_of_one(item);
    if item is PhantomSibling {
        assert(all2 =~= all);
    } else {
        let kids = item.kids();
        let d = kids.len();
        let mark = seq![NaiveTrie::<L, V>::PhantomSibling];
        assert(nodes[p] == item);
        assert(all2 =~= all + kids + mark);
        lemma_nodes_of_add(all + kids, mark);
        lemma_nodes_of_add(all, kids);
        lemma_nodes_of_one(NaiveTrie::<L, V>::PhantomSibling);
        lemma_nodes_of_nodes(kids);
        let nodes2 = nodes_of(all2);
        let degrees2 = degrees_of(nodes2).take(p + 1);
        assert(degrees2 =~= degrees.push(d));
        let bits = emission_bits(all);
        let bits2 = emission_bits(all2);
        lemma_encodes_append(bits, degrees, d, bits2);
        assert forall|q: int| 0 <= q <= p + 1 implies degree_sum(degrees2, q) == if q <= p {
            degree_sum(degrees, q)
        } else {
            degree_sum(degrees, p) + d
        } by {
            if q <= p {
                lemma_degree_sum_prefix(degrees, degrees2, q);
            }
        }
        assert forall|q: int, j: int| 0 <= q < p + 1 && 0 <= j < nodes2[q].kids().len() implies {
            &&& nodes2[#[trigger] child_index(degrees2, q, j)] == nodes2[q].kids()[j]
            &&& all2[child_index(degrees2, q, j) + q] == nodes2[q].kids()[j]
        } by {
            if q < p {
                lemma_degree_sum_monotonic(degrees, q + 1, p);
                assert(nodes[child_index(degrees, q, j)] == nodes[q].kids()[j]);
            }
        }
    }
}

/// The state of a walk holds to its end.
pub proof fn lemma_walk<L: Ord, V>(done: Seq<NaiveTrie<L, V>>, queue: Seq<NaiveTrie<L, V>>)
    requires
        walk_inv(done, queue),
    ensures
        walk_inv(done + level_order(queue), Seq::<NaiveTrie<L, V>>::empty()),
    decreases queue_weight(queue),
{
    if queue.len() > 0 {
        lemma_walk_step(done, queue);
        lemma_weight_after_pop(queue);
        lemma_walk(done.push(queue[0]), after_pop(queue));
        assert(done.push(queue[0]) + level_order(after_pop(queue)) =~= done + level_order(queue));
    }
}

/// The walk of a whole trie, summed up: `walk_inv` holds of everything it
/// yields, with nothing left waiting.
pub proof fn lemma_level_order<L: Ord, V>(root: NaiveTrie<L, V>)
    requires
        root.wf_node(),
    ensures
        walk_inv(level_order(seq![root]), Seq::<NaiveTrie<L, V>>::empty()),
        level_order(seq![root]).len() > 0,
        level_order(seq![root])[0] == root,
        nodes_of(level_order(seq![root]))[0] == root,
{
    let none = Seq::<NaiveTrie<L, V>>::empty();
    let queue = seq![root];
    lemma_nodes_of_one(root);
    lemma_walk(none, queue);
    lemma_nodes_of_add(seq![root], level_order(after_pop(queue)));
}

} // verus!
