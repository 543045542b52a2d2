//! How the succinct trie that a level-order walk lays out mirrors the trie
//! that was walked.

use crate::emission::{cells_of, child_index, degrees_of, emission_bits, lemma_level_order, nodes_of};
use crate::lbs::{lemma_children_of_emission, lemma_degree_sum_monotonic, lemma_emission_valid};
use crate::naive_trie::{find, lemma_find_some, NaiveTrie};
use crate::naive_trie_b_f_iter::level_order;
use crate::trie::Trie;
use vstd::prelude::*;

verus! {

/// The nodes of the trie below `root`, in level order.
pub open spec fn nodes_in_level_order<L, V>(root: NaiveTrie<L, V>) -> Seq<NaiveTrie<L, V>> {
    nodes_of(level_order(seq![root]))
}

/// `trie` holds what a level-order walk from `root` emits: its bit string,
/// and the cells of the nodes below the top in the order of the walk.
pub open spec fn laid_out<L: Ord, V>(trie: Trie<L, V>, root: NaiveTrie<L, V>) -> bool {
    &&& trie.bits() == emission_bits(level_order(seq![root]))
    &&& trie.cells() == cells_of(nodes_in_level_order(root))
}

/// Navigation in the succinct trie finds the children that the nodes had:
/// node `n` of a laid-out trie is the `n`-th node of the walk, its children
/// are as many as that node had, and child `j` is the node that was child
/// `j` there, with the same cell.
pub proof fn lemma_louds_sound<L: Ord, V>(trie: Trie<L, V>, root: NaiveTrie<L, V>, n: int)
    requires
        root.wf_node(),
        laid_out(trie, root),
        trie.node_count() < u64::MAX,
        trie.has_node(n),
    ensures
        trie.node_count() == nodes_in_level_order(root).len(),
        nodes_in_level_order(root)[0] == root,
        nodes_in_level_order(root)[n - 1].wf_node(),
        n >= 2 ==> nodes_in_level_order(root)[n - 1] is IntermOrLeaf && trie.cell_of(n) == nodes_in_level_order(root)[n - 1].cell(),
        trie.children_of(n).len() == nodes_in_level_order(root)[n - 1].kids().len(),
        forall|j: int|
            0 <= j < trie.children_of(n).len() ==> {
                let c = #[trigger] trie.children_of(n)[j];
                &&& n < c <= trie.node_count()
                &&& c == child_index(degrees_of(nodes_in_level_order(root)), n - 1, j) + 1
                &&& nodes_in_level_order(root)[c - 1] == nodes_in_level_order(root)[n - 1].kids()[j]
            },
{
    let stream = level_order(seq![root]);
    let nodes = nodes_of(stream);
    let degrees = degrees_of(nodes);
    lemma_level_order(root);
    assert(degrees.take(nodes.len() as int) =~= degrees);
    lemma_emission_valid(trie.bits(), degrees);
    lemma_children_of_emission(trie.bits(), degrees, n as nat);
    let cs = trie.children_of(n);
    assert forall|j: int| 0 <= j < cs.len() implies {
        let c = #[trigger] cs[j];
        &&& n < c <= trie.node_count()
        &&& c == child_index(degrees, n - 1, j) + 1
        &&& nodes[c - 1] == nodes[n - 1].kids()[j]
    } by {
        lemma_degree_sum_monotonic(degrees, n, nodes.len() as int);
    }
}

/// What a walk emits is the bit string of a tree.
pub proof fn lemma_emission_is_valid<L: Ord, V>(root: NaiveTrie<L, V>)
    requires
        root.wf_node(),
    ensures
        crate::lbs::valid_lbs(emission_bits(level_order(seq![root]))),
{
    let stream = level_order(seq![root]);
    let nodes = nodes_of(stream);
    let degrees = degrees_of(nodes);
    lemma_level_order(root);
    assert(degrees.take(nodes.len() as int) =~= degrees);
    lemma_emission_valid(emission_bits(stream), degrees);
}

/// A laid-out trie is well formed.
pub proof fn lemma_laid_out_wf<L: Ord, V>(trie: Trie<L, V>, root: NaiveTrie<L, V>)
    requires
        root.wf(),
        laid_out(trie, root),
        trie.node_count() < u64::MAX,
    ensures
        trie.wf(),
{
    let stream = level_order(seq![root]);
    let nodes = nodes_of(stream);
    let degrees = degrees_of(nodes);
    lemma_level_order(root);
    assert(degrees.take(nodes.len() as int) =~= degrees);
    lemma_emission_valid(trie.bits(), degrees);
    assert forall|n: int| trie.has_node(n) implies #[trigger] trie.wf_at(n) by {
        lemma_louds_sound(trie, root, n);
    }
    assert forall|m: int, n: int, i: int, j: int|
        trie.has_node(m) && trie.has_node(n) && 0 <= i < trie.children_of(m).len() && 0 <= j < trie.children_of(n).len()
            && #[trigger] trie.children_of(m)[i] == #[trigger] trie.children_of(n)[j] implies m == n && i == j by {
        lemma_louds_sound(trie, root, m);
        lemma_louds_sound(trie, root, n);
        if m < n {
            lemma_degree_sum_monotonic(degrees, m, n - 1);
        } else if n < m {
            lemma_degree_sum_monotonic(degrees, n, m - 1);
        }
    }
}

/// Below corresponding nodes, a laid-out trie stores for every key what the
/// walked trie stored.
pub proof fn lemma_laid_out_get<L: Ord, V>(trie: Trie<L, V>, root: NaiveTrie<L, V>, n: int, key: Seq<L>)
    requires
        root.wf(),
        laid_out(trie, root),
        trie.node_count() < u64::MAX,
        trie.has_node(n),
    ensures
        trie.get_from(n, key) == nodes_in_level_order(root)[n - 1].get(key),
    decreases key.len(),
{
    let nodes = nodes_in_level_order(root);
    lemma_louds_sound(trie, root, n);
    let cs = trie.children_of(n);
    let kids = nodes[n - 1].kids();
    if key.len() > 0 {
        let label = key[0];
        if find(kids, label) is Some {
            let i = lemma_find_some(kids, label);
            trie.lemma_find_child_at(n, i, label);
            lemma_laid_out_get(trie, root, cs[i] as int, key.drop_first());
        }
    }
}

/// A laid-out trie maps every key but the empty one to what the walked trie
/// mapped it to.
pub proof fn lemma_laid_out_view<L: Ord, V>(trie: Trie<L, V>, root: NaiveTrie<L, V>)
    requires
        root.wf(),
        laid_out(trie, root),
        trie.node_count() < u64::MAX,
    ensures
        trie@ == root@.remove(Seq::<L>::empty()),
        trie.holds_empty_key() <==> root@.dom().contains(Seq::<L>::empty()),
{
    lemma_louds_sound(trie, root, 1);
    lemma_laid_out_get(trie, root, 1, Seq::<L>::empty());
    assert(trie.descend(1, Seq::<L>::empty()) == Some(1int));
    assert(trie.get_from(1, Seq::<L>::empty()) == trie.value_below(1));
    assert(root@.dom().contains(Seq::<L>::empty()) <==> root.get(Seq::<L>::empty()) is Some);
    assert forall|key: Seq<L>| trie.get_from(1, key) == root.get(key) by {
        lemma_laid_out_get(trie, root, 1, key);
    }
    let rest = root@.remove(Seq::<L>::empty());
    assert forall|key: Seq<L>| #[trigger] trie@.dom().contains(key) == rest.dom().contains(key) by {
        if key.len() == 0 {
            assert(key =~= Seq::<L>::empty());
        }
    }
}

} // verus!
