//! A trie under construction is determined by the keys and values it
//! holds, and so is what a walk of it emits.

use crate::builder::TrieBuilder;
use crate::emission::{cells_of, emission_bits, nodes_of};
use crate::label::{lemma_cell_lt_irreflexive, lemma_cell_lt_transitive, TrieLabel};
use crate::layout::laid_out;
use crate::naive_trie::{get_in, lemma_find_at, lemma_find_some, wf_kids, NaiveTrie};
use crate::naive_trie_b_f_iter::{after_pop, lemma_weight_after_pop, level_order, queue_weight};
use crate::order::total_order;
use crate::trie::Trie;
use vstd::prelude::*;

verus! {

/// `a` and `b` are the same tree: nodes of the same kind with the same
/// cell and, child by child, the same trees below.
pub open spec fn same_tree<L, V>(a: NaiveTrie<L, V>, b: NaiveTrie<L, V>) -> bool
    decreases a,
{
    &&& a is Root <==> b is Root
    &&& a is PhantomSibling <==> b is PhantomSibling
    &&& a is IntermOrLeaf ==> a.cell() == b.cell()
    &&& a.kids().len() == b.kids().len()
    &&& forall|i: int| 0 <= i < a.kids().len() ==> same_tree(#[trigger] a.kids()[i], b.kids()[i])
}

/// Two lists hold, place by place, the same trees.
pub open spec fn same_trees<L, V>(a: Seq<NaiveTrie<L, V>>, b: Seq<NaiveTrie<L, V>>) -> bool {
    &&& a.len() == b.len()
    &&& forall|i: int| 0 <= i < a.len() ==> same_tree(#[trigger] a[i], b[i])
}

/// Below any of a list of well-formed siblings, some key is stored.
pub proof fn lemma_key_below_naive<L: Ord, V>(ks: Seq<NaiveTrie<L, V>>) -> (key: Seq<L>)
    requires
        total_order::<L>(),
        wf_kids(ks),
        ks.len() > 0,
    ensures
        get_in(ks, key) is Some,
        ks[0].cell() is Label ==> key.len() > 0 && ks[0].cell() == TrieLabel::<L, V>::Label(key[0]),
    decreases ks[0],
{
    match ks[0].cell() {
        TrieLabel::Value(_) => Seq::empty(),
        TrieLabel::Label(label) => {
            let below = ks[0].kids();
            let rest = lemma_key_below_naive(below);
            lemma_find_at(ks, 0, label);
            let key = seq![label] + rest;
            assert(key.drop_first() =~= rest);
            key
        },
    }
}

/// Each of a list of well-formed siblings that carries a label has a key
/// stored below it.
pub proof fn lemma_key_through_naive<L: Ord, V>(ks: Seq<NaiveTrie<L, V>>, i: int) -> (key: Seq<L>)
    requires
        total_order::<L>(),
        wf_kids(ks),
        0 <= i < ks.len(),
        ks[i].cell() is Label,
    ensures
        key.len() > 0,
        get_in(ks, key) is Some,
        ks[i].cell() == TrieLabel::<L, V>::Label(key[0]),
{
    let label = ks[i].cell()->Label_0;
    let below = ks[i].kids();
    let rest = lemma_key_below_naive(below);
    lemma_find_at(ks, i, label);
    let key = seq![label] + rest;
    assert(key.drop_first() =~= rest);
    key
}

/// Every cell of `a` is a cell of `b`, where both lists of siblings store
/// the same keys with the same values.
proof fn lemma_cell_shared<L: Ord, V>(a: Seq<NaiveTrie<L, V>>, b: Seq<NaiveTrie<L, V>>, i: int) -> (j: int)
    requires
        total_order::<L>(),
        wf_kids(a),
        wf_kids(b),
        forall|key: Seq<L>| #[trigger] get_in(a, key) == get_in(b, key),
        0 <= i < a.len(),
    ensures
        0 <= j < b.len(),
        b[j].cell() == a[i].cell(),
{
    match a[i].cell() {
        TrieLabel::Value(value) => {
            assert(get_in(a, Seq::<L>::empty()) == Some(value));
            0
        },
        TrieLabel::Label(label) => {
            let key = lemma_key_through_naive(a, i);
            assert(get_in(b, key) is Some);
            lemma_find_some(b, label)
        },
    }
}

/// Two lists of well-formed siblings that store the same keys with the
/// same values hold the same cells in the same places.
proof fn lemma_same_cells<L: Ord, V>(a: Seq<NaiveTrie<L, V>>, b: Seq<NaiveTrie<L, V>>, i: int)
    requires
        total_order::<L>(),
        wf_kids(a),
        wf_kids(b),
        forall|key: Seq<L>| #[trigger] get_in(a, key) == get_in(b, key),
        0 <= i < a.len(),
    ensures
        i < b.len(),
        a[i].cell() == b[i].cell(),
    decreases i,
{
    let j = lemma_cell_shared(a, b, i);
    if j < i {
        if j < a.len() {
            lemma_same_cells(a, b, j);
            lemma_cell_lt_irreflexive(a[i].cell());
        }
    } else if j > i {
        let k = lemma_cell_shared(b, a, i);
        if k < i {
            lemma_same_cells(a, b, k);
            lemma_cell_lt_irreflexive(b[i].cell());
        } else if k > i {
            lemma_cell_lt_transitive(a[i].cell(), a[k].cell(), b[j].cell());
            lemma_cell_lt_irreflexive(a[i].cell());
        }
    }
}

/// Two lists of well-formed siblings that store the same keys with the
/// same values hold the same trees.
pub proof fn lemma_canonical<L: Ord, V>(a: Seq<NaiveTrie<L, V>>, b: Seq<NaiveTrie<L, V>>)
    requires
        total_order::<L>(),
        wf_kids(a),
        wf_kids(b),
        forall|key: Seq<L>| #[trigger] get_in(a, key) == get_in(b, key),
    ensures
        same_trees(a, b),
    decreases a,
{
    if a.len() > b.len() {
        lemma_same_cells(a, b, a.len() - 1);
    }
    if b.len() > a.len() {
        lemma_same_cells(b, a, b.len() - 1);
    }
    assert forall|i: int| 0 <= i < a.len() implies same_tree(#[trigger] a[i], b[i]) by {
        lemma_same_cells(a, b, i);
        let below_a = a[i].kids();
        let below_b = b[i].kids();
        match a[i].cell() {
            TrieLabel::Value(_) => {},
            TrieLabel::Label(label) => {
                lemma_find_at(a, i, label);
                lemma_find_at(b, i, label);
                assert forall|key: Seq<L>| #[trigger] get_in(below_a, key) == get_in(below_b, key) by {
                    let longer = seq![label] + key;
                    assert(longer.drop_first() =~= key);
                    assert(get_in(a, longer) == get_in(below_a, key));
                }
            },
        }
        lemma_canonical(below_a, below_b);
    }
}

/// Walks of the same trees yield the same trees.
pub proof fn lemma_same_walk<L, V>(a: Seq<NaiveTrie<L, V>>, b: Seq<NaiveTrie<L, V>>)
    requires
        same_trees(a, b),
    ensures
        same_trees(level_order(a), level_order(b)),
    decreases queue_weight(a),
{
    if a.len() > 0 {
        lemma_weight_after_pop(a);
        let next_a = after_pop(a);
        let next_b = after_pop(b);
        lemma_same_walk(next_a, next_b);
    }
}

/// The nodes of the same trees are the same trees.
pub proof fn lemma_same_nodes<L, V>(a: Seq<NaiveTrie<L, V>>, b: Seq<NaiveTrie<L, V>>)
    requires
        same_trees(a, b),
    ensures
        same_trees(nodes_of(a), nodes_of(b)),
    decreases a.len(),
{
    if a.len() > 0 {
        lemma_same_nodes(a.drop_last(), b.drop_last());
    }
}

/// Two well-formed tries that store the same keys with the same values
/// emit the same bit string and the same cells.
pub proof fn lemma_same_emission<L: Ord, V>(a: NaiveTrie<L, V>, b: NaiveTrie<L, V>)
    requires
        a.wf(),
        b.wf(),
        a@ == b@,
    ensures
        emission_bits(level_order(seq![a])) == emission_bits(level_order(seq![b])),
        cells_of(nodes_of(level_order(seq![a]))) == cells_of(nodes_of(level_order(seq![b]))),
{
    assert forall|key: Seq<L>| #[trigger] get_in(a.kids(), key) == get_in(b.kids(), key) by {
        assert(a@.dom().contains(key) <==> a.get(key) is Some);
        if a.get(key) is Some {
            assert(a@[key] == a.get(key)->Some_0);
        }
    }
    lemma_canonical(a.kids(), b.kids());
    lemma_same_walk(seq![a], seq![b]);
    let walk_a = level_order(seq![a]);
    let walk_b = level_order(seq![b]);
    lemma_same_nodes(walk_a, walk_b);
    let nodes_a = nodes_of(walk_a);
    let nodes_b = nodes_of(walk_b);
    assert(cells_of(nodes_a) =~= cells_of(nodes_b)) by {
        assert forall|i: int| 0 <= i < nodes_a.len() - 1 implies cells_of(nodes_a)[i] == cells_of(nodes_b)[i] by {
            crate::emission::lemma_level_order(a);
        }
    }
}

/// Two builders that hold the same keys with the same values build tries
/// with the same bit string and the same cells.
pub proof fn lemma_build_deterministic<L: Ord, V>(
    first: TrieBuilder<L, V>,
    second: TrieBuilder<L, V>,
    first_trie: Trie<L, V>,
    second_trie: Trie<L, V>,
)
    requires
        first.wf(),
        second.wf(),
        first@ == second@,
        laid_out(first_trie, first.naive()),
        laid_out(second_trie, second.naive()),
    ensures
        first_trie.bits() == second_trie.bits(),
        first_trie.cells() == second_trie.cells(),
{
    lemma_same_emission(first.naive(), second.naive());
}

} // verus!
