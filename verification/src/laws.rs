//! What holds of the trie as a whole, across its operations.

use crate::builder::map_of;
use crate::emission::{child_index, degrees_of, emission_bits, lemma_level_order, nodes_of};
use crate::inc_search::answer_for;
use crate::label::cell_lt;
use crate::lbs::{block_end, lemma_block_inside};
use crate::naive_trie::NaiveTrie;
use crate::naive_trie_b_f_iter::level_order;
use crate::trie::{is_prefix_of, Trie};
use vstd::prelude::*;

verus! {

/// A trie built from a list of entries maps each key that is not empty to
/// the value that the list holds last for it.
pub proof fn lemma_round_trip<L: Ord, V>(trie: Trie<L, V>, entries: Seq<(Vec<L>, V)>, i: int)
    requires
        trie@ == map_of(entries).remove(Seq::<L>::empty()),
        0 <= i < entries.len(),
        entries[i].0@.len() > 0,
        forall|j: int| i < j < entries.len() ==> (#[trigger] entries[j]).0@ != entries[i].0@,
    ensures
        trie@.contains_pair(entries[i].0@, entries[i].1),
{
    lemma_last_entry_stays(entries, i);
}

/// In the map of a list of entries, a key has the value of its last entry.
pub proof fn lemma_last_entry_stays<L, V>(entries: Seq<(Vec<L>, V)>, i: int)
    requires
        0 <= i < entries.len(),
        forall|j: int| i < j < entries.len() ==> (#[trigger] entries[j]).0@ != entries[i].0@,
    ensures
        map_of(entries).contains_pair(entries[i].0@, entries[i].1),
    decreases entries.len(),
{
    if i < entries.len() - 1 {
        let front = entries.drop_last();
        lemma_last_entry_stays(front, i);
    }
}

/// Every proper prefix of a stored key has an extension among the stored
/// keys: `is_prefix` holds of it.
pub proof fn lemma_prefix_closure<L: Ord, V>(trie: Trie<L, V>, key: Seq<L>, prefix: Seq<L>)
    requires
        trie@.dom().contains(key),
        is_prefix_of(prefix, key),
        prefix.len() < key.len(),
    ensures
        trie.has_extension(prefix),
{
}

/// An answer says of a key exactly what `exact_match` and `is_prefix` say
/// of it: it tells a match where the key is stored, a prefix where a stored
/// key goes on from it, and there is no answer where neither holds.
pub proof fn lemma_answer_matches<L: Ord, V>(trie: Trie<L, V>, key: Seq<L>)
    ensures
        match answer_for(trie, key) {
            Some(answer) => {
                &&& (answer is Match || answer is PrefixAndMatch) <==> trie@.dom().contains(key)
                &&& (answer is Prefix || answer is PrefixAndMatch) <==> trie.has_extension(key)
            },
            None => !trie@.dom().contains(key) && !trie.has_extension(key),
        },
{
}

/// In a walk of a trie there are as many sibling marks as nodes; the
/// children of each node stand together, in their order, and the item after
/// the last of them is a mark.
pub proof fn lemma_sibling_marks<L: Ord, V>(root: NaiveTrie<L, V>)
    requires
        root.wf_node(),
    ensures
        ({
            let stream = level_order(seq![root]);
            let nodes = nodes_of(stream);
            let degrees = degrees_of(nodes);
            &&& stream.len() - nodes.len() == nodes.len()
            &&& forall|q: int, j: int|
                0 <= q < nodes.len() && 0 <= j < nodes[q].kids().len() ==> stream[#[trigger] child_index(degrees, q, j) + q]
                    == nodes[q].kids()[j]
            &&& forall|q: int|
                0 <= q < nodes.len() ==> stream[#[trigger] child_index(degrees, q, nodes[q].kids().len() as int) + q] is PhantomSibling
        }),
{
    let stream = level_order(seq![root]);
    let nodes = nodes_of(stream);
    let degrees = degrees_of(nodes);
    let bits = emission_bits(stream);
    lemma_level_order(root);
    assert(degrees.take(nodes.len() as int) =~= degrees);
    assert forall|q: int| 0 <= q < nodes.len() implies stream[#[trigger] child_index(degrees, q, nodes[q].kids().len() as int) + q] is PhantomSibling by {
        lemma_block_inside(degrees, q);
        assert(!bits[block_end(degrees, q)]);
    }
}

/// Among the children of a node of a trie under construction, only the
/// first can be a value.
pub proof fn lemma_value_first_naive<L: Ord, V>(node: NaiveTrie<L, V>, i: int)
    requires
        node.wf_node(),
        0 <= i < node.kids().len(),
        node.kids()[i].cell() is Value,
    ensures
        i == 0,
{
    if i > 0 {
        assert(cell_lt(node.kids()[0].cell(), node.kids()[i].cell()));
    }
}

/// Among the children of a node of a trie, only the first can be a value.
pub proof fn lemma_value_first<L: Ord, V>(trie: Trie<L, V>, n: int, i: int)
    requires
        trie.wf(),
        trie.has_node(n),
        0 <= i < trie.children_of(n).len(),
        trie.cell_of(trie.children_of(n)[i] as int) is Value,
    ensures
        i == 0,
{
    assert(trie.wf_at(n));
    if i > 0 {
        assert(cell_lt(trie.cell_of(trie.children_of(n)[0] as int), trie.cell_of(trie.children_of(n)[i] as int)));
    }
}

/// A key pushed twice is mapped to the value pushed last.
pub proof fn lemma_overwrite<L, V>(before: Map<Seq<L>, V>, key: Seq<L>, first: V, second: V)
    requires
        key.len() > 0,
    ensures
        before.insert(key, first).insert(key, second).remove(Seq::<L>::empty()).contains_pair(key, second),
        before.insert(key, first).insert(key, second) == before.insert(key, second),
{
}

} // verus!
