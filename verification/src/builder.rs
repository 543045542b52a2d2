//! Collecting keys and laying them out as a succinct trie.

use crate::emission::{cells_of, emission_bits, lemma_nodes_of_add, lemma_nodes_of_one, nodes_of};
use crate::label::TrieLabel;
use crate::layout::{laid_out, lemma_emission_is_valid, lemma_laid_out_view, lemma_laid_out_wf};
use crate::naive_trie::NaiveTrie;
use crate::naive_trie_b_f_iter::{lemma_weight_after_pop, level_order, queue_weight, NaiveTrieBFIter};
use crate::order::total_order;
use crate::trie::Trie;
use vstd::prelude::*;

verus! {

/// Collects keys with their values, then builds the trie.
pub struct TrieBuilder<Label, Value> {
    naive_trie: NaiveTrie<Label, Value>,
}

/// `to` holds a clone of each label of `from`, in order.
pub open spec fn copies<L: Clone>(from: Seq<L>, to: Seq<L>) -> bool {
    &&& from.len() == to.len()
    &&& forall|i: int| 0 <= i < from.len() ==> cloned(#[trigger] from[i], to[i])
}

impl<L: Ord, V> View for TrieBuilder<L, V> {
    type V = Map<Seq<L>, V>;

    /// The keys collected so far, each with the value pushed last for it.
    open spec fn view(&self) -> Map<Seq<L>, V> {
        self.naive()@
    }
}

impl<L: Ord, V> TrieBuilder<L, V> {
    /// The trie that the keys are collected in.
    pub closed spec fn naive(&self) -> NaiveTrie<L, V> {
        self.naive_trie
    }

    /// The collected trie is well formed.
    pub open spec fn wf(&self) -> bool {
        self.naive().wf()
    }

    /// A builder that holds no key.
    pub fn new() -> (r: Self)
        ensures
            r@ == Map::<Seq<L>, V>::empty(),
            total_order::<L>() ==> r.wf(),
    {
        TrieBuilder { naive_trie: NaiveTrie::make_root() }
    }

    /// Adds the key spelled by clones of the labels of `entry`, with `value`.
    /// A key that is already there keeps its place and gets the new value.
    pub fn push(&mut self, entry: &[L], value: V) where L: Clone
        requires
            old(self).wf(),
        ensures
            final(self).wf(),
            exists|key: Seq<L>| #[trigger] copies(entry@, key) && final(self)@ == old(self)@.insert(key, value),
    {
        let mut word: Vec<L> = Vec::new();
        let mut i: usize = 0;
        while i < entry.len()
            invariant
                i <= entry@.len(),
                word@.len() == i,
                forall|j: int| 0 <= j < i ==> cloned(#[trigger] entry@[j], word@[j]),
            decreases entry@.len() - i,
        {
            word.push(entry[i].clone());
            i += 1;
        }
        assert(copies(entry@, word@));
        self.naive_trie.push(word, value);
    }

    /// Adds the key `entry` with `value`. A key that is already there keeps
    /// its place and gets the new value.
    pub fn insert(&mut self, entry: Vec<L>, value: V)
        requires
            old(self).wf(),
        ensures
            final(self).wf(),
            final(self)@ == old(self)@.insert(entry@, value),
    {
        self.naive_trie.push(entry, value);
    }

    /// Lays the collected keys out as a succinct trie: the nodes are walked
    /// level by level, each node below the top gives a `true` bit and its
    /// cell, each end of a list of siblings a `false` bit.
    pub fn build(self) -> (trie: Trie<L, V>)
        requires
            self.wf(),
        ensures
            trie.wf(),
            laid_out(trie, self.naive()),
            trie@ == self@.remove(Seq::<L>::empty()),
            trie.holds_empty_key() <==> self@.dom().contains(Seq::<L>::empty()),
    {
        let ghost root = self.naive_trie;
        let mut it = NaiveTrieBFIter::new(self.naive_trie);
        let mut louds_bits: Vec<bool> = Vec::new();
        louds_bits.push(true);
        louds_bits.push(false);
        let mut trie_labels: Vec<TrieLabel<L, V>> = Vec::new();
        let ghost mut done: Seq<NaiveTrie<L, V>> = Seq::empty();
        loop
            invariant
                root.wf(),
                done + level_order(it@) == level_order(seq![root]),
                louds_bits@ == emission_bits(done),
                trie_labels@ == cells_of(nodes_of(done)),
                done.len() == 0 ==> it@ == seq![root],
                done.len() > 0 ==> nodes_of(done).len() >= 1,
                done.len() > 0 ==> forall|i: int|
                    0 <= i < it@.len() ==> (#[trigger] it@[i]) is PhantomSibling || (it@[i] is IntermOrLeaf && it@[i].wf_node()),
            ensures
                it@.len() == 0,
            decreases queue_weight(it@),
        {
            let ghost queue = it@;
            match it.next() {
                None => {
                    break ;
                },
                Some(node) => {
                    let ghost item = queue[0];
                    let ghost before = done;
                    proof {
                        lemma_weight_after_pop(queue);
                        done = before.push(item);
                        assert(done =~= before + seq![item]);
                        lemma_nodes_of_add(before, seq![item]);
                        lemma_nodes_of_one(item);
                    }
                    match node {
                        NaiveTrie::Root(_) => {},
                        NaiveTrie::IntermOrLeaf(n) => {
                            louds_bits.push(true);
                            trie_labels.push(n.label);
                        },
                        NaiveTrie::PhantomSibling => {
                            louds_bits.push(false);
                        },
                    }
                },
            }
        }
        proof {
            lemma_emission_is_valid(root);
            assert(louds_bits.len() <= usize::MAX);
        }
        let trie = Trie::from_parts(louds_bits, trie_labels);
        proof {
            crate::emission::lemma_nodes_of_len(done);
            lemma_laid_out_wf(trie, root);
            lemma_laid_out_view(trie, root);
        }
        trie
    }
}

/// The map that inserting `entries` one after the other gives: the last
/// value of a key stays.
pub open spec fn map_of<L, V>(entries: Seq<(Vec<L>, V)>) -> Map<Seq<L>, V>
    decreases entries.len(),
{
    if entries.len() == 0 {
        Map::empty()
    } else {
        map_of(entries.drop_last()).insert(entries.last().0@, entries.last().1)
    }
}

impl<L: Ord, V> Trie<L, V> {
    /// The trie of the keys of `entries`, each with the value that comes
    /// last for it.
    pub fn from_iter(entries: Vec<(Vec<L>, V)>) -> (trie: Self)
        requires
            total_order::<L>(),
        ensures
            trie.wf(),
            trie@ == map_of(entries@).remove(Seq::<L>::empty()),
            trie.holds_empty_key() <==> map_of(entries@).dom().contains(Seq::<L>::empty()),
    {
        let mut builder = TrieBuilder::new();
        let ghost all = entries@;
        for entry in it: entries
            invariant
                it.seq() == all,
                builder.wf(),
                builder@ == map_of(all.take(it.index())),
        {
            let ghost done = it.index();
            proof {
                assert(all.take(done + 1).drop_last() =~= all.take(done));
            }
            let (key, value) = entry;
            builder.insert(key, value);
        }
        proof {
            assert(all.take(all.len() as int) =~= all);
        }
        builder.build()
    }
}

} // verus!
