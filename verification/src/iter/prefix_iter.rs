//! Listing, one by one, the stored keys that a queried key begins with.

use crate::trie::{entries_of, labels_of, Trie};
use vstd::prelude::*;

verus! {

/// Lists the stored keys that are prefixes of a queried one, one by one
/// from the shortest to the longest, each with its value.
pub struct PrefixIter<'a, 'q, Label, Value> {
    trie: &'a Trie<Label, Value>,
    query: &'q [Label],
    position: usize,
    node: u64,
    path: Vec<&'a Label>,
    dead: bool,
}

impl<'a, 'q, L: Ord, V> PrefixIter<'a, 'q, L, V> {
    /// The trie that is searched.
    pub closed spec fn trie(&self) -> Trie<L, V> {
        *self.trie
    }

    /// What is yet to be yielded, in order.
    pub closed spec fn remaining(&self) -> Seq<(Seq<L>, V)> {
        if self.dead {
            Seq::empty()
        } else {
            self.trie.common_prefixes(self.query@, self.query@.len() as int).skip(
                self.trie.common_prefixes(self.query@, self.position as int).len() as int,
            )
        }
    }

    /// The trie is well formed and the cursor stands where the labels taken
    /// from the queried key lead.
    pub closed spec fn wf(&self) -> bool {
        &&& self.trie.wf()
        &&& !self.dead ==> {
            &&& self.position <= self.query@.len()
            &&& self.trie.has_node(self.node as int)
            &&& self.trie.descend(1, self.query@.take(self.position as int)) == Some(self.node as int)
            &&& labels_of(self.path@) == self.query@.take(self.position as int)
        }
    }

    /// A listing of the stored keys that `query` begins with.
    pub(crate) fn new(trie: &'a Trie<L, V>, query: &'q [L]) -> (r: Self)
        requires
            trie.wf(),
        ensures
            r.wf(),
            r.trie() == *trie,
            r.remaining() == trie.common_prefixes(query@, query@.len() as int),
    {
        let r = PrefixIter { trie, query, position: 0, node: 1, path: Vec::new(), dead: false };
        proof {
            assert(labels_of(r.path@) =~= query@.take(0));
        }
        r
    }

    /// The next key with its value, if there is one left.
    pub fn next(&mut self) -> (r: Option<(Vec<&'a L>, &'a V)>)
        requires
            old(self).wf(),
        ensures
            final(self).wf(),
            final(self).trie() == old(self).trie(),
            match r {
                Some(entry) => {
                    &&& old(self).remaining().len() > 0
                    &&& (labels_of(entry.0@), *entry.1) == old(self).remaining()[0]
                    &&& final(self).remaining() == old(self).remaining().skip(1)
                },
                None => old(self).remaining().len() == 0 && final(self).remaining().len() == 0,
            },
    {
        let trie: &'a Trie<L, V> = self.trie;
        let query: &'q [L] = self.query;
        if self.dead {
            return None;
        }
        let ghost whole = query@;
        let ghost all = trie.common_prefixes(whole, whole.len() as int);
        while self.position < query.len()
            invariant
                self.wf(),
                !self.dead,
                self.trie == trie,
                self.query == query,
                whole == query@,
                all == trie.common_prefixes(whole, whole.len() as int),
                self.trie() == old(self).trie(),
                self.remaining() == old(self).remaining(),
            decreases whole.len() - self.position,
        {
            let ghost at = self.position as int;
            let ghost so_far = whole.take(at);
            let ghost next = whole.take(at + 1);
            let ghost listed = trie.common_prefixes(whole, at);
            proof {
                assert(next =~= so_far + seq![whole[at]]);
                trie.lemma_descend_add(1, so_far, seq![whole[at]]);
                trie.lemma_descend_one(self.node as int, whole[at]);
            }
            match trie.child_with_label(self.node, &query[self.position]) {
                Some(child) => {
                    let label = trie.label(child);
                    self.node = child;
                    self.position = self.position + 1;
                    self.path.push(label);
                    proof {
                        assert(labels_of(self.path@) =~= next);
                    }
                    match trie.value(child) {
                        Some(v) => {
                            let found = (self.path.clone(), v);
                            proof {
                                let longer = trie.common_prefixes(whole, at + 1);
                                trie.lemma_common_prefixes_grow(whole, at + 1, whole.len() as int);
                                assert(all[listed.len() as int] == longer[listed.len() as int]);
                            }
                            return Some(found);
                        },
                        None => {},
                    }
                },
                None => {
                    proof {
                        trie.lemma_common_prefixes_end(whole, at, whole.len() as int);
                    }
                    self.dead = true;
                    return None;
                },
            }
        }
        None
    }

    /// All that is left, in order.
    pub fn collect(self) -> (r: Vec<(Vec<&'a L>, &'a V)>)
        requires
            self.wf(),
        ensures
            entries_of(r@) == self.remaining(),
    {
        let ghost all = self.remaining();
        let mut rest = self;
        let mut found: Vec<(Vec<&'a L>, &'a V)> = Vec::new();
        loop
            invariant
                rest.wf(),
                entries_of(found@) + rest.remaining() == all,
            ensures
                entries_of(found@) == all,
            decreases rest.remaining().len(),
        {
            match rest.next() {
                Some(entry) => {
                    found.push(entry);
                },
                None => {
                    break ;
                },
            }
        }
        found
    }
}

} // verus!
