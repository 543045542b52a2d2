//! Searching a trie one label at a time.

use crate::trie::Trie;
use vstd::prelude::*;

verus! {

/// What a key is to a trie, if it is anything to it.
#[derive(Clone, Copy, Debug, PartialEq, Eq, Structural)]
pub enum Answer {
    /// Stored keys begin with it and go on, and it is not stored itself.
    Prefix,
    /// It is stored, and no stored key goes on from it.
    Match,
    /// It is stored, and stored keys go on from it.
    PrefixAndMatch,
}

/// The answer for a key that is or is not a prefix, is or is not stored.
pub open spec fn answer_of(is_prefix: bool, is_match: bool) -> Option<Answer> {
    if is_prefix && is_match {
        Some(Answer::PrefixAndMatch)
    } else if is_prefix {
        Some(Answer::Prefix)
    } else if is_match {
        Some(Answer::Match)
    } else {
        None
    }
}

/// What `key` is to `trie`: nothing, unless it is stored or stored keys
/// go on from it.
pub open spec fn answer_for<L: Ord, V>(trie: Trie<L, V>, key: Seq<L>) -> Option<Answer> {
    answer_of(trie.has_extension(key), trie@.dom().contains(key))
}

impl Answer {
    /// The answer for a key that is or is not a prefix, is or is not stored.
    pub fn new(is_prefix: bool, is_match: bool) -> (r: Option<Self>)
        ensures
            r == answer_of(is_prefix, is_match),
    {
        if is_prefix && is_match {
            Some(Answer::PrefixAndMatch)
        } else if is_prefix {
            Some(Answer::Prefix)
        } else if is_match {
            Some(Answer::Match)
        } else {
            None
        }
    }

    /// Whether stored keys go on from the key.
    pub fn is_prefix(&self) -> (r: bool)
        ensures
            r == (*self is Prefix || *self is PrefixAndMatch),
    {
        match self {
            Answer::Prefix => true,
            Answer::PrefixAndMatch => true,
            Answer::Match => false,
        }
    }

    /// Whether the key is stored.
    pub fn is_match(&self) -> (r: bool)
        ensures
            r == (*self is Match || *self is PrefixAndMatch),
    {
        match self {
            Answer::Match => true,
            Answer::PrefixAndMatch => true,
            Answer::Prefix => false,
        }
    }
}

/// A cursor into a trie that takes the labels of a key one by one.
pub struct IncSearch<'a, Label, Value> {
    trie: &'a Trie<Label, Value>,
    node: u64,
    taken: Ghost<Seq<Label>>,
}

impl<'a, L: Ord, V> IncSearch<'a, L, V> {
    /// The trie that is searched.
    pub closed spec fn trie(&self) -> Trie<L, V> {
        *self.trie
    }

    /// The labels taken so far.
    pub closed spec fn prefix(&self) -> Seq<L> {
        self.taken@
    }

    /// The trie is well formed and the cursor stands where the labels taken
    /// so far lead.
    pub closed spec fn wf(&self) -> bool {
        &&& self.trie.wf()
        &&& self.trie.descend(1, self.taken@) == Some(self.node as int)
        &&& self.trie.has_node(self.node as int)
    }

    /// A cursor at the top of `trie`, with no label taken.
    pub fn new(trie: &'a Trie<L, V>) -> (r: Self)
        requires
            trie.wf(),
        ensures
            r.wf(),
            r.trie() == *trie,
            r.prefix() == Seq::<L>::empty(),
    {
        IncSearch { trie, node: 1, taken: Ghost(Seq::empty()) }
    }

    /// What the labels taken so far, followed by `chr`, are to the trie. The
    /// cursor stays where it is.
    pub fn peek(&self, chr: &L) -> (r: Option<Answer>)
        requires
            self.wf(),
        ensures
            r == answer_for(self.trie(), self.prefix().push(*chr)),
    {
        let ghost next = self.taken@.push(*chr);
        proof {
            self.trie.lemma_descend_add(1, self.taken@, seq![*chr]);
            self.trie.lemma_descend_one(self.node as int, *chr);
            assert(next =~= self.taken@ + seq![*chr]);
            self.trie.lemma_has_extension(next);
        }
        match self.trie.child_with_label(self.node, chr) {
            Some(child) => {
                let is_prefix = self.trie.is_prefix_node(child);
                let is_match = self.trie.is_terminal(child);
                Answer::new(is_prefix, is_match)
            },
            None => None,
        }
    }

    /// Takes `chr` if, with it, the labels taken are still something to the
    /// trie, and says what. Otherwise the cursor stays where it is.
    pub fn query(&mut self, chr: &L) -> (r: Option<Answer>)
        requires
            old(self).wf(),
        ensures
            final(self).wf(),
            final(self).trie() == old(self).trie(),
            r == answer_for(old(self).trie(), old(self).prefix().push(*chr)),
            final(self).prefix() == if r is Some {
                old(self).prefix().push(*chr)
            } else {
                old(self).prefix()
            },
    {
        let ghost next = self.taken@.push(*chr);
        proof {
            self.trie.lemma_descend_add(1, self.taken@, seq![*chr]);
            self.trie.lemma_descend_one(self.node as int, *chr);
            assert(next =~= self.taken@ + seq![*chr]);
            self.trie.lemma_has_extension(next);
        }
        match self.trie.child_with_label(self.node, chr) {
            Some(child) => {
                let is_prefix = self.trie.is_prefix_node(child);
                let is_match = self.trie.is_terminal(child);
                proof {
                    assert(self.trie.wf_at(child as int));
                    if !is_match {
                        assert(self.trie.cell_of(self.trie.children_of(child as int)[0] as int) is Label);
                    }
                }
                self.node = child;
                self.taken = Ghost(next);
                Answer::new(is_prefix, is_match)
            },
            None => None,
        }
    }

    /// Takes the labels of `query` one by one as long as `query` does, and
    /// gives the last answer, or the place of the label that was not taken.
    /// An empty `query` has no last answer: it gives `Err(0)`.
    pub fn query_until(&mut self, query: &[L]) -> (r: Result<Answer, usize>)
        requires
            old(self).wf(),
        ensures
            final(self).wf(),
            final(self).trie() == old(self).trie(),
            match r {
                Ok(answer) => {
                    &&& query@.len() > 0
                    &&& final(self).prefix() == old(self).prefix() + query@
                    &&& answer_for(old(self).trie(), old(self).prefix() + query@) == Some(answer)
                },
                Err(i) => {
                    &&& i <= query@.len()
                    &&& final(self).prefix() == old(self).prefix() + query@.take(i as int)
                    &&& i == query@.len() ==> query@.len() == 0
                    &&& i < query@.len() ==> answer_for(old(self).trie(), old(self).prefix() + query@.take(i + 1)) is None
                    &&& forall|k: int|
                        1 <= k <= i ==> answer_for(old(self).trie(), old(self).prefix() + #[trigger] query@.take(k)) is Some
                },
            },
    {
        let ghost start = self.taken@;
        let mut result: Option<Answer> = None;
        let mut i: usize = 0;
        while i < query.len()
            invariant
                self.wf(),
                self.trie() == old(self).trie(),
                start == old(self).prefix(),
                i <= query@.len(),
                self.prefix() == start + query@.take(i as int),
                i == 0 ==> result is None,
                i > 0 ==> result is Some && result == answer_for(self.trie(), start + query@.take(i as int)),
                forall|k: int| 1 <= k <= i ==> answer_for(self.trie(), start + #[trigger] query@.take(k)) is Some,
            decreases query@.len() - i,
        {
            proof {
                assert((start + query@.take(i as int)).push(query@[i as int]) =~= start + query@.take(i + 1));
            }
            result = self.query(&query[i]);
            if result.is_none() {
                return Err(i);
            }
            i += 1;
        }
        proof {
            assert(query@.take(query@.len() as int) =~= query@);
        }
        match result {
            Some(answer) => Ok(answer),
            None => Err(i),
        }
    }

    /// Puts the cursor back at the top, with no label taken.
    pub fn reset(&mut self)
        requires
            old(self).wf(),
        ensures
            final(self).wf(),
            final(self).trie() == old(self).trie(),
            final(self).prefix() == Seq::<L>::empty(),
    {
        self.node = 1;
        self.taken = Ghost(Seq::empty());
    }

    /// The value stored for the labels taken so far, if they are a stored key.
    pub fn value(&self) -> (r: Option<&'a V>)
        requires
            self.wf(),
        ensures
            match r {
                Some(v) => self.trie()@.dom().contains(self.prefix()) && *v == self.trie()@[self.prefix()],
                None => !self.trie()@.dom().contains(self.prefix()),
            },
    {
        proof {
            if self.taken@.len() > 0 {
                self.trie.lemma_descend_node(1, self.taken@);
            }
        }
        self.trie.value(self.node)
    }
}

impl<L: Ord, V> Trie<L, V> {
    /// A cursor for searching this trie label by label.
    pub fn inc_search(&self) -> (r: IncSearch<'_, L, V>)
        requires
            self.wf(),
        ensures
            r.wf(),
            r.trie() == *self,
            r.prefix() == Seq::<L>::empty(),
    {
        IncSearch::new(self)
    }
}

} // verus!
