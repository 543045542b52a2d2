//! Listing, one by one, the stored keys that begin with a queried one.

use crate::iter::postfix_iter::PostfixIter;
use crate::trie::{entries_of, labels_of, Trie};
use vstd::prelude::*;

verus! {

/// Lists the stored keys that begin with a queried one, one by one and in
/// order, each with its value: the queried key itself if it is stored, then
/// the longer ones.
pub struct SearchIter<'a, Label, Value> {
    head: Option<(Vec<&'a Label>, &'a Value)>,
    rest: PostfixIter<'a, Label, Value>,
}

impl<'a, L: Ord, V> SearchIter<'a, L, V> {
    /// The trie that is searched.
    pub closed spec fn trie(&self) -> Trie<L, V> {
        self.rest.trie()
    }

    /// What is yet to be yielded, in order.
    pub closed spec fn remaining(&self) -> Seq<(Seq<L>, V)> {
        (match self.head {
            Some(entry) => seq![(labels_of(entry.0@), *entry.1)],
            None => Seq::empty(),
        }) + self.rest.remaining()
    }

    /// The listing describes a walk in a well-formed trie.
    pub closed spec fn wf(&self) -> bool {
        self.rest.wf()
    }

    /// A listing of `head`, if there is one, and then of what `rest` lists.
    pub(crate) fn new(head: Option<(Vec<&'a L>, &'a V)>, rest: PostfixIter<'a, L, V>) -> (r: Self)
        requires
            rest.wf(),
        ensures
            r.wf(),
            r.trie() == rest.trie(),
            r.remaining() == (match head {
                Some(entry) => seq![(labels_of(entry.0@), *entry.1)],
                None => Seq::empty(),
            }) + rest.remaining(),
    {
        SearchIter { head, rest }
    }

    /// The next key with its value, if there is one left.
    pub fn next(&mut self) -> (r: Option<(Vec<&'a L>, &'a V)>)
        requires
            old(self).wf(),
        ensures
            final(self).wf(),
            final(self).trie() == old(self).trie(),
            match r {
                Some(entry) => {
                    &&& old(self).remaining().len() > 0
                    &&& (labels_of(entry.0@), *entry.1) == old(self).remaining()[0]
                    &&& final(self).remaining() == old(self).remaining().skip(1)
                },
                None => old(self).remaining().len() == 0 && final(self).remaining().len() == 0,
            },
    {
        if self.head.is_some() {
            let mut taken: Option<(Vec<&'a L>, &'a V)> = None;
            std::mem::swap(&mut taken, &mut self.head);
            return taken;
        }
        let r = self.rest.next();
        r
    }

    /// All that is left, in order.
    pub fn collect(self) -> (r: Vec<(Vec<&'a L>, &'a V)>)
        requires
            self.wf(),
        ensures
            entries_of(r@) == self.remaining(),
    {
        let ghost all = self.remaining();
        let mut rest = self;
        let mut found: Vec<(Vec<&'a L>, &'a V)> = Vec::new();
        loop
            invariant
                rest.wf(),
                entries_of(found@) + rest.remaining() == all,
            ensures
                entries_of(found@) == all,
            decreases rest.remaining().len(),
        {
            match rest.next() {
                Some(entry) => {
                    found.push(entry);
                },
                None => {
                    break ;
                },
            }
        }
        found
    }
}

} // verus!
