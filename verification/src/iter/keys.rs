//! What the searches find, without the values.

use crate::iter::postfix_iter::PostfixIter;
use crate::iter::prefix_iter::PrefixIter;
use crate::iter::search_iter::SearchIter;
use crate::trie::labels_of;
use vstd::prelude::*;

verus! {

/// Strips the values off what a search finds.
pub struct Keys<I>(I);

/// The keys of `entries`, in order.
pub open spec fn keys_of<C, V>(entries: Seq<(C, V)>) -> Seq<C> {
    Seq::new(entries.len(), |i: int| entries[i].0)
}

impl<I> Keys<I> {
    /// What the values are stripped off.
    pub closed spec fn inner(self) -> I {
        self.0
    }

    /// Wraps `iter`.
    pub fn new(iter: I) -> (r: Self)
        ensures
            r.inner() == iter,
    {
        Self(iter)
    }
}

impl<C, V> Keys<Vec<(C, V)>> {
    /// The keys of the wrapped entries, in order.
    pub fn collect(self) -> (r: Vec<C>)
        ensures
            r@ == keys_of(self.inner()@),
    {
        let ghost all = self.0@;
        let mut keys: Vec<C> = Vec::new();
        for entry in it: self.0
            invariant
                it.seq() == all,
                keys@ == keys_of(all.take(it.index())),
        {
            let (key, _) = entry;
            keys.push(key);
        }
        keys
    }
}

impl<'a, L: Ord, V> Keys<SearchIter<'a, L, V>> {
    /// The next key, if there is one left.
    pub fn next(&mut self) -> (r: Option<Vec<&'a L>>)
        requires
            old(self).inner().wf(),
        ensures
            final(self).inner().wf(),
            final(self).inner().trie() == old(self).inner().trie(),
            match r {
                Some(key) => {
                    &&& old(self).inner().remaining().len() > 0
                    &&& labels_of(key@) == old(self).inner().remaining()[0].0
                    &&& final(self).inner().remaining() == old(self).inner().remaining().skip(1)
                },
                None => old(self).inner().remaining().len() == 0 && final(self).inner().remaining().len() == 0,
            },
    {
        match self.0.next() {
            Some(entry) => Some(entry.0),
            None => None,
        }
    }
}

impl<'a, L: Ord, V> Keys<PostfixIter<'a, L, V>> {
    /// The next key, if there is one left.
    pub fn next(&mut self) -> (r: Option<Vec<&'a L>>)
        requires
            old(self).inner().wf(),
        ensures
            final(self).inner().wf(),
            final(self).inner().trie() == old(self).inner().trie(),
            match r {
                Some(key) => {
                    &&& old(self).inner().remaining().len() > 0
                    &&& labels_of(key@) == old(self).inner().remaining()[0].0
                    &&& final(self).inner().remaining() == old(self).inner().remaining().skip(1)
                },
                None => old(self).inner().remaining().len() == 0 && final(self).inner().remaining().len() == 0,
            },
    {
        match self.0.next() {
            Some(entry) => Some(entry.0),
            None => None,
        }
    }
}

impl<'a, 'q, L: Ord, V> Keys<PrefixIter<'a, 'q, L, V>> {
    /// The next key, if there is one left.
    pub fn next(&mut self) -> (r: Option<Vec<&'a L>>)
        requires
            old(self).inner().wf(),
        ensures
            final(self).inner().wf(),
            final(self).inner().trie() == old(self).inner().trie(),
            match r {
                Some(key) => {
                    &&& old(self).inner().remaining().len() > 0
                    &&& labels_of(key@) == old(self).inner().remaining()[0].0
                    &&& final(self).inner().remaining() == old(self).inner().remaining().skip(1)
                },
                None => old(self).inner().remaining().len() == 0 && final(self).inner().remaining().len() == 0,
            },
    {
        match self.0.next() {
            Some(entry) => Some(entry.0),
            None => None,
        }
    }
}

/// Strips the values off what a search finds.
pub trait KeysExt: Sized {
    /// The same entries, to be read without their values.
    fn keys(self) -> (r: Keys<Self>)
        ensures
            r.inner() == self,
    ;
}

impl<C, V> KeysExt for Vec<(C, V)> {
    fn keys(self) -> (r: Keys<Self>) {
        Keys::new(self)
    }
}

impl<'a, L: Ord, V> KeysExt for SearchIter<'a, L, V> {
    fn keys(self) -> (r: Keys<Self>) {
        Keys::new(self)
    }
}

impl<'a, L: Ord, V> KeysExt for PostfixIter<'a, L, V> {
    fn keys(self) -> (r: Keys<Self>) {
        Keys::new(self)
    }
}

impl<'a, 'q, L: Ord, V> KeysExt for PrefixIter<'a, 'q, L, V> {
    fn keys(self) -> (r: Keys<Self>) {
        Keys::new(self)
    }
}

} // verus!
