//! The order and the extent of what the enumerating searches list.

use crate::label::TrieLabel;
use crate::order::{lemma_trichotomy, lt};
use crate::trie::{is_prefix_of, prepend_all, Trie};
use vstd::prelude::*;

verus! {

/// `a` comes before `b` in the order of keys: `a` is a proper prefix of
/// `b`, or where they first differ the label of `a` is the smaller.
pub open spec fn lex_lt<L: Ord>(a: Seq<L>, b: Seq<L>) -> bool
    decreases a.len(),
{
    if b.len() == 0 {
        false
    } else if a.len() == 0 {
        true
    } else if a[0] == b[0] {
        lex_lt(a.drop_first(), b.drop_first())
    } else {
        lt(a[0], b[0])
    }
}

/// The keys of `entries` strictly ascend.
pub open spec fn ascending<L: Ord, V>(entries: Seq<(Seq<L>, V)>) -> bool {
    forall|i: int, j: int| 0 <= i < j < entries.len() ==> lex_lt((#[trigger] entries[i]).0, (#[trigger] entries[j]).0)
}

/// A common prefix in front does not change the order of two keys.
pub proof fn lemma_lex_lt_prepend<L: Ord>(prefix: Seq<L>, a: Seq<L>, b: Seq<L>)
    requires
        lex_lt(a, b),
    ensures
        lex_lt(prefix + a, prefix + b),
    decreases prefix.len(),
{
    if prefix.len() > 0 {
        lemma_lex_lt_prepend(prefix.drop_first(), a, b);
        assert((prefix + a).drop_first() =~= prefix.drop_first() + a);
        assert((prefix + b).drop_first() =~= prefix.drop_first() + b);
    }
}

/// Ascending keys stay ascending with a common prefix in front.
pub proof fn lemma_ascending_prepend<L: Ord, V>(prefix: Seq<L>, entries: Seq<(Seq<L>, V)>)
    requires
        ascending(entries),
    ensures
        ascending(prepend_all(prefix, entries)),
{
    let longer = prepend_all(prefix, entries);
    assert forall|i: int, j: int| 0 <= i < j < longer.len() implies lex_lt((#[trigger] longer[i]).0, (#[trigger] longer[j]).0) by {
        lemma_lex_lt_prepend(prefix, entries[i].0, entries[j].0);
    }
}

impl<L: Ord, V> Trie<L, V> {
    /// `entry` is stored below node `n` and passes through a child at place
    /// `from` or later.
    pub open spec fn listed_from(&self, n: int, from: int, entry: (Seq<L>, V)) -> bool {
        &&& self.get_from(n, entry.0) == Some(entry.1)
        &&& self.passes_from(n, from, entry.0)
    }

    /// `key`, taken from node `n`, passes through a child at place `from`
    /// or later: through the value in front if it is empty, else through the
    /// child that carries its first label.
    pub open spec fn passes_from(&self, n: int, from: int, key: Seq<L>) -> bool {
        if key.len() == 0 {
            from == 0
        } else {
            exists|k: int|
                from <= k < self.children_of(n).len() && self.cell_of(#[trigger] self.children_of(n)[k] as int)
                    == TrieLabel::<L, V>::Label(key[0])
        }
    }

    /// What `entries_from` lists is in ascending order, and each entry is
    /// stored below the node and passes through one of the children listed.
    pub proof fn lemma_entries_sound(&self, n: int, from: int)
        requires
            self.wf(),
            self.has_node(n),
            0 <= from,
        ensures
            ascending(self.entries_from(n, from)),
            forall|x: int| 0 <= x < self.entries_from(n, from).len() ==> self.listed_from(n, from, #[trigger] self.entries_from(n, from)[x]),
        decreases self.node_count() - n, self.children_of(n).len() - from,
    {
        let cs = self.children_of(n);
        let all = self.entries_from(n, from);
        if from < cs.len() {
            assert(self.wf_at(n));
            let c = cs[from] as int;
            let rest = self.entries_from(n, from + 1);
            self.lemma_entries_sound(n, from + 1);
            let here = match self.cell_of(c) {
                TrieLabel::Value(v) => seq![(Seq::<L>::empty(), v)],
                TrieLabel::Label(label) => prepend_all(seq![label], self.entries_from(c, 0)),
            };
            match self.cell_of(c) {
                TrieLabel::Value(v) => {},
                TrieLabel::Label(label) => {
                    let below = self.entries_from(c, 0);
                    self.lemma_entries_sound(c, 0);
                    lemma_ascending_prepend(seq![label], below);
                    self.lemma_find_child_at(n, from, label);
                    assert forall|x: int| 0 <= x < here.len() implies self.listed_from(n, from, #[trigger] here[x]) by {
                        let key = here[x].0;
                        assert(key.drop_first() =~= below[x].0);
                    }
                },
            }
            assert forall|i: int, j: int| 0 <= i < j < all.len() implies lex_lt((#[trigger] all[i]).0, (#[trigger] all[j]).0) by {
                if i < here.len() {
                    let b = rest[j - here.len()];
                    let k = choose|k: int|
                        from + 1 <= k < cs.len() && self.cell_of(#[trigger] cs[k] as int) == TrieLabel::<L, V>::Label(b.0[0]);
                    match self.cell_of(c) {
                        TrieLabel::Value(v) => {},
                        TrieLabel::Label(label) => {
                            lemma_trichotomy(label, b.0[0]);
                        },
                    }
                }
            }
        }
    }

    /// What is stored below a node and passes through one of the children
    /// listed is listed by `entries_from`.
    pub proof fn lemma_entries_complete(&self, n: int, from: int, key: Seq<L>) -> (x: int)
        requires
            self.wf(),
            self.has_node(n),
            0 <= from,
            self.get_from(n, key) is Some,
            self.passes_from(n, from, key),
        ensures
            0 <= x < self.entries_from(n, from).len(),
            self.entries_from(n, from)[x] == (key, self.get_from(n, key)->Some_0),
        decreases self.node_count() - n, self.children_of(n).len() - from,
    {
        let cs = self.children_of(n);
        assert(self.wf_at(n));
        if key.len() == 0 {
            0
        } else {
            let k = choose|k: int| from <= k < cs.len() && self.cell_of(#[trigger] cs[k] as int) == TrieLabel::<L, V>::Label(key[0]);
            let c = cs[from] as int;
            if k == from {
                self.lemma_find_child_at(n, from, key[0]);
                let tail = key.drop_first();
                assert(self.descend(n, key) == self.descend(c, tail));
                self.lemma_entries_complete(c, 0, tail)
            } else {
                let here = match self.cell_of(c) {
                    TrieLabel::Value(v) => seq![(Seq::<L>::empty(), v)],
                    TrieLabel::Label(label) => prepend_all(seq![label], self.entries_from(c, 0)),
                };
                let x = self.lemma_entries_complete(n, from + 1, key);
                here.len() + x
            }
        }
    }
}

/// The keys of `entries` get longer from each to the next.
pub open spec fn lengthening<L, V>(entries: Seq<(Seq<L>, V)>) -> bool {
    forall|i: int, j: int| 0 <= i < j < entries.len() ==> (#[trigger] entries[i]).0.len() < (#[trigger] entries[j]).0.len()
}

impl<L: Ord, V> Trie<L, V> {
    /// `suffixes` lists, in ascending order, exactly what is stored below a
    /// node under a key that is not empty.
    pub proof fn lemma_suffixes(&self, m: int)
        requires
            self.wf(),
            self.has_node(m),
        ensures
            ascending(self.suffixes(m)),
            forall|suffix: Seq<L>, value: V| #[trigger]
                self.suffixes(m).contains((suffix, value)) <==> suffix.len() > 0 && self.get_from(m, suffix) == Some(value),
    {
        let from = self.first_label_place(m);
        let listed = self.suffixes(m);
        self.lemma_entries_sound(m, from);
        assert forall|suffix: Seq<L>, value: V| #[trigger]
            listed.contains((suffix, value)) <==> suffix.len() > 0 && self.get_from(m, suffix) == Some(value) by {
            if suffix.len() > 0 && self.get_from(m, suffix) == Some(value) {
                let x = self.lemma_entries_complete(m, from, suffix);
                assert(listed[x] == (suffix, value));
            }
        }
    }

    /// `predictions` lists, in ascending order, exactly the stored keys that
    /// begin with the queried one, each with its value.
    pub proof fn lemma_predictions(&self, query: Seq<L>)
        requires
            self.wf(),
        ensures
            ascending(self.predictions(query)),
            forall|key: Seq<L>, value: V| #[trigger]
                self.predictions(query).contains((key, value)) <==> self@.contains_pair(key, value) && is_prefix_of(query, key),
    {
        let listed = self.predictions(query);
        match self.descend(1, query) {
            None => {
                assert forall|key: Seq<L>, value: V| #[trigger]
                    listed.contains((key, value)) <==> self@.contains_pair(key, value) && is_prefix_of(query, key) by {
                    if self@.contains_pair(key, value) && is_prefix_of(query, key) {
                        self.lemma_descend_none(key, query.len() as int);
                    }
                }
            },
            Some(m) => {
                self.lemma_descend_node(1, query);
                self.lemma_suffixes(m);
                let head = if self.get(query) is Some {
                    seq![(query, self.get(query)->Some_0)]
                } else {
                    Seq::empty()
                };
                let tail = prepend_all(query, self.suffixes(m));
                lemma_ascending_prepend(query, self.suffixes(m));
                assert forall|i: int, j: int| 0 <= i < j < listed.len() implies lex_lt((#[trigger] listed[i]).0, (#[trigger] listed[j]).0) by {
                    if i >= head.len() {
                        assert(listed[i] == tail[i - head.len()] && listed[j] == tail[j - head.len()]);
                    } else {
                        let suffix = self.suffixes(m)[j - head.len()];
                        assert(self.suffixes(m).contains((suffix.0, suffix.1)));
                        assert(suffix.0.len() > 0);
                        lemma_lex_lt_prepend(query, Seq::<L>::empty(), suffix.0);
                    }
                }
                assert forall|key: Seq<L>, value: V| #[trigger]
                    listed.contains((key, value)) <==> self@.contains_pair(key, value) && is_prefix_of(query, key) by {
                    if listed.contains((key, value)) {
                        let x = choose|x: int| 0 <= x < listed.len() && listed[x] == (key, value);
                        if x < head.len() {
                            assert(key.take(query.len() as int) =~= query);
                        } else {
                            let entry = self.suffixes(m)[x - head.len()];
                            assert(self.suffixes(m).contains((entry.0, entry.1)));
                            self.lemma_descend_add(1, query, entry.0);
                            assert(key.take(query.len() as int) =~= query);
                        }
                    }
                    if self@.contains_pair(key, value) && is_prefix_of(query, key) {
                        let suffix = key.skip(query.len() as int);
                        assert(key =~= query + suffix);
                        if suffix.len() == 0 {
                            assert(listed[0] == (key, value));
                        } else {
                            self.lemma_descend_add(1, query, suffix);
                            assert(self.suffixes(m).contains((suffix, value)));
                            let x = choose|x: int| 0 <= x < self.suffixes(m).len() && self.suffixes(m)[x] == (suffix, value);
                            assert(listed[head.len() + x] == tail[x]);
                        }
                    }
                }
            },
        }
    }

    /// `postfixes` lists, in ascending order, exactly what follows the
    /// queried key in the stored keys that begin with it and are longer.
    pub proof fn lemma_postfixes(&self, query: Seq<L>)
        requires
            self.wf(),
        ensures
            ascending(self.postfixes(query)),
            forall|suffix: Seq<L>, value: V| #[trigger]
                self.postfixes(query).contains((suffix, value)) <==> suffix.len() > 0 && self@.contains_pair(query + suffix, value),
    {
        let listed = self.postfixes(query);
        match self.descend(1, query) {
            None => {
                assert forall|suffix: Seq<L>, value: V| #[trigger]
                    listed.contains((suffix, value)) <==> suffix.len() > 0 && self@.contains_pair(query + suffix, value) by {
                    self.lemma_descend_add(1, query, suffix);
                }
            },
            Some(m) => {
                self.lemma_descend_node(1, query);
                self.lemma_suffixes(m);
                assert forall|suffix: Seq<L>, value: V| #[trigger]
                    listed.contains((suffix, value)) <==> suffix.len() > 0 && self@.contains_pair(query + suffix, value) by {
                    self.lemma_descend_add(1, query, suffix);
                }
            },
        }
    }

    /// `common_prefixes` lists, from the shortest to the longest, exactly
    /// the stored keys that are prefixes of the queried one and no longer
    /// than `upto`, each with its value.
    pub proof fn lemma_common_prefixes(&self, query: Seq<L>, upto: int)
        requires
            0 <= upto <= query.len(),
        ensures
            lengthening(self.common_prefixes(query, upto)),
            forall|key: Seq<L>, value: V| #[trigger]
                self.common_prefixes(query, upto).contains((key, value)) <==> self@.contains_pair(key, value) && is_prefix_of(
                    key,
                    query,
                ) && key.len() <= upto,
        decreases upto,
    {
        let listed = self.common_prefixes(query, upto);
        if upto > 0 {
            let shorter = self.common_prefixes(query, upto - 1);
            self.lemma_common_prefixes(query, upto - 1);
            assert forall|key: Seq<L>, value: V| #[trigger]
                listed.contains((key, value)) <==> self@.contains_pair(key, value) && is_prefix_of(key, query) && key.len() <= upto by {
                if listed.contains((key, value)) {
                    let x = choose|x: int| 0 <= x < listed.len() && listed[x] == (key, value);
                    if x < shorter.len() {
                        assert(shorter.contains((key, value)));
                    }
                }
                if self@.contains_pair(key, value) && is_prefix_of(key, query) && key.len() <= upto {
                    if key.len() == upto {
                        assert(listed[listed.len() - 1] == (key, value));
                    } else {
                        let x = choose|x: int| 0 <= x < shorter.len() && shorter[x] == (key, value);
                        assert(listed[x] == (key, value));
                    }
                }
            }
            assert forall|i: int, j: int| 0 <= i < j < listed.len() implies (#[trigger] listed[i]).0.len() < (#[trigger] listed[j]).0.len() by {
                if j >= shorter.len() {
                    let entry = shorter[i];
                    assert(shorter.contains((entry.0, entry.1)));
                }
            }
        }
    }
}

} // verus!
