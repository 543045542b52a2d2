//! How far a queried key can be carried on without a choice, in terms of
//! the stored keys.

use crate::label::{cell_lt, lemma_cell_lt_irreflexive};
use crate::trie::{is_prefix_of, Trie};
use vstd::prelude::*;

verus! {

impl<L: Ord, V> Trie<L, V> {
    /// Some stored key begins with `prefix`.
    pub open spec fn has_key_with_prefix(&self, prefix: Seq<L>) -> bool {
        exists|key: Seq<L>| #[trigger] self@.dom().contains(key) && is_prefix_of(prefix, key)
    }

    /// Two stored keys begin with `prefix` and go on with different labels.
    pub open spec fn branches_at(&self, prefix: Seq<L>) -> bool {
        exists|a: Seq<L>, b: Seq<L>|
            {
                &&& #[trigger] self@.dom().contains(a)
                &&& #[trigger] self@.dom().contains(b)
                &&& is_prefix_of(prefix, a)
                &&& is_prefix_of(prefix, b)
                &&& a.len() > prefix.len()
                &&& b.len() > prefix.len()
                &&& a[prefix.len() as int] != b[prefix.len() as int]
            }
    }

    /// Every stored key that begins with `query` begins with `longer`.
    pub open spec fn common_to(&self, query: Seq<L>, longer: Seq<L>) -> bool {
        forall|key: Seq<L>| #[trigger] self@.dom().contains(key) && is_prefix_of(query, key) ==> is_prefix_of(longer, key)
    }

    /// The node that a key which is not empty leads to carries a label.
    pub proof fn lemma_descend_label(&self, n: int, key: Seq<L>)
        requires
            self.wf(),
            self.has_node(n),
            key.len() > 0,
            self.descend(n, key) is Some,
        ensures
            self.cell_of(self.descend(n, key)->Some_0) is Label,
        decreases key.len(),
    {
        let i = self.lemma_find_child_some(n, key[0]);
        assert(self.wf_at(n));
        let child = self.children_of(n)[i] as int;
        if key.len() > 1 {
            self.lemma_descend_label(child, key.drop_first());
        }
    }

    /// A key leads down from a node exactly as far as its labels are found.
    pub proof fn lemma_matched_from(&self, n: int, key: Seq<L>, i: int)
        requires
            0 <= i <= key.len(),
        ensures
            0 <= self.matched_from(n, key) <= key.len(),
            self.descend(n, key.take(i)) is Some <==> i <= self.matched_from(n, key),
        decreases key.len(),
    {
        if i == 0 {
            assert(key.take(0) =~= Seq::<L>::empty());
        }
        if key.len() > 0 {
            match self.find_child(n, key[0]) {
                Some(child) => {
                    self.lemma_matched_from(child, key.drop_first(), if i > 0 { i - 1 } else { 0 });
                    if i > 0 {
                        assert(key.take(i)[0] == key[0]);
                        assert(key.take(i).drop_first() =~= key.drop_first().take(i - 1));
                    }
                },
                None => {
                    if i > 0 {
                        assert(key.take(i)[0] == key[0]);
                    }
                },
            }
        }
    }

    /// A key that is not empty leads down from the top exactly if some
    /// stored key begins with it.
    pub proof fn lemma_path_has_key(&self, key: Seq<L>)
        requires
            self.wf(),
            key.len() > 0,
        ensures
            self.descend(1, key) is Some <==> self.has_key_with_prefix(key),
    {
        if self.has_key_with_prefix(key) {
            let longer = choose|longer: Seq<L>| #[trigger] self@.dom().contains(longer) && is_prefix_of(key, longer);
            if self.descend(1, key) is None {
                assert(longer.take(key.len() as int) == key);
                self.lemma_descend_none(longer, key.len() as int);
            }
        }
        if self.descend(1, key) is Some {
            let m = self.descend(1, key)->Some_0;
            self.lemma_descend_node(1, key);
            self.lemma_descend_label(1, key);
            assert(self.wf_at(m));
            let rest = self.lemma_key_below(m);
            let longer = key + rest;
            self.lemma_descend_add(1, key, rest);
            assert(longer.take(key.len() as int) =~= key);
            assert(self@.dom().contains(longer));
        }
    }

    /// `matched` in terms of the stored keys: it is the length of the
    /// longest beginning of the queried key with which a stored key begins.
    pub proof fn lemma_matched(&self, query: Seq<L>)
        requires
            self.wf(),
        ensures
            0 <= self.matched(query) <= query.len(),
            self.descend(1, self.walked(query)) is Some,
            forall|i: int|
                1 <= i <= query.len() ==> (i <= self.matched(query) <==> self.has_key_with_prefix(#[trigger] query.take(i))),
    {
        self.lemma_matched_from(1, query, 0);
        self.lemma_matched_from(1, query, self.matched(query));
        assert forall|i: int| 1 <= i <= query.len() implies (i <= self.matched(query) <==> self.has_key_with_prefix(
            #[trigger] query.take(i),
        )) by {
            self.lemma_matched_from(1, query, i);
            self.lemma_path_has_key(query.take(i));
        }
    }

    /// What is stored below a node begins with the labels that follow the
    /// node without a choice.
    pub proof fn lemma_unique_path_common(&self, n: int, key: Seq<L>)
        requires
            self.wf(),
            self.has_node(n),
            self.get_from(n, key) is Some,
        ensures
            is_prefix_of(self.unique_path(n), key),
        decreases self.node_count() - n,
    {
        let unique = self.unique_path(n);
        let cs = self.children_of(n);
        assert(self.wf_at(n));
        if unique.len() > 0 {
            let c = cs[0] as int;
            let label = self.cell_of(c)->Label_0;
            assert(key.len() > 0);
            let i = self.lemma_find_child_some(n, key[0]);
            assert(i == 0);
            self.lemma_find_child_at(n, 0, label);
            assert(self.get_from(c, key.drop_first()) is Some);
            self.lemma_unique_path_common(c, key.drop_first());
            let rest = self.unique_path(c);
            assert(unique == seq![label] + rest);
            assert(key.take(unique.len() as int) =~= seq![label] + key.drop_first().take(rest.len() as int));
        } else {
            assert(key.take(0) =~= unique);
        }
    }

    /// The labels that follow a node without a choice lead to a node, and
    /// there a key ends or there is not exactly one child to go to.
    pub proof fn lemma_unique_path_end(&self, n: int)
        requires
            self.wf(),
            self.has_node(n),
        ensures
            self.descend(n, self.unique_path(n)) is Some,
            ({
                let end = self.descend(n, self.unique_path(n))->Some_0;
                &&& self.has_node(end)
                &&& end >= n + self.unique_path(n).len()
                &&& self.value_below(end) is Some || self.children_of(end).len() != 1
            }),
        decreases self.node_count() - n,
    {
        let unique = self.unique_path(n);
        let cs = self.children_of(n);
        assert(self.wf_at(n));
        if unique.len() > 0 {
            let c = cs[0] as int;
            let label = self.cell_of(c)->Label_0;
            self.lemma_find_child_at(n, 0, label);
            self.lemma_unique_path_end(c);
            let rest = self.unique_path(c);
            assert(unique == seq![label] + rest);
            assert(unique.drop_first() =~= rest);
            assert(self.descend(n, unique) == self.descend(c, rest));
        } else {
            assert(self.descend(n, unique) == Some(n));
            if self.value_below(n) is None && cs.len() == 1 {
                assert(self.cell_of(cs[0] as int) is Label);
            }
        }
    }

    /// `longest_prefix_of` in terms of the stored keys. What it gives is not
    /// empty, begins with the labels of the queried key that lead down from
    /// the top, is the beginning of a stored key and of every stored key
    /// that begins with those labels, and a stored key ends there or stored
    /// keys part there; where no label of the queried key leads down from
    /// the top, the empty key was not stored. It gives nothing only where no
    /// label of the queried key leads down from the top and, at the top,
    /// nothing is stored, the empty key was stored, or the stored keys part
    /// at once.
    pub proof fn lemma_longest_prefix(&self, query: Seq<L>)
        requires
            self.wf(),
        ensures
            match self.longest_prefix_of(query) {
                Some(longer) => {
                    &&& longer.len() > 0
                    &&& is_prefix_of(self.walked(query), longer)
                    &&& self.has_key_with_prefix(longer)
                    &&& self.common_to(self.walked(query), longer)
                    &&& self@.dom().contains(longer) || self.branches_at(longer)
                    &&& self.matched(query) > 0 || !self.holds_empty_key()
                },
                None => {
                    &&& self.matched(query) == 0
                    &&& !self.has_key_with_prefix(Seq::<L>::empty()) || self.holds_empty_key() || self.branches_at(
                        Seq::<L>::empty(),
                    )
                },
            },
    {
        self.lemma_matched(query);
        let walked = self.walked(query);
        let m = self.descend(1, walked)->Some_0;
        self.lemma_descend_node(1, walked);
        let unique = self.unique_path(m);
        let longer = walked + unique;
        self.lemma_unique_path_end(m);
        self.lemma_descend_add(1, walked, unique);
        let end = self.descend(1, longer)->Some_0;
        assert(self.descend(1, longer) == self.descend(m, unique));
        assert(self.has_node(end));
        assert(self.wf_at(end));
        let cs = self.children_of(end);
        assert(longer.take(walked.len() as int) =~= walked);
        assert forall|key: Seq<L>| #[trigger] self@.dom().contains(key) && is_prefix_of(walked, key) implies is_prefix_of(
            longer,
            key,
        ) by {
            let suffix = key.skip(walked.len() as int);
            assert(key =~= walked + suffix);
            self.lemma_descend_add(1, walked, suffix);
            self.lemma_unique_path_common(m, suffix);
            assert(key.take(longer.len() as int) =~= walked + suffix.take(unique.len() as int));
        }
        if longer.len() > 0 {
            self.lemma_descend_node(1, longer);
            assert(end >= 2);
            self.lemma_path_has_key(longer);
            if self.value_below(end) is Some {
                assert(self.get(longer) is Some);
                assert(self@.dom().contains(longer));
            } else {
                self.lemma_descend_label(1, longer);
                assert(cs.len() >= 2);
                assert(self.cell_of(cs[0] as int) is Label);
                assert(cell_lt(self.cell_of(cs[0] as int), self.cell_of(cs[1] as int)));
                self.lemma_branches(longer, end);
            }
        } else {
            assert(walked.len() == 0);
            assert(walked =~= Seq::<L>::empty());
            assert(longer =~= Seq::<L>::empty());
            assert(end == 1);
            if self.value_below(1) is None {
                if cs.len() == 0 {
                    if self.has_key_with_prefix(Seq::<L>::empty()) {
                        let key = choose|key: Seq<L>| #[trigger] self@.dom().contains(key) && is_prefix_of(Seq::<L>::empty(), key);
                        assert(self.get(key) is Some);
                        assert(self.descend(1, key) is Some);
                        let i = self.lemma_find_child_some(1, key[0]);
                    }
                } else {
                    assert(cs.len() >= 2);
                    assert(self.cell_of(cs[0] as int) is Label);
                    assert(cell_lt(self.cell_of(cs[0] as int), self.cell_of(cs[1] as int)));
                    self.lemma_branches(longer, end);
                }
            }
        }
    }

    /// Where a key leads to a node whose first two children carry labels,
    /// two stored keys begin with it and go on with different labels.
    pub proof fn lemma_branches(&self, key: Seq<L>, end: int)
        requires
            self.wf(),
            self.descend(1, key) == Some(end),
            self.has_node(end),
            self.children_of(end).len() >= 2,
            self.cell_of(self.children_of(end)[0] as int) is Label,
            self.cell_of(self.children_of(end)[1] as int) is Label,
        ensures
            self.branches_at(key),
    {
        let cs = self.children_of(end);
        assert(self.wf_at(end));
        let a_rest = self.lemma_key_through(end, 0);
        let b_rest = self.lemma_key_through(end, 1);
        let a = key + a_rest;
        let b = key + b_rest;
        self.lemma_descend_add(1, key, a_rest);
        self.lemma_descend_add(1, key, b_rest);
        assert(a.take(key.len() as int) =~= key);
        assert(b.take(key.len() as int) =~= key);
        assert(cell_lt(self.cell_of(cs[0] as int), self.cell_of(cs[1] as int)));
        lemma_cell_lt_irreflexive(self.cell_of(cs[0] as int));
        assert(a[key.len() as int] == a_rest[0]);
        assert(b[key.len() as int] == b_rest[0]);
        assert(self.get(a) is Some);
        assert(self.get(b) is Some);
        assert(self@.dom().contains(a));
        assert(self@.dom().contains(b));
    }
}

} // verus!
