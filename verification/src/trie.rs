//! The trie in its succinct form, and the searches over it.

use crate::enumeration::{ascending, lengthening};
use crate::iter::{PostfixIter, PrefixIter, SearchIter};
use crate::label::{cell_cloned, cell_lt, lemma_cell_lt_irreflexive, lemma_cell_lt_transitive, lemma_cell_side, TrieLabel};
use crate::lbs::{count_ones, louds_children, valid_lbs};
use crate::louds::{louds_bits, louds_child_nodes, louds_first_child_index, louds_from_bits};
use crate::order::{total_order, Side};
use louds_rs::Louds;
use vstd::prelude::*;

verus! {

/// A trie map in succinct form.
///
/// Nodes are numbered from 1 in level order. Node 1 is the top of the trie
/// and carries no cell; the cell of node `n >= 2` stands at place `n - 2` of
/// the table of cells. The shape of the tree is held as a LOUDS bit string.
#[derive(Debug)]
pub struct Trie<Label, Value> {
    louds: Louds,
    trie_labels: Vec<TrieLabel<Label, Value>>,
}

impl<L, V> Trie<L, V> {
    /// The LOUDS bit string of the tree.
    pub closed spec fn bits(&self) -> Seq<bool> {
        louds_bits(self.louds)
    }

    /// The cells of nodes 2, 3, ... in this order.
    pub closed spec fn cells(&self) -> Seq<TrieLabel<L, V>> {
        self.trie_labels@
    }
}

impl<L: Ord, V> Trie<L, V> {
    /// The number of nodes, the top included.
    pub open spec fn node_count(&self) -> int {
        self.cells().len() as int + 1
    }

    /// `n` is the number of a node.
    pub open spec fn has_node(&self, n: int) -> bool {
        1 <= n <= self.node_count()
    }

    /// The numbers of the children of node `n`, in order.
    pub open spec fn children_of(&self, n: int) -> Seq<u64> {
        louds_children(self.bits(), n as nat)
    }

    /// The cell of node `n >= 2`.
    pub open spec fn cell_of(&self, n: int) -> TrieLabel<L, V> {
        self.cells()[n - 2]
    }

    /// The children of node `n` are nodes with larger numbers, their cells
    /// strictly ascend, a value has no children and a label has some.
    pub open spec fn wf_at(&self, n: int) -> bool {
        let cs = self.children_of(n);
        &&& forall|j: int| 0 <= j < cs.len() ==> n < #[trigger] cs[j] <= self.node_count()
        &&& forall|i: int, j: int|
            0 <= i < j < cs.len() ==> cell_lt(self.cell_of(#[trigger] cs[i] as int), self.cell_of(#[trigger] cs[j] as int))
        &&& (n >= 2 && self.cell_of(n) is Value ==> cs.len() == 0)
        &&& (n >= 2 && self.cell_of(n) is Label ==> cs.len() > 0)
    }

    /// The labels are totally ordered, the bit string is that of a tree with
    /// one node per cell and the top, every node is well formed, and no node
    /// has two parents.
    pub open spec fn wf(&self) -> bool {
        &&& total_order::<L>()
        &&& valid_lbs(self.bits())
        &&& count_ones(self.bits()) == self.node_count()
        &&& self.node_count() < u64::MAX
        &&& forall|n: int| self.has_node(n) ==> #[trigger] self.wf_at(n)
        &&& forall|m: int, n: int, i: int, j: int|
            self.has_node(m) && self.has_node(n) && 0 <= i < self.children_of(m).len() && 0 <= j
                < self.children_of(n).len() && #[trigger] self.children_of(m)[i] == #[trigger] self.children_of(
                n,
            )[j] ==> m == n && i == j
    }

    /// The child of node `n` whose cell is the label `label`, if there is one.
    pub open spec fn find_child(&self, n: int, label: L) -> Option<int> {
        let cs = self.children_of(n);
        if exists|i: int| 0 <= i < cs.len() && self.cell_of(#[trigger] cs[i] as int) == TrieLabel::<L, V>::Label(label) {
            Some(
                cs[choose|i: int| 0 <= i < cs.len() && self.cell_of(#[trigger] cs[i] as int) == TrieLabel::<L, V>::Label(label)] as int,
            )
        } else {
            None
        }
    }

    /// The value in front of the children of node `n`, if there is one.
    pub open spec fn value_below(&self, n: int) -> Option<V> {
        let cs = self.children_of(n);
        if cs.len() > 0 && self.cell_of(cs[0] as int) is Value {
            Some(self.cell_of(cs[0] as int)->Value_0)
        } else {
            None
        }
    }

    /// The node reached from node `n` along the labels of `key`, if all of
    /// them are found.
    pub open spec fn descend(&self, n: int, key: Seq<L>) -> Option<int>
        decreases key.len(),
    {
        if key.len() == 0 {
            Some(n)
        } else {
            match self.find_child(n, key[0]) {
                Some(child) => self.descend(child, key.drop_first()),
                None => None,
            }
        }
    }

    /// The value stored for `key` below node `n`.
    pub open spec fn get_from(&self, n: int, key: Seq<L>) -> Option<V> {
        match self.descend(n, key) {
            Some(m) => self.value_below(m),
            None => None,
        }
    }

    /// The value stored for `key`. The empty key has none: no search reports it.
    pub open spec fn get(&self, key: Seq<L>) -> Option<V> {
        if key.len() == 0 {
            None
        } else {
            self.get_from(1, key)
        }
    }

    /// In a well-formed node the child with a given label is the only one.
    pub proof fn lemma_find_child_at(&self, n: int, i: int, label: L)
        requires
            total_order::<L>(),
            self.wf_at(n),
            0 <= i < self.children_of(n).len(),
            self.cell_of(self.children_of(n)[i] as int) == TrieLabel::<L, V>::Label(label),
        ensures
            self.find_child(n, label) == Some(self.children_of(n)[i] as int),
    {
        let cs = self.children_of(n);
        lemma_cell_lt_irreflexive(self.cell_of(cs[i] as int));
    }

    /// What `find_child` yields is one of the children and has the label.
    pub proof fn lemma_find_child_some(&self, n: int, label: L) -> (i: int)
        requires
            self.find_child(n, label) is Some,
        ensures
            0 <= i < self.children_of(n).len(),
            self.cell_of(self.children_of(n)[i] as int) == TrieLabel::<L, V>::Label(label),
            self.find_child(n, label) == Some(self.children_of(n)[i] as int),
    {
        let cs = self.children_of(n);
        choose|k: int| 0 <= k < cs.len() && self.cell_of(#[trigger] cs[k] as int) == TrieLabel::<L, V>::Label(label)
    }

    /// The node that a key leads to from a node is a node, and lies as many
    /// levels below as the key is long.
    pub proof fn lemma_descend_node(&self, n: int, key: Seq<L>)
        requires
            self.wf(),
            self.has_node(n),
            self.descend(n, key) is Some,
        ensures
            self.has_node(self.descend(n, key)->Some_0),
            n + key.len() <= self.descend(n, key)->Some_0,
        decreases key.len(),
    {
        if key.len() > 0 {
            let i = self.lemma_find_child_some(n, key[0]);
            assert(self.wf_at(n));
            let child = self.children_of(n)[i] as int;
            self.lemma_descend_node(child, key.drop_first());
        }
    }

    /// Descending along a key and then along another is descending along
    /// both, joined.
    pub proof fn lemma_descend_add(&self, n: int, first: Seq<L>, second: Seq<L>)
        ensures
            self.descend(n, first + second) == match self.descend(n, first) {
                Some(m) => self.descend(m, second),
                None => None,
            },
        decreases first.len(),
    {
        if first.len() > 0 {
            assert((first + second).drop_first() =~= first.drop_first() + second);
            match self.find_child(n, first[0]) {
                Some(child) => {
                    self.lemma_descend_add(child, first.drop_first(), second);
                },
                None => {},
            }
        }
    }
}

impl<L: Clone, V: Clone> Clone for Trie<L, V> {
    /// A trie of the same shape whose cells are clones of this one's.
    fn clone(&self) -> (copy: Self)
        ensures
            copy.bits() == self.bits(),
            copy.cells().len() == self.cells().len(),
            forall|i: int| 0 <= i < self.cells().len() ==> cell_cloned(self.cells()[i], #[trigger] copy.cells()[i]),
    {
        let trie_labels = self.trie_labels.clone();
        Trie { louds: self.louds.clone(), trie_labels }
    }
}

impl<L: Ord, V> View for Trie<L, V> {
    type V = Map<Seq<L>, V>;

    /// The keys that the searches report, each with its value.
    open spec fn view(&self) -> Map<Seq<L>, V> {
        Map::new(|key: Seq<L>| self.get(key) is Some, |key: Seq<L>| self.get(key)->Some_0)
    }
}

impl<L: Ord, V> Trie<L, V> {
    /// Puts a bit string and a table of cells together.
    pub(crate) fn from_parts(louds_bits: Vec<bool>, trie_labels: Vec<TrieLabel<L, V>>) -> (trie: Self)
        requires
            valid_lbs(louds_bits@),
        ensures
            trie.bits() == louds_bits@,
            trie.cells() == trie_labels@,
    {
        let louds = louds_from_bits(&louds_bits);
        Trie { louds, trie_labels }
    }

    /// The numbers of the children of a node, in order.
    pub(crate) fn children_node_nums(&self, node_num: u64) -> (r: Vec<u64>)
        requires
            self.wf(),
            self.has_node(node_num as int),
        ensures
            r@ == self.children_of(node_num as int),
    {
        louds_child_nodes(&self.louds, node_num)
    }

    /// Whether a node has any child.
    pub(crate) fn has_children_node_nums(&self, node_num: u64) -> (r: bool)
        requires
            self.wf(),
            self.has_node(node_num as int),
        ensures
            r == (self.children_of(node_num as int).len() > 0),
    {
        louds_first_child_index(&self.louds, node_num).is_some()
    }

    /// The place of a node's cell in the table of cells.
    fn cell_index(&self, node_num: u64) -> (r: usize)
        requires
            2 <= node_num <= self.node_count(),
        ensures
            r == node_num - 2,
            r < self.trie_labels@.len(),
    {
        let len = self.trie_labels.len();
        let index = node_num - 2;
        assert(index < len);
        index as usize
    }

    /// The cell of a node below the top.
    pub(crate) fn trie_label(&self, node_num: u64) -> (r: &TrieLabel<L, V>)
        requires
            2 <= node_num <= self.node_count(),
        ensures
            *r == self.cell_of(node_num as int),
    {
        &self.trie_labels[self.cell_index(node_num)]
    }

    /// The label of a node whose cell is a label.
    pub(crate) fn label(&self, node_num: u64) -> (r: &L)
        requires
            2 <= node_num <= self.node_count(),
            self.cell_of(node_num as int) is Label,
        ensures
            TrieLabel::<L, V>::Label(*r) == self.cell_of(node_num as int),
    {
        match &self.trie_labels[self.cell_index(node_num)] {
            TrieLabel::Label(l) => l,
            TrieLabel::Value(_) => vstd::pervasive::unreached(),
        }
    }

    /// Looks for the label `query` among the children of one node, given by
    /// their numbers: `Ok` with the position of the child that carries it, or
    /// `Err` with the position at which such a child would stand. A value
    /// sorts before every label, so it is passed over.
    pub(crate) fn bin_search_by_children_labels(&self, query: &L, children_node_nums: &Vec<u64>) -> (r: Result<usize, usize>)
        requires
            total_order::<L>(),
            forall|i: int| 0 <= i < children_node_nums@.len() ==> 2 <= #[trigger] children_node_nums@[i] <= self.node_count(),
            forall|i: int, j: int|
                0 <= i < j < children_node_nums@.len() ==> cell_lt(
                    self.cell_of(#[trigger] children_node_nums@[i] as int),
                    self.cell_of(#[trigger] children_node_nums@[j] as int),
                ),
        ensures
            match r {
                Ok(j) => j < children_node_nums@.len() && self.cell_of(children_node_nums@[j as int] as int)
                    == TrieLabel::<L, V>::Label(*query),
                Err(j) => {
                    &&& j <= children_node_nums@.len()
                    &&& forall|i: int|
                        0 <= i < j ==> cell_lt(
                            self.cell_of(#[trigger] children_node_nums@[i] as int),
                            TrieLabel::<L, V>::Label(*query),
                        )
                    &&& forall|i: int|
                        j <= i < children_node_nums@.len() ==> cell_lt(
                            TrieLabel::<L, V>::Label(*query),
                            self.cell_of(#[trigger] children_node_nums@[i] as int),
                        )
                },
            },
    {
        let ghost cs = children_node_nums@;
        let ghost target = TrieLabel::<L, V>::Label(*query);
        let mut lo: usize = 0;
        let mut hi: usize = children_node_nums.len();
        while lo < hi
            invariant
                total_order::<L>(),
                cs == children_node_nums@,
                target == TrieLabel::<L, V>::Label(*query),
                forall|i: int| 0 <= i < cs.len() ==> 2 <= #[trigger] cs[i] <= self.node_count(),
                forall|i: int, j: int|
                    0 <= i < j < cs.len() ==> cell_lt(self.cell_of(#[trigger] cs[i] as int), self.cell_of(#[trigger] cs[j] as int)),
                lo <= hi <= cs.len(),
                forall|i: int| 0 <= i < lo ==> cell_lt(self.cell_of(#[trigger] cs[i] as int), target),
                forall|i: int| hi <= i < cs.len() ==> cell_lt(target, self.cell_of(#[trigger] cs[i] as int)),
            decreases hi - lo,
        {
            let mid = lo + (hi - lo) / 2;
            let side = self.trie_label(children_node_nums[mid]).side(query);
            proof {
                lemma_cell_side(self.cell_of(cs[mid as int] as int), *query);
            }
            match side {
                Side::Below => {
                    proof {
                        assert forall|i: int| 0 <= i < mid + 1 implies cell_lt(self.cell_of(#[trigger] cs[i] as int), target) by {
                            if i < mid {
                                lemma_cell_lt_transitive(self.cell_of(cs[i] as int), self.cell_of(cs[mid as int] as int), target);
                            }
                        }
                    }
                    lo = mid + 1;
                },
                Side::Same => {
                    return Ok(mid);
                },
                Side::Above => {
                    proof {
                        assert forall|i: int| mid <= i < cs.len() implies cell_lt(target, self.cell_of(#[trigger] cs[i] as int)) by {
                            if mid < i {
                                lemma_cell_lt_transitive(target, self.cell_of(cs[mid as int] as int), self.cell_of(cs[i] as int));
                            }
                        }
                    }
                    hi = mid;
                },
            }
        }
        Err(lo)
    }

    /// The child of a node that carries the label `query`, if there is one.
    pub(crate) fn child_with_label(&self, node_num: u64, query: &L) -> (r: Option<u64>)
        requires
            self.wf(),
            self.has_node(node_num as int),
        ensures
            r is Some <==> self.find_child(node_num as int, *query) is Some,
            r is Some ==> r->Some_0 as int == self.find_child(node_num as int, *query)->Some_0,
            r is Some ==> self.has_node(r->Some_0 as int) && r->Some_0 > node_num,
    {
        let children = self.children_node_nums(node_num);
        assert(self.wf_at(node_num as int));
        match self.bin_search_by_children_labels(query, &children) {
            Ok(j) => {
                proof {
                    self.lemma_find_child_at(node_num as int, j as int, *query);
                }
                Some(children[j])
            },
            Err(j) => {
                proof {
                    if self.find_child(node_num as int, *query) is Some {
                        let i = self.lemma_find_child_some(node_num as int, *query);
                        lemma_cell_lt_irreflexive(self.cell_of(children@[i] as int));
                    }
                }
                None
            },
        }
    }
}

/// `a` is a prefix of `b`.
pub open spec fn is_prefix_of<L>(a: Seq<L>, b: Seq<L>) -> bool {
    a.len() <= b.len() && b.take(a.len() as int) == a
}

/// The labels that a list of references points to.
pub open spec fn labels_of<L>(refs: Seq<&L>) -> Seq<L> {
    Seq::new(refs.len(), |i: int| *refs[i])
}

/// The keys and values that a list of found entries holds.
pub open spec fn entries_of<L, V>(found: Seq<(Vec<&L>, &V)>) -> Seq<(Seq<L>, V)> {
    Seq::new(found.len(), |i: int| (labels_of(found[i].0@), *found[i].1))
}

impl<L: Ord, V> Trie<L, V> {
    /// Some child of node `n` carries a label.
    pub open spec fn has_label_child(&self, n: int) -> bool {
        exists|i: int| 0 <= i < self.children_of(n).len() && self.cell_of(#[trigger] self.children_of(n)[i] as int) is Label
    }

    /// Some stored key is longer than `key` and begins with it.
    pub open spec fn has_extension(&self, key: Seq<L>) -> bool {
        exists|longer: Seq<L>| #[trigger] self@.dom().contains(longer) && longer.len() > key.len() && is_prefix_of(key, longer)
    }

    /// The stored keys that are prefixes of `query` and no longer than
    /// `upto`, from the shortest to the longest, each with its value.
    pub open spec fn common_prefixes(&self, query: Seq<L>, upto: int) -> Seq<(Seq<L>, V)>
        decreases upto,
    {
        if upto <= 0 {
            Seq::empty()
        } else if self@.dom().contains(query.take(upto)) {
            self.common_prefixes(query, upto - 1).push((query.take(upto), self@[query.take(upto)]))
        } else {
            self.common_prefixes(query, upto - 1)
        }
    }

    /// Below a node that has children, some key is stored; below a node
    /// whose first child is a label, a key that is not empty.
    pub proof fn lemma_key_below(&self, n: int) -> (key: Seq<L>)
        requires
            self.wf(),
            self.has_node(n),
            self.children_of(n).len() > 0,
        ensures
            self.get_from(n, key) is Some,
            self.value_below(n) is None ==> key.len() > 0,
        decreases self.node_count() - n,
    {
        assert(self.wf_at(n));
        let cs = self.children_of(n);
        let first = cs[0] as int;
        match self.cell_of(first) {
            TrieLabel::Value(_) => Seq::empty(),
            TrieLabel::Label(label) => {
                assert(self.wf_at(first));
                let rest = self.lemma_key_below(first);
                self.lemma_find_child_at(n, 0, label);
                let key = seq![label] + rest;
                assert(key.drop_first() =~= rest);
                key
            },
        }
    }

    /// A child that carries a label has a key stored below it, and with it
    /// its parent has a key below it that begins with this label.
    pub proof fn lemma_key_through(&self, n: int, i: int) -> (key: Seq<L>)
        requires
            self.wf(),
            self.has_node(n),
            0 <= i < self.children_of(n).len(),
            self.cell_of(self.children_of(n)[i] as int) is Label,
        ensures
            key.len() > 0,
            self.get_from(n, key) is Some,
            self.cell_of(self.children_of(n)[i] as int) == TrieLabel::<L, V>::Label(key[0]),
    {
        assert(self.wf_at(n));
        let child = self.children_of(n)[i] as int;
        assert(self.wf_at(child));
        let label = self.cell_of(child)->Label_0;
        let rest = self.lemma_key_below(child);
        self.lemma_find_child_at(n, i, label);
        let key = seq![label] + rest;
        assert(key.drop_first() =~= rest);
        key
    }

    /// A queried key has an extension among the stored keys exactly if it
    /// leads to a node that has a child with a label.
    pub proof fn lemma_has_extension(&self, key: Seq<L>)
        requires
            self.wf(),
        ensures
            self.has_extension(key) <==> self.descend(1, key) is Some && self.has_label_child(self.descend(1, key)->Some_0),
    {
        if self.has_extension(key) {
            let longer = choose|longer: Seq<L>| #[trigger] self@.dom().contains(longer) && longer.len() > key.len() && is_prefix_of(key, longer);
            let rest = longer.skip(key.len() as int);
            assert(longer =~= key + rest);
            self.lemma_descend_add(1, key, rest);
        }
        if self.descend(1, key) is Some && self.has_label_child(self.descend(1, key)->Some_0) {
            let m = self.descend(1, key)->Some_0;
            self.lemma_descend_node(1, key);
            let i = choose|i: int| 0 <= i < self.children_of(m).len() && self.cell_of(#[trigger] self.children_of(m)[i] as int) is Label;
            let rest = self.lemma_key_through(m, i);
            let longer = key + rest;
            self.lemma_descend_add(1, key, rest);
            assert(longer.take(key.len() as int) =~= key);
            assert(self@.dom().contains(longer));
        }
    }

    /// Descending along one label is finding the child that carries it.
    pub proof fn lemma_descend_one(&self, n: int, label: L)
        ensures
            self.descend(n, seq![label]) == self.find_child(n, label),
    {
        let key = seq![label];
        match self.find_child(n, label) {
            Some(child) => {
                assert(self.descend(child, key.drop_first()) == Some(child));
            },
            None => {},
        }
    }

    /// Where a key leads nowhere, no longer key does either.
    pub proof fn lemma_descend_none(&self, key: Seq<L>, upto: int)
        requires
            0 <= upto <= key.len(),
            self.descend(1, key.take(upto)) is None,
        ensures
            self.descend(1, key) is None,
    {
        assert(key =~= key.take(upto) + key.skip(upto));
        self.lemma_descend_add(1, key.take(upto), key.skip(upto));
    }

    /// Whether a node closes a key: its first child is a value. The top
    /// never does.
    pub(crate) fn is_terminal(&self, node_num: u64) -> (r: bool)
        requires
            self.wf(),
            self.has_node(node_num as int),
        ensures
            r == (node_num >= 2 && self.value_below(node_num as int) is Some),
    {
        self.value(node_num).is_some()
    }

    /// Whether a key goes on below a node: some child carries a label.
    pub(crate) fn is_prefix_node(&self, node_num: u64) -> (r: bool)
        requires
            self.wf(),
            self.has_node(node_num as int),
        ensures
            r == self.has_label_child(node_num as int),
    {
        if !self.has_children_node_nums(node_num) {
            return false;
        }
        let children = self.children_node_nums(node_num);
        assert(self.wf_at(node_num as int));
        let count = children.len();
        let last = children[count - 1];
        match self.trie_label(last) {
            TrieLabel::Label(_) => true,
            TrieLabel::Value(_) => {
                false
            },
        }
    }

    /// The value that a node closes a key with. The top has none.
    pub(crate) fn value(&self, node_num: u64) -> (r: Option<&V>)
        requires
            self.wf(),
            self.has_node(node_num as int),
        ensures
            match r {
                Some(v) => node_num >= 2 && self.value_below(node_num as int) == Some(*v),
                None => !(node_num >= 2 && self.value_below(node_num as int) is Some),
            },
    {
        if node_num < 2 {
            return None;
        }
        let children = self.children_node_nums(node_num);
        assert(self.wf_at(node_num as int));
        if children.len() == 0 {
            return None;
        }
        match self.trie_label(children[0]) {
            TrieLabel::Value(v) => Some(v),
            TrieLabel::Label(_) => None,
        }
    }

    /// The node that `query` leads to, if all its labels are found.
    pub(crate) fn descend_to(&self, query: &[L]) -> (r: Option<u64>)
        requires
            self.wf(),
        ensures
            r is Some <==> self.descend(1, query@) is Some,
            r is Some ==> r->Some_0 as int == self.descend(1, query@)->Some_0 && self.has_node(r->Some_0 as int),
            r is Some ==> (r->Some_0 >= 2 <==> query@.len() > 0),
    {
        let mut cur_node_num: u64 = 1;
        let mut i: usize = 0;
        proof {
            assert(query@.skip(0) =~= query@);
        }
        while i < query.len()
            invariant
                self.wf(),
                i <= query@.len(),
                self.has_node(cur_node_num as int),
                self.descend(1, query@) == self.descend(cur_node_num as int, query@.skip(i as int)),
                cur_node_num >= 2 <==> i > 0,
            decreases query@.len() - i,
        {
            proof {
                assert(query@.skip(i as int).drop_first() =~= query@.skip(i + 1));
            }
            match self.child_with_label(cur_node_num, &query[i]) {
                Some(child) => {
                    cur_node_num = child;
                },
                None => {
                    return None;
                },
            }
            i += 1;
        }
        Some(cur_node_num)
    }

    /// The node that closes the key `query`, if the key is stored.
    pub(crate) fn exact_match_node(&self, query: &[L]) -> (r: Option<u64>)
        requires
            self.wf(),
        ensures
            r is Some <==> self@.dom().contains(query@),
            r is Some ==> self.has_node(r->Some_0 as int) && r->Some_0 >= 2 && self.descend(1, query@) == Some(r->Some_0 as int),
    {
        match self.descend_to(query) {
            Some(node_num) => {
                if self.is_terminal(node_num) {
                    Some(node_num)
                } else {
                    None
                }
            },
            None => None,
        }
    }

    /// The value stored for `query`, if the key is stored.
    pub fn exact_match(&self, query: &[L]) -> (r: Option<&V>)
        requires
            self.wf(),
        ensures
            match r {
                Some(v) => self@.dom().contains(query@) && *v == self@[query@],
                None => !self@.dom().contains(query@),
            },
    {
        match self.exact_match_node(query) {
            Some(node_num) => self.value(node_num),
            None => None,
        }
    }

    /// Whether some stored key is longer than `query` and begins with it.
    pub fn is_prefix(&self, query: &[L]) -> (r: bool)
        requires
            self.wf(),
        ensures
            r == self.has_extension(query@),
    {
        proof {
            self.lemma_has_extension(query@);
        }
        match self.descend_to(query) {
            Some(node_num) => self.is_prefix_node(node_num),
            None => false,
        }
    }

    /// Lists the stored keys that are prefixes of `query`, from the shortest
    /// to the longest, each with its value.
    pub fn common_prefix_search<'a, 'q>(&'a self, query: &'q [L]) -> (r: PrefixIter<'a, 'q, L, V>)
        requires
            self.wf(),
        ensures
            r.wf(),
            r.trie() == *self,
            r.remaining() == self.common_prefixes(query@, query@.len() as int),
            lengthening(r.remaining()),
            forall|key: Seq<L>, value: V| #[trigger]
                r.remaining().contains((key, value)) <==> self@.contains_pair(key, value) && is_prefix_of(key, query@),
    {
        proof {
            self.lemma_common_prefixes(query@, query@.len() as int);
        }
        PrefixIter::new(self, query)
    }

    /// The common prefixes up to a length stay in front as the length grows.
    pub proof fn lemma_common_prefixes_grow(&self, query: Seq<L>, shorter: int, longer: int)
        requires
            0 <= shorter <= longer,
        ensures
            self.common_prefixes(query, shorter).len() <= self.common_prefixes(query, longer).len(),
            self.common_prefixes(query, shorter) == self.common_prefixes(query, longer).take(
                self.common_prefixes(query, shorter).len() as int,
            ),
        decreases longer - shorter,
    {
        if shorter < longer {
            self.lemma_common_prefixes_grow(query, shorter, longer - 1);
        }
    }

    /// Past a prefix that leads nowhere there are no common prefixes.
    pub proof fn lemma_common_prefixes_end(&self, query: Seq<L>, reached: int, upto: int)
        requires
            0 <= reached < upto <= query.len(),
            self.descend(1, query.take(reached + 1)) is None,
        ensures
            self.common_prefixes(query, upto) == self.common_prefixes(query, reached),
        decreases upto - reached,
    {
        assert(query.take(upto).take(reached + 1) =~= query.take(reached + 1));
        self.lemma_descend_none(query.take(upto), reached + 1);
        if upto > reached + 1 {
            self.lemma_common_prefixes_end(query, reached, upto - 1);
        }
    }
}

/// Every key of `entries` with `prefix` put in front.
pub open spec fn prepend_all<L, V>(prefix: Seq<L>, entries: Seq<(Seq<L>, V)>) -> Seq<(Seq<L>, V)> {
    Seq::new(entries.len(), |i: int| (prefix + entries[i].0, entries[i].1))
}

/// Putting two prefixes in front, one after the other, is putting both in
/// front, joined.
pub proof fn lemma_prepend_all_twice<L, V>(outer: Seq<L>, inner: Seq<L>, entries: Seq<(Seq<L>, V)>)
    ensures
        prepend_all(outer, prepend_all(inner, entries)) == prepend_all(outer + inner, entries),
{
    assert forall|i: int| 0 <= i < entries.len() implies outer + (inner + entries[i].0) == (outer + inner) + entries[i].0 by {
    }
}

impl<L: Ord, V> Trie<L, V> {
    /// The keys stored below node `n` that pass through its children from
    /// place `from` on, each with its value: for each child in order, the
    /// empty key if it is a value, else its label followed by each key
    /// stored below it.
    pub open spec fn entries_from(&self, n: int, from: int) -> Seq<(Seq<L>, V)>
        decreases self.node_count() - n, self.children_of(n).len() - from,
    {
        let cs = self.children_of(n);
        if !self.has_node(n) || from < 0 || from >= cs.len() {
            Seq::empty()
        } else {
            let c = cs[from] as int;
            let here = if !(n < c <= self.node_count()) {
                Seq::empty()
            } else {
                match self.cell_of(c) {
                    TrieLabel::Value(v) => seq![(Seq::<L>::empty(), v)],
                    TrieLabel::Label(label) => prepend_all(seq![label], self.entries_from(c, 0)),
                }
            };
            here + self.entries_from(n, from + 1)
        }
    }

    /// The place of the first child of node `n` that is not a value.
    pub open spec fn first_label_place(&self, n: int) -> int {
        if self.value_below(n) is Some {
            1
        } else {
            0
        }
    }

    /// What follows node `n` in the stored keys that pass through it and go
    /// on, in order, each with the value of its key.
    pub open spec fn suffixes(&self, n: int) -> Seq<(Seq<L>, V)> {
        self.entries_from(n, self.first_label_place(n))
    }

    /// The stored keys that begin with `query`, in order, each with its
    /// value: `query` itself if it is stored, then those that go on.
    pub open spec fn predictions(&self, query: Seq<L>) -> Seq<(Seq<L>, V)> {
        match self.descend(1, query) {
            Some(m) => (if self.get(query) is Some {
                seq![(query, self.get(query)->Some_0)]
            } else {
                Seq::empty()
            }) + prepend_all(query, self.suffixes(m)),
            None => Seq::empty(),
        }
    }

    /// What follows `query` in the stored keys that begin with it and are
    /// longer, in order, each with the value of its key.
    pub open spec fn postfixes(&self, query: Seq<L>) -> Seq<(Seq<L>, V)> {
        match self.descend(1, query) {
            Some(m) => self.suffixes(m),
            None => Seq::empty(),
        }
    }

    /// The node that `query` leads to, with the labels on the way.
    pub(crate) fn path_to<'a>(&'a self, query: &[L]) -> (r: Option<(u64, Vec<&'a L>)>)
        requires
            self.wf(),
        ensures
            r is Some <==> self.descend(1, query@) is Some,
            r is Some ==> {
                &&& r->Some_0.0 as int == self.descend(1, query@)->Some_0
                &&& self.has_node(r->Some_0.0 as int)
                &&& labels_of(r->Some_0.1@) == query@
                &&& r->Some_0.0 >= 2 <==> query@.len() > 0
            },
    {
        let mut path: Vec<&'a L> = Vec::new();
        let mut cur_node_num: u64 = 1;
        let mut i: usize = 0;
        proof {
            assert(query@.skip(0) =~= query@);
        }
        while i < query.len()
            invariant
                self.wf(),
                i <= query@.len(),
                self.has_node(cur_node_num as int),
                self.descend(1, query@) == self.descend(cur_node_num as int, query@.skip(i as int)),
                path@.len() == i,
                labels_of(path@) == query@.take(i as int),
                cur_node_num >= 2 <==> i > 0,
            decreases query@.len() - i,
        {
            proof {
                assert(query@.skip(i as int).drop_first() =~= query@.skip(i + 1));
            }
            match self.child_with_label(cur_node_num, &query[i]) {
                Some(child) => {
                    cur_node_num = child;
                    let label = self.label(child);
                    path.push(label);
                },
                None => {
                    return None;
                },
            }
            i += 1;
        }
        Some((cur_node_num, path))
    }

    /// The place of the first child of a node that is not a value.
    pub(crate) fn first_label_index(&self, node_num: u64) -> (r: usize)
        requires
            self.wf(),
            self.has_node(node_num as int),
        ensures
            r == self.first_label_place(node_num as int),
    {
        let children = self.children_node_nums(node_num);
        assert(self.wf_at(node_num as int));
        if children.len() == 0 {
            return 0;
        }
        match self.trie_label(children[0]) {
            TrieLabel::Value(_) => 1,
            TrieLabel::Label(_) => 0,
        }
    }

    /// Lists the stored keys that begin with `query`, in order, each with
    /// its value.
    pub fn predictive_search<'a>(&'a self, query: &[L]) -> (r: SearchIter<'a, L, V>)
        requires
            self.wf(),
        ensures
            r.wf(),
            r.trie() == *self,
            r.remaining() == self.predictions(query@),
            ascending(r.remaining()),
            forall|key: Seq<L>, value: V| #[trigger]
                r.remaining().contains((key, value)) <==> self@.contains_pair(key, value) && is_prefix_of(query@, key),
    {
        proof {
            self.lemma_predictions(query@);
        }
        match self.path_to(query) {
            Some((node_num, path)) => {
                let head = match self.value(node_num) {
                    Some(v) => Some((path.clone(), v)),
                    None => None,
                };
                let from = self.first_label_index(node_num);
                SearchIter::new(head, PostfixIter::new(self, node_num, from, path))
            },
            None => SearchIter::new(None, PostfixIter::empty(self)),
        }
    }

    /// Lists what follows `query` in the stored keys that begin with it and
    /// are longer, in order, each with the value of its key.
    pub fn postfix_search<'a>(&'a self, query: &[L]) -> (r: PostfixIter<'a, L, V>)
        requires
            self.wf(),
        ensures
            r.wf(),
            r.trie() == *self,
            r.remaining() == self.postfixes(query@),
            ascending(r.remaining()),
            forall|suffix: Seq<L>, value: V| #[trigger]
                r.remaining().contains((suffix, value)) <==> suffix.len() > 0 && self@.contains_pair(query@ + suffix, value),
    {
        proof {
            self.lemma_postfixes(query@);
        }
        match self.descend_to(query) {
            Some(node_num) => {
                let path: Vec<&'a L> = Vec::new();
                let from = self.first_label_index(node_num);
                proof {
                    let suffixes = self.suffixes(node_num as int);
                    assert(labels_of(path@) =~= Seq::<L>::empty());
                    assert(prepend_all(Seq::<L>::empty(), suffixes) =~= suffixes);
                }
                PostfixIter::new(self, node_num, from, path)
            },
            None => PostfixIter::empty(self),
        }
    }
}

impl<L: Ord, V> Trie<L, V> {
    /// How many labels of `key`, from the first on, are found one below the
    /// other from node `n` on.
    pub open spec fn matched_from(&self, n: int, key: Seq<L>) -> int
        decreases key.len(),
    {
        if key.len() == 0 {
            0
        } else {
            match self.find_child(n, key[0]) {
                Some(child) => 1 + self.matched_from(child, key.drop_first()),
                None => 0,
            }
        }
    }

    /// How many labels of `query`, from the first on, lead down from the top.
    pub open spec fn matched(&self, query: Seq<L>) -> int {
        self.matched_from(1, query)
    }

    /// The labels of `query` that lead down from the top: all of it up to
    /// the first label that is not found.
    pub open spec fn walked(&self, query: Seq<L>) -> Seq<L> {
        query.take(self.matched(query))
    }

    /// The empty key was stored: a value stands in front of the children of
    /// the top. No search reports it, but a walk down from the top ends there.
    pub open spec fn holds_empty_key(&self) -> bool {
        self.value_below(1) is Some
    }

    /// The labels that follow node `n` as long as there is no choice: no key
    /// ends at the node and it has exactly one child.
    pub open spec fn unique_path(&self, n: int) -> Seq<L>
        decreases self.node_count() - n,
    {
        let cs = self.children_of(n);
        if !self.has_node(n) || self.value_below(n) is Some || cs.len() != 1 {
            Seq::empty()
        } else {
            let c = cs[0] as int;
            if n < c <= self.node_count() && self.cell_of(c) is Label {
                seq![self.cell_of(c)->Label_0] + self.unique_path(c)
            } else {
                Seq::empty()
            }
        }
    }

    /// The labels of `query` that lead down from the top, carried on as far
    /// as there is no choice; nothing if that is empty.
    pub open spec fn longest_prefix_of(&self, query: Seq<L>) -> Option<Seq<L>> {
        match self.descend(1, self.walked(query)) {
            Some(m) => if (self.walked(query) + self.unique_path(m)).len() == 0 {
                None
            } else {
                Some(self.walked(query) + self.unique_path(m))
            },
            None => None,
        }
    }

    /// The node that the labels of `query` lead to up to the first that is
    /// not found, with the labels on the way.
    pub(crate) fn path_along<'a>(&'a self, query: &[L]) -> (r: (u64, Vec<&'a L>))
        requires
            self.wf(),
        ensures
            0 <= self.matched(query@) <= query@.len(),
            self.descend(1, self.walked(query@)) == Some(r.0 as int),
            self.has_node(r.0 as int),
            labels_of(r.1@) == self.walked(query@),
    {
        let mut path: Vec<&'a L> = Vec::new();
        let mut cur_node_num: u64 = 1;
        let mut i: usize = 0;
        proof {
            assert(query@.skip(0) =~= query@);
            assert(query@.take(0) =~= Seq::<L>::empty());
            assert(labels_of(path@) =~= query@.take(0));
        }
        while i < query.len()
            invariant
                self.wf(),
                i <= query@.len(),
                self.has_node(cur_node_num as int),
                self.descend(1, query@.take(i as int)) == Some(cur_node_num as int),
                self.matched(query@) == i + self.matched_from(cur_node_num as int, query@.skip(i as int)),
                path@.len() == i,
                labels_of(path@) == query@.take(i as int),
            ensures
                i <= query@.len(),
                self.has_node(cur_node_num as int),
                self.descend(1, query@.take(i as int)) == Some(cur_node_num as int),
                self.matched(query@) == i,
                labels_of(path@) == query@.take(i as int),
            decreases query@.len() - i,
        {
            let ghost rest = query@.skip(i as int);
            proof {
                assert(rest[0] == query@[i as int]);
                assert(rest.drop_first() =~= query@.skip(i + 1));
                assert(query@.take(i + 1) =~= query@.take(i as int) + seq![query@[i as int]]);
                self.lemma_descend_add(1, query@.take(i as int), seq![query@[i as int]]);
                self.lemma_descend_one(cur_node_num as int, query@[i as int]);
            }
            match self.child_with_label(cur_node_num, &query[i]) {
                Some(child) => {
                    let ghost before = path@;
                    proof {
                        let k = self.lemma_find_child_some(cur_node_num as int, query@[i as int]);
                        assert(self.cell_of(child as int) == TrieLabel::<L, V>::Label(query@[i as int]));
                        assert(self.matched_from(cur_node_num as int, rest) == 1 + self.matched_from(child as int, rest.drop_first()));
                    }
                    cur_node_num = child;
                    let label = self.label(child);
                    path.push(label);
                    proof {
                        assert(*label == query@[i as int]);
                        assert(labels_of(path@) =~= labels_of(before).push(*label));
                        assert(labels_of(path@) =~= query@.take(i + 1));
                    }
                },
                None => {
                    proof {
                        assert(self.matched_from(cur_node_num as int, rest) == 0);
                    }
                    break ;
                },
            }
            i += 1;
        }
        proof {
            if i == query@.len() {
                assert(query@.skip(i as int).len() == 0);
                assert(self.matched_from(cur_node_num as int, query@.skip(i as int)) == 0);
            }
        }
        (cur_node_num, path)
    }

    /// The labels of `query` that lead down from the top, carried on as far
    /// as there is no choice. A label of `query` that is not found ends the
    /// walk along `query`; the walk then goes on from where it stands, as
    /// long as no key ends there and there is exactly one child to go to.
    /// Nothing is given if no label was passed on the way.
    pub fn longest_prefix<'a>(&'a self, query: &[L]) -> (r: Option<Vec<&'a L>>)
        requires
            self.wf(),
        ensures
            0 <= self.matched(query@) <= query@.len(),
            forall|i: int|
                1 <= i <= query@.len() ==> (i <= self.matched(query@) <==> self.has_key_with_prefix(#[trigger] query@.take(i))),
            match r {
                Some(path) => {
                    &&& self.longest_prefix_of(query@) == Some(labels_of(path@))
                    &&& path@.len() > 0
                    &&& is_prefix_of(self.walked(query@), labels_of(path@))
                    &&& self.has_key_with_prefix(labels_of(path@))
                    &&& self.common_to(self.walked(query@), labels_of(path@))
                    &&& self@.dom().contains(labels_of(path@)) || self.branches_at(labels_of(path@))
                    &&& self.matched(query@) > 0 || !self.holds_empty_key()
                },
                None => {
                    &&& self.longest_prefix_of(query@) is None
                    &&& self.matched(query@) == 0
                    &&& !self.has_key_with_prefix(Seq::<L>::empty()) || self.holds_empty_key() || self.branches_at(
                        Seq::<L>::empty(),
                    )
                },
            },
    {
        proof {
            self.lemma_matched(query@);
            self.lemma_longest_prefix(query@);
        }
        let (start, mut path) = self.path_along(query);
        let mut cur_node_num = start;
        let ghost whole = self.walked(query@) + self.unique_path(start as int);
        loop
            invariant
                self.wf(),
                self.has_node(cur_node_num as int),
                labels_of(path@) + self.unique_path(cur_node_num as int) == whole,
            ensures
                labels_of(path@) == whole,
            decreases self.node_count() - cur_node_num,
        {
            let ghost n = cur_node_num as int;
            let ghost so_far = labels_of(path@);
            let children = self.children_node_nums(cur_node_num);
            assert(self.wf_at(n));
            if children.len() != 1 {
                proof {
                    assert(self.unique_path(n) =~= Seq::<L>::empty());
                    assert(so_far + Seq::<L>::empty() =~= so_far);
                }
                break ;
            }
            let child = children[0];
            match self.trie_label(child) {
                TrieLabel::Value(_) => {
                    proof {
                        assert(self.value_below(n) is Some);
                        assert(self.unique_path(n) =~= Seq::<L>::empty());
                        assert(so_far + Seq::<L>::empty() =~= so_far);
                    }
                    break ;
                },
                TrieLabel::Label(label) => {
                    path.push(label);
                    proof {
                        assert(self.value_below(n) is None);
                        assert(self.unique_path(n) == seq![*label] + self.unique_path(child as int));
                        assert(labels_of(path@) =~= so_far + seq![*label]);
                        assert(labels_of(path@) + self.unique_path(child as int) =~= so_far + self.unique_path(n));
                    }
                    cur_node_num = child;
                },
            }
        }
        if path.len() == 0 {
            None
        } else {
            Some(path)
        }
    }
}

impl<L: Ord, V> Trie<L, V> {
    /// `self` with the value `value` in the cell of node `c`.
    pub open spec fn holds_value_at(&self, before: Self, c: int, value: V) -> bool {
        &&& self.bits() == before.bits()
        &&& self.cells() == before.cells().update(c - 2, TrieLabel::Value(value))
    }

    /// A new value in a cell that held a value leaves the trie well formed
    /// and every key where it led.
    pub proof fn lemma_new_value_descend(&self, before: Self, c: int, value: V, n: int, key: Seq<L>)
        requires
            before.wf(),
            self.holds_value_at(before, c, value),
            2 <= c <= before.node_count(),
            before.cell_of(c) is Value,
            before.has_node(n),
        ensures
            self.descend(n, key) == before.descend(n, key),
        decreases key.len(),
    {
        if key.len() > 0 {
            let label = key[0];
            assert(before.wf_at(n));
            let cs = before.children_of(n);
            if before.find_child(n, label) is Some {
                let i = before.lemma_find_child_some(n, label);
                self.lemma_find_child_at(n, i, label);
                self.lemma_new_value_descend(before, c, value, cs[i] as int, key.drop_first());
            }
        }
    }

    /// A new value in a cell that held a value leaves the trie well formed.
    pub proof fn lemma_new_value_wf(&self, before: Self, c: int, value: V)
        requires
            before.wf(),
            self.holds_value_at(before, c, value),
            2 <= c <= before.node_count(),
            before.cell_of(c) is Value,
        ensures
            self.wf(),
            forall|n: int| 2 <= n <= before.node_count() && n != c ==> #[trigger] self.cell_of(n) == before.cell_of(n),
            self.cell_of(c) == TrieLabel::<L, V>::Value(value),
    {
        assert forall|m: int, n: int, i: int, j: int|
            self.has_node(m) && self.has_node(n) && 0 <= i < self.children_of(m).len() && 0 <= j < self.children_of(n).len()
                && #[trigger] self.children_of(m)[i] == #[trigger] self.children_of(n)[j] implies m == n && i == j by {
            assert(before.children_of(m)[i] == before.children_of(n)[j]);
        }
        assert forall|n: int| self.has_node(n) implies #[trigger] self.wf_at(n) by {
            assert(before.wf_at(n));
        }
    }

    /// Two keys that lead to the same node are the same key.
    pub proof fn lemma_descend_injective(&self, a: Seq<L>, b: Seq<L>)
        requires
            self.wf(),
            self.descend(1, a) is Some,
            self.descend(1, a) == self.descend(1, b),
        ensures
            a == b,
        decreases a.len(),
    {
        self.lemma_descend_node(1, a);
        self.lemma_descend_node(1, b);
        if a.len() > 0 && b.len() > 0 {
            let a0 = a.drop_last();
            let b0 = b.drop_last();
            assert(a =~= a0 + seq![a.last()]);
            assert(b =~= b0 + seq![b.last()]);
            self.lemma_descend_add(1, a0, seq![a.last()]);
            self.lemma_descend_add(1, b0, seq![b.last()]);
            let pa = self.descend(1, a0)->Some_0;
            let pb = self.descend(1, b0)->Some_0;
            self.lemma_descend_node(1, a0);
            self.lemma_descend_node(1, b0);
            self.lemma_descend_one(pa, a.last());
            self.lemma_descend_one(pb, b.last());
            self.lemma_descend_injective(a0, b0);
        }
    }

    /// A new value for a stored key changes what the trie maps this key to,
    /// and nothing else.
    pub proof fn lemma_new_value_view(&self, before: Self, key: Seq<L>, value: V)
        requires
            before.wf(),
            before@.dom().contains(key),
            self.holds_value_at(before, before.children_of(before.descend(1, key)->Some_0)[0] as int, value),
        ensures
            self.wf(),
            self@ == before@.insert(key, value),
    {
        let m = before.descend(1, key)->Some_0;
        before.lemma_descend_node(1, key);
        assert(before.wf_at(m));
        let c = before.children_of(m)[0] as int;
        self.lemma_new_value_wf(before, c, value);
        assert forall|other: Seq<L>| #[trigger] self.get(other) == if other == key {
            Some(value)
        } else {
            before.get(other)
        } by {
            self.lemma_new_value_descend(before, c, value, 1, other);
            if other.len() > 0 && before.descend(1, other) is Some {
                let n = before.descend(1, other)->Some_0;
                before.lemma_descend_node(1, other);
                assert(before.wf_at(n));
                if other != key {
                    if n == m {
                        before.lemma_descend_injective(other, key);
                    }
                }
            }
        }
    }

    /// The value that a node closes a key with, for writing.
    pub(crate) fn value_mut(&mut self, node_num: u64) -> (r: Option<&mut V>)
        requires
            old(self).wf(),
            old(self).has_node(node_num as int),
        ensures
            match r {
                Some(v) => {
                    &&& node_num >= 2
                    &&& old(self).value_below(node_num as int) == Some(*v)
                    &&& final(self).holds_value_at(*old(self), old(self).children_of(node_num as int)[0] as int, *final(v))
                },
                None => {
                    &&& !(node_num >= 2 && old(self).value_below(node_num as int) is Some)
                    &&& final(self).bits() == old(self).bits()
                    &&& final(self).cells() == old(self).cells()
                },
            },
    {
        if node_num < 2 {
            return None;
        }
        let children = self.children_node_nums(node_num);
        assert(self.wf_at(node_num as int));
        if children.len() == 0 {
            return None;
        }
        let index = self.cell_index(children[0]);
        match &mut self.trie_labels[index] {
            TrieLabel::Value(v) => Some(v),
            TrieLabel::Label(_) => {
                None
            },
        }
    }

    /// The value stored for `query`, for writing, if the key is stored.
    pub fn exact_match_mut(&mut self, query: &[L]) -> (r: Option<&mut V>)
        requires
            old(self).wf(),
        ensures
            final(self).wf(),
            match r {
                Some(v) => {
                    &&& old(self)@.dom().contains(query@)
                    &&& *v == old(self)@[query@]
                    &&& final(self)@ == old(self)@.insert(query@, *final(v))
                },
                None => {
                    &&& !old(self)@.dom().contains(query@)
                    &&& final(self).bits() == old(self).bits()
                    &&& final(self).cells() == old(self).cells()
                },
            },
    {
        let ghost before = *self;
        let ghost after = *final(self);
        match self.exact_match_node(query) {
            Some(node_num) => {
                let r = self.value_mut(node_num);
                proof {
                    if r is Some {
                        after.lemma_new_value_view(before, query@, *final(r->Some_0));
                    }
                }
                r
            },
            None => None,
        }
    }
}

} // verus!
