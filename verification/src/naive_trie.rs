//! The pointer-based trie that keys are collected in before they are
//! laid out succinctly.

use crate::label::{cell_lt, lemma_cell_lt_irreflexive, lemma_cell_lt_transitive, lemma_cell_side, TrieLabel};
use crate::order::{total_order, Side};
use vstd::prelude::*;

verus! {

/// The top of a trie: it carries no cell of its own.
#[derive(Debug)]
pub struct NaiveTrieRoot<Label, Value> {
    /// The cells below, in cell order.
    pub children: Vec<NaiveTrie<Label, Value>>,
}

/// A node with a cell: a label with the cells that follow it, or a value.
#[derive(Debug)]
pub struct NaiveTrieIntermOrLeaf<Label, Value> {
    /// The cells below, in cell order.
    pub children: Vec<NaiveTrie<Label, Value>>,
    /// The cell of this node.
    pub label: TrieLabel<Label, Value>,
}

/// A node of the trie under construction.
#[derive(Debug)]
pub enum NaiveTrie<Label, Value> {
    /// The top of the trie.
    Root(NaiveTrieRoot<Label, Value>),
    /// Any node below the top.
    IntermOrLeaf(NaiveTrieIntermOrLeaf<Label, Value>),
    /// Not a node: the mark that closes a list of siblings when the trie is
    /// walked level by level. It is never stored in a trie.
    PhantomSibling,
}

/// Cells of siblings strictly ascend: at most one value, in front, then
/// labels without repetition.
pub open spec fn sorted_cells<L: Ord, V>(ks: Seq<NaiveTrie<L, V>>) -> bool {
    forall|i: int, j: int| 0 <= i < j < ks.len() ==> cell_lt(#[trigger] ks[i].cell(), #[trigger] ks[j].cell())
}

/// A list of siblings is in order and each of them is a well-formed node.
pub open spec fn wf_kids<L: Ord, V>(ks: Seq<NaiveTrie<L, V>>) -> bool {
    &&& sorted_cells(ks)
    &&& forall|i: int| 0 <= i < ks.len() ==> (#[trigger] ks[i]) is IntermOrLeaf && ks[i].wf_node()
}

/// The sibling whose cell is the label `label`, if there is one.
pub open spec fn find<L: Ord, V>(ks: Seq<NaiveTrie<L, V>>, label: L) -> Option<NaiveTrie<L, V>> {
    if exists|i: int| 0 <= i < ks.len() && (#[trigger] ks[i]).cell() == TrieLabel::<L, V>::Label(label) {
        Some(ks[choose|i: int| 0 <= i < ks.len() && (#[trigger] ks[i]).cell() == TrieLabel::<L, V>::Label(label)])
    } else {
        None
    }
}

/// The value that a list of siblings holds in front, if it holds one.
pub open spec fn terminal_value<L: Ord, V>(ks: Seq<NaiveTrie<L, V>>) -> Option<V> {
    if ks.len() > 0 && ks[0].cell() is Value {
        Some(ks[0].cell()->Value_0)
    } else {
        None
    }
}

/// The value stored for `key` below a node whose children are `ks`.
pub open spec fn get_in<L: Ord, V>(ks: Seq<NaiveTrie<L, V>>, key: Seq<L>) -> Option<V>
    decreases key.len(),
{
    if key.len() == 0 {
        terminal_value(ks)
    } else {
        match find(ks, key[0]) {
            Some(child) => get_in(child.kids(), key.drop_first()),
            None => None,
        }
    }
}

impl<L, V> NaiveTrie<L, V> {
    /// The children of this node; a sibling mark has none.
    pub open spec fn kids(self) -> Seq<Self> {
        match self {
            NaiveTrie::Root(node) => node.children@,
            NaiveTrie::IntermOrLeaf(node) => node.children@,
            NaiveTrie::PhantomSibling => Seq::empty(),
        }
    }

    /// The cell of a node below the top.
    pub open spec fn cell(self) -> TrieLabel<L, V> {
        self->IntermOrLeaf_0.label
    }
}

impl<L: Ord, V> NaiveTrie<L, V> {
    /// This node and all below it are real nodes with their children in
    /// order; a value has no children, and a label has some.
    pub open spec fn wf_node(self) -> bool
        decreases self,
    {
        &&& !(self is PhantomSibling)
        &&& sorted_cells(self.kids())
        &&& forall|i: int| 0 <= i < self.kids().len() ==> (#[trigger] self.kids()[i]) is IntermOrLeaf && self.kids()[i].wf_node()
        &&& (self is IntermOrLeaf && self.cell() is Value ==> self.kids().len() == 0)
        &&& (self is IntermOrLeaf && self.cell() is Label ==> self.kids().len() > 0)
    }

    /// This is the top of a well-formed trie whose labels are totally ordered.
    pub open spec fn wf(self) -> bool {
        &&& total_order::<L>()
        &&& self is Root
        &&& self.wf_node()
    }

    /// The value stored for `key` below this node.
    pub open spec fn get(self, key: Seq<L>) -> Option<V> {
        get_in(self.kids(), key)
    }
}

impl<L: Ord, V> View for NaiveTrie<L, V> {
    type V = Map<Seq<L>, V>;

    /// The keys stored below this node, each with its value.
    open spec fn view(&self) -> Map<Seq<L>, V> {
        Map::new(|key: Seq<L>| self.get(key) is Some, |key: Seq<L>| self.get(key)->Some_0)
    }
}

/// In an ordered list the sibling with a given label is the only one.
pub proof fn lemma_find_at<L: Ord, V>(ks: Seq<NaiveTrie<L, V>>, i: int, label: L)
    requires
        total_order::<L>(),
        sorted_cells(ks),
        0 <= i < ks.len(),
        ks[i].cell() == TrieLabel::<L, V>::Label(label),
    ensures
        find(ks, label) == Some(ks[i]),
{
    lemma_cell_lt_irreflexive(ks[i].cell());
}

/// What `find` yields is one of the siblings and has the label.
pub proof fn lemma_find_some<L: Ord, V>(ks: Seq<NaiveTrie<L, V>>, label: L) -> (i: int)
    requires
        find(ks, label) is Some,
    ensures
        0 <= i < ks.len(),
        ks[i].cell() == TrieLabel::<L, V>::Label(label),
        find(ks, label) == Some(ks[i]),
{
    choose|k: int| 0 <= k < ks.len() && (#[trigger] ks[k]).cell() == TrieLabel::<L, V>::Label(label)
}

/// Replacing a sibling by one with the same cell, or a value by a value,
/// changes `find` only for the label of that cell.
pub proof fn lemma_find_update<L: Ord, V>(ks: Seq<NaiveTrie<L, V>>, j: int, node: NaiveTrie<L, V>, label: L)
    requires
        total_order::<L>(),
        sorted_cells(ks),
        sorted_cells(ks.update(j, node)),
        0 <= j < ks.len(),
        node.cell() == ks[j].cell() || (node.cell() is Value && ks[j].cell() is Value),
    ensures
        find(ks.update(j, node), label) == if ks[j].cell() == TrieLabel::<L, V>::Label(label) {
            Some(node)
        } else {
            find(ks, label)
        },
{
    let after = ks.update(j, node);
    if ks[j].cell() == TrieLabel::<L, V>::Label(label) {
        lemma_find_at(after, j, label);
    } else if find(ks, label) is Some {
        let i = lemma_find_some(ks, label);
        lemma_find_at(after, i, label);
    }
}

/// Inserting a sibling changes `find` only for its own label.
pub proof fn lemma_find_insert<L: Ord, V>(ks: Seq<NaiveTrie<L, V>>, j: int, node: NaiveTrie<L, V>, label: L)
    requires
        total_order::<L>(),
        sorted_cells(ks.insert(j, node)),
        0 <= j <= ks.len(),
    ensures
        find(ks.insert(j, node), label) == if node.cell() == TrieLabel::<L, V>::Label(label) {
            Some(node)
        } else {
            find(ks, label)
        },
{
    let after = ks.insert(j, node);
    if node.cell() == TrieLabel::<L, V>::Label(label) {
        lemma_find_at(after, j, label);
    } else if find(ks, label) is Some {
        let i = lemma_find_some(ks, label);
        let i2 = if i < j { i } else { i + 1 };
        lemma_find_at(after, i2, label);
    }
}

impl<L: Ord, V> NaiveTrie<L, V> {
    /// An empty trie.
    pub fn make_root() -> (r: Self)
        ensures
            r is Root,
            r.kids() == Seq::<Self>::empty(),
            r.wf_node(),
            r@ == Map::<Seq<L>, V>::empty(),
    {
        let r = NaiveTrie::Root(NaiveTrieRoot { children: Vec::new() });
        r
    }

    /// A node with the given cell and no children.
    pub fn make_interm_or_leaf(label: TrieLabel<L, V>) -> (r: Self)
        ensures
            r is IntermOrLeaf,
            r.cell() == label,
            r.kids() == Seq::<Self>::empty(),
    {
        NaiveTrie::IntermOrLeaf(NaiveTrieIntermOrLeaf { children: Vec::new(), label })
    }

    /// A node for the label `label`, with no children yet.
    pub fn make_interm(label: L) -> (r: Self)
        ensures
            r is IntermOrLeaf,
            r.cell() == TrieLabel::<L, V>::Label(label),
            r.kids() == Seq::<Self>::empty(),
    {
        NaiveTrie::IntermOrLeaf(NaiveTrieIntermOrLeaf { children: Vec::new(), label: TrieLabel::Label(label) })
    }

    /// A node that closes a key with the value `value`.
    pub fn make_leaf(value: V) -> (r: Self)
        ensures
            r is IntermOrLeaf,
            r.cell() == TrieLabel::<L, V>::Value(value),
            r.kids() == Seq::<Self>::empty(),
            r.wf_node(),
    {
        NaiveTrie::IntermOrLeaf(NaiveTrieIntermOrLeaf { children: Vec::new(), label: TrieLabel::Value(value) })
    }

    /// The children of this node.
    pub fn children(&self) -> (r: &[Self])
        requires
            !(self is PhantomSibling),
        ensures
            r@ == self.kids(),
    {
        match self {
            NaiveTrie::Root(node) => node.children.as_slice(),
            NaiveTrie::IntermOrLeaf(node) => node.children.as_slice(),
            NaiveTrie::PhantomSibling => &[],
        }
    }

    /// Takes the children out of this node, leaving it without any.
    pub fn drain_children(&mut self) -> (r: Vec<Self>)
        requires
            !(*old(self) is PhantomSibling),
        ensures
            r@ == old(self).kids(),
            final(self).kids() == Seq::<Self>::empty(),
            *final(self) is Root <==> *old(self) is Root,
            *final(self) is IntermOrLeaf <==> *old(self) is IntermOrLeaf,
            *final(self) is IntermOrLeaf ==> final(self).cell() == old(self).cell(),
    {
        let mut taken: Vec<Self> = Vec::new();
        match self {
            NaiveTrie::Root(node) => std::mem::swap(&mut taken, &mut node.children),
            NaiveTrie::IntermOrLeaf(node) => std::mem::swap(&mut taken, &mut node.children),
            NaiveTrie::PhantomSibling => {},
        }
        taken
    }

    /// The cell of this node.
    pub fn label(&self) -> (r: &TrieLabel<L, V>)
        requires
            self is IntermOrLeaf,
        ensures
            *r == self.cell(),
    {
        match self {
            NaiveTrie::IntermOrLeaf(node) => &node.label,
            _ => vstd::pervasive::unreached(),
        }
    }

    /// Looks for the label `label` among siblings in order: `Ok` with the
    /// position of the sibling that carries it, or `Err` with the position
    /// at which a sibling with it would have to be inserted.
    pub fn search_children(children: &Vec<Self>, label: &L) -> (r: Result<usize, usize>)
        requires
            total_order::<L>(),
            sorted_cells(children@),
            forall|i: int| 0 <= i < children@.len() ==> (#[trigger] children@[i]) is IntermOrLeaf,
        ensures
            match r {
                Ok(j) => j < children@.len() && children@[j as int].cell() == TrieLabel::<L, V>::Label(*label),
                Err(j) => {
                    &&& j <= children@.len()
                    &&& forall|i: int| 0 <= i < j ==> cell_lt((#[trigger] children@[i]).cell(), TrieLabel::<L, V>::Label(*label))
                    &&& forall|i: int| j <= i < children@.len() ==> cell_lt(TrieLabel::<L, V>::Label(*label), (#[trigger] children@[i]).cell())
                },
            },
    {
        let mut lo: usize = 0;
        let mut hi: usize = children.len();
        while lo < hi
            invariant
                total_order::<L>(),
                sorted_cells(children@),
                forall|i: int| 0 <= i < children@.len() ==> (#[trigger] children@[i]) is IntermOrLeaf,
                lo <= hi <= children@.len(),
                forall|i: int| 0 <= i < lo ==> cell_lt((#[trigger] children@[i]).cell(), TrieLabel::<L, V>::Label(*label)),
                forall|i: int| hi <= i < children@.len() ==> cell_lt(TrieLabel::<L, V>::Label(*label), (#[trigger] children@[i]).cell()),
            decreases hi - lo,
        {
            let mid = lo + (hi - lo) / 2;
            let side = children[mid].label().side(label);
            proof {
                lemma_cell_side(children@[mid as int].cell(), *label);
            }
            match side {
                Side::Below => {
                    proof {
                        assert forall|i: int| 0 <= i < mid + 1 implies cell_lt((#[trigger] children@[i]).cell(), TrieLabel::<L, V>::Label(*label)) by {
                            if i < mid {
                                lemma_cell_lt_transitive(children@[i].cell(), children@[mid as int].cell(), TrieLabel::<L, V>::Label(*label));
                            }
                        }
                    }
                    lo = mid + 1;
                },
                Side::Same => {
                    return Ok(mid);
                },
                Side::Above => {
                    proof {
                        assert forall|i: int| mid <= i < children@.len() implies cell_lt(TrieLabel::<L, V>::Label(*label), (#[trigger] children@[i]).cell()) by {
                            if mid < i {
                                lemma_cell_lt_transitive(TrieLabel::<L, V>::Label(*label), children@[mid as int].cell(), children@[i].cell());
                            }
                        }
                    }
                    hi = mid;
                },
            }
        }
        Err(lo)
    }
}

/// Splitting a key into its first label and the rest.
proof fn lemma_key_split<L>(key: Seq<L>, word: Seq<L>, depth: int)
    requires
        0 <= depth < word.len(),
        key.len() > 0,
    ensures
        key == word.skip(depth) <==> key[0] == word[depth] && key.drop_first() == word.skip(depth + 1),
{
    if key[0] == word[depth] && key.drop_first() == word.skip(depth + 1) {
        assert(key =~= seq![key[0]] + key.drop_first());
        assert(word.skip(depth) =~= seq![word[depth]] + word.skip(depth + 1));
    }
    if key == word.skip(depth) {
        assert(key.drop_first() =~= word.skip(depth + 1));
    }
}

impl<L: Ord, V> NaiveTrie<L, V> {
    /// Stores `value` as the value in front of `children`: over the value
    /// that is there, or as a new first sibling.
    pub fn insert_or_set_value(children: &mut Vec<Self>, value: V)
        requires
            total_order::<L>(),
            wf_kids(old(children)@),
        ensures
            wf_kids(final(children)@),
            final(children)@.len() > 0,
            forall|key: Seq<L>| #[trigger]
                get_in(final(children)@, key) == if key.len() == 0 {
                    Some(value)
                } else {
                    get_in(old(children)@, key)
                },
    {
        let ghost before = children@;
        let has_value = children.len() > 0 && match &children[0] {
            NaiveTrie::IntermOrLeaf(node) => match &node.label {
                TrieLabel::Value(_) => true,
                TrieLabel::Label(_) => false,
            },
            _ => false,
        };
        let leaf = Self::make_leaf(value);
        if has_value {
            children[0] = leaf;
        } else {
            children.insert(0, leaf);
        }
        proof {
            let after = children@;
            assert forall|key: Seq<L>| #[trigger]
                get_in(after, key) == if key.len() == 0 {
                    Some(value)
                } else {
                    get_in(before, key)
                } by {
                if key.len() > 0 {
                    if has_value {
                        lemma_find_update(before, 0, leaf, key[0]);
                    } else {
                        lemma_find_insert(before, 0, leaf, key[0]);
                    }
                }
            }
        }
    }

    /// The chain of nodes that spells `word` from position `depth` on and
    /// closes it with `value`.
    fn make_chain(word: Vec<L>, depth: usize, value: V) -> (r: Self)
        requires
            total_order::<L>(),
            depth < word.len(),
        ensures
            r is IntermOrLeaf,
            r.wf_node(),
            r.cell() == TrieLabel::<L, V>::Label(word@[depth as int]),
            forall|key: Seq<L>| #[trigger]
                get_in(seq![r], key) == if key == word@.skip(depth as int) {
                    Some(value)
                } else {
                    None
                },
    {
        let ghost whole = word@;
        let mut word = word;
        let mut node = Self::make_leaf(value);
        proof {
            assert forall|key: Seq<L>| #[trigger]
                get_in(seq![node], key) == if key == whole.skip(word@.len() as int) {
                    Some(value)
                } else {
                    None
                } by {
                if key.len() == 0 {
                    assert(key =~= whole.skip(word@.len() as int));
                }
            }
        }
        while word.len() > depth
            invariant
                total_order::<L>(),
                depth <= word@.len() <= whole.len(),
                depth < whole.len(),
                word@ == whole.take(word@.len() as int),
                node is IntermOrLeaf,
                node.wf_node(),
                word@.len() < whole.len() ==> node.cell() == TrieLabel::<L, V>::Label(whole[word@.len() as int]),
                forall|key: Seq<L>| #[trigger]
                    get_in(seq![node], key) == if key == whole.skip(word@.len() as int) {
                        Some(value)
                    } else {
                        None
                    },
            decreases word@.len(),
        {
            let ghost below = node;
            let ghost n = word@.len() as int;
            let label = word.pop().unwrap();
            let mut children: Vec<Self> = Vec::new();
            children.push(node);
            node = NaiveTrie::IntermOrLeaf(NaiveTrieIntermOrLeaf { children, label: TrieLabel::Label(label) });
            proof {
                assert forall|key: Seq<L>| #[trigger]
                    get_in(seq![node], key) == if key == whole.skip(n - 1) {
                        Some(value)
                    } else {
                        None
                    } by {
                    if key.len() > 0 {
                        lemma_key_split(key, whole, n - 1);
                        if key[0] == label {
                            assert(get_in(seq![node], key) == get_in(seq![below], key.drop_first()));
                        }
                    }
                }
            }
        }
        node
    }

    /// Stores `value` for the rest of `word` from position `depth` on, below
    /// a node whose children are `children`.
    fn push_into(children: &mut Vec<Self>, word: Vec<L>, depth: usize, value: V)
        requires
            total_order::<L>(),
            wf_kids(old(children)@),
            depth <= word.len(),
        ensures
            wf_kids(final(children)@),
            final(children)@.len() > 0,
            forall|key: Seq<L>| #[trigger]
                get_in(final(children)@, key) == if key == word@.skip(depth as int) {
                    Some(value)
                } else {
                    get_in(old(children)@, key)
                },
        decreases word.len() - depth,
    {
        let ghost before = children@;
        if depth == word.len() {
            Self::insert_or_set_value(children, value);
            proof {
                assert forall|key: Seq<L>| #[trigger]
                    get_in(children@, key) == if key == word@.skip(depth as int) {
                        Some(value)
                    } else {
                        get_in(before, key)
                    } by {
                    if key.len() == 0 {
                        assert(key =~= word@.skip(depth as int));
                    }
                }
            }
            return ;
        }
        let ghost label = word@[depth as int];
        match Self::search_children(children, &word[depth]) {
            Ok(j) => {
                let ghost mut below: Seq<Self> = Seq::empty();
                match &mut children[j] {
                    NaiveTrie::IntermOrLeaf(node) => {
                        proof {
                            below = node.children@;
                        }
                        Self::push_into(&mut node.children, word, depth + 1, value);
                    },
                    _ => {},
                }
                proof {
                    let after = children@;
                    let grown = after[j as int];
                    assert forall|key: Seq<L>| #[trigger]
                        get_in(after, key) == if key == word@.skip(depth as int) {
                            Some(value)
                        } else {
                            get_in(before, key)
                        } by {
                        if key.len() > 0 {
                            lemma_key_split(key, word@, depth as int);
                            lemma_find_update(before, j as int, grown, key[0]);
                            if key[0] == label {
                                lemma_find_at(before, j as int, label);
                                assert(get_in(after, key) == get_in(grown.kids(), key.drop_first()));
                            }
                        }
                    }
                }
            },
            Err(j) => {
                let chain = Self::make_chain(word, depth, value);
                children.insert(j, chain);
                proof {
                    let after = children@;
                    assert forall|key: Seq<L>| #[trigger]
                        get_in(after, key) == if key == word@.skip(depth as int) {
                            Some(value)
                        } else {
                            get_in(before, key)
                        } by {
                        if key.len() > 0 {
                            lemma_find_insert(before, j as int, chain, key[0]);
                            if key[0] == label {
                                assert(get_in(seq![chain], key) == get_in(chain.kids(), key.drop_first()));
                                if find(before, label) is Some {
                                    let i = lemma_find_some(before, label);
                                    lemma_cell_lt_irreflexive(before[i].cell());
                                }
                            }
                        }
                    }
                }
            },
        }
    }

    /// Stores `value` for the key `word`, over the value that the key had if
    /// it was stored before.
    pub fn push(&mut self, word: Vec<L>, value: V)
        requires
            old(self).wf(),
        ensures
            final(self).wf(),
            final(self)@ == old(self)@.insert(word@, value),
    {
        match self {
            NaiveTrie::Root(node) => {
                Self::push_into(&mut node.children, word, 0, value);
            },
            _ => {},
        }
        proof {
            assert(word@.skip(0) =~= word@);
        }
    }
}

} // verus!
