//! The cells that make up a trie: labels along a key, and values that close one.

use crate::order::{compare, lemma_lt_transitive, lemma_trichotomy, lt, side_of, total_order, Side};
use std::cmp::Ordering;
use vstd::prelude::*;
use vstd::std_specs::cmp::{PartialEqSpec, PartialEqSpecImpl, PartialOrdSpec, PartialOrdSpecImpl};

verus! {

/// One cell of a trie.
///
/// A key is spelled by the `Label` cells on the path from the root; a `Value`
/// cell hangs below the last label of each stored key and carries its value.
#[derive(Debug)]
pub enum TrieLabel<Label, Value> {
    /// A position along a key.
    Label(Label),
    /// The end of a key, with the value stored for it.
    Value(Value),
}

/// The order in which sibling cells are kept: a value before every label,
/// labels by their own order. Two values are never ordered.
pub open spec fn cell_lt<L: Ord, V>(a: TrieLabel<L, V>, b: TrieLabel<L, V>) -> bool {
    match (a, b) {
        (TrieLabel::Value(_), TrieLabel::Label(_)) => true,
        (TrieLabel::Label(x), TrieLabel::Label(y)) => lt(x, y),
        _ => false,
    }
}

/// The side of `label` on which `cell` lies: a value lies below every label.
pub open spec fn cell_side<L: Ord, V>(cell: TrieLabel<L, V>, label: L) -> Side {
    match cell {
        TrieLabel::Value(_) => Side::Below,
        TrieLabel::Label(x) => side_of(x, label),
    }
}

/// What each side means: below a label is a value or a smaller label, the
/// same is that very label, and above is a larger label.
pub proof fn lemma_cell_side<L: Ord, V>(cell: TrieLabel<L, V>, label: L)
    requires
        total_order::<L>(),
    ensures
        cell_side(cell, label) is Below <==> cell_lt(cell, TrieLabel::<L, V>::Label(label)),
        cell_side(cell, label) is Same <==> cell == TrieLabel::<L, V>::Label(label),
        cell_side(cell, label) is Above <==> cell_lt(TrieLabel::<L, V>::Label(label), cell),
{
    match cell {
        TrieLabel::Value(_) => {},
        TrieLabel::Label(x) => {
            lemma_trichotomy(x, label);
        },
    }
}

/// The order on cells is transitive.
pub proof fn lemma_cell_lt_transitive<L: Ord, V>(a: TrieLabel<L, V>, b: TrieLabel<L, V>, c: TrieLabel<L, V>)
    requires
        total_order::<L>(),
        cell_lt(a, b),
        cell_lt(b, c),
    ensures
        cell_lt(a, c),
{
    match (a, b, c) {
        (TrieLabel::Label(x), TrieLabel::Label(y), TrieLabel::Label(z)) => {
            lemma_lt_transitive(x, y, z);
        },
        _ => {},
    }
}

/// No cell sorts before itself.
pub proof fn lemma_cell_lt_irreflexive<L: Ord, V>(a: TrieLabel<L, V>)
    requires
        total_order::<L>(),
    ensures
        !cell_lt(a, a),
{
    match a {
        TrieLabel::Label(x) => {
            lemma_trichotomy(x, x);
        },
        _ => {},
    }
}

/// `copy` is a cell of the same kind as `cell` that holds a clone of what
/// `cell` holds.
pub open spec fn cell_cloned<L: Clone, V: Clone>(cell: TrieLabel<L, V>, copy: TrieLabel<L, V>) -> bool {
    match (cell, copy) {
        (TrieLabel::Label(a), TrieLabel::Label(b)) => cloned(a, b),
        (TrieLabel::Value(a), TrieLabel::Value(b)) => cloned(a, b),
        _ => false,
    }
}

impl<L: Clone, V: Clone> Clone for TrieLabel<L, V> {
    /// A cell of the same kind with a clone of the label or the value.
    fn clone(&self) -> (copy: Self)
        ensures
            cell_cloned(*self, copy),
    {
        match self {
            TrieLabel::Label(label) => TrieLabel::Label(label.clone()),
            TrieLabel::Value(value) => TrieLabel::Value(value.clone()),
        }
    }
}

impl<L: PartialEq, V: PartialEq> PartialEq for TrieLabel<L, V> {
    /// Two labels are equal if their labels are, two values if their values
    /// are, and a label never equals a value.
    fn eq(&self, other: &Self) -> (r: bool) {
        match (self, other) {
            (TrieLabel::Label(a), TrieLabel::Label(b)) => a == b,
            (TrieLabel::Value(a), TrieLabel::Value(b)) => a == b,
            (TrieLabel::Label(_), TrieLabel::Value(_)) => false,
            (TrieLabel::Value(_), TrieLabel::Label(_)) => false,
        }
    }
}

impl<L: PartialEq, V: PartialEq> PartialEqSpecImpl for TrieLabel<L, V> {
    open spec fn obeys_eq_spec() -> bool {
        L::obeys_eq_spec() && V::obeys_eq_spec()
    }

    open spec fn eq_spec(&self, other: &Self) -> bool {
        match (*self, *other) {
            (TrieLabel::Label(a), TrieLabel::Label(b)) => a.eq_spec(&b),
            (TrieLabel::Value(a), TrieLabel::Value(b)) => a.eq_spec(&b),
            _ => false,
        }
    }
}

impl<L: PartialEq, V> PartialEq<L> for TrieLabel<L, V> {
    /// A label cell equals a label if its label does; a value never does.
    fn eq(&self, other: &L) -> (r: bool) {
        match self {
            TrieLabel::Label(a) => a == other,
            TrieLabel::Value(_) => false,
        }
    }
}

impl<L: PartialEq, V> PartialEqSpecImpl<L> for TrieLabel<L, V> {
    open spec fn obeys_eq_spec() -> bool {
        L::obeys_eq_spec()
    }

    open spec fn eq_spec(&self, other: &L) -> bool {
        match *self {
            TrieLabel::Label(a) => a.eq_spec(other),
            TrieLabel::Value(_) => false,
        }
    }
}

impl<L: PartialOrd, V> PartialOrd<L> for TrieLabel<L, V> {
    /// A label cell compares with a label as its label does; a value comes
    /// before every label.
    fn partial_cmp(&self, other: &L) -> (r: Option<Ordering>) {
        match self {
            TrieLabel::Label(a) => a.partial_cmp(other),
            TrieLabel::Value(_) => Some(Ordering::Less),
        }
    }
}

impl<L: PartialOrd, V> PartialOrdSpecImpl<L> for TrieLabel<L, V> {
    open spec fn obeys_partial_cmp_spec() -> bool {
        L::obeys_partial_cmp_spec()
    }

    open spec fn partial_cmp_spec(&self, other: &L) -> Option<Ordering> {
        match *self {
            TrieLabel::Label(a) => a.partial_cmp_spec(other),
            TrieLabel::Value(_) => Some(Ordering::Less),
        }
    }
}

impl<L: Eq, V: Eq> Eq for TrieLabel<L, V> {
}

impl<L: Ord, V> TrieLabel<L, V> {
    /// Compares this cell with another one. Two values have no order: one
    /// of the two cells must be a label.
    pub fn side_of_cell(&self, other: &Self) -> (r: Side)
        requires
            total_order::<L>(),
            !(*self is Value && *other is Value),
        ensures
            r is Below <==> cell_lt(*self, *other),
            r is Above <==> cell_lt(*other, *self),
            r is Same <==> *self is Label && *other is Label && self->Label_0 == other->Label_0,
    {
        match (self, other) {
            (TrieLabel::Label(a), TrieLabel::Label(b)) => {
                proof {
                    lemma_trichotomy(*a, *b);
                }
                compare(a, b)
            },
            (TrieLabel::Label(_), TrieLabel::Value(_)) => Side::Above,
            (TrieLabel::Value(_), _) => Side::Below,
        }
    }

    /// Compares this cell with a label.
    pub fn side(&self, label: &L) -> (r: Side)
        requires
            total_order::<L>(),
        ensures
            r == cell_side(*self, *label),
    {
        match self {
            TrieLabel::Value(_) => Side::Below,
            TrieLabel::Label(x) => compare(x, label),
        }
    }

    /// Whether this cell is the label `label`.
    pub fn is_label(&self, label: &L) -> (r: bool)
        requires
            total_order::<L>(),
        ensures
            r == (*self == TrieLabel::<L, V>::Label(*label)),
    {
        proof {
            lemma_cell_side(*self, *label);
        }
        match self.side(label) {
            Side::Same => true,
            _ => false,
        }
    }
}

} // verus!
