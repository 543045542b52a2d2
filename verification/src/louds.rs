//! The succinct tree of the `louds_rs` crate, as far as the trie uses it.

use crate::lbs::{child_list_start, count_ones, louds_children, run_of_ones, valid_lbs};
use louds_rs::{Louds, LoudsNodeNum};
use vstd::prelude::*;

verus! {

/// `louds_rs::Louds`, a tree held as a bit string with rank and select
/// support. Nothing of its inside is visible here; what it holds is spoken of
/// through `louds_bits`.
#[verifier::external_type_specification]
#[verifier::external_body]
pub struct ExLouds(Louds);

/// The bit string that a `Louds` was built from.
pub uninterp spec fn louds_bits(louds: Louds) -> Seq<bool>;

/// `Louds::from(&[bool])`: keeps the bits it is given. The crate panics
/// unless they form the bit string of a tree, which `valid_lbs` demands.
#[verifier::external_body]
pub(crate) fn louds_from_bits(bits: &Vec<bool>) -> (louds: Louds)
    requires
        valid_lbs(bits@),
    ensures
        louds_bits(louds) == bits@,
{
    Louds::from(&bits[..])
}

/// `Louds::parent_to_children_nodes`, collected: the iterator starts one past
/// the `node`-th `false` bit, advances while it reads `true`, and yields the
/// rank of each position it passes. The node must exist: the crate panics on a
/// number that is zero or exceeds the count of `true` bits.
#[verifier::external_body]
pub(crate) fn louds_child_nodes(louds: &Louds, node: u64) -> (children: Vec<u64>)
    requires
        valid_lbs(louds_bits(*louds)),
        1 <= node <= count_ones(louds_bits(*louds)),
    ensures
        children@ == louds_children(louds_bits(*louds), node as nat),
{
    louds.parent_to_children_nodes(LoudsNodeNum(node)).map(|n| n.0).collect()
}

/// `Louds::parent_to_children_indices`, first item: the position one past the
/// `node`-th `false` bit if a `true` bit stands there, and nothing otherwise.
#[verifier::external_body]
pub(crate) fn louds_first_child_index(louds: &Louds, node: u64) -> (index: Option<u64>)
    requires
        valid_lbs(louds_bits(*louds)),
        1 <= node <= count_ones(louds_bits(*louds)),
    ensures
        index == if run_of_ones(louds_bits(*louds), child_list_start(louds_bits(*louds), node as nat)) > 0 {
            Some(child_list_start(louds_bits(*louds), node as nat) as u64)
        } else {
            None
        },
{
    louds.parent_to_children_indices(LoudsNodeNum(node)).next().map(|i| i.0)
}

/// `<Louds as Clone>::clone`, which the crate derives: the copy holds the
/// same bits.
pub assume_specification[ <Louds as Clone>::clone ](louds: &Louds) -> (copy: Louds)
    ensures
        louds_bits(copy) == louds_bits(*louds),
;

} // verus!
