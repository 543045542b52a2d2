//! The mathematics of a LOUDS bit string: counting, rank and select, the
//! children that navigation yields, and the layout that a level-order
//! emission of a tree produces.

use vstd::prelude::*;

verus! {

/// Number of `true` bits in `bits`.
pub open spec fn count_ones(bits: Seq<bool>) -> nat
    decreases bits.len(),
{
    if bits.len() == 0 {
        0
    } else {
        count_ones(bits.drop_last()) + if bits.last() {
            1nat
        } else {
            0nat
        }
    }
}

/// Number of `false` bits in `bits`.
pub open spec fn count_zeros(bits: Seq<bool>) -> nat {
    (bits.len() - count_ones(bits)) as nat
}

/// Number of `true` bits at positions `0..=i`.
pub open spec fn rank1(bits: Seq<bool>, i: int) -> nat {
    count_ones(bits.take(i + 1))
}

/// Number of `false` bits at positions `0..=i`.
pub open spec fn rank0(bits: Seq<bool>, i: int) -> nat {
    count_zeros(bits.take(i + 1))
}

/// `pos` is the least position whose `rank0` is `k`.
pub open spec fn is_select0(bits: Seq<bool>, k: nat, pos: int) -> bool {
    &&& 0 <= pos < bits.len()
    &&& rank0(bits, pos) == k
    &&& forall|j: int| 0 <= j < pos ==> rank0(bits, j) != k
}

/// The least position whose `rank0` is `k`: for `k >= 1`, where the `k`-th
/// `false` bit stands.
pub open spec fn select0(bits: Seq<bool>, k: nat) -> int {
    choose|pos: int| is_select0(bits, k, pos)
}

/// Length of the run of `true` bits that begins at `start`.
pub open spec fn run_of_ones(bits: Seq<bool>, start: int) -> nat
    decreases bits.len() - start,
{
    if 0 <= start < bits.len() && bits[start] {
        1 + run_of_ones(bits, start + 1)
    } else {
        0
    }
}

/// Position of the first bit that follows the `node`-th `false` bit: where
/// the child list of `node` begins.
pub open spec fn child_list_start(bits: Seq<bool>, node: nat) -> int {
    select0(bits, node) + 1
}

/// The node numbers of the children of `node`, in order: the ranks of the
/// `true` bits in the run that follows the `node`-th `false` bit.
pub open spec fn louds_children(bits: Seq<bool>, node: nat) -> Seq<u64> {
    let start = child_list_start(bits, node);
    Seq::new(run_of_ones(bits, start), |j: int| rank1(bits, start + j) as u64)
}

/// `bits` is the bit string of some tree: it begins with `true, false`, no
/// prefix holds more than one `false` bit beyond its `true` bits, and the
/// whole string holds exactly one more.
pub open spec fn valid_lbs(bits: Seq<bool>) -> bool {
    &&& bits.len() >= 2
    &&& bits[0]
    &&& !bits[1]
    &&& forall|i: int| 0 <= i <= bits.len() ==> count_zeros(#[trigger] bits.take(i)) <= count_ones(bits.take(i)) + 1
    &&& count_zeros(bits) == count_ones(bits) + 1
}

/// Counting a prefix one bit longer.
pub proof fn lemma_count_take_step(bits: Seq<bool>, i: int)
    requires
        0 <= i < bits.len(),
    ensures
        count_ones(bits.take(i + 1)) == count_ones(bits.take(i)) + if bits[i] { 1nat } else { 0nat },
{
    assert(bits.take(i + 1).drop_last() =~= bits.take(i));
}

/// A prefix never holds more `true` bits than the whole, nor more `false` bits.
pub proof fn lemma_count_take_bounds(bits: Seq<bool>, i: int)
    requires
        0 <= i <= bits.len(),
    ensures
        count_ones(bits.take(i)) <= i,
        count_ones(bits.take(i)) <= count_ones(bits),
        count_zeros(bits.take(i)) <= count_zeros(bits),
    decreases bits.len() - i,
{
    if i > 0 {
        lemma_count_le_len(bits.take(i));
    }
    if i == bits.len() {
        assert(bits.take(i) =~= bits);
    } else {
        lemma_count_take_bounds(bits, i + 1);
        lemma_count_take_step(bits, i);
    }
}

/// There are at most as many `true` bits as bits.
pub proof fn lemma_count_le_len(bits: Seq<bool>)
    ensures
        count_ones(bits) <= bits.len(),
    decreases bits.len(),
{
    if bits.len() > 0 {
        lemma_count_le_len(bits.drop_last());
    }
}

/// Counts of prefixes grow with the prefix.
pub proof fn lemma_count_take_monotonic(bits: Seq<bool>, i: int, j: int)
    requires
        0 <= i <= j <= bits.len(),
    ensures
        count_ones(bits.take(i)) <= count_ones(bits.take(j)),
        count_zeros(bits.take(i)) <= count_zeros(bits.take(j)),
{
    assert(bits.take(j).take(i) =~= bits.take(i));
    lemma_count_take_bounds(bits.take(j), i);
}

/// A `false` bit preceded by `k - 1` others is where `select0` of `k` points.
pub proof fn lemma_select0_at(bits: Seq<bool>, k: nat, pos: int)
    requires
        0 <= pos < bits.len(),
        !bits[pos],
        count_zeros(bits.take(pos)) + 1 == k,
    ensures
        select0(bits, k) == pos,
{
    lemma_count_take_step(bits, pos);
    lemma_count_take_bounds(bits, pos);
    assert forall|j: int| 0 <= j < pos implies rank0(bits, j) != k by {
        lemma_count_take_monotonic(bits, j + 1, pos);
    }
    assert(is_select0(bits, k, pos));
}

/// A stretch of `len` `true` bits that a `false` bit or the end follows is a
/// run of exactly `len`.
pub proof fn lemma_run_of_ones(bits: Seq<bool>, start: int, len: nat)
    requires
        0 <= start,
        start + len <= bits.len(),
        forall|j: int| start <= j < start + len ==> bits[j],
        start + len == bits.len() || !bits[start + len],
    ensures
        run_of_ones(bits, start) == len,
    decreases len,
{
    if len > 0 {
        lemma_run_of_ones(bits, start + 1, (len - 1) as nat);
    }
}

/// Sum of the first `q` entries of `degrees`.
pub open spec fn degree_sum(degrees: Seq<nat>, q: int) -> nat
    decreases q,
{
    if q <= 0 {
        0
    } else {
        degree_sum(degrees, q - 1) + degrees[q - 1]
    }
}

/// Where the child list of the node with level-order index `q` begins, when
/// `degrees` lists the number of children of each node in level order.
pub open spec fn block_start(degrees: Seq<nat>, q: int) -> int {
    2 + q + degree_sum(degrees, q)
}

/// Where the `false` bit that closes the child list of node `q` stands.
pub open spec fn block_end(degrees: Seq<nat>, q: int) -> int {
    block_start(degrees, q) + degrees[q]
}

/// `bits` is the level-order emission for nodes with these numbers of
/// children: `true, false`, then for each node one `true` bit per child and a
/// closing `false` bit.
pub open spec fn encodes(bits: Seq<bool>, degrees: Seq<nat>) -> bool {
    &&& bits.len() == block_start(degrees, degrees.len() as int)
    &&& bits[0]
    &&& !bits[1]
    &&& forall|q: int, x: int|
        0 <= q < degrees.len() && #[trigger] block_start(degrees, q) <= x < block_end(degrees, q)
            ==> #[trigger] bits[x]
    &&& forall|q: int| 0 <= q < degrees.len() ==> !bits[#[trigger] block_end(degrees, q)]
}

/// The degree sum of a prefix does not depend on what follows it.
pub proof fn lemma_degree_sum_prefix(degrees: Seq<nat>, longer: Seq<nat>, q: int)
    requires
        q <= degrees.len() <= longer.len(),
        forall|i: int| 0 <= i < degrees.len() ==> degrees[i] == longer[i],
    ensures
        degree_sum(degrees, q) == degree_sum(longer, q),
    decreases q,
{
    if q > 0 {
        lemma_degree_sum_prefix(degrees, longer, q - 1);
    }
}

/// Degree sums grow with the index.
pub proof fn lemma_degree_sum_monotonic(degrees: Seq<nat>, p: int, q: int)
    requires
        p <= q,
    ensures
        degree_sum(degrees, p) <= degree_sum(degrees, q),
    decreases q - p,
{
    if p < q {
        lemma_degree_sum_monotonic(degrees, p, q - 1);
    }
}

/// Appending the child list of one more node keeps an emission an emission.
pub proof fn lemma_encodes_append(bits: Seq<bool>, degrees: Seq<nat>, d: nat, longer: Seq<bool>)
    requires
        encodes(bits, degrees),
        longer.len() == bits.len() + d + 1,
        forall|i: int| 0 <= i < bits.len() ==> longer[i] == bits[i],
        forall|x: int| bits.len() <= x < bits.len() + d ==> longer[x],
        !longer[bits.len() as int + d],
    ensures
        encodes(longer, degrees.push(d)),
{
    let more = degrees.push(d);
    assert forall|q: int| 0 <= q <= degrees.len() implies block_start(more, q) == block_start(degrees, q) by {
        lemma_degree_sum_prefix(degrees, more, q);
    }
    assert forall|q: int, x: int|
        0 <= q < more.len() && #[trigger] block_start(more, q) <= x < block_end(more, q) implies #[trigger] longer[x] by {
        if q < degrees.len() {
            lemma_block_inside(degrees, q);
        }
    }
    assert forall|q: int| 0 <= q < more.len() implies !longer[#[trigger] block_end(more, q)] by {
        if q < degrees.len() {
            lemma_block_inside(degrees, q);
            assert(!bits[block_end(degrees, q)]);
        }
    }
}

/// Every child list lies before the end of the emission.
pub proof fn lemma_block_inside(degrees: Seq<nat>, q: int)
    requires
        0 <= q < degrees.len(),
    ensures
        block_start(degrees, q) + degrees[q] + 1 == block_start(degrees, q + 1),
        block_start(degrees, q + 1) <= block_start(degrees, degrees.len() as int),
{
    lemma_degree_sum_monotonic(degrees, q + 1, degrees.len() as int);
}

/// In an emission, the bits before the child list of node `q` hold one
/// `true` bit for the root and one for every child of an earlier node, and
/// one `false` bit for the start and one for every earlier node.
pub proof fn lemma_counts_at_block(bits: Seq<bool>, degrees: Seq<nat>, q: int)
    requires
        encodes(bits, degrees),
        0 <= q <= degrees.len(),
    ensures
        count_ones(bits.take(block_start(degrees, q))) == 1 + degree_sum(degrees, q),
        count_zeros(bits.take(block_start(degrees, q))) == 1 + q,
    decreases q,
{
    if q == 0 {
        lemma_count_take_step(bits, 0);
        lemma_count_take_step(bits, 1);
    } else {
        lemma_counts_at_block(bits, degrees, q - 1);
        lemma_block_inside(degrees, q - 1);
        let start = block_start(degrees, q - 1);
        lemma_counts_in_block(bits, degrees, q - 1, degrees[q - 1]);
        lemma_count_take_step(bits, start + degrees[q - 1]);
    }
}

/// The same count `j` bits into the child list of node `q`.
pub proof fn lemma_counts_in_block(bits: Seq<bool>, degrees: Seq<nat>, q: int, j: nat)
    requires
        encodes(bits, degrees),
        0 <= q < degrees.len(),
        j <= degrees[q],
        count_ones(bits.take(block_start(degrees, q))) == 1 + degree_sum(degrees, q),
    ensures
        count_ones(bits.take(block_start(degrees, q) + j)) == 1 + degree_sum(degrees, q) + j,
    decreases j,
{
    if j > 0 {
        lemma_block_inside(degrees, q);
        lemma_counts_in_block(bits, degrees, q, (j - 1) as nat);
        lemma_count_take_step(bits, block_start(degrees, q) + (j - 1));
    }
}

/// The children that navigation yields on an emission: node `n` has as many
/// children as `degrees` says, numbered consecutively after the children of
/// all earlier nodes.
pub proof fn lemma_children_of_emission(bits: Seq<bool>, degrees: Seq<nat>, n: nat)
    requires
        encodes(bits, degrees),
        1 <= n <= degrees.len(),
        count_ones(bits) <= u64::MAX,
    ensures
        louds_children(bits, n).len() == degrees[n - 1],
        forall|j: int| 0 <= j < degrees[n - 1] ==> #[trigger] louds_children(bits, n)[j] == degree_sum(degrees, n - 1) + 2 + j,
        child_list_start(bits, n) == block_start(degrees, n - 1),
{
    let q = n - 1;
    let start = block_start(degrees, q);
    lemma_block_inside(degrees, q);
    lemma_counts_at_block(bits, degrees, q);
    if q == 0 {
        assert(bits.take(1) =~= bits.take(2).drop_last());
        lemma_select0_at(bits, n, 1);
    } else {
        lemma_block_inside(degrees, q - 1);
        lemma_count_take_step(bits, start - 1);
        lemma_select0_at(bits, n, start - 1);
    }
    lemma_run_of_ones(bits, start, degrees[q]);
    assert forall|j: int| 0 <= j < degrees[q] implies #[trigger] louds_children(bits, n)[j] == degree_sum(degrees, q) + 2 + j by {
        lemma_counts_in_block(bits, degrees, q, (j + 1) as nat);
        lemma_count_take_bounds(bits, start + j + 1);
    }
}

/// An emission for a closed tree is a valid bit string with one `true` bit
/// per node: closed means that the nodes are the top and the children of all
/// nodes, and that every node but the top is a child of an earlier one.
pub proof fn lemma_emission_valid(bits: Seq<bool>, degrees: Seq<nat>)
    requires
        encodes(bits, degrees),
        degrees.len() >= 1,
        degrees.len() == 1 + degree_sum(degrees, degrees.len() as int),
        forall|q: int| 0 <= q < degrees.len() ==> q <= #[trigger] degree_sum(degrees, q),
    ensures
        valid_lbs(bits),
        count_ones(bits) == degrees.len(),
{
    let n = degrees.len() as int;
    lemma_prefixes_balanced(bits, degrees, n);
    lemma_counts_at_block(bits, degrees, n);
    assert(bits.take(bits.len() as int) =~= bits);
    assert forall|i: int| 0 <= i <= bits.len() implies count_zeros(#[trigger] bits.take(i)) <= count_ones(bits.take(i)) + 1 by {
        assert(balanced_prefix(bits, i));
    }
}

/// The prefix of length `i` holds at most one `false` bit more than `true` bits.
pub open spec fn balanced_prefix(bits: Seq<bool>, i: int) -> bool {
    count_zeros(bits.take(i)) <= count_ones(bits.take(i)) + 1
}

/// All prefixes up to the child list of node `q` are balanced.
pub proof fn lemma_prefixes_balanced(bits: Seq<bool>, degrees: Seq<nat>, q: int)
    requires
        encodes(bits, degrees),
        0 <= q <= degrees.len(),
        degrees.len() == 1 + degree_sum(degrees, degrees.len() as int),
        forall|r: int| 0 <= r < degrees.len() ==> r <= #[trigger] degree_sum(degrees, r),
    ensures
        forall|i: int| 0 <= i <= block_start(degrees, q) ==> #[trigger] balanced_prefix(bits, i),
    decreases q,
{
    lemma_degree_sum_monotonic(degrees, q, degrees.len() as int);
    if q == 0 {
        lemma_count_take_step(bits, 0);
        lemma_count_take_step(bits, 1);
    } else {
        lemma_prefixes_balanced(bits, degrees, q - 1);
        lemma_counts_at_block(bits, degrees, q - 1);
        lemma_counts_at_block(bits, degrees, q);
        let start = block_start(degrees, q - 1);
        assert forall|i: int| 0 <= i <= block_start(degrees, q) implies #[trigger] balanced_prefix(bits, i) by {
            if i > start {
                let j = i - start;
                if j <= degrees[q - 1] {
                    lemma_counts_in_block(bits, degrees, q - 1, j as nat);
                }
            }
        }
    }
}

} // verus!
