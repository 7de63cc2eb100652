//! Every unordered pair of a record set, once, and the comparison of each.

use crate::record::{differing_positions, informative_positions, Difference, Record};
use itertools::Itertools;
use rayon::iter::{IntoParallelRefIterator, ParallelIterator};
use vstd::prelude::*;

verus! {

/// The pairs whose first member is `i`, out of `n` items: `(i, i + 1)` up to
/// `(i, n - 1)`.
pub open spec fn pairs_led_by(n: int, i: int) -> Seq<(int, int)> {
    Seq::new((n - 1 - i) as nat, |k: int| (i, i + 1 + k))
}

/// The pairs whose first member is below `m`, out of `n` items, ordered by
/// first member and then by second.
pub open spec fn pairs_led_below(n: int, m: int) -> Seq<(int, int)>
    decreases m,
{
    if m <= 0 {
        Seq::empty()
    } else {
        pairs_led_below(n, m - 1) + pairs_led_by(n, m - 1)
    }
}

/// All pairs `(i, j)` with `i < j < n`, ordered by `i` and then by `j`.
pub open spec fn index_pairs(n: int) -> Seq<(int, int)> {
    pairs_led_below(n, n)
}

/// Whether pair `p` comes before pair `q`: by first member, then by second.
pub open spec fn pair_precedes(p: (int, int), q: (int, int)) -> bool {
    p.0 < q.0 || (p.0 == q.0 && p.1 < q.1)
}

/// Where the pair `(i, j)` stands among the pairs of `n` items.
pub open spec fn pair_position(n: int, i: int, j: int) -> int {
    pairs_led_below(n, i).len() + (j - i - 1)
}

/// The pairs led by `i` follow those led by smaller members.
proof fn lemma_led_below_unfold(n: int, m: int)
    requires
        0 < m <= n,
    ensures
        pairs_led_below(n, m) == pairs_led_below(n, m - 1) + pairs_led_by(n, m - 1),
        pairs_led_below(n, m).len() == pairs_led_below(n, m - 1).len() + (n - m),
{
}

/// The more leading members are admitted, the more pairs there are.
proof fn lemma_led_below_grows(n: int, i: int, m: int)
    requires
        0 <= i <= m <= n,
    ensures
        pairs_led_below(n, i).len() <= pairs_led_below(n, m).len(),
    decreases m - i,
{
    if i < m {
        lemma_led_below_unfold(n, m);
        lemma_led_below_grows(n, i, m - 1);
    }
}

/// The pair at position `k` is made of two positions of the input, the
/// first before the second, and `k` is where `pair_position` puts it.
proof fn lemma_pair_at(n: int, m: int, k: int)
    requires
        0 <= m <= n,
        0 <= k < pairs_led_below(n, m).len(),
    ensures
        0 <= pairs_led_below(n, m)[k].0 < m,
        pairs_led_below(n, m)[k].0 < pairs_led_below(n, m)[k].1 < n,
        k == pair_position(n, pairs_led_below(n, m)[k].0, pairs_led_below(n, m)[k].1),
    decreases m,
{
    if m > 0 {
        lemma_led_below_unfold(n, m);
        if k < pairs_led_below(n, m - 1).len() {
            lemma_pair_at(n, m - 1, k);
        }
    }
}

/// The pair `(i, j)` stands at its position.
proof fn lemma_pair_found(n: int, m: int, i: int, j: int)
    requires
        0 <= i < m <= n,
        i < j < n,
    ensures
        0 <= pair_position(n, i, j) < pairs_led_below(n, m).len(),
        pairs_led_below(n, m)[pair_position(n, i, j)] == (i, j),
    decreases m,
{
    lemma_led_below_unfold(n, m);
    if i < m - 1 {
        lemma_pair_found(n, m - 1, i, j);
    }
}

/// Counts the pairs whose first member is below `m`.
proof fn lemma_led_below_len(n: int, m: int)
    requires
        0 <= m <= n,
    ensures
        2 * pairs_led_below(n, m).len() == m * (2 * n - m - 1),
    decreases m,
{
    if m > 0 {
        lemma_led_below_unfold(n, m);
        lemma_led_below_len(n, m - 1);
        assert((m - 1) * (2 * n - (m - 1) - 1) + 2 * (n - m) == m * (2 * n - m - 1))
            by (nonlinear_arith);
    } else {
        assert(m * (2 * n - m - 1) == 0) by (nonlinear_arith)
            requires
                m == 0,
        ;
    }
}

/// Out of `n` items there are `n * (n - 1) / 2` pairs; out of fewer than two
/// items there is none.
pub proof fn lemma_index_pairs_count(n: int)
    requires
        0 <= n,
    ensures
        index_pairs(n).len() == n * (n - 1) / 2,
        n <= 1 ==> index_pairs(n).len() == 0,
{
    lemma_led_below_len(n, n);
    assert(n * (2 * n - n - 1) == n * (n - 1)) by (nonlinear_arith);
    if n <= 1 {
        assert(n * (n - 1) == 0) by (nonlinear_arith)
            requires
                n == 0 || n == 1,
        ;
    }
}

/// Every member of `index_pairs(n)` is a pair `(i, j)` with `i < j < n`, and
/// later members come later in the order of pairs.  So no pair occurs twice,
/// and never in both orders.
pub proof fn lemma_index_pairs_ordered(n: int)
    requires
        0 <= n,
    ensures
        forall|k: int|
            0 <= k < index_pairs(n).len() ==> 0 <= (#[trigger] index_pairs(n)[k]).0
                < index_pairs(n)[k].1 < n,
        forall|k: int, l: int|
            0 <= k < l < index_pairs(n).len() ==> pair_precedes(
                #[trigger] index_pairs(n)[k],
                #[trigger] index_pairs(n)[l],
            ),
{
    let s = index_pairs(n);
    assert forall|k: int| 0 <= k < s.len() implies 0 <= (#[trigger] s[k]).0 < s[k].1 < n by {
        lemma_pair_at(n, n, k);
    }
    assert forall|k: int, l: int| 0 <= k < l < s.len() implies pair_precedes(
        #[trigger] s[k],
        #[trigger] s[l],
    ) by {
        lemma_pair_at(n, n, k);
        lemma_pair_at(n, n, l);
        let p = s[k];
        let q = s[l];
        if p.0 > q.0 {
            lemma_led_below_unfold(n, q.0 + 1);
            lemma_led_below_grows(n, q.0 + 1, p.0);
        }
    }
}

/// Every pair `(i, j)` with `i < j < n` is a member of `index_pairs(n)`, at
/// `pair_position(n, i, j)`.
pub proof fn lemma_index_pairs_complete(n: int, i: int, j: int)
    requires
        0 <= i < j < n,
    ensures
        0 <= pair_position(n, i, j) < index_pairs(n).len(),
        index_pairs(n)[pair_position(n, i, j)] == (i, j),
{
    lemma_pair_found(n, n, i, j);
}

/// Two records of one set, the first of which stands before the second.
#[derive(Clone, Copy)]
pub struct RecordPair<'a> {
    pub first: &'a Record,
    pub second: &'a Record,
}

/// One pair of records with the outcome of comparing them.
pub struct Comparison<'a> {
    pub first: &'a Record,
    pub second: &'a Record,
    pub difference: Difference,
}

/// Whether `c` holds the records `first` and `second` and the counts that
/// comparing them gives.
pub open spec fn is_comparison_of(c: Comparison, first: Record, second: Record) -> bool {
    &&& *c.first == first
    &&& *c.second == second
    &&& c.difference.informative == informative_positions(
        first@.sequence,
        second@.sequence,
    ).len()
    &&& c.difference.differing == differing_positions(first@.sequence, second@.sequence).len()
}

/// `Itertools::combinations` with `k` = 2, over the records in their order.
/// It yields the 2-element choices of positions in lexicographic order,
/// starting from positions 0 and 1 and advancing the last position first; each
/// choice comes as the items at those positions, in increasing position.
#[verifier::external_body]
fn record_pairs<'a>(records: &'a Vec<Record>) -> (pairs: Vec<RecordPair<'a>>)
    ensures
        pairs@.len() == index_pairs(records@.len() as int).len(),
        forall|k: int|
            0 <= k < pairs@.len() ==> *(#[trigger] pairs@[k]).first
                == records@[index_pairs(records@.len() as int)[k].0],
        forall|k: int|
            0 <= k < pairs@.len() ==> *(#[trigger] pairs@[k]).second
                == records@[index_pairs(records@.len() as int)[k].1],
{
    records.iter().combinations(2).map(
        |pair| RecordPair { first: pair[0], second: pair[1] },
    ).collect()
}

/// Rayon's `par_iter`, `map` and `collect` over a slice: the comparison is
/// made for each pair, on whichever thread, and the outcomes are gathered in
/// the order of the pairs.
#[verifier::external_body]
fn compare_in_parallel<'a>(pairs: &Vec<RecordPair<'a>>) -> (differences: Vec<Difference>)
    ensures
        differences@.len() == pairs@.len(),
        forall|k: int|
            0 <= k < differences@.len() ==> (#[trigger] differences@[k]).informative
                == informative_positions(
                pairs@[k].first@.sequence,
                pairs@[k].second@.sequence,
            ).len(),
        forall|k: int|
            0 <= k < differences@.len() ==> (#[trigger] differences@[k]).differing
                == differing_positions(
                pairs@[k].first@.sequence,
                pairs@[k].second@.sequence,
            ).len(),
{
    pairs.par_iter().map(
        |pair| pair.first.percent_difference_of_nucleotides(pair.second),
    ).collect()
}

/// Compares every unordered pair of distinct records exactly once.  The
/// pairs come in the order of `index_pairs`: the first record runs over the
/// input in order, the second over all records after it.  Fewer than two
/// records give no pair.
#[verifier::loop_isolation(false)]
pub fn compare_all_pairs<'a>(records: &'a Vec<Record>) -> (out: Vec<Comparison<'a>>)
    ensures
        out@.len() == index_pairs(records@.len() as int).len(),
        out@.len() == records@.len() * (records@.len() - 1) / 2,
        forall|k: int|
            0 <= k < out@.len() ==> is_comparison_of(
                #[trigger] out@[k],
                records@[index_pairs(records@.len() as int)[k].0],
                records@[index_pairs(records@.len() as int)[k].1],
            ),
{
    let pairs = record_pairs(records);
    let differences = compare_in_parallel(&pairs);
    proof {
        lemma_index_pairs_count(records@.len() as int);
    }
    let mut out: Vec<Comparison<'a>> = Vec::new();
    let mut k: usize = 0;
    while k < pairs.len()
        invariant
            k <= pairs@.len(),
            out@.len() == k,
            forall|l: int|
                0 <= l < k ==> is_comparison_of(
                    #[trigger] out@[l],
                    records@[index_pairs(records@.len() as int)[l].0],
                    records@[index_pairs(records@.len() as int)[l].1],
                ),
        decreases pairs@.len() - k,
    {
        let pair = pairs[k];
        let difference = differences[k];
        out.push(Comparison { first: pair.first, second: pair.second, difference });
        k = k + 1;
    }
    out
}

} // verus!
