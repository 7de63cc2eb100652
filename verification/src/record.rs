//! Sequence records and the comparison of two of them.

use vstd::prelude::*;
use vstd::set_lib::{lemma_int_range, lemma_len_subset, set_int_range};

verus! {

/// The byte `A`.
pub const A: u8 = 65;

/// The byte `C`.
pub const C: u8 = 67;

/// The byte `G`.
pub const G: u8 = 71;

/// The byte `T`.
pub const T: u8 = 84;

/// Whether a byte is one of the four canonical bases, in upper case.
pub open spec fn is_canonical(c: u8) -> bool {
    c == A || c == C || c == G || c == T
}

/// Whether position `i` lies inside both sequences and both hold a canonical
/// base there.
pub open spec fn informative_at(a: Seq<u8>, b: Seq<u8>, i: int) -> bool {
    0 <= i < a.len() && i < b.len() && is_canonical(a[i]) && is_canonical(b[i])
}

/// Whether position `i` is informative and the two bases there differ.
pub open spec fn differing_at(a: Seq<u8>, b: Seq<u8>, i: int) -> bool {
    informative_at(a, b, i) && a[i] != b[i]
}

/// The informative positions of two sequences.
pub open spec fn informative_positions(a: Seq<u8>, b: Seq<u8>) -> Set<int> {
    Set::new(|i: int| informative_at(a, b, i))
}

/// The informative positions at which two sequences differ.
pub open spec fn differing_positions(a: Seq<u8>, b: Seq<u8>) -> Set<int> {
    Set::new(|i: int| differing_at(a, b, i))
}

/// The informative positions below `n`.
spec fn informative_below(a: Seq<u8>, b: Seq<u8>, n: int) -> Set<int> {
    Set::new(|i: int| i < n && informative_at(a, b, i))
}

/// The differing positions below `n`.
spec fn differing_below(a: Seq<u8>, b: Seq<u8>, n: int) -> Set<int> {
    Set::new(|i: int| i < n && differing_at(a, b, i))
}

/// What a record is: its label and its bases.
pub ghost struct RecordView {
    pub label: Seq<char>,
    pub sequence: Seq<u8>,
}

/// A labelled sequence.  It cannot be changed once made.
pub struct Record {
    label: String,
    sequence: Vec<u8>,
}

/// How far two records are apart, as two counts: of the positions that can
/// be compared, and of those among them at which the records differ.  The
/// share of differing positions is `differing / informative`.
#[derive(Clone, Copy, Debug, PartialEq, Eq, Structural)]
pub struct Difference {
    pub differing: usize,
    pub informative: usize,
}

impl View for Record {
    type V = RecordView;

    closed spec fn view(&self) -> RecordView {
        RecordView { label: self.label@, sequence: self.sequence@ }
    }
}

/// Both sets of positions below `n` are finite and have at most `n` members,
/// and no more positions differ than are informative.
proof fn lemma_below_bounds(a: Seq<u8>, b: Seq<u8>, n: int)
    requires
        0 <= n,
    ensures
        informative_below(a, b, n).finite(),
        differing_below(a, b, n).finite(),
        differing_below(a, b, n).len() <= informative_below(a, b, n).len() <= n,
{
    lemma_int_range(0, n);
    assert(informative_below(a, b, n).subset_of(set_int_range(0, n)));
    lemma_len_subset(informative_below(a, b, n), set_int_range(0, n));
    assert(differing_below(a, b, n).subset_of(informative_below(a, b, n)));
    lemma_len_subset(differing_below(a, b, n), informative_below(a, b, n));
}

/// Taking one more position into account adds it to each set to which it
/// belongs.
proof fn lemma_below_step(a: Seq<u8>, b: Seq<u8>, n: int)
    requires
        0 <= n,
    ensures
        informative_below(a, b, n + 1).len() == informative_below(a, b, n).len() + (if informative_at(
            a,
            b,
            n,
        ) {
            1int
        } else {
            0
        }),
        differing_below(a, b, n + 1).len() == differing_below(a, b, n).len() + (if differing_at(
            a,
            b,
            n,
        ) {
            1int
        } else {
            0
        }),
{
    lemma_below_bounds(a, b, n);
    if informative_at(a, b, n) {
        assert(informative_below(a, b, n + 1) =~= informative_below(a, b, n).insert(n));
    } else {
        assert(informative_below(a, b, n + 1) =~= informative_below(a, b, n));
    }
    if differing_at(a, b, n) {
        assert(differing_below(a, b, n + 1) =~= differing_below(a, b, n).insert(n));
    } else {
        assert(differing_below(a, b, n + 1) =~= differing_below(a, b, n));
    }
}

/// Beyond the shorter sequence nothing is informative.
proof fn lemma_below_all(a: Seq<u8>, b: Seq<u8>, n: int)
    requires
        n >= a.len() || n >= b.len(),
    ensures
        informative_below(a, b, n) == informative_positions(a, b),
        differing_below(a, b, n) == differing_positions(a, b),
{
    assert(informative_below(a, b, n) =~= informative_positions(a, b));
    assert(differing_below(a, b, n) =~= differing_positions(a, b));
}

/// The positions compared are finitely many, at most as many as the shorter
/// sequence is long, and no more of them differ than there are.
pub proof fn lemma_difference_bounds(a: Seq<u8>, b: Seq<u8>)
    ensures
        informative_positions(a, b).finite(),
        differing_positions(a, b).finite(),
        differing_positions(a, b).len() <= informative_positions(a, b).len(),
        informative_positions(a, b).len() <= a.len(),
        informative_positions(a, b).len() <= b.len(),
{
    let n = if a.len() <= b.len() {
        a.len() as int
    } else {
        b.len() as int
    };
    lemma_below_bounds(a, b, n);
    lemma_below_all(a, b, n);
}

/// Comparing `a` with `b` counts what comparing `b` with `a` counts.
pub proof fn lemma_difference_symmetric(a: Seq<u8>, b: Seq<u8>)
    ensures
        informative_positions(a, b) == informative_positions(b, a),
        differing_positions(a, b) == differing_positions(b, a),
{
    assert(informative_positions(a, b) =~= informative_positions(b, a));
    assert(differing_positions(a, b) =~= differing_positions(b, a));
}

/// A sequence differs from itself nowhere, and every canonical base of it is
/// an informative position: with one such base the share of differing
/// positions is zero out of a positive count.
pub proof fn lemma_difference_of_identical(a: Seq<u8>)
    ensures
        differing_positions(a, a).len() == 0,
        informative_positions(a, a) == Set::new(|i: int| 0 <= i < a.len() && is_canonical(a[i])),
        (exists|i: int| 0 <= i < a.len() && is_canonical(a[i])) ==> informative_positions(
            a,
            a,
        ).len() > 0,
{
    assert(differing_positions(a, a) =~= Set::<int>::empty());
    assert(informative_positions(a, a) =~= Set::new(
        |i: int| 0 <= i < a.len() && is_canonical(a[i]),
    ));
    lemma_difference_bounds(a, a);
    if exists|i: int| 0 <= i < a.len() && is_canonical(a[i]) {
        let i = choose|i: int| 0 <= i < a.len() && is_canonical(a[i]);
        assert(informative_positions(a, a).contains(i));
    }
}

/// Where the sequences disagree at every informative position, as many
/// positions differ as are informative.
pub proof fn lemma_difference_of_disagreeing(a: Seq<u8>, b: Seq<u8>)
    requires
        forall|i: int| informative_at(a, b, i) ==> a[i] != b[i],
    ensures
        differing_positions(a, b) == informative_positions(a, b),
        differing_positions(a, b).len() == informative_positions(a, b).len(),
{
    assert(differing_positions(a, b) =~= informative_positions(a, b));
}

/// Where no position holds a canonical base in both sequences, both counts
/// are zero; the share of differing positions is then zero out of zero.  An
/// empty sequence is such a case.  Conversely a count of zero informative
/// positions means that there is none.
pub proof fn lemma_difference_without_overlap(a: Seq<u8>, b: Seq<u8>)
    ensures
        (forall|i: int| !informative_at(a, b, i)) <==> informative_positions(a, b).len() == 0,
        informative_positions(a, b).len() == 0 ==> differing_positions(a, b).len() == 0,
        a.len() == 0 || b.len() == 0 ==> informative_positions(a, b).len() == 0,
{
    lemma_difference_bounds(a, b);
    if forall|i: int| !informative_at(a, b, i) {
        assert(informative_positions(a, b) =~= Set::<int>::empty());
    }
    if informative_positions(a, b).len() == 0 {
        assert forall|i: int| !informative_at(a, b, i) by {
            if informative_at(a, b, i) {
                assert(informative_positions(a, b).contains(i));
            }
        }
    }
}

impl Record {
    /// A record with the given label and bases.
    pub fn new(label: String, sequence: Vec<u8>) -> (r: Record)
        ensures
            r@.label == label@,
            r@.sequence == sequence@,
    {
        Record { label, sequence }
    }

    /// The record's label.
    pub fn label(&self) -> (s: &String)
        ensures
            s@ == self@.label,
    {
        &self.label
    }

    /// The record's bases.
    pub fn sequence(&self) -> (s: &Vec<u8>)
        ensures
            s@ == self@.sequence,
    {
        &self.sequence
    }

    /// Whether a byte is one of `A`, `C`, `G`, `T`.  Lower-case letters,
    /// ambiguity codes, gaps and everything else are not.
    pub fn is_nucleotide(c: &u8) -> (r: bool)
        ensures
            r == is_canonical(*c),
    {
        let b: u8 = *c;
        b == A || b == C || b == G || b == T
    }

    /// Compares two records position by position, up to the end of the
    /// shorter one.  Counts the positions at which both hold a canonical
    /// base, and those among them at which the two bases differ.
    pub fn percent_difference_of_nucleotides(&self, other: &Record) -> (r: Difference)
        ensures
            r.informative == informative_positions(self@.sequence, other@.sequence).len(),
            r.differing == differing_positions(self@.sequence, other@.sequence).len(),
            r.differing <= r.informative,
    {
        let ghost a = self.sequence@;
        let ghost b = other.sequence@;
        let n: usize = if self.sequence.len() < other.sequence.len() {
            self.sequence.len()
        } else {
            other.sequence.len()
        };
        let mut differing: usize = 0;
        let mut informative: usize = 0;
        let mut i: usize = 0;
        proof {
            lemma_below_bounds(a, b, 0);
        }
        while i < n
            invariant
                a == self.sequence@,
                b == other.sequence@,
                n <= a.len(),
                n <= b.len(),
                n == a.len() || n == b.len(),
                i <= n,
                informative == informative_below(a, b, i as int).len(),
                differing == differing_below(a, b, i as int).len(),
            decreases n - i,
        {
            proof {
                lemma_below_step(a, b, i as int);
                lemma_below_bounds(a, b, i + 1);
            }
            let x: u8 = self.sequence[i];
            let y: u8 = other.sequence[i];
            if Record::is_nucleotide(&x) && Record::is_nucleotide(&y) {
                informative = informative + 1;
                if x != y {
                    differing = differing + 1;
                }
            }
            i = i + 1;
        }
        proof {
            lemma_below_all(a, b, n as int);
            lemma_difference_bounds(a, b);
        }
        Difference { differing, informative }
    }
}

} // verus!
