//! Records from lines of text: a label line, then a sequence line.

use crate::record::Record;
use itertools::Itertools;
use vstd::prelude::*;
use vstd::string::StrSliceExecFns;
use vstd::utf8::encode_utf8;

verus! {

/// Whether a character has the Unicode property `White_Space`, which is what
/// `str::trim` removes.
pub uninterp spec fn white_space(c: char) -> bool;

/// How many characters of whitespace a text begins with.
pub open spec fn leading_white_space(s: Seq<char>) -> nat
    decreases s.len(),
{
    if s.len() > 0 && white_space(s[0]) {
        1 + leading_white_space(s.drop_first())
    } else {
        0
    }
}

/// How many characters of whitespace a text ends with.
pub open spec fn trailing_white_space(s: Seq<char>) -> nat
    decreases s.len(),
{
    if s.len() > 0 && white_space(s.last()) {
        1 + trailing_white_space(s.drop_last())
    } else {
        0
    }
}

/// A text without the whitespace that it begins and ends with.
pub open spec fn trimmed(s: Seq<char>) -> Seq<char> {
    let rest = s.skip(leading_white_space(s) as int);
    rest.take(rest.len() - trailing_white_space(rest))
}

/// The whitespace counted at the start is whitespace, and what follows it,
/// if anything, is not.
proof fn lemma_leading_white_space(s: Seq<char>)
    ensures
        leading_white_space(s) <= s.len(),
        forall|i: int| 0 <= i < leading_white_space(s) ==> white_space(#[trigger] s[i]),
        leading_white_space(s) < s.len() ==> !white_space(s[leading_white_space(s) as int]),
    decreases s.len(),
{
    if s.len() > 0 && white_space(s[0]) {
        let t = s.drop_first();
        lemma_leading_white_space(t);
        assert forall|i: int| 0 <= i < leading_white_space(s) implies white_space(
            #[trigger] s[i],
        ) by {
            if i > 0 {
                assert(s[i] == t[i - 1]);
            }
        }
        if leading_white_space(s) < s.len() {
            assert(s[leading_white_space(s) as int] == t[leading_white_space(t) as int]);
        }
    }
}

/// The whitespace counted at the end is whitespace, and what stands before
/// it, if anything, is not.
proof fn lemma_trailing_white_space(s: Seq<char>)
    ensures
        trailing_white_space(s) <= s.len(),
        forall|i: int|
            s.len() - trailing_white_space(s) <= i < s.len() ==> white_space(#[trigger] s[i]),
        trailing_white_space(s) < s.len() ==> !white_space(
            s[s.len() - trailing_white_space(s) - 1],
        ),
    decreases s.len(),
{
    if s.len() > 0 && white_space(s.last()) {
        let t = s.drop_last();
        lemma_trailing_white_space(t);
        assert forall|i: int|
            s.len() - trailing_white_space(s) <= i < s.len() implies white_space(
            #[trigger] s[i],
        ) by {
            if i < s.len() - 1 {
                assert(s[i] == t[i]);
            }
        }
        if trailing_white_space(s) < s.len() {
            assert(s[s.len() - trailing_white_space(s) - 1] == t[t.len() - trailing_white_space(t)
                - 1]);
        }
    }
}

/// A trimmed text is one stretch of the text.  All that stands before it and
/// all that stands after it is whitespace; the stretch itself neither begins
/// nor ends with whitespace.  A text of whitespace alone trims to nothing.
pub proof fn lemma_trimmed(s: Seq<char>) -> (bounds: (int, int))
    ensures
        0 <= bounds.0 <= bounds.1 <= s.len(),
        trimmed(s) == s.subrange(bounds.0, bounds.1),
        forall|i: int| 0 <= i < bounds.0 ==> white_space(#[trigger] s[i]),
        forall|i: int| bounds.1 <= i < s.len() ==> white_space(#[trigger] s[i]),
        trimmed(s).len() > 0 ==> !white_space(trimmed(s).first()) && !white_space(
            trimmed(s).last(),
        ),
        (forall|i: int| 0 <= i < s.len() ==> white_space(#[trigger] s[i])) ==> trimmed(s).len()
            == 0,
{
    let start = leading_white_space(s) as int;
    lemma_leading_white_space(s);
    let rest = s.skip(start);
    lemma_trailing_white_space(rest);
    let end = s.len() - trailing_white_space(rest);
    assert(trimmed(s) =~= s.subrange(start, end));
    assert forall|i: int| end <= i < s.len() implies white_space(#[trigger] s[i]) by {
        assert(s[i] == rest[i - start]);
    }
    if trimmed(s).len() > 0 {
        assert(trimmed(s).first() == s[start]);
        assert(trimmed(s).last() == rest[rest.len() - trailing_white_space(rest) - 1]);
    }
    if start < s.len() {
        assert(!white_space(s[start]));
    }
    (start, end)
}

/// `str::trim`: the part of the text that is left when the whitespace at its
/// start and at its end is removed, whitespace being the characters with the
/// Unicode property `White_Space`.  What is left neither begins nor ends with
/// whitespace.
#[verifier::external_body]
fn trim<'a>(s: &'a str) -> (r: &'a str)
    ensures
        r@ == trimmed(s@),
        r@.len() > 0 ==> !white_space(r@.first()) && !white_space(r@.last()),
{
    s.trim()
}

/// `Itertools::tuples` for tuples of two: the items are grouped two by two
/// in their order, and an item left over at the end is dropped.
#[verifier::external_body]
fn line_pairs(lines: Vec<String>) -> (pairs: Vec<(String, String)>)
    ensures
        pairs@.len() == lines@.len() / 2,
        forall|k: int|
            0 <= k < pairs@.len() ==> (#[trigger] pairs@[k]).0 == lines@[2 * k] && pairs@[k].1
                == lines@[2 * k + 1],
{
    lines.into_iter().tuples().collect()
}

/// Makes records out of lines, two lines each: the first is the label, the
/// second the sequence.  Both are trimmed; the sequence is then taken byte by
/// byte as UTF-8 writes it, upper and lower case apart.  No marker is looked
/// for or removed.  A last line without a partner is dropped.
#[verifier::loop_isolation(false)]
pub fn read_fasta_records(lines: Vec<String>) -> (records: Vec<Record>)
    ensures
        records@.len() == lines@.len() / 2,
        forall|k: int|
            0 <= k < records@.len() ==> (#[trigger] records@[k])@.label == trimmed(
                lines@[2 * k]@,
            ),
        forall|k: int|
            0 <= k < records@.len() ==> (#[trigger] records@[k])@.sequence == encode_utf8(
                trimmed(lines@[2 * k + 1]@),
            ),
{
    let pairs = line_pairs(lines);
    let mut records: Vec<Record> = Vec::new();
    let mut k: usize = 0;
    while k < pairs.len()
        invariant
            k <= pairs@.len(),
            records@.len() == k,
            forall|l: int|
                0 <= l < k ==> (#[trigger] records@[l])@.label == trimmed(lines@[2 * l]@),
            forall|l: int|
                0 <= l < k ==> (#[trigger] records@[l])@.sequence == encode_utf8(
                    trimmed(lines@[2 * l + 1]@),
                ),
        decreases pairs@.len() - k,
    {
        let pair = &pairs[k];
        let label: String = trim(pair.0.as_str()).to_owned();
        let sequence: Vec<u8> = trim(pair.1.as_str()).as_bytes_vec();
        records.push(Record::new(label, sequence));
        k = k + 1;
    }
    records
}

} // verus!
