use seq_distance::{compare_all_pairs, read_fasta_records, Difference};

const THRESHOLD: f32 = 0.04;

fn distance(difference: &Difference) -> f32 {
    let percent_difference = difference.differing as f32 / difference.informative as f32;
    -0.75 * (1.0 - (percent_difference * (4.0 / 3.0))).log2()
}

fn close_pairs(input: &str) -> Vec<(String, String, f32)> {
    let lines: Vec<String> = input.lines().map(|l| l.to_string()).collect();
    let records = read_fasta_records(lines);
    let mut found = Vec::new();
    for comparison in compare_all_pairs(&records) {
        let d = distance(&comparison.difference);
        if d < THRESHOLD {
            found.push((comparison.first.label().clone(), comparison.second.label().clone(), d));
        }
    }
    found
}

#[test]
fn three_distant_sequences_report_nothing() {
    let input = "seq1\nAAAACCCCGGGGTTTT\nseq2\nAAAACCCCGGGGTTTA\nseq3\nTTTTTTTTTTTTTTTT\n";
    let lines: Vec<String> = input.lines().map(|l| l.to_string()).collect();
    let records = read_fasta_records(lines);
    let out = compare_all_pairs(&records);
    assert_eq!(out.len(), 3);

    assert_eq!(out[0].difference, Difference { differing: 1, informative: 16 });
    let d01 = distance(&out[0].difference);
    assert!((d01 - 0.09415).abs() < 1e-4, "{}", d01);
    assert!(!(d01 < THRESHOLD));

    assert_eq!(out[1].difference, Difference { differing: 12, informative: 16 });
    assert!(!(distance(&out[1].difference) < THRESHOLD));

    assert_eq!(out[2].difference, Difference { differing: 13, informative: 16 });
    assert!(!(distance(&out[2].difference) < THRESHOLD));

    assert!(close_pairs(input).is_empty());
}

#[test]
fn two_near_identical_sequences_are_reported() {
    let first = "ACGT".repeat(25);
    let mut second = first.clone().into_bytes();
    second[40] = b'T';
    let second = String::from_utf8(second).unwrap();
    let input = format!("left\n{}\nright\n{}\n", first, second);
    let found = close_pairs(&input);
    assert_eq!(found.len(), 1);
    assert_eq!(found[0].0, "left");
    assert_eq!(found[0].1, "right");
    assert!((found[0].2 - 0.014524).abs() < 1e-4, "{}", found[0].2);
    assert!(found[0].2 < THRESHOLD);
}

#[test]
fn identical_sequences_are_at_distance_zero() {
    let found = close_pairs("a\nACGTACGT\nb\nACGTACGT\n");
    assert_eq!(found.len(), 1);
    assert_eq!(found[0].2, 0.0);
}

#[test]
fn total_disagreement_is_not_reported() {
    let lines: Vec<String> = ["a", "AAAA", "b", "CCCC"].iter().map(|l| l.to_string()).collect();
    let records = read_fasta_records(lines);
    let out = compare_all_pairs(&records);
    assert_eq!(out[0].difference, Difference { differing: 4, informative: 4 });
    assert!(!distance(&out[0].difference).is_finite());
    assert!(close_pairs("a\nAAAA\nb\nCCCC\n").is_empty());
}

#[test]
fn sequences_without_overlap_are_not_reported() {
    let lines: Vec<String> = ["a", "----", "b", "NNNN"].iter().map(|l| l.to_string()).collect();
    let records = read_fasta_records(lines);
    let out = compare_all_pairs(&records);
    assert_eq!(out[0].difference, Difference { differing: 0, informative: 0 });
    assert!(distance(&out[0].difference).is_nan());
    assert!(close_pairs("a\n----\nb\nNNNN\n").is_empty());
    assert!(close_pairs("a\n\nb\n\n").is_empty());
    assert!(close_pairs("a\nAC--\nb\n--GT\n").is_empty());
}

#[test]
fn three_quarters_disagreement_is_not_reported() {
    assert!(close_pairs("a\nAAAA\nb\nACCC\n").is_empty());
}

#[test]
fn only_close_pairs_are_kept_in_order() {
    let base = "ACGT".repeat(25);
    let mut near = base.clone().into_bytes();
    near[3] = b'A';
    let near = String::from_utf8(near).unwrap();
    let far = "T".repeat(100);
    let input = format!("one\n{}\ntwo\n{}\nthree\n{}\nfour\n{}\n", base, far, near, base);
    let found: Vec<(String, String)> =
        close_pairs(&input).into_iter().map(|(a, b, _)| (a, b)).collect();
    assert_eq!(
        found,
        vec![
            ("one".to_string(), "three".to_string()),
            ("one".to_string(), "four".to_string()),
            ("three".to_string(), "four".to_string()),
        ]
    );
}
