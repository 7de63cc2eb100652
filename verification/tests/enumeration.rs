use seq_distance::{compare_all_pairs, Difference, Record};

fn records(texts: &[(&str, &str)]) -> Vec<Record> {
    texts
        .iter()
        .map(|(label, sequence)| Record::new(label.to_string(), sequence.as_bytes().to_vec()))
        .collect()
}

fn labels(set: &[Record]) -> Vec<(String, String)> {
    let owned: Vec<Record> = set
        .iter()
        .map(|r| Record::new(r.label().clone(), r.sequence().clone()))
        .collect();
    compare_all_pairs(&owned)
        .iter()
        .map(|c| (c.first.label().clone(), c.second.label().clone()))
        .collect()
}

#[test]
fn no_record_gives_no_pair() {
    let set = records(&[]);
    assert_eq!(compare_all_pairs(&set).len(), 0);
}

#[test]
fn one_record_gives_no_pair() {
    let set = records(&[("only", "ACGT")]);
    assert_eq!(compare_all_pairs(&set).len(), 0);
}

#[test]
fn two_records_give_one_pair() {
    let set = records(&[("a", "ACGT"), ("b", "ACGA")]);
    let out = compare_all_pairs(&set);
    assert_eq!(out.len(), 1);
    assert_eq!(out[0].first.label(), "a");
    assert_eq!(out[0].second.label(), "b");
    assert_eq!(out[0].difference, Difference { differing: 1, informative: 4 });
}

#[test]
fn pairs_come_in_input_order() {
    let set = records(&[("a", "A"), ("b", "C"), ("c", "G"), ("d", "T")]);
    let expected: Vec<(String, String)> = [("a", "b"), ("a", "c"), ("a", "d"), ("b", "c"), ("b", "d"), ("c", "d")]
        .iter()
        .map(|(x, y)| (x.to_string(), y.to_string()))
        .collect();
    assert_eq!(labels(&set), expected);
}

#[test]
fn pair_count_is_n_choose_two() {
    for n in 0..12usize {
        let set: Vec<Record> = (0..n)
            .map(|i| Record::new(format!("r{}", i), vec![b'A'; i]))
            .collect();
        let out = compare_all_pairs(&set);
        assert_eq!(out.len(), n * n.saturating_sub(1) / 2, "n = {}", n);
    }
}

#[test]
fn no_pair_is_taken_in_both_orders() {
    let set: Vec<Record> = (0..7usize)
        .map(|i| Record::new(format!("r{}", i), vec![b'A'; i]))
        .collect();
    let seen = labels(&set);
    for (k, (a, b)) in seen.iter().enumerate() {
        assert_ne!(a, b);
        for (l, (c, d)) in seen.iter().enumerate() {
            if k != l {
                assert!(!(a == c && b == d));
            }
            assert!(!(a == d && b == c));
        }
    }
}

#[test]
fn each_pair_carries_its_own_comparison() {
    let set = records(&[
        ("s1", "AAAACCCCGGGGTTTT"),
        ("s2", "AAAACCCCGGGGTTTA"),
        ("s3", "TTTTTTTTTTTTTTTT"),
        ("s4", "----NNNNacgt"),
        ("s5", "AAAA"),
    ]);
    let out = compare_all_pairs(&set);
    assert_eq!(out.len(), 10);
    let mut k = 0;
    for i in 0..set.len() {
        for j in (i + 1)..set.len() {
            assert_eq!(out[k].first.label(), set[i].label());
            assert_eq!(out[k].second.label(), set[j].label());
            assert_eq!(out[k].first.sequence(), set[i].sequence());
            assert_eq!(out[k].second.sequence(), set[j].sequence());
            assert_eq!(out[k].difference, set[i].percent_difference_of_nucleotides(&set[j]));
            k += 1;
        }
    }
    assert_eq!(out[0].difference, Difference { differing: 1, informative: 16 });
    assert_eq!(out[1].difference, Difference { differing: 12, informative: 16 });
    assert_eq!(out[2].difference, Difference { differing: 0, informative: 0 });
    assert_eq!(out[3].difference, Difference { differing: 0, informative: 4 });
    assert_eq!(out[9].difference, Difference { differing: 0, informative: 0 });
}

#[test]
fn records_with_equal_labels_are_still_paired() {
    let set = records(&[("x", "ACGT"), ("x", "ACGT"), ("x", "TCGT")]);
    let out = compare_all_pairs(&set);
    assert_eq!(out.len(), 3);
    assert_eq!(out[0].difference, Difference { differing: 0, informative: 4 });
    assert_eq!(out[1].difference, Difference { differing: 1, informative: 4 });
    assert_eq!(out[2].difference, Difference { differing: 1, informative: 4 });
}

#[test]
fn many_records_keep_their_order() {
    let n = 60usize;
    let set: Vec<Record> = (0..n)
        .map(|i| {
            let mut sequence = vec![b'A'; n];
            sequence[i] = b'C';
            Record::new(format!("r{}", i), sequence)
        })
        .collect();
    let out = compare_all_pairs(&set);
    assert_eq!(out.len(), 1770);
    let mut k = 0;
    for i in 0..n {
        for j in (i + 1)..n {
            assert_eq!(out[k].first.label(), &format!("r{}", i));
            assert_eq!(out[k].second.label(), &format!("r{}", j));
            assert_eq!(out[k].difference, Difference { differing: 2, informative: 60 });
            k += 1;
        }
    }
}
