use bioperm::kandel::{is_k_cyclic, kandel, markov_transition, random_rotation, swap_algorithm, swap_blocks};
use bioperm::utils::same_klets;

#[test]
fn kandel_test_same_klets_two() {
    let chunk_size = 2;
    let s1 = "AGACATAAAGTTCCGTACTGCCGGGAT";
    let s2 = kandel(s1);
    assert!(same_klets(s1, &s2, chunk_size));
}

#[test]
fn test_is_k_cyclic() {
    assert!(is_k_cyclic("AATAA", 2));
    assert!(is_k_cyclic("AATAA", 3));
}

fn test_random_rotation(seq: &str, k: usize, expected: &[&str]) {
    let n = seq.len();
    let mut expected_seqs: Vec<_> = expected.iter().map(|s| s.to_string()).collect();
    let mut received_seqs: Vec<_> = (k..=n).map(|m| random_rotation(seq, k, Some(m))).collect();

    expected_seqs.sort();
    received_seqs.sort();

    assert_eq!(expected_seqs.len(), n - k + 1);
    assert_eq!(expected_seqs, received_seqs);
}

#[test]
fn test_random_rotation_base() {
    let seq = "AATAA";
    let k = 2;
    let expected = ["ATAAA", "TAAAT", "AAATA", "AATAA"];
    test_random_rotation(seq, k, &expected);
}

#[test]
fn test_random_rotation_base_two() {
    let seq = "ACGTAC";
    let k = 3;
    let expected = ["ACGTAC", "CGTACG", "GTACGT", "TACGTA"];
    test_random_rotation(seq, k, &expected);
}

#[test]
fn not_k_cyclic() {
    assert!(!is_k_cyclic("AATAC", 2));
    assert!(!is_k_cyclic("ACGTAG", 3));
    assert!(is_k_cyclic("ACGTAG", 1));
}

#[test]
fn random_rotation_without_point_is_a_rotation() {
    let seq = "ACGTAC";
    let all = ["ACGTAC", "CGTACG", "GTACGT", "TACGTA"];
    for _ in 0..50 {
        let r = random_rotation(seq, 3, None);
        assert!(all.contains(&r.as_str()));
        assert!(same_klets(seq, &r, 3));
    }
}

#[test]
fn swap_blocks_exact_result() {
    // k = 2: seams "A" at 0 and 4, "C" at 2 and 6.
    let s: Vec<char> = "AGCTAGCT".chars().collect();
    let r = swap_blocks(&s, 2, 0, 2, 4, 6).unwrap();
    let expected: Vec<char> = "AGCTAGCT".chars().collect();
    assert_eq!(r, expected);
    let s: Vec<char> = "ATCGATCAT".chars().collect();
    // seams "A" at 0 and 4, "C" at 2 and 6: prefix "" + s[4..7] "ATC" + s[3..4] "G" + s[0..3] "ATC" + s[7..] "AT"
    let r = swap_blocks(&s, 2, 0, 2, 4, 6).unwrap();
    let expected: Vec<char> = "ATCGATCAT".chars().collect();
    assert_eq!(r, expected);
    let s: Vec<char> = "ATTCGAGCTT".chars().collect();
    // "A" at 0 and 5, "C" at 3 and 7
    let r = swap_blocks(&s, 2, 0, 3, 5, 7).unwrap();
    let expected: Vec<char> = "AGCGATTCTT".chars().collect();
    assert_eq!(r, expected);
    assert!(same_klets("ATTCGAGCTT", "AGCGATTCTT", 2));
}

#[test]
fn swap_blocks_rejects_unmatched_seams() {
    let s: Vec<char> = "ACGTACGT".chars().collect();
    assert!(swap_blocks(&s, 2, 0, 1, 2, 3).is_none());
    assert!(swap_blocks(&s, 2, 2, 1, 3, 4).is_none());
    assert!(swap_blocks(&s, 2, 0, 1, 4, 8).is_none());
}

#[test]
fn swap_algorithm_keeps_klets() {
    let seqs = ["AGACATAAAGTTCCGTACTGCCGGGAT", "ACTAGTAT", "AATAA", "ACGTAC"];
    for seq in seqs {
        for k in 2..4 {
            if k < seq.len() {
                let r = swap_algorithm(seq, k);
                assert_eq!(r.len(), seq.len());
                assert!(same_klets(seq, &r, k));
            }
        }
    }
}

#[test]
fn markov_transition_result_keeps_klets() {
    let seq = "AGACATAAAGTTCCGTACTGCCGGGAT";
    for _ in 0..200 {
        if let Some(r) = markov_transition(seq, 2) {
            assert_eq!(r.len(), seq.len());
            assert!(same_klets(seq, &r, 2));
        }
    }
}

#[test]
fn rotation_at_every_point_of_a_long_overlap() {
    // k - 1 = 4 overlap symbols on a core of two: every point in k..=n is accepted.
    assert_eq!(random_rotation("ACACAC", 5, Some(5)), "ACACAC");
    assert_eq!(random_rotation("ACACAC", 5, Some(6)), "CACACA");
    for _ in 0..20 {
        let r = random_rotation("ACACAC", 5, None);
        assert!(r == "ACACAC" || r == "CACACA");
        assert!(is_k_cyclic(&r, 5));
    }
}

#[test]
fn swap_algorithm_keeps_k_cyclicity() {
    for _ in 0..50 {
        let r = swap_algorithm("ACGTTACGTTAC", 3);
        assert!(is_k_cyclic(&r, 3));
        let r = swap_algorithm("AGACATAAAGTTCCGTACTGCCGGGAT", 3);
        assert!(!is_k_cyclic(&r, 3));
    }
}
