use std::collections::{HashMap, HashSet};

use bioperm::altschul::{
    check_if_connected, connected, edge_ordering, edge_ordering_chars, klet_preserving_permutation, walk, S1,
};
use bioperm::utils::same_klets;

#[test]
fn test_check_if_connected() {
    let z_graph = ["AT", "CT", "GA"];
    let vertices = ["A", "C", "G", "T"];
    assert!(check_if_connected(&z_graph, &vertices));
}

#[test]
fn test_edge_ordering() {
    let result = edge_ordering(S1, 3);
    assert_eq!(result.len(), 16);
}

#[test]
fn test_klet_preservation() {
    let _seq = "AGTACTAT".repeat(2);
    let seq = _seq.as_str();
    let seq_2 = klet_preserving_permutation(seq, 2, false).unwrap();
    assert!(same_klets(seq, &seq_2, 2));

    let seq_3 = klet_preserving_permutation(seq, 3, false).unwrap();
    assert!(same_klets(seq, &seq_3, 2));
    assert!(same_klets(seq, &seq_3, 3));
}

fn klet_uniform(seq: &str, all_perms: &[&str], k: usize) {
    let all_perms_set: HashSet<_> = all_perms.iter().map(|s| s.to_string()).collect();

    let mut cnt: HashMap<String, usize> = HashMap::new();
    let max_iterations = 1000;
    for _ in 0..max_iterations {
        let res = klet_preserving_permutation(seq, k, false).unwrap();
        *cnt.entry(res.clone()).or_insert(0) += 1;
        assert!(same_klets(seq, &res, k));
    }

    for (perm, &amount) in &cnt {
        assert!(all_perms_set.contains(perm));
        let ratio = amount as f64 / max_iterations as f64 - 1.0 / all_perms_set.len() as f64;
        assert!(ratio.abs() < 0.05);
    }

    let remaining: HashSet<_> = cnt.keys().cloned().collect();
    assert!(remaining.is_subset(&all_perms_set));
}

#[test]
fn test_klet_uniform_altschul() {
    let seq = "ACTAGTAT";
    let all_perms = [
        "AGTACTAT", "ACTAGTAT", "ATAGTACT", "ATACTAGT", "AGTATACT", "ACTATAGT",
    ];
    klet_uniform(seq, &all_perms, 2);

    let seq = "AAATAAA";
    let all_perms = ["AAAATAA", "AATAAAA", "AAATAAA"];
    klet_uniform(seq, &all_perms, 3);

    let seq = "AAAATAAAA";
    let all_perms = ["AAAAATAAA", "AAATAAAAA", "AAAATAAAA"];
    klet_uniform(seq, &all_perms, 4);
}

#[test]
fn disconnected_graph_is_reported() {
    let z_graph = ["AC"];
    let vertices = ["A", "C", "G"];
    assert!(!check_if_connected(&z_graph, &vertices));
    assert!(!connected(3, &vec![(0, 1)]));
    assert!(connected(3, &vec![(0, 1), (2, 1)]));
    assert!(!connected(0, &vec![]));
    assert!(connected(1, &vec![]));
}

#[test]
fn edge_ordering_lists_klets_in_order() {
    let g = edge_ordering("ACAGA", 2);
    assert_eq!(g.len(), 3);
    assert_eq!(g.labels, vec![0, 1, 3]);
    assert_eq!(g.edges, vec![vec![0, 2], vec![1], vec![3]]);
}

#[test]
fn edge_ordering_adds_final_vertex() {
    let g = edge_ordering("AACT", 2);
    assert_eq!(g.len(), 3);
    assert_eq!(g.labels, vec![0, 2, 3]);
    assert_eq!(g.edges, vec![vec![0, 1], vec![2], vec![]]);
}

#[test]
fn permutation_keeps_length_and_jlets() {
    let seq = "AGACATAAAGTTCCGTACTGCCGGGAT";
    for k in 2..6 {
        let out = klet_preserving_permutation(seq, k, false).unwrap();
        assert_eq!(out.len(), seq.len());
        for j in 2..=k {
            assert!(same_klets(seq, &out, j));
        }
        assert_eq!(&out[..k - 1], &seq[..k - 1]);
    }
}

#[test]
fn walk_reports_unused_edges() {
    let s: Vec<char> = "ACAT".chars().collect();
    let g = edge_ordering_chars(&s, 2);
    assert_eq!(g.labels, vec![0, 1, 3]);
    let stranded = walk(&g, &s, 2, &vec![vec![2, 0], vec![1], vec![]], 2);
    assert!(stranded.is_none());
    let full = walk(&g, &s, 2, &vec![vec![0, 2], vec![1], vec![]], 2);
    assert_eq!(full, Some("ACAT".chars().collect::<Vec<char>>()));
}

#[test]
fn single_exit_sequences_come_back_unchanged() {
    assert_eq!(klet_preserving_permutation("ACGT", 2, false), Ok("ACGT".to_string()));
    assert_eq!(klet_preserving_permutation("ACGTTGCA", 3, false), Ok("ACGTTGCA".to_string()));
}
