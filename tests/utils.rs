use bioperm::utils::{each_cons, each_step, same_klets, same_klons};

#[test]
fn test_chunkify() {
    assert_eq!(each_step("ABCDEFG", 3), vec!["ABC", "DEF", "G"]);
    assert_eq!(each_step("ABCDE", 2), vec!["AB", "CD", "E"]);
}

#[test]
fn test_chunkify_cons() {
    assert_eq!(each_cons("ABCDE", 2), vec!["AB", "BC", "CD", "DE"]);
    assert_eq!(each_cons("ABCDE", 3), vec!["ABC", "BCD", "CDE"]);
}

#[test]
fn test_same_klets() {
    let s1 = "AGACATAAAGTTCCGTACTGCCGGGAT";
    let s4 = "AAAGATCCGGTTAGACGGTACTGCCAT";
    assert!(same_klets(s1, s4, 2));
}

#[test]
fn test_same_klons() {
    let s1 = "AGACATAAAGTTCCGTACTGCCGGGAT";
    let s4 = "AAAGATCCGGTTAGACGGTACTGCCAT";
    assert!(same_klons(s1, s4, 3));
}

#[test]
fn same_klets_is_reflexive() {
    for k in 0..=5 {
        assert!(same_klets("ACGTTGCA", "ACGTTGCA", k));
    }
}

#[test]
fn same_klets_rejects_other_counts() {
    assert!(!same_klets("AACG", "ACGA", 2));
    assert!(same_klets("AACG", "AACG", 2));
    assert!(!same_klets("ACG", "ACGT", 1));
}

#[test]
fn same_klets_longer_than_sequence() {
    assert!(same_klets("AC", "GT", 3));
    assert!(!same_klets("AC", "GTA", 3));
}

#[test]
fn each_cons_whole_and_empty_step() {
    assert_eq!(each_cons("ACG", 3), vec!["ACG"]);
    assert_eq!(each_cons("AC", 0), vec!["", "", ""]);
}

#[test]
fn each_step_empty_and_exact() {
    assert_eq!(each_step("", 2), Vec::<String>::new());
    assert_eq!(each_step("ABCD", 2), vec!["AB", "CD"]);
}

#[test]
fn same_klons_detects_difference() {
    assert!(same_klons("ABCDEF", "DEFABC", 3));
    assert!(!same_klons("ABCDEF", "BCDEFA", 3));
}
