use bioperm::custom::{join_with, method_r, regroup, split_on};
use bioperm::utils::same_klets;

fn chars(s: &str) -> Vec<char> {
    s.chars().collect()
}

#[test]
fn custom_test_same_klets_two() {
    let chunk_size = 2;
    let s1 = "AGACATAAAGTTCCGTACTGCCGGGAT";
    let s2 = method_r(s1, chunk_size);
    assert!(same_klets(s1, &s2, chunk_size));
}

#[test]
fn test_same_klets_three() {
    let chunk_size = 3;
    let s1 = "AGACATAAAGTTCCGTACTGCCGGGAT";
    let s2 = method_r(s1, chunk_size);
    assert!(same_klets(s1, &s2, chunk_size));
}

#[test]
fn method_r_regroups_pieces_between_first_word() {
    let seq = "CATGATTAT";
    let allowed = ["CATGATTAT", "CATTATGAT"];
    for _ in 0..40 {
        let r = method_r(seq, 2);
        assert!(allowed.contains(&r.as_str()));
    }
}

#[test]
fn method_r_skips_words_that_do_not_split() {
    // "AA" and "AC" occur at most once; "AG" occurs twice, cutting into three pieces.
    let seq = "CAGTAGT";
    assert_eq!(method_r(seq, 3), "CAGTAGT");
}

#[test]
fn split_on_matches_str_split() {
    let cases = [("CATGATTAT", "A"), ("AAAA", "AA"), ("AAA", "AA"), ("CG", "T"), ("ATAT", "AT")];
    for (t, w) in cases {
        let got: Vec<String> = split_on(&chars(t), &chars(w)).iter().map(|p| p.iter().collect()).collect();
        let expected: Vec<String> = t.split(w).map(|p| p.to_string()).collect();
        assert_eq!(got, expected);
    }
}

#[test]
fn join_with_puts_word_between_pieces() {
    let parts = vec![chars("C"), chars("TG"), chars(""), chars("T")];
    assert_eq!(join_with(&chars("A"), &parts), chars("CATGAAT"));
    assert_eq!(join_with(&chars("A"), &vec![]), Vec::<char>::new());
    assert_eq!(join_with(&chars("A"), &vec![chars("GG")]), chars("GG"));
}

#[test]
fn regroup_puts_inner_pieces_in_the_given_order() {
    let s = chars("CATGATTAT");
    let w = chars("A");
    assert_eq!(regroup(&s, &w, &vec![0, 1]), chars("CATGATTAT"));
    assert_eq!(regroup(&s, &w, &vec![1, 0]), chars("CATTATGAT"));
}

#[test]
fn method_r_keeps_length() {
    let s1 = "AGACATAAAGTTCCGTACTGCCGGGAT";
    for k in 2..4 {
        assert_eq!(method_r(s1, k).len(), s1.len());
    }
}
