use bioperm::altschul::klet_preserving_permutation;
use bioperm::kandel::swap_algorithm;
use bioperm::utils::same_klets;
use rand::Rng;

fn random_sequence(rng: &mut impl Rng, len: usize) -> String {
    let letters = ['A', 'C', 'G', 'T'];
    (0..len).map(|_| letters[rng.gen_range(0..4)]).collect()
}

#[test]
fn permutation_preserves_jlets_on_random_inputs() {
    let mut rng = rand::thread_rng();
    for _ in 0..40 {
        let k = rng.gen_range(2..7);
        let len = rng.gen_range(k + 1..k + 201);
        let seq = random_sequence(&mut rng, len);
        let out = klet_preserving_permutation(&seq, k, false).unwrap();
        assert_eq!(out.len(), seq.len());
        for j in 2..=k {
            assert!(same_klets(&seq, &out, j));
        }
    }
}

#[test]
fn swap_preserves_klets_on_random_inputs() {
    let mut rng = rand::thread_rng();
    for _ in 0..100 {
        let k = rng.gen_range(2..5);
        let len = rng.gen_range(k + 1..k + 40);
        let seq = random_sequence(&mut rng, len);
        let out = swap_algorithm(&seq, k);
        assert_eq!(out.len(), seq.len());
        assert!(same_klets(&seq, &out, k));
    }
}

#[test]
fn cyclic_input_is_rotated_or_swapped_within_its_klets() {
    let seq = "ACGTTACGTTAC";
    for _ in 0..50 {
        let out = swap_algorithm(seq, 3);
        assert!(same_klets(seq, &out, 3));
    }
}
