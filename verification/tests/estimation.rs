use vigenere::decryption::vigenere_encrypt;
use vigenere::genetic_decryption::{
    crossover_keys, evaluate_key_fitness, generate_random_key, genetic_guess_key, GeneticParams,
};
use vigenere::k_len_estimator::{
    autocorrelation_score, average_column_ic_micro, create_frequency_map,
    estimate_key_length_using_multiple_strategies, find_gcd_of_list, friedman_test,
    KeyLengthEstimationStrategy,
};
use vigenere::VigenereError;

fn bytes(s: &str) -> Vec<u8> {
    s.as_bytes().to_vec()
}

#[test]
fn gcd_folds_only_entries_above_the_threshold() {
    assert_eq!(find_gcd_of_list(&vec![12, 24, 36]), 12);
    assert_eq!(find_gcd_of_list(&vec![4, 12, 24]), 12);
    assert_eq!(find_gcd_of_list(&vec![4, 5, 3]), 0);
    assert_eq!(find_gcd_of_list(&vec![]), 0);
    assert_eq!(find_gcd_of_list(&vec![14, 21]), 7);
}

#[test]
fn frequency_map_counts_occurrences() {
    let m = create_frequency_map(&vec![3, 5, 3]);
    assert_eq!(m.get(&3), Some(&2));
    assert_eq!(m.get(&5), Some(&1));
    assert_eq!(m.get(&7), None);
}

#[test]
fn autocorrelation_scores_the_true_period_higher() {
    let text = bytes("ABABABABAB");
    assert_eq!(autocorrelation_score(2, &text), 2000000);
    assert_eq!(autocorrelation_score(3, &text), 1000000);
}

#[test]
fn column_ic_of_a_uniform_text() {
    // both columns of "AAAA" are "AA" with an IC of exactly 1
    assert_eq!(average_column_ic_micro(&bytes("AAAA"), 2), 1000000);
    assert_eq!(average_column_ic_micro(&bytes("AAAA"), 1), 1000000);
}

#[test]
fn friedman_reports_distance_from_english_baseline() {
    // the only trial length is 1; "AAAA" has IC 1, distance 933300 in
    // micro-units from the English baseline 0.0667
    assert_eq!(friedman_test(1, &bytes("AAAA")), (933300, 1));
}

#[test]
fn explicit_key_length_is_honored_without_scoring() {
    let strategies = vec![KeyLengthEstimationStrategy::Autocorrelation];
    let text = bytes("ABCDEFGHIJ");
    let r = estimate_key_length_using_multiple_strategies(&strategies, vec![2, 3], &text, Some(7), 0);
    assert_eq!(r.unwrap(), 7);
    let r0 = estimate_key_length_using_multiple_strategies(&strategies, vec![2, 3], &text, Some(0), 0);
    assert_eq!(r0.unwrap_err(), VigenereError::InvalidKeyLength);
    let too_long =
        estimate_key_length_using_multiple_strategies(&strategies, vec![2, 3], &text, Some(99), 0);
    assert_eq!(too_long.unwrap_err(), VigenereError::InvalidKeyLength);
}

#[test]
fn no_candidates_means_no_estimate() {
    let strategies = vec![KeyLengthEstimationStrategy::GCD];
    let r = estimate_key_length_using_multiple_strategies(
        &strategies,
        vec![],
        &bytes("ABCDEF"),
        None,
        0,
    );
    assert_eq!(r.unwrap_err(), VigenereError::InvalidKeyLength);
}

#[test]
fn autocorrelation_strategy_picks_the_true_period() {
    let strategies = vec![KeyLengthEstimationStrategy::Autocorrelation];
    let r = estimate_key_length_using_multiple_strategies(
        &strategies,
        vec![2, 3],
        &bytes("ABABABABAB"),
        None,
        0,
    );
    assert_eq!(r.unwrap(), 2);
}

#[test]
fn gcd_strategy_surfaces_the_common_base_length() {
    // every candidate is a multiple of 12 (> 5): the GCD 12 joins the pool,
    // occurs there twice, and the frequency bonus makes it win
    let strategies = vec![KeyLengthEstimationStrategy::GCD];
    let r = estimate_key_length_using_multiple_strategies(
        &strategies,
        vec![12, 24, 36],
        &bytes("ABCDEFGHIJKLMNOPQRSTUVWXYZabcdefghijkl"),
        None,
        1000000,
    );
    assert_eq!(r.unwrap(), 12);
}

#[test]
fn fitness_of_a_single_e() {
    assert_eq!(evaluate_key_fitness(&bytes("E")), 174595);
}

#[test]
fn fitness_prefers_english_over_uniform_noise() {
    let english = bytes(
        "the quick brown fox jumps over the lazy dog while the rain in spain stays mainly on \
         the plain and everything else takes its usual course",
    );
    let noise = bytes("zqzqzqzqzqzqzqzqzqzqzqzqzqzqzqzqzqzqzqzqzqzqzqzqzqzqzqzqzqzq");
    assert!(evaluate_key_fitness(&english) < evaluate_key_fitness(&noise));
}

#[test]
fn crossover_splices_at_the_point() {
    let child = crossover_keys(&bytes("AAAA"), &bytes("BBBB"), 2);
    assert_eq!(child, bytes("AABB"));
    let child2 = crossover_keys(&bytes("BBBB"), &bytes("AAAA"), 2);
    assert_eq!(child2, bytes("BBAA"));
}

#[test]
fn random_keys_are_wellformed() {
    for len in [1usize, 2, 5, 9] {
        let k = generate_random_key(len);
        assert_eq!(k.len(), len);
        assert!(k.iter().all(|c| (b'A'..=b'Z').contains(c)));
    }
}

#[test]
fn genetic_search_returns_a_wellformed_key() {
    let plaintext = bytes("some ordinary english words repeated some ordinary english words");
    let ciphertext = vigenere_encrypt(&plaintext, &bytes("AB"));
    let params = GeneticParams {
        population_size: 20,
        generations: 5,
        tournament_size: 4,
        crossover_permille: 800,
        mutation_permille: 150,
    };
    let key = genetic_guess_key(&ciphertext, 2, &params).unwrap();
    assert_eq!(key.len(), 2);
    assert!(key.iter().all(|c| (b'A'..=b'Z').contains(c)));
}

#[test]
fn genetic_search_rejects_invalid_lengths() {
    let params = GeneticParams {
        population_size: 4,
        generations: 1,
        tournament_size: 2,
        crossover_permille: 800,
        mutation_permille: 150,
    };
    assert_eq!(
        genetic_guess_key(&bytes("ABC"), 0, &params).unwrap_err(),
        VigenereError::InvalidKeyLength
    );
    assert_eq!(
        genetic_guess_key(&bytes("AB12"), 3, &params).unwrap_err(),
        VigenereError::InvalidKeyLength
    );
}
