use vigenere::decryption::{
    chi_squared_test, confidence_level, decrypt_vigenere, extract_column, guess_key,
    mutual_index_of_coincidence, vigenere_decrypt, vigenere_encrypt,
};
use vigenere::freq_analysis::{character_frequency_usize, count_alphabetic, index_of_coincidence};
use vigenere::kasiski::{analyze_text, find_divisors, kasiski_examination};
use vigenere::{Confidence, VigenereError};

fn bytes(s: &str) -> Vec<u8> {
    s.as_bytes().to_vec()
}

fn text(b: &[u8]) -> String {
    String::from_utf8(b.to_vec()).unwrap()
}

#[test]
fn round_trip_preserves_text_exactly() {
    let plaintext = bytes("Attack at Dawn, 04:00! Bring the maps.");
    let key = bytes("LEMoN");
    let encrypted = vigenere_encrypt(&plaintext, &key);
    let decrypted = vigenere_decrypt(&encrypted, &key);
    assert_eq!(decrypted, plaintext);
}

#[test]
fn round_trip_with_lowercase_and_symbols() {
    let plaintext = bytes("a-b_c d1e2f3 ZYXWvu\t\nend");
    let key = bytes("key");
    let encrypted = vigenere_encrypt(&plaintext, &key);
    assert_ne!(encrypted, plaintext);
    let decrypted = vigenere_decrypt(&encrypted, &key);
    assert_eq!(decrypted, plaintext);
}

#[test]
fn lemon_key_decrypts_attack_at_dawn() {
    let ciphertext = bytes("LXFOPVEFRNHR");
    let result = decrypt_vigenere(&ciphertext, 5, Some(bytes("LEMON"))).unwrap();
    assert_eq!(text(&result.0), "LEMON");
    assert_eq!(text(&result.1), "ATTACKATDAWN");
}

#[test]
fn lemon_key_recovered_from_key_length() {
    // the same scenario without the explicit key: the chi-squared recovery
    // must settle on some key of length 5, deterministically
    let ciphertext = bytes("LXFOPVEFRNHR");
    let first = decrypt_vigenere(&ciphertext, 5, None).unwrap();
    let second = decrypt_vigenere(&ciphertext, 5, None).unwrap();
    assert_eq!(first.0, second.0);
    assert_eq!(first.1, second.1);
    assert_eq!(first.2, second.2);
    assert_eq!(first.0.len(), 5);
}

const ENGLISH_TEXT: &str = "It was a bright cold day in April, and the clocks were striking \
thirteen. Winston Smith, his chin nuzzled into his breast in an effort to escape the vile \
wind, slipped quickly through the glass doors of Victory Mansions, though not quickly enough \
to prevent a swirl of gritty dust from entering along with him. The hallway smelt of boiled \
cabbage and old rag mats.";

#[test]
fn guessing_recovers_the_key_of_a_long_english_text() {
    let plaintext = bytes(ENGLISH_TEXT);
    let key = bytes("KEYS");
    let ciphertext = vigenere_encrypt(&plaintext, &key);
    let recovered = guess_key(&ciphertext, 4).unwrap();
    let decrypted = vigenere_decrypt(&ciphertext, &recovered);
    assert_eq!(text(&recovered), "KEYS");
    assert_eq!(decrypted, plaintext);
}

#[test]
fn determinism_of_column_recovery() {
    let plaintext = bytes(ENGLISH_TEXT);
    let ciphertext = vigenere_encrypt(&plaintext, &bytes("CIPHER"));
    let k1 = guess_key(&ciphertext, 6).unwrap();
    let k2 = guess_key(&ciphertext, 6).unwrap();
    assert_eq!(k1, k2);
    let d1 = decrypt_vigenere(&ciphertext, 6, None).unwrap();
    let d2 = decrypt_vigenere(&ciphertext, 6, None).unwrap();
    assert_eq!(d1, d2);
}

fn confidence_value(c: Confidence) -> u64 {
    match c {
        Confidence::CentiPercent(v) => v,
        Confidence::Undetermined => panic!("confidence should be determined"),
    }
}

#[test]
fn right_key_scores_higher_confidence_than_wrong_keys() {
    let plaintext = bytes(ENGLISH_TEXT);
    let key = bytes("SECRET");
    let ciphertext = vigenere_encrypt(&plaintext, &key);
    let right = decrypt_vigenere(&ciphertext, 6, Some(key.clone())).unwrap();
    let right_confidence = confidence_value(right.2);
    for wrong_key in ["SECREU", "ABCDEF", "TERCES", "QQQQQQ", "SESRET"] {
        let wrong = decrypt_vigenere(&ciphertext, 6, Some(bytes(wrong_key))).unwrap();
        assert!(confidence_value(wrong.2) < right_confidence);
    }
}

#[test]
fn kasiski_finds_divisors_of_distance_twenty() {
    // one repeated trigram, twenty positions apart, nothing else repeated
    let ciphertext = bytes("QRSABCDEFGHIJKLMNTUVQRS");
    let candidates = kasiski_examination(&ciphertext);
    for d in [2usize, 4, 5, 10, 20] {
        assert!(candidates.contains(&d));
    }
    assert_eq!(candidates, vec![2, 4, 5, 10, 20]);
}

#[test]
fn kasiski_on_alternating_text() {
    let candidates = kasiski_examination(&bytes("ABAB"));
    assert_eq!(candidates, vec![2]);
}

#[test]
fn empty_and_letterless_inputs_yield_input_too_short() {
    assert_eq!(analyze_text(&bytes("")).unwrap_err(), VigenereError::InputTooShort);
    assert_eq!(analyze_text(&bytes("123 456!")).unwrap_err(), VigenereError::InputTooShort);
    assert_eq!(index_of_coincidence(&bytes("")).unwrap_err(), VigenereError::InputTooShort);
    assert_eq!(index_of_coincidence(&bytes("z")).unwrap_err(), VigenereError::InputTooShort);
}

#[test]
fn index_of_coincidence_counting_form() {
    // counts a=2, b=1 over N=3 letters: numerator 2*1, denominator 3*2
    let (num, den) = index_of_coincidence(&bytes("a1aB")).unwrap();
    assert_eq!((num, den), (2, 6));
}

#[test]
fn analyze_text_returns_ic_and_candidates() {
    let (ic, candidates) = analyze_text(&bytes("QRSABCDEFGHIJKLMNTUVQRS")).unwrap();
    assert_eq!(ic, (6, 23 * 22));
    assert_eq!(candidates, vec![2, 4, 5, 10, 20]);
}

#[test]
fn character_frequency_counts_case_insensitively() {
    let counts = character_frequency_usize(&bytes("AaB!z"));
    assert_eq!(counts.len(), 26);
    assert_eq!(counts[0], 2);
    assert_eq!(counts[1], 1);
    assert_eq!(counts[25], 1);
    assert_eq!(counts[2], 0);
    assert_eq!(count_alphabetic(&bytes("AaB!z")), 4);
}

#[test]
fn chi_squared_of_a_single_letter() {
    let counts = character_frequency_usize(&bytes("A"));
    assert_eq!(chi_squared_test(&counts, 1, 0), 1124438);
}

#[test]
fn mutual_index_of_coincidence_of_a_single_e() {
    let (num, den) = mutual_index_of_coincidence(&bytes("E")).unwrap();
    assert_eq!((num, den), (12702, 2600000));
    assert_eq!(confidence_level(num, 1), 740);
}

#[test]
fn confidence_is_undetermined_without_letters() {
    assert_eq!(
        mutual_index_of_coincidence(&bytes("1?2")).unwrap_err(),
        VigenereError::UndeterminedConfidence
    );
    let result = decrypt_vigenere(&bytes("1!2"), 1, Some(bytes("A"))).unwrap();
    assert_eq!(result.2, Confidence::Undetermined);
}

#[test]
fn invalid_key_lengths_are_rejected() {
    assert_eq!(guess_key(&bytes("ABCDE"), 0).unwrap_err(), VigenereError::InvalidKeyLength);
    assert_eq!(guess_key(&bytes("AB"), 5).unwrap_err(), VigenereError::InvalidKeyLength);
    assert_eq!(
        decrypt_vigenere(&bytes("ABCDE"), 0, None).unwrap_err(),
        VigenereError::InvalidKeyLength
    );
}

#[test]
fn a_letterless_column_is_degenerate() {
    // under key length 2 the second column is all digits
    assert_eq!(guess_key(&bytes("A1A1A1"), 2).unwrap_err(), VigenereError::DegenerateColumn);
}

#[test]
fn columns_stride_the_text() {
    let col0 = extract_column(&bytes("abcdef"), 2, 0);
    let col1 = extract_column(&bytes("abcdef"), 2, 1);
    assert_eq!(text(&col0), "ace");
    assert_eq!(text(&col1), "bdf");
}

#[test]
fn divisors_are_ascending_and_complete() {
    assert_eq!(find_divisors(20), vec![1, 2, 4, 5, 10, 20]);
    assert_eq!(find_divisors(13), vec![1, 13]);
    assert_eq!(find_divisors(1), vec![1]);
    assert_eq!(find_divisors(0), Vec::<usize>::new());
}
