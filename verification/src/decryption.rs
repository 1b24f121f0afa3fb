//! Applying a Vigenere key: decryption, its inverse, and the per-byte model
//! of letters and shifts that the rest of the crate builds on; recovery of
//! the key for a known key length by chi-squared minimization against the
//! English letter frequencies; and the confidence score of a decryption.
//!
//! Fixed-point conventions. The English reference frequencies are parts per
//! 100000. The chi-squared statistic of a column under a trial shift is
//! `sum_j (100000 * observed_j - expected_j * N)^2 / (expected_j * N)` with
//! each term rounded down, which is the textbook statistic scaled by the
//! constant 100000 - the scale does not affect which shift minimizes it.
//! The mutual index of coincidence is the exact ratio
//! `sum_j observed_j * expected_j / (N * 100000 * 26)`, and the confidence
//! percentage `(mic / 0.066) * 100` therefore reduces to
//! `sum_j observed_j * expected_j / (1716 * N)`, reported in hundredths of a
//! percent, rounded down.

use vstd::prelude::*;
use crate::VigenereError;
use crate::Confidence;
use crate::freq_analysis::count_letter;
use crate::freq_analysis::count_alpha;
use crate::freq_analysis::sum_counts;
use crate::freq_analysis::lemma_count_alpha_is_sum;
use crate::freq_analysis::lemma_count_letter_le_alpha;
use crate::freq_analysis::character_frequency_usize;
use crate::freq_analysis::count_alphabetic;

verus! {

/// Relative frequency of the `j`-th English letter (A to Z), in parts per
/// 100000.
pub open spec fn english_freq(j: int) -> u64 {
    if j == 0 {
        8167
    } else if j == 1 {
        1492
    } else if j == 2 {
        2782
    } else if j == 3 {
        4253
    } else if j == 4 {
        12702
    } else if j == 5 {
        2228
    } else if j == 6 {
        2015
    } else if j == 7 {
        6094
    } else if j == 8 {
        6966
    } else if j == 9 {
        153
    } else if j == 10 {
        772
    } else if j == 11 {
        4025
    } else if j == 12 {
        2406
    } else if j == 13 {
        6749
    } else if j == 14 {
        7507
    } else if j == 15 {
        1929
    } else if j == 16 {
        95
    } else if j == 17 {
        5987
    } else if j == 18 {
        6327
    } else if j == 19 {
        9056
    } else if j == 20 {
        2758
    } else if j == 21 {
        978
    } else if j == 22 {
        2360
    } else if j == 23 {
        150
    } else if j == 24 {
        1974
    } else {
        74
    }
}

/// The table entry for index `j`, as a run-time value.
pub fn english_freq_at(j: usize) -> (r: u64)
    requires
        j < 26,
    ensures
        r == english_freq(j as int),
        74 <= r <= 12702,
{
    match j {
        0 => 8167,
        1 => 1492,
        2 => 2782,
        3 => 4253,
        4 => 12702,
        5 => 2228,
        6 => 2015,
        7 => 6094,
        8 => 6966,
        9 => 153,
        10 => 772,
        11 => 4025,
        12 => 2406,
        13 => 6749,
        14 => 7507,
        15 => 1929,
        16 => 95,
        17 => 5987,
        18 => 6327,
        19 => 9056,
        20 => 2758,
        21 => 978,
        22 => 2360,
        23 => 150,
        24 => 1974,
        _ => 74,
    }
}

/// `c` is an ASCII letter, of either case.
pub open spec fn is_ascii_letter(c: u8) -> bool {
    (65 <= c && c <= 90) || (97 <= c && c <= 122)
}

/// The base code of `c`'s case: `b'a'` for lower case, `b'A'` otherwise.
pub open spec fn letter_base(c: u8) -> u8 {
    if 97 <= c && c <= 122 {
        97u8
    } else {
        65u8
    }
}

/// The 0-25 shift value of a key letter; the key is read case-insensitively,
/// as if it were upper case.
pub open spec fn key_shift(k: u8) -> int {
    if 97 <= k && k <= 122 {
        k - 97
    } else {
        k - 65
    }
}

/// One byte of Vigenere decryption: letters are rotated back by the key
/// letter's shift within their own case; every other byte passes through.
pub open spec fn decrypt_byte(c: u8, k: u8) -> u8 {
    if is_ascii_letter(c) {
        (letter_base(c) + ((c - letter_base(c) + 26 - key_shift(k)) % 26)) as u8
    } else {
        c
    }
}

/// One byte of Vigenere encryption, the inverse of `decrypt_byte`.
pub open spec fn encrypt_byte(c: u8, k: u8) -> u8 {
    if is_ascii_letter(c) {
        (letter_base(c) + ((c - letter_base(c) + key_shift(k)) % 26)) as u8
    } else {
        c
    }
}

/// A usable key: non-empty and all ASCII letters.
pub open spec fn wf_key(key: Seq<u8>) -> bool {
    &&& key.len() >= 1
    &&& forall|i: int| 0 <= i < key.len() ==> is_ascii_letter(key[i])
}

/// Vigenere decryption of a whole text: the key letter for position `i` is
/// `key[i mod key.len()]`, so the key cycle is driven by the absolute
/// position, non-letters included.
pub open spec fn decrypt_seq(text: Seq<u8>, key: Seq<u8>) -> Seq<u8> {
    Seq::new(text.len(), |i: int| decrypt_byte(text[i], key[i % (key.len() as int)]))
}

/// Vigenere encryption of a whole text, with the same key-cycling rule.
pub open spec fn encrypt_seq(text: Seq<u8>, key: Seq<u8>) -> Seq<u8> {
    Seq::new(text.len(), |i: int| encrypt_byte(text[i], key[i % (key.len() as int)]))
}

/// Decrypts one byte with the key letter `k`.
fn decrypt_letter(c: u8, k: u8) -> (r: u8)
    requires
        is_ascii_letter(k),
    ensures
        r == decrypt_byte(c, k),
{
    if (65 <= c && c <= 90) || (97 <= c && c <= 122) {
        let base: u8 = if 97 <= c { 97 } else { 65 };
        let s: u8 = if 97 <= k { k - 97 } else { k - 65 };
        (c - base + 26 - s) % 26 + base
    } else {
        c
    }
}

/// Encrypts one byte with the key letter `k`.
fn encrypt_letter(c: u8, k: u8) -> (r: u8)
    requires
        is_ascii_letter(k),
    ensures
        r == encrypt_byte(c, k),
{
    if (65 <= c && c <= 90) || (97 <= c && c <= 122) {
        let base: u8 = if 97 <= c { 97 } else { 65 };
        let s: u8 = if 97 <= k { k - 97 } else { k - 65 };
        (c - base + s) % 26 + base
    } else {
        c
    }
}

/// Decrypts Vigenere ciphertext with the given key. Non-letters pass through
/// unchanged and still advance the key position; case is preserved.
pub fn vigenere_decrypt(ciphertext: &Vec<u8>, key: &Vec<u8>) -> (r: Vec<u8>)
    requires
        wf_key(key@),
    ensures
        r@ == decrypt_seq(ciphertext@, key@),
{
    let klen = key.len();
    let mut out: Vec<u8> = Vec::new();
    let mut i: usize = 0;
    while i < ciphertext.len()
        invariant
            wf_key(key@),
            klen == key@.len(),
            i <= ciphertext@.len(),
            out@.len() == i,
            forall|j: int|
                0 <= j < i ==> out@[j] == decrypt_byte(ciphertext@[j], key@[j % (klen as int)]),
        decreases ciphertext@.len() - i,
    {
        let d = decrypt_letter(ciphertext[i], key[i % klen]);
        out.push(d);
        i += 1;
    }
    proof {
        assert(out@ =~= decrypt_seq(ciphertext@, key@));
    }
    out
}

/// Encrypts plaintext with the given key; the inverse of `vigenere_decrypt`.
pub fn vigenere_encrypt(plaintext: &Vec<u8>, key: &Vec<u8>) -> (r: Vec<u8>)
    requires
        wf_key(key@),
    ensures
        r@ == encrypt_seq(plaintext@, key@),
{
    let klen = key.len();
    let mut out: Vec<u8> = Vec::new();
    let mut i: usize = 0;
    while i < plaintext.len()
        invariant
            wf_key(key@),
            klen == key@.len(),
            i <= plaintext@.len(),
            out@.len() == i,
            forall|j: int|
                0 <= j < i ==> out@[j] == encrypt_byte(plaintext@[j], key@[j % (klen as int)]),
        decreases plaintext@.len() - i,
    {
        let e = encrypt_letter(plaintext[i], key[i % klen]);
        out.push(e);
        i += 1;
    }
    proof {
        assert(out@ =~= encrypt_seq(plaintext@, key@));
    }
    out
}

/// Decrypting an encrypted byte with the same key letter gives the byte
/// back: the shift cancels within the 26-letter alphabet of its case.
proof fn lemma_round_trip_byte(c: u8, k: u8)
    requires
        is_ascii_letter(k),
    ensures
        decrypt_byte(encrypt_byte(c, k), k) == c,
{
    if is_ascii_letter(c) {
        let base = letter_base(c);
        let s = key_shift(k);
        let x = c - base;
        let e = (x + s) % 26;
        assert(0 <= e < 26);
        let enc = (base + e) as u8;
        assert(is_ascii_letter(enc));
        assert(letter_base(enc) == base);
        assert((e + 26 - s) % 26 == x) by {
            assert(x + s == 26 * ((x + s) / 26) + e) by {
                vstd::arithmetic::div_mod::lemma_fundamental_div_mod(x + s, 26);
            }
            if (x + s) / 26 == 0 {
                assert((e + 26 - s) % 26 == (x + 26) % 26);
                assert((x + 26) % 26 == x) by {
                    vstd::arithmetic::div_mod::lemma_mod_add_multiples_vanish(x, 26);
                    vstd::arithmetic::div_mod::lemma_small_mod(x as nat, 26);
                }
            } else {
                assert((x + s) / 26 == 1) by {
                    vstd::arithmetic::div_mod::lemma_fundamental_div_mod(x + s, 26);
                }
                assert(e + 26 - s == x);
                vstd::arithmetic::div_mod::lemma_small_mod(x as nat, 26);
            }
        }
    }
}

/// The sub-stream of `text` made of the positions `< j` that are congruent
/// to `i` modulo `l` (the column of position `i` under key length `l`).
pub open spec fn column_prefix(text: Seq<u8>, l: int, i: int, j: int) -> Seq<u8>
    decreases j,
{
    if j <= 0 {
        Seq::empty()
    } else {
        column_prefix(text, l, i, j - 1) + if (j - 1) % l == i {
            seq![text[j - 1]]
        } else {
            Seq::empty()
        }
    }
}

/// Column `i` of `text` under key length `l`.
pub open spec fn column(text: Seq<u8>, l: int, i: int) -> Seq<u8> {
    column_prefix(text, l, i, text.len() as int)
}

/// Extracts column `i` of `text` under key length `l`.
pub fn extract_column(text: &Vec<u8>, l: usize, i: usize) -> (r: Vec<u8>)
    requires
        1 <= l,
        i < l,
    ensures
        r@ == column(text@, l as int, i as int),
{
    let mut col: Vec<u8> = Vec::new();
    let mut j: usize = 0;
    while j < text.len()
        invariant
            1 <= l,
            i < l,
            j <= text@.len(),
            col@ == column_prefix(text@, l as int, i as int, j as int),
        decreases text@.len() - j,
    {
        if j % l == i {
            col.push(text[j]);
            proof {
                assert(col@ =~= column_prefix(text@, l as int, i as int, j as int + 1));
            }
        } else {
            proof {
                assert(col@ =~= column_prefix(text@, l as int, i as int, j as int + 1));
            }
        }
        j += 1;
    }
    col
}

/// One term of the scaled chi-squared statistic: the contribution of the
/// `j`-th reference letter under trial shift `shift`, over letter counts
/// `counts` and `n` letters in all.
pub open spec fn chi_sq_term(counts: Seq<usize>, n: int, shift: int, j: int) -> int {
    let o = counts[(j + shift) % 26] as int;
    let e = english_freq(j) as int;
    let d = 100000 * o - e * n;
    (d * d) / (e * n)
}

/// The scaled chi-squared statistic summed over the first `j` reference
/// letters.
pub open spec fn chi_sq_partial(counts: Seq<usize>, n: int, shift: int, j: int) -> int
    decreases j,
{
    if j <= 0 {
        0
    } else {
        chi_sq_partial(counts, n, shift, j - 1) + chi_sq_term(counts, n, shift, j - 1)
    }
}

/// The scaled chi-squared statistic of a column with letter counts `counts`
/// and `n` letters, under trial shift `shift`.
pub open spec fn chi_sq(counts: Seq<usize>, n: int, shift: int) -> int {
    chi_sq_partial(counts, n, shift, 26)
}

/// Computes the scaled chi-squared statistic (see the module doc): each term
/// is `(100000 * observed - expected * n)^2 / (expected * n)`, rounded down,
/// where `observed` counts the letter the trial shift maps onto the `j`-th
/// reference letter.
pub fn chi_squared_test(counts: &Vec<usize>, n: usize, shift: usize) -> (r: u128)
    requires
        counts@.len() == 26,
        shift < 26,
        1 <= n <= crate::MAX_TEXT_LEN,
        forall|j: int| 0 <= j < 26 ==> counts@[j] <= n,
    ensures
        r == chi_sq(counts@, n as int, shift as int),
{
    let mut acc: u128 = 0;
    let mut j: usize = 0;
    while j < 26
        invariant
            counts@.len() == 26,
            shift < 26,
            1 <= n <= crate::MAX_TEXT_LEN,
            forall|i: int| 0 <= i < 26 ==> counts@[i] <= n,
            j <= 26,
            acc == chi_sq_partial(counts@, n as int, shift as int, j as int),
            acc <= j * 0x10000000000000000000000000000int,
        decreases 26 - j,
    {
        let o: u64 = counts[(j + shift) % 26] as u64;
        let e: u64 = english_freq_at(j);
        proof {
            assert(e * (n as u64) <= 12702 * 1000000000int) by (nonlinear_arith)
                requires
                    e <= 12702,
                    n <= 1000000000int,
                    0 <= n,
            ;
        }
        let a: u64 = 100000 * o;
        let b: u64 = e * (n as u64);
        let d: u64 = if a >= b {
            a - b
        } else {
            b - a
        };
        proof {
            assert((d as int) * (d as int) <= 0x10000000000000000000000000000int)
                by (nonlinear_arith)
                requires
                    0 <= d <= 100000000000000int,
            ;
        }
        let term: u128 = ((d as u128) * (d as u128)) / (b as u128);
        proof {
            let oi = o as int;
            let ei = e as int;
            let ni = n as int;
            let di = 100000 * oi - ei * ni;
            assert((d as int) * (d as int) == di * di) by (nonlinear_arith)
                requires
                    d == if di >= 0 {
                        di
                    } else {
                        -di
                    },
            ;
            assert(term == di * di / (ei * ni));
            assert(term <= (d as int) * (d as int)) by {
                vstd::arithmetic::div_mod::lemma_div_is_ordered_by_denominator(
                    (d as int) * (d as int),
                    1,
                    (b as int),
                );
                vstd::arithmetic::div_mod::lemma_div_basics((d as int) * (d as int));
            }
        }
        acc = acc + term;
        j += 1;
    }
    acc
}

/// The shift with the least chi-squared statistic among the first `j`
/// shifts, the least shift winning ties.
pub open spec fn best_shift_upto(counts: Seq<usize>, n: int, j: int) -> int
    decreases j,
{
    if j <= 1 {
        0
    } else {
        let b = best_shift_upto(counts, n, j - 1);
        if chi_sq(counts, n, j - 1) < chi_sq(counts, n, b) {
            j - 1
        } else {
            b
        }
    }
}

/// The shift whose chi-squared statistic over `counts` and `n` letters is
/// least, the least shift winning ties.
pub open spec fn spec_best_shift(counts: Seq<usize>, n: int) -> int {
    best_shift_upto(counts, n, 26)
}

/// `best_shift_upto` stays within the shifts considered.
pub proof fn lemma_best_shift_range(counts: Seq<usize>, n: int, j: int)
    requires
        j >= 1,
    ensures
        0 <= best_shift_upto(counts, n, j) < j,
    decreases j,
{
    if j > 1 {
        lemma_best_shift_range(counts, n, j - 1);
    }
}

/// Finds the shift minimizing the chi-squared statistic.
fn find_best_shift(counts: &Vec<usize>, n: usize) -> (r: usize)
    requires
        counts@.len() == 26,
        1 <= n <= crate::MAX_TEXT_LEN,
        forall|j: int| 0 <= j < 26 ==> counts@[j] <= n,
    ensures
        r == spec_best_shift(counts@, n as int),
        r < 26,
{
    let mut best: usize = 0;
    let mut best_score: u128 = chi_squared_test(counts, n, 0);
    let mut shift: usize = 1;
    while shift < 26
        invariant
            counts@.len() == 26,
            1 <= n <= crate::MAX_TEXT_LEN,
            forall|j: int| 0 <= j < 26 ==> counts@[j] <= n,
            1 <= shift <= 26,
            best == best_shift_upto(counts@, n as int, shift as int),
            0 <= best < shift,
            best_score == chi_sq(counts@, n as int, best as int),
        decreases 26 - shift,
    {
        let score = chi_squared_test(counts, n, shift);
        if score < best_score {
            best = shift;
            best_score = score;
        }
        shift += 1;
    }
    best
}

/// The column of `text` at key position `i` under key length `l` has at
/// least one alphabetic character for every position; otherwise the
/// chi-squared statistic of that column is undefined.
pub open spec fn degenerate_column_exists(text: Seq<u8>, l: int) -> bool {
    exists|i: int| 0 <= i < l && count_alpha(column(text, l, i)) == 0
}

/// The letter counts of column `i` of `text` under key length `l`.
pub open spec fn column_counts(text: Seq<u8>, l: int, i: int) -> Seq<usize> {
    Seq::new(26, |j: int| count_letter(column(text, l, i), j) as usize)
}

/// The key letter recovered for position `i` under key length `l`: `'A'`
/// plus the shift minimizing chi-squared over that column.
pub open spec fn spec_key_letter(text: Seq<u8>, l: int, i: int) -> u8 {
    (65 + spec_best_shift(
        column_counts(text, l, i),
        count_alpha(column(text, l, i)) as int,
    )) as u8
}

/// The key recovered for key length `l`, one letter per column.
pub open spec fn spec_guess_key(text: Seq<u8>, l: int) -> Seq<u8> {
    Seq::new(l as nat, |i: int| spec_key_letter(text, l, i))
}

/// Recovers the most likely key of length `key_length`: each column of the
/// ciphertext is scored under all 26 shifts against the English letter
/// frequencies, and the shift minimizing chi-squared becomes that position's
/// key letter. Fails with `InvalidKeyLength` when the length is zero or
/// exceeds the number of alphabetic characters, and with `DegenerateColumn`
/// when some column has no alphabetic character. The recovery is
/// deterministic: the contract pins the key to a function of the
/// ciphertext and the key length alone.
pub fn guess_key(text: &Vec<u8>, key_length: usize) -> (r: Result<Vec<u8>, VigenereError>)
    requires
        text@.len() <= crate::MAX_TEXT_LEN,
    ensures
        (key_length == 0 || key_length > count_alpha(text@)) <==> r === Result::Err(
            VigenereError::InvalidKeyLength,
        ),
        (1 <= key_length <= count_alpha(text@)) ==> ((r === Result::Err(
            VigenereError::DegenerateColumn,
        )) <==> degenerate_column_exists(text@, key_length as int)),
        (1 <= key_length <= count_alpha(text@) && !degenerate_column_exists(
            text@,
            key_length as int,
        )) ==> (r matches Result::Ok(k) && k@ == spec_guess_key(text@, key_length as int)),
{
    let n_total = count_alphabetic(text);
    if key_length == 0 || key_length > n_total {
        return Err(VigenereError::InvalidKeyLength);
    }
    let mut key: Vec<u8> = Vec::new();
    let mut i: usize = 0;
    while i < key_length
        invariant
            text@.len() <= crate::MAX_TEXT_LEN,
            1 <= key_length <= count_alpha(text@),
            i <= key_length,
            key@.len() == i,
            forall|i2: int| 0 <= i2 < i ==> key@[i2] == spec_key_letter(
                text@,
                key_length as int,
                i2,
            ),
            forall|i2: int| 0 <= i2 < i ==> count_alpha(
                column(text@, key_length as int, i2),
            ) != 0,
        decreases key_length - i,
    {
        let col = extract_column(text, key_length, i);
        let counts = character_frequency_usize(&col);
        let n = count_alphabetic(&col);
        if n == 0 {
            assert(degenerate_column_exists(text@, key_length as int));
            return Err(VigenereError::DegenerateColumn);
        }
        proof {
            assert(col@.len() <= text@.len()) by {
                lemma_column_prefix_len(text@, key_length as int, i as int, text@.len() as int);
            }
            assert forall|j: int| 0 <= j < 26 implies counts@[j] <= n by {
                lemma_count_letter_le_alpha(col@, j);
            }
        }
        let best = find_best_shift(&counts, n);
        key.push(65 + best as u8);
        proof {
            assert(counts@ =~= column_counts(text@, key_length as int, i as int));
        }
        i += 1;
    }
    proof {
        assert(key@ =~= spec_guess_key(text@, key_length as int));
    }
    Ok(key)
}

/// A column is never longer than the text it came from.
pub proof fn lemma_column_prefix_len(text: Seq<u8>, l: int, i: int, j: int)
    requires
        j <= text.len(),
    ensures
        column_prefix(text, l, i, j).len() <= if j >= 0 {
            j
        } else {
            0
        },
    decreases j,
{
    if j > 0 {
        lemma_column_prefix_len(text, l, i, j - 1);
    }
}

/// Numerator of the mutual index of coincidence, over the first `j`
/// alphabet positions: `sum_{i < j} f_i * e_i` with `f` the letter counts of
/// the text and `e` the English reference frequencies.
pub open spec fn mic_num_partial(s: Seq<u8>, j: int) -> int
    decreases j,
{
    if j <= 0 {
        0
    } else {
        mic_num_partial(s, j - 1) + count_letter(s, j - 1) * english_freq(j - 1)
    }
}

/// Numerator of the mutual index of coincidence of `s`; the full statistic
/// is this over `N * 100000 * 26`.
pub open spec fn mic_num(s: Seq<u8>) -> int {
    mic_num_partial(s, 26)
}

/// Computes the mutual index of coincidence of `text` against the English
/// reference frequencies, as the exact ratio `(num, den)` with
/// `den == N * 100000 * 26`. With no letters the statistic is undefined and
/// the call returns `UndeterminedConfidence`.
pub fn mutual_index_of_coincidence(text: &Vec<u8>) -> (r: Result<(u64, u64), VigenereError>)
    requires
        text@.len() <= crate::MAX_TEXT_LEN,
    ensures
        count_alpha(text@) == 0 ==> r === Result::Err(VigenereError::UndeterminedConfidence),
        count_alpha(text@) >= 1 ==> r === Result::Ok(
            (mic_num(text@) as u64, (count_alpha(text@) * 2600000) as u64),
        ),
{
    let counts = character_frequency_usize(text);
    let n = count_alphabetic(text);
    if n == 0 {
        return Err(VigenereError::UndeterminedConfidence);
    }
    proof {
        lemma_count_alpha_is_sum(text@);
    }
    let mut num: u64 = 0;
    let mut j: usize = 0;
    while j < 26
        invariant
            counts@.len() == 26,
            forall|i: int| 0 <= i < 26 ==> counts@[i] == count_letter(text@, i),
            1 <= n <= crate::MAX_TEXT_LEN,
            n == count_alpha(text@),
            j <= 26,
            num == mic_num_partial(text@, j as int),
            num <= sum_counts(text@, j as int) * 12702,
            count_alpha(text@) == sum_counts(text@, 26),
        decreases 26 - j,
    {
        let f: u64 = counts[j] as u64;
        let e: u64 = english_freq_at(j);
        proof {
            crate::freq_analysis::lemma_sum_counts_mono(text@, j as int + 1, 26);
            let s = sum_counts(text@, j as int) as int;
            assert(num + f * e <= (s + f) * 12702) by (nonlinear_arith)
                requires
                    num <= s * 12702,
                    0 <= f,
                    0 <= s,
                    e <= 12702,
            ;
            assert((s + f) * 12702 <= n * 12702) by (nonlinear_arith)
                requires
                    0 <= s + f <= n,
            ;
        }
        num = num + f * e;
        j += 1;
    }
    Ok((num, (n as u64) * 2600000))
}

/// Confidence percentage of a decryption, in hundredths of a percent,
/// rounded down: `(mic / 0.066) * 100` over the mutual index of coincidence
/// `mic == mic_numerator / (n * 100000 * 26)`, which reduces to
/// `mic_numerator * 100 / (1716 * n)`.
pub fn confidence_level(mic_numerator: u64, n: u64) -> (r: u64)
    requires
        1 <= n,
        mic_numerator <= 12702 * n,
        n <= crate::MAX_TEXT_LEN,
    ensures
        r == mic_numerator * 100 / (1716 * n),
{
    proof {
        assert(mic_numerator * 100 <= 12702 * n * 100) by (nonlinear_arith)
            requires
                mic_numerator <= 12702 * n,
        ;
        assert(12702 * n * 100 <= 12702 * 100 * 1000000000int) by (nonlinear_arith)
            requires
                n <= 1000000000int,
        ;
    }
    (mic_numerator * 100) / (1716 * n)
}

/// The confidence of a decrypted text: `Undetermined` when it has no
/// letters, else the percentage of `confidence_level` in hundredths of a
/// percent.
pub open spec fn spec_confidence(s: Seq<u8>) -> Confidence {
    if count_alpha(s) == 0 {
        Confidence::Undetermined
    } else {
        Confidence::CentiPercent((mic_num(s) * 100 / (1716 * (count_alpha(s) as int))) as u64)
    }
}

/// The MIC numerator is at most `12702 * N`: no letter is more frequent in
/// the reference table than E.
proof fn lemma_mic_num_bound(s: Seq<u8>, j: int)
    ensures
        0 <= mic_num_partial(s, j) <= sum_counts(s, j) * 12702,
    decreases j,
{
    if j > 0 {
        lemma_mic_num_bound(s, j - 1);
        let f = count_letter(s, j - 1) as int;
        let e = english_freq(j - 1) as int;
        let sp = sum_counts(s, j - 1) as int;
        assert(74 <= e <= 12702);
        assert(mic_num_partial(s, j - 1) + f * e <= (sp + f) * 12702) by (nonlinear_arith)
            requires
                mic_num_partial(s, j - 1) <= sp * 12702,
                0 <= f,
                0 <= sp,
                0 <= e <= 12702,
        ;
        assert(0 <= f * e) by (nonlinear_arith)
            requires
                0 <= f,
                0 <= e,
        ;
    }
}

/// Computes the confidence of a decrypted text, as `spec_confidence`.
pub fn confidence_of(text: &Vec<u8>) -> (r: Confidence)
    requires
        text@.len() <= crate::MAX_TEXT_LEN,
    ensures
        r == spec_confidence(text@),
{
    match mutual_index_of_coincidence(text) {
        Err(_) => Confidence::Undetermined,
        Ok((num, _den)) => {
            let n = count_alphabetic(text);
            proof {
                lemma_mic_num_bound(text@, 26);
                lemma_count_alpha_is_sum(text@);
            }
            Confidence::CentiPercent(confidence_level(num, n as u64))
        },
    }
}

/// Decrypts Vigenere ciphertext with a given key length and optional
/// explicit key, returning the key, the plaintext, and the confidence. With
/// an explicit key the key length plays no part; otherwise the key is
/// recovered per column as in `guess_key`. The whole pipeline is a pure
/// function of its arguments: the contract pins every part of the result,
/// so identical inputs always yield identical output.
pub fn decrypt_vigenere(
    ciphertext: &Vec<u8>,
    key_length: usize,
    key_option: Option<Vec<u8>>,
) -> (r: Result<(Vec<u8>, Vec<u8>, Confidence), VigenereError>)
    requires
        ciphertext@.len() <= crate::MAX_TEXT_LEN,
        key_option matches Option::Some(k) ==> wf_key(k@),
    ensures
        key_option matches Option::Some(k) ==> (r matches Result::Ok(t) && t.0@ == k@ && t.1@
            == decrypt_seq(ciphertext@, k@) && t.2 == spec_confidence(
            decrypt_seq(ciphertext@, k@),
        )),
        key_option is None ==> {
            let l = key_length as int;
            &&& ((key_length == 0 || key_length > count_alpha(ciphertext@)) <==> r
                === Result::Err(VigenereError::InvalidKeyLength))
            &&& (1 <= key_length <= count_alpha(ciphertext@)) ==> ((r === Result::Err(
                VigenereError::DegenerateColumn,
            )) <==> degenerate_column_exists(ciphertext@, l))
            &&& (1 <= key_length <= count_alpha(ciphertext@) && !degenerate_column_exists(
                ciphertext@,
                l,
            )) ==> (r matches Result::Ok(t) && t.0@ == spec_guess_key(ciphertext@, l) && t.1@
                == decrypt_seq(ciphertext@, spec_guess_key(ciphertext@, l)) && t.2
                == spec_confidence(decrypt_seq(ciphertext@, spec_guess_key(ciphertext@, l))))
        },
{
    match key_option {
        Some(key) => {
            let plaintext = vigenere_decrypt(ciphertext, &key);
            let confidence = confidence_of(&plaintext);
            Ok((key, plaintext, confidence))
        },
        None => {
            let key = match guess_key(ciphertext, key_length) {
                Ok(k) => k,
                Err(e) => {
                    return Err(e);
                },
            };
            proof {
                lemma_guessed_key_wf(ciphertext@, key_length as int);
            }
            let plaintext = vigenere_decrypt(ciphertext, &key);
            let confidence = confidence_of(&plaintext);
            Ok((key, plaintext, confidence))
        },
    }
}

/// A recovered key is well formed: one upper-case letter per column.
pub proof fn lemma_guessed_key_wf(text: Seq<u8>, l: int)
    requires
        l >= 1,
    ensures
        wf_key(spec_guess_key(text, l)),
{
    assert forall|i: int| 0 <= i < l implies is_ascii_letter(spec_guess_key(text, l)[i]) by {
        lemma_best_shift_range(
            column_counts(text, l, i),
            count_alpha(column(text, l, i)) as int,
            26,
        );
    }
}

/// Decryption keeps the shape of the text: non-letter bytes pass through
/// unchanged at their positions, and every letter stays a letter of its own
/// case.
pub proof fn lemma_decrypt_preserves_shape(text: Seq<u8>, key: Seq<u8>)
    requires
        wf_key(key),
    ensures
        decrypt_seq(text, key).len() == text.len(),
        forall|i: int|
            0 <= i < text.len() && !is_ascii_letter(text[i]) ==> decrypt_seq(text, key)[i]
                == text[i],
        forall|i: int|
            0 <= i < text.len() && is_ascii_letter(text[i]) ==> is_ascii_letter(
                #[trigger] decrypt_seq(text, key)[i],
            ) && letter_base(decrypt_seq(text, key)[i]) == letter_base(text[i]),
{
    assert forall|i: int|
        0 <= i < text.len() && is_ascii_letter(text[i]) implies is_ascii_letter(
        #[trigger] decrypt_seq(text, key)[i],
    ) && letter_base(decrypt_seq(text, key)[i]) == letter_base(text[i]) by {
        let c = text[i];
        let k = key[i % (key.len() as int)];
        assert(0 <= (c - letter_base(c) + 26 - key_shift(k)) % 26 < 26);
    }
}

/// Round trip: encrypting a text with a key and decrypting with the same key
/// reproduces the text exactly, preserving case and non-letter bytes and
/// their positions.
pub proof fn lemma_round_trip(text: Seq<u8>, key: Seq<u8>)
    requires
        wf_key(key),
    ensures
        decrypt_seq(encrypt_seq(text, key), key) == text,
{
    let enc = encrypt_seq(text, key);
    assert forall|i: int| 0 <= i < text.len() implies decrypt_seq(enc, key)[i] == text[i] by {
        lemma_round_trip_byte(text[i], key[i % (key.len() as int)]);
    }
    assert(decrypt_seq(enc, key) =~= text);
}

} // verus!
