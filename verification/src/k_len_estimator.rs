//! Key-length estimation: each candidate length is scored under a caller-
//! chosen set of strategies (autocorrelation, per-column index of
//! coincidence, Friedman test, GCD weighting) plus a frequency bonus, and
//! the best-scoring candidate is selected.
//!
//! Scores are carried in fixed-point micro-units (millionths): the
//! autocorrelation score `1 + matches/pairs` becomes
//! `1000000 + matches * 1000000 / pairs`, an index of coincidence `ic`
//! becomes `ic * 1000000`, and the frequency-bonus weight is likewise given
//! in micro-units, all rounded down.

use vstd::prelude::*;
use std::collections::HashMap;
use crate::VigenereError;
use crate::decryption::column;
use crate::decryption::extract_column;
use crate::decryption::lemma_column_prefix_len;
use crate::freq_analysis::ic_num;
use crate::freq_analysis::count_alpha;
use crate::freq_analysis::index_of_coincidence;
use crate::freq_analysis::lemma_ic_num_bound;
use crate::freq_analysis::lemma_count_alpha_is_sum;

verus! {

broadcast use vstd::std_specs::hash::group_hash_axioms;

/// The greatest common divisor, by Euclid's algorithm; `gcd(a, 0) == a`.
pub open spec fn gcd(a: int, b: int) -> int
    decreases b,
{
    if b <= 0 {
        a
    } else {
        gcd(b, a % b)
    }
}

/// `gcd(a, b)` divides both arguments, and vanishes only when both do.
pub proof fn lemma_gcd_divides(a: int, b: int)
    requires
        0 <= a,
        0 <= b,
    ensures
        0 <= gcd(a, b),
        gcd(a, b) != 0 ==> a % gcd(a, b) == 0 && b % gcd(a, b) == 0,
        gcd(a, b) == 0 ==> a == 0 && b == 0,
    decreases b,
{
    if b == 0 {
        if a != 0 {
            vstd::arithmetic::div_mod::lemma_mod_self_0(a);
        }
    } else {
        lemma_gcd_divides(b, a % b);
        let g = gcd(b, a % b);
        if g != 0 {
            vstd::arithmetic::div_mod::lemma_fundamental_div_mod(a, b);
            vstd::arithmetic::div_mod::lemma_fundamental_div_mod(b, g);
            vstd::arithmetic::div_mod::lemma_fundamental_div_mod(a % b, g);
            let k1 = b / g;
            let k2 = (a % b) / g;
            let q = a / b;
            assert(a == g * (k1 * q + k2)) by (nonlinear_arith)
                requires
                    a == b * q + (a % b),
                    b == g * k1 + 0,
                    (a % b) == g * k2 + 0,
            ;
            assert((g * (k1 * q + k2)) % g == 0) by {
                vstd::arithmetic::div_mod::lemma_mod_multiples_basic(k1 * q + k2, g);
                vstd::arithmetic::mul::lemma_mul_is_commutative(g, k1 * q + k2);
            }
        }
    }
}

/// Any common divisor of `a` and `b` divides `gcd(a, b)`.
pub proof fn lemma_gcd_common_divisor(a: int, b: int, d: int)
    requires
        0 <= a,
        0 <= b,
        1 <= d,
        a % d == 0,
        b % d == 0,
    ensures
        gcd(a, b) % d == 0,
    decreases b,
{
    if b == 0 {
    } else {
        vstd::arithmetic::div_mod::lemma_fundamental_div_mod(a, b);
        let q = a / b;
        assert((b * q) % d == 0) by {
            vstd::arithmetic::div_mod::lemma_fundamental_div_mod(b, d);
            let k = b / d;
            assert(b * q == d * (k * q)) by (nonlinear_arith)
                requires
                    b == d * k + 0,
            ;
            vstd::arithmetic::div_mod::lemma_mod_multiples_basic(k * q, d);
            vstd::arithmetic::mul::lemma_mul_is_commutative(d, k * q);
        }
        assert((a % b) % d == 0) by {
            vstd::arithmetic::div_mod::lemma_sub_mod_noop(a, b * q, d);
        }
        assert(0 <= a % b < b) by {
            vstd::arithmetic::div_mod::lemma_mod_division_less_than_divisor(a, b);
        }
        lemma_gcd_common_divisor(b, a % b, d);
    }
}

/// A positive multiple of `d` is at least `d`.
pub proof fn lemma_positive_multiple_ge(x: int, d: int)
    requires
        1 <= d,
        1 <= x,
        x % d == 0,
    ensures
        d <= x,
{
    vstd::arithmetic::div_mod::lemma_fundamental_div_mod(x, d);
    let q = x / d;
    assert(d <= d * q) by (nonlinear_arith)
        requires
            x == d * q + 0,
            1 <= x,
            1 <= d,
    ;
}

/// Divisibility is transitive: if `d` divides `g` and `g` divides `x`, then
/// `d` divides `x`.
pub proof fn lemma_divides_transitive(x: int, g: int, d: int)
    requires
        0 <= x,
        1 <= g,
        1 <= d,
        x % g == 0,
        g % d == 0,
    ensures
        x % d == 0,
{
    vstd::arithmetic::div_mod::lemma_fundamental_div_mod(x, g);
    vstd::arithmetic::div_mod::lemma_fundamental_div_mod(g, d);
    let k = x / g;
    let m = g / d;
    assert(x == d * (m * k)) by (nonlinear_arith)
        requires
            x == g * k + 0,
            g == d * m + 0,
    ;
    vstd::arithmetic::div_mod::lemma_mod_multiples_basic(m * k, d);
    vstd::arithmetic::mul::lemma_mul_is_commutative(d, m * k);
}

/// The running GCD of the candidates above the divisor threshold (5) among
/// the first `j` entries, folded left with `gcd(0, x) == x`.
pub open spec fn gcd_list_prefix(l: Seq<usize>, j: int) -> int
    decreases j,
{
    if j <= 0 {
        0
    } else {
        let p = gcd_list_prefix(l, j - 1);
        if l[j - 1] > 5 {
            gcd(p, l[j - 1] as int)
        } else {
            p
        }
    }
}

/// The GCD of all candidates above the divisor threshold; 0 when there is
/// none.
pub open spec fn spec_gcd_of_list(l: Seq<usize>) -> int {
    gcd_list_prefix(l, l.len() as int)
}

/// The running GCD is non-negative, and zero exactly while no entry has
/// passed the threshold.
pub proof fn lemma_gcd_list_zero(l: Seq<usize>, j: int)
    requires
        j <= l.len(),
    ensures
        0 <= gcd_list_prefix(l, j),
        gcd_list_prefix(l, j) == 0 <==> (forall|i: int| 0 <= i < j ==> !(l[i] > 5)),
    decreases j,
{
    if j > 0 {
        lemma_gcd_list_zero(l, j - 1);
        let p = gcd_list_prefix(l, j - 1);
        if l[j - 1] > 5 {
            lemma_gcd_divides(p, l[j - 1] as int);
        }
    }
}

/// The running GCD divides every entry above the threshold that it has
/// folded in.
pub proof fn lemma_gcd_list_divides_elem(l: Seq<usize>, j: int, i: int)
    requires
        0 <= i < j <= l.len(),
        l[i] > 5,
    ensures
        1 <= gcd_list_prefix(l, j),
        (l[i] as int) % gcd_list_prefix(l, j) == 0,
    decreases j,
{
    let p = gcd_list_prefix(l, j - 1);
    lemma_gcd_list_zero(l, j - 1);
    lemma_gcd_list_zero(l, j);
    if i == j - 1 {
        lemma_gcd_divides(p, l[i] as int);
    } else {
        lemma_gcd_list_divides_elem(l, j - 1, i);
        if l[j - 1] > 5 {
            lemma_gcd_divides(p, l[j - 1] as int);
            lemma_divides_transitive(l[i] as int, p, gcd_list_prefix(l, j));
        }
    }
}

/// Any common divisor of all entries above the threshold divides the
/// running GCD.
pub proof fn lemma_common_divides_gcd_list(l: Seq<usize>, j: int, d: int)
    requires
        j <= l.len(),
        1 <= d,
        forall|i: int| 0 <= i < j && l[i] > 5 ==> (l[i] as int) % d == 0,
    ensures
        gcd_list_prefix(l, j) % d == 0,
    decreases j,
{
    if j <= 0 {
        vstd::arithmetic::div_mod::lemma_small_mod(0, d as nat);
    } else {
        lemma_common_divides_gcd_list(l, j - 1, d);
        lemma_gcd_list_zero(l, j - 1);
        if l[j - 1] > 5 {
            lemma_gcd_common_divisor(gcd_list_prefix(l, j - 1), l[j - 1] as int, d);
        }
    }
}

/// Computes the greatest common divisor.
fn gcd_exec(a: usize, b: usize) -> (r: usize)
    ensures
        r == gcd(a as int, b as int),
    decreases b,
{
    if b == 0 {
        a
    } else {
        gcd_exec(b, a % b)
    }
}

/// Folds the GCD over all entries above the divisor threshold (5); returns
/// 0 when no entry is above it.
pub fn find_gcd_of_list(numbers: &Vec<usize>) -> (r: usize)
    ensures
        r == spec_gcd_of_list(numbers@),
{
    let mut acc: usize = 0;
    let mut i: usize = 0;
    while i < numbers.len()
        invariant
            i <= numbers@.len(),
            acc == gcd_list_prefix(numbers@, i as int),
        decreases numbers@.len() - i,
    {
        proof {
            lemma_gcd_list_zero(numbers@, i as int);
        }
        if numbers[i] > 5 {
            acc = gcd_exec(acc, numbers[i]);
            proof {
                lemma_gcd_divides(gcd_list_prefix(numbers@, i as int), numbers@[i as int] as int);
                lemma_gcd_list_zero(numbers@, i as int + 1);
                if gcd_list_prefix(numbers@, i as int + 1) != 0 {
                    lemma_gcd_list_divides_elem(numbers@, i as int + 1, i as int);
                    lemma_positive_multiple_ge(
                        numbers@[i as int] as int,
                        gcd_list_prefix(numbers@, i as int + 1),
                    );
                }
            }
        }
        i += 1;
    }
    acc
}

/// How many entries of `s` equal `x`.
pub open spec fn count_occ(s: Seq<usize>, x: usize) -> nat
    decreases s.len(),
{
    if s.len() == 0 {
        0
    } else {
        count_occ(s.drop_last(), x) + if s.last() == x {
            1nat
        } else {
            0nat
        }
    }
}

/// An entry's occurrence count never exceeds the length.
pub proof fn lemma_count_occ_le_len(s: Seq<usize>, x: usize)
    ensures
        count_occ(s, x) <= s.len(),
    decreases s.len(),
{
    if s.len() > 0 {
        lemma_count_occ_le_len(s.drop_last(), x);
    }
}

/// An absent entry has occurrence count zero.
pub proof fn lemma_count_occ_absent(s: Seq<usize>, x: usize)
    requires
        !s.contains(x),
    ensures
        count_occ(s, x) == 0,
    decreases s.len(),
{
    if s.len() > 0 {
        assert(!s.drop_last().contains(x)) by {
            if s.drop_last().contains(x) {
                let i = choose|i: int| 0 <= i < s.drop_last().len() && s.drop_last()[i] == x;
                assert(s[i] == x);
            }
        }
        lemma_count_occ_absent(s.drop_last(), x);
        assert(s[s.len() - 1] == s.last());
    }
}

/// Counts how often each key length occurs in the list: the result maps
/// every entry of the list to its number of occurrences.
pub fn create_frequency_map(key_lengths: &Vec<usize>) -> (m: HashMap<usize, usize>)
    ensures
        forall|k: usize| #[trigger] m@.contains_key(k) <==> key_lengths@.contains(k),
        forall|k: usize| #[trigger]
            m@.contains_key(k) ==> m@[k] == count_occ(key_lengths@, k),
{
    let mut m: HashMap<usize, usize> = HashMap::new();
    let mut i: usize = 0;
    while i < key_lengths.len()
        invariant
            i <= key_lengths@.len(),
            forall|k: usize| #[trigger]
                m@.contains_key(k) <==> key_lengths@.subrange(0, i as int).contains(k),
            forall|k: usize| #[trigger]
                m@.contains_key(k) ==> m@[k] == count_occ(
                    key_lengths@.subrange(0, i as int),
                    k,
                ),
        decreases key_lengths@.len() - i,
    {
        let ghost prefix = key_lengths@.subrange(0, i as int);
        let k = key_lengths[i];
        let cur: usize = match m.get(&k) {
            Some(c) => *c,
            None => 0,
        };
        proof {
            lemma_count_occ_le_len(prefix, k);
            if !m@.contains_key(k) {
                lemma_count_occ_absent(prefix, k);
            }
        }
        m.insert(k, cur + 1);
        i += 1;
        proof {
            let newpre = key_lengths@.subrange(0, i as int);
            assert(newpre.drop_last() =~= prefix);
            assert(newpre.last() == key_lengths@[i - 1]);
            assert forall|k2: usize| #[trigger] m@.contains_key(k2) implies newpre.contains(
                k2,
            ) by {
                if k2 == k {
                    assert(newpre[newpre.len() - 1] == k);
                } else {
                    let idx = choose|idx: int| 0 <= idx < prefix.len() && prefix[idx] == k2;
                    assert(newpre[idx] == k2);
                }
            }
            assert forall|k2: usize| newpre.contains(k2) implies #[trigger] m@.contains_key(
                k2,
            ) by {
                let idx = choose|idx: int| 0 <= idx < newpre.len() && newpre[idx] == k2;
                if idx < prefix.len() {
                    assert(prefix[idx] == k2);
                }
            }
            assert forall|k2: usize| #[trigger] m@.contains_key(k2) implies m@[k2] == count_occ(
                newpre,
                k2,
            ) by {
                if k2 != k {
                    assert(prefix.contains(k2) ==> m@[k2] == count_occ(prefix, k2));
                }
            }
        }
    }
    proof {
        assert(key_lengths@.subrange(0, key_lengths@.len() as int) =~= key_lengths@);
    }
    m
}

/// How many positions `i < j` of `text` hold the same byte at lag `lag`.
pub open spec fn autocorr_matches(text: Seq<u8>, lag: int, j: int) -> nat
    decreases j,
{
    if j <= 0 {
        0
    } else {
        autocorr_matches(text, lag, j - 1) + if text[j - 1] == text[j - 1 + lag] {
            1nat
        } else {
            0nat
        }
    }
}

/// The autocorrelation score of a candidate length, in micro-units:
/// `1 + matches / pairs` over all valid byte pairs at that lag.
pub open spec fn spec_autocorr_score(text: Seq<u8>, lag: int) -> int {
    1000000 + ((autocorr_matches(text, lag, text.len() - lag) * 1000000) as int) / (text.len()
        - lag)
}

/// Scores a candidate key length by autocorrelation: the fraction of
/// byte-equal pairs at a lag of the candidate length, rescaled to
/// `[1000000, 2000000]` micro-units.
pub fn autocorrelation_score(key_length: usize, text: &Vec<u8>) -> (r: u64)
    requires
        1 <= key_length < text@.len(),
        text@.len() <= crate::MAX_TEXT_LEN,
    ensures
        r == spec_autocorr_score(text@, key_length as int),
        1000000 <= r <= 2000000,
{
    let pairs: usize = text.len() - key_length;
    let mut matches: u64 = 0;
    let mut i: usize = 0;
    while i < pairs
        invariant
            1 <= key_length < text@.len(),
            text@.len() <= crate::MAX_TEXT_LEN,
            pairs == text@.len() - key_length,
            i <= pairs,
            matches == autocorr_matches(text@, key_length as int, i as int),
            matches <= i,
        decreases pairs - i,
    {
        if text[i] == text[i + key_length] {
            matches += 1;
        }
        i += 1;
    }
    proof {
        assert(matches * 1000000 <= pairs * 1000000);
        vstd::arithmetic::div_mod::lemma_div_is_ordered(
            (matches * 1000000) as int,
            (pairs * 1000000) as int,
            pairs as int,
        );
        vstd::arithmetic::div_mod::lemma_div_multiples_vanish(1000000, pairs as int);
        vstd::arithmetic::mul::lemma_mul_is_commutative(pairs as int, 1000000);
        vstd::arithmetic::div_mod::lemma_div_pos_is_pos((matches * 1000000) as int, pairs as int);
    }
    1000000 + (matches * 1000000) / (pairs as u64)
}

/// The index of coincidence of one column, in micro-units, rounded down; a
/// column with fewer than two letters scores 0.
pub open spec fn spec_column_ic_micro(col: Seq<u8>) -> int {
    if count_alpha(col) <= 1 {
        0
    } else {
        let n = count_alpha(col) as int;
        (ic_num(col) * 1000000) / (n * (n - 1))
    }
}

/// Computes the micro-unit index of coincidence of one column.
fn column_ic_micro(col: &Vec<u8>) -> (r: u64)
    requires
        col@.len() <= crate::MAX_TEXT_LEN,
    ensures
        r == spec_column_ic_micro(col@),
        r <= 1000000,
{
    match index_of_coincidence(col) {
        Err(_) => 0,
        Ok((num, den)) => {
            proof {
                lemma_ic_num_bound(col@, 26);
                lemma_count_alpha_is_sum(col@);
                crate::freq_analysis::lemma_count_alpha_le_len(col@);
                let n = count_alpha(col@) as int;
                let sc = crate::freq_analysis::sum_counts(col@, 26) as int;
                assert(n * (n - 1) < 1000000000000000000int) by (nonlinear_arith)
                    requires
                        2 <= n <= 1000000000int,
                ;
                assert(ic_num(col@) <= n * (n - 1)) by (nonlinear_arith)
                    requires
                        ic_num(col@) <= sc * (n - 1),
                        sc == n,
                ;
                assert(num == ic_num(col@));
                assert(den == n * (n - 1));
                assert(2 <= n * (n - 1)) by (nonlinear_arith)
                    requires
                        2 <= n,
                ;
                assert(num * 1000000 <= den * 1000000);
                vstd::arithmetic::div_mod::lemma_div_is_ordered(
                    (num * 1000000) as int,
                    (den * 1000000) as int,
                    den as int,
                );
                vstd::arithmetic::div_mod::lemma_div_multiples_vanish(1000000, den as int);
                vstd::arithmetic::mul::lemma_mul_is_commutative(den as int, 1000000);
            }
            (((num as u128) * 1000000) / (den as u128)) as u64
        },
    }
}

/// The micro-unit column ICs of the first `i` columns under key length `l`,
/// added up.
pub open spec fn sum_column_ic(text: Seq<u8>, l: int, i: int) -> int
    decreases i,
{
    if i <= 0 {
        0
    } else {
        sum_column_ic(text, l, i - 1) + spec_column_ic_micro(column(text, l, i - 1))
    }
}

/// The average per-column index of coincidence under key length `l`, in
/// micro-units, rounded down.
pub open spec fn spec_ic_score(text: Seq<u8>, l: int) -> int {
    sum_column_ic(text, l, l) / l
}

/// Scores a candidate key length by the average index of coincidence of its
/// columns, in micro-units.
pub fn average_column_ic_micro(text: &Vec<u8>, key_length: usize) -> (r: u64)
    requires
        1 <= key_length <= crate::MAX_TEXT_LEN,
        text@.len() <= crate::MAX_TEXT_LEN,
    ensures
        r == spec_ic_score(text@, key_length as int),
        r <= 1000000,
{
    let mut sum: u64 = 0;
    let mut c: usize = 0;
    while c < key_length
        invariant
            1 <= key_length <= crate::MAX_TEXT_LEN,
            text@.len() <= crate::MAX_TEXT_LEN,
            c <= key_length,
            sum == sum_column_ic(text@, key_length as int, c as int),
            sum <= c * 1000000,
        decreases key_length - c,
    {
        let col = extract_column(text, key_length, c);
        proof {
            lemma_column_prefix_len(text@, key_length as int, c as int, text@.len() as int);
        }
        let v = column_ic_micro(&col);
        sum = sum + v;
        c += 1;
    }
    proof {
        vstd::arithmetic::div_mod::lemma_div_is_ordered(
            sum as int,
            (key_length * 1000000) as int,
            key_length as int,
        );
        vstd::arithmetic::div_mod::lemma_div_multiples_vanish(1000000, key_length as int);
        vstd::arithmetic::mul::lemma_mul_is_commutative(key_length as int, 1000000);
        vstd::arithmetic::div_mod::lemma_div_pos_is_pos(sum as int, key_length as int);
    }
    sum / (key_length as u64)
}

/// Distance of a micro-unit IC from the English baseline 0.0667.
pub open spec fn abs_diff_from_english(x: int) -> int {
    if x >= 66700 {
        x - 66700
    } else {
        66700 - x
    }
}

/// The least distance from the English baseline among the average column
/// ICs of trial lengths `1 ..= t`.
pub open spec fn friedman_min_upto(text: Seq<u8>, t: int) -> int
    decreases t,
{
    if t <= 1 {
        abs_diff_from_english(spec_ic_score(text, 1))
    } else {
        let p = friedman_min_upto(text, t - 1);
        let c = abs_diff_from_english(spec_ic_score(text, t));
        if c < p {
            c
        } else {
            p
        }
    }
}

/// The trial length whose average column IC is closest to the English
/// baseline, the least length winning ties.
pub open spec fn friedman_best_upto(text: Seq<u8>, t: int) -> int
    decreases t,
{
    if t <= 1 {
        1
    } else {
        if abs_diff_from_english(spec_ic_score(text, t)) < friedman_min_upto(text, t - 1) {
            t
        } else {
            friedman_best_upto(text, t - 1)
        }
    }
}

/// The Friedman test: for every trial length up to `max_key_length`,
/// compares the average column IC with the English baseline; returns the
/// least distance (the score, in micro-units) and the trial length that
/// attains it.
pub fn friedman_test(max_key_length: usize, text: &Vec<u8>) -> (r: (u64, usize))
    requires
        1 <= max_key_length <= crate::MAX_TEXT_LEN,
        text@.len() <= crate::MAX_TEXT_LEN,
    ensures
        r.0 == friedman_min_upto(text@, max_key_length as int),
        r.1 == friedman_best_upto(text@, max_key_length as int),
        r.0 <= 1000000,
{
    let avg1 = average_column_ic_micro(text, 1);
    let mut best_diff: u64 = if avg1 >= 66700 {
        avg1 - 66700
    } else {
        66700 - avg1
    };
    let mut best_len: usize = 1;
    let mut t: usize = 2;
    while t <= max_key_length
        invariant
            1 <= max_key_length <= crate::MAX_TEXT_LEN,
            text@.len() <= crate::MAX_TEXT_LEN,
            2 <= t <= max_key_length + 1,
            1 <= best_len,
            best_diff == friedman_min_upto(text@, t as int - 1),
            best_len == friedman_best_upto(text@, t as int - 1),
            best_diff <= 1000000,
        decreases max_key_length + 1 - t,
    {
        let avg = average_column_ic_micro(text, t);
        let diff: u64 = if avg >= 66700 {
            avg - 66700
        } else {
            66700 - avg
        };
        if diff < best_diff {
            best_diff = diff;
            best_len = t;
        }
        t += 1;
    }
    (best_diff, best_len)
}

/// A key-length estimation strategy; the caller mixes and matches them.
#[derive(Clone, Copy, Debug, PartialEq, Eq, Structural)]
pub enum KeyLengthEstimationStrategy {
    /// Fraction of byte-equal pairs at a lag of the candidate length.
    Autocorrelation,
    /// Average per-column index of coincidence under the candidate length.
    IndexOfCoincidence,
    /// Closeness of the best trial length's average column IC to English.
    FriedmanTest,
    /// Injects the GCD of the candidates above the divisor threshold back
    /// into the candidate pool.
    GCD,
}

/// The micro-unit score one strategy gives a candidate key length; the GCD
/// strategy scores nothing itself and acts through the candidate pool.
pub open spec fn spec_strategy_score(
    s: KeyLengthEstimationStrategy,
    text: Seq<u8>,
    l: int,
) -> int {
    match s {
        KeyLengthEstimationStrategy::Autocorrelation => spec_autocorr_score(text, l),
        KeyLengthEstimationStrategy::IndexOfCoincidence => spec_ic_score(text, l),
        KeyLengthEstimationStrategy::FriedmanTest => friedman_min_upto(text, l),
        KeyLengthEstimationStrategy::GCD => 0,
    }
}

/// The scores of the first `j` strategies, added up.
pub open spec fn sum_strategy_scores(
    strats: Seq<KeyLengthEstimationStrategy>,
    text: Seq<u8>,
    l: int,
    j: int,
) -> int
    decreases j,
{
    if j <= 0 {
        0
    } else {
        sum_strategy_scores(strats, text, l, j - 1) + spec_strategy_score(strats[j - 1], text, l)
    }
}

/// The frequency bonus of a candidate: lengths above 3 earn their
/// occurrence count in the pool times the micro-unit weight.
pub open spec fn spec_bonus(pool: Seq<usize>, l: usize, w: u64) -> int {
    if l > 3 {
        count_occ(pool, l) * w
    } else {
        0
    }
}

/// The total score of a candidate: the strategy scores averaged (rounded
/// down) plus the frequency bonus.
pub open spec fn spec_total_score(
    strats: Seq<KeyLengthEstimationStrategy>,
    text: Seq<u8>,
    l: usize,
    pool: Seq<usize>,
    w: u64,
) -> int {
    sum_strategy_scores(strats, text, l as int, strats.len() as int) / (strats.len() as int)
        + spec_bonus(pool, l, w)
}

/// The candidate pool the estimator scores: the candidates as given, plus
/// the GCD of those above the divisor threshold when the GCD strategy is
/// selected and that GCD is itself above the threshold.
pub open spec fn candidate_pool(
    cands: Seq<usize>,
    strats: Seq<KeyLengthEstimationStrategy>,
) -> Seq<usize> {
    let g = spec_gcd_of_list(cands);
    if strats.contains(KeyLengthEstimationStrategy::GCD) && g > 5 {
        cands.push(g as usize)
    } else {
        cands
    }
}

/// The best-scoring entry among the first `j` pool entries, the earliest
/// winning ties.
pub open spec fn select_upto(
    pool: Seq<usize>,
    strats: Seq<KeyLengthEstimationStrategy>,
    text: Seq<u8>,
    w: u64,
    j: int,
) -> usize
    decreases j,
{
    if j <= 1 {
        pool[0]
    } else {
        let b = select_upto(pool, strats, text, w, j - 1);
        if spec_total_score(strats, text, pool[j - 1], pool, w) > spec_total_score(
            strats,
            text,
            b,
            pool,
            w,
        ) {
            pool[j - 1]
        } else {
            b
        }
    }
}

/// The best-scoring entry of the whole pool.
pub open spec fn spec_select(
    pool: Seq<usize>,
    strats: Seq<KeyLengthEstimationStrategy>,
    text: Seq<u8>,
    w: u64,
) -> usize {
    select_upto(pool, strats, text, w, pool.len() as int)
}

/// Scores one candidate under one strategy.
fn strategy_score(
    s: KeyLengthEstimationStrategy,
    key_length: usize,
    text: &Vec<u8>,
) -> (r: u64)
    requires
        1 <= key_length <= crate::MAX_TEXT_LEN,
        text@.len() <= crate::MAX_TEXT_LEN,
        s == KeyLengthEstimationStrategy::Autocorrelation ==> key_length < text@.len(),
    ensures
        r == spec_strategy_score(s, text@, key_length as int),
        r <= 2000000,
{
    match s {
        KeyLengthEstimationStrategy::Autocorrelation => autocorrelation_score(key_length, text),
        KeyLengthEstimationStrategy::IndexOfCoincidence => average_column_ic_micro(
            text,
            key_length,
        ),
        KeyLengthEstimationStrategy::FriedmanTest => friedman_test(key_length, text).0,
        KeyLengthEstimationStrategy::GCD => 0,
    }
}

/// Scores one candidate under the whole strategy set plus the frequency
/// bonus looked up in the occurrence map of the pool.
fn total_score_for(
    key_length: usize,
    strategies: &Vec<KeyLengthEstimationStrategy>,
    text: &Vec<u8>,
    pool: &Vec<usize>,
    freq_map: &HashMap<usize, usize>,
    frequency_multiplier: u64,
) -> (r: u64)
    requires
        strategies@.len() >= 1,
        text@.len() <= crate::MAX_TEXT_LEN,
        1 <= key_length <= crate::MAX_TEXT_LEN,
        strategies@.contains(KeyLengthEstimationStrategy::Autocorrelation) ==> key_length
            < text@.len(),
        pool@.len() <= 10001,
        frequency_multiplier <= 1000000000000,
        forall|k: usize| #[trigger] freq_map@.contains_key(k) <==> pool@.contains(k),
        forall|k: usize| #[trigger]
            freq_map@.contains_key(k) ==> freq_map@[k] == count_occ(pool@, k),
    ensures
        r == spec_total_score(strategies@, text@, key_length, pool@, frequency_multiplier),
{
    let mut ssum: u128 = 0;
    let mut k: usize = 0;
    while k < strategies.len()
        invariant
            strategies@.len() >= 1,
            text@.len() <= crate::MAX_TEXT_LEN,
            1 <= key_length <= crate::MAX_TEXT_LEN,
            strategies@.contains(KeyLengthEstimationStrategy::Autocorrelation) ==> key_length
                < text@.len(),
            k <= strategies@.len(),
            ssum == sum_strategy_scores(strategies@, text@, key_length as int, k as int),
            ssum <= k * 2000000,
        decreases strategies@.len() - k,
    {
        let s = strategies[k];
        proof {
            if s == KeyLengthEstimationStrategy::Autocorrelation {
                assert(strategies@.contains(KeyLengthEstimationStrategy::Autocorrelation));
            }
        }
        let v = strategy_score(s, key_length, text);
        ssum = ssum + (v as u128);
        k += 1;
    }
    let nstrat: u64 = strategies.len() as u64;
    proof {
        vstd::arithmetic::div_mod::lemma_div_is_ordered(
            ssum as int,
            (strategies@.len() * 2000000) as int,
            strategies@.len() as int,
        );
        vstd::arithmetic::div_mod::lemma_div_multiples_vanish(
            2000000,
            strategies@.len() as int,
        );
        vstd::arithmetic::mul::lemma_mul_is_commutative(strategies@.len() as int, 2000000);
        vstd::arithmetic::div_mod::lemma_div_pos_is_pos(ssum as int, strategies@.len() as int);
    }
    let avg: u64 = (ssum / (nstrat as u128)) as u64;
    let count: usize = if key_length > 3 {
        match freq_map.get(&key_length) {
            Some(c) => *c,
            None => 0,
        }
    } else {
        0
    };
    proof {
        lemma_count_occ_le_len(pool@, key_length);
        if key_length > 3 && !freq_map@.contains_key(key_length) {
            lemma_count_occ_absent(pool@, key_length);
        }
        assert((count as int) * (frequency_multiplier as int) <= 10001 * 1000000000000int)
            by (nonlinear_arith)
            requires
                count <= 10001,
                frequency_multiplier <= 1000000000000,
                0 <= count,
                0 <= frequency_multiplier,
        ;
    }
    let bonus: u64 = (count as u64) * frequency_multiplier;
    avg + bonus
}

/// `true` exactly when the GCD strategy is among those selected.
fn contains_gcd_strategy(strategies: &Vec<KeyLengthEstimationStrategy>) -> (b: bool)
    ensures
        b == strategies@.contains(KeyLengthEstimationStrategy::GCD),
{
    let mut i: usize = 0;
    let mut found = false;
    while i < strategies.len()
        invariant
            i <= strategies@.len(),
            found <==> exists|k: int|
                0 <= k < i && strategies@[k] == KeyLengthEstimationStrategy::GCD,
        decreases strategies@.len() - i,
    {
        if strategies[i] == KeyLengthEstimationStrategy::GCD {
            found = true;
        }
        i += 1;
    }
    found
}

/// Estimates the key length. An explicit key length, if valid, is honored
/// without any scoring. Otherwise every candidate in the pool - the given
/// candidates, plus the folded GCD when the GCD strategy asks for it - is
/// scored by the average of the selected strategies' scores plus the
/// frequency bonus, and the best-scoring candidate is returned, the
/// earliest winning ties. With no candidates at all no length can be
/// estimated and `InvalidKeyLength` is returned.
pub fn estimate_key_length_using_multiple_strategies(
    strategies: &Vec<KeyLengthEstimationStrategy>,
    possible_key_lengths: Vec<usize>,
    text: &Vec<u8>,
    specified_key_length: Option<usize>,
    frequency_multiplier: u64,
) -> (r: Result<usize, VigenereError>)
    requires
        text@.len() <= crate::MAX_TEXT_LEN,
        strategies@.len() >= 1,
        frequency_multiplier <= 1000000000000,
        possible_key_lengths@.len() <= 10000,
        forall|i: int|
            0 <= i < possible_key_lengths@.len() ==> 1 <= #[trigger] possible_key_lengths@[i]
                <= crate::MAX_TEXT_LEN,
        strategies@.contains(KeyLengthEstimationStrategy::Autocorrelation) ==> forall|i: int|
            0 <= i < possible_key_lengths@.len() ==> #[trigger] possible_key_lengths@[i]
                < text@.len(),
    ensures
        specified_key_length matches Option::Some(l) ==> {
            &&& ((l == 0 || l > count_alpha(text@)) <==> r === Result::Err(
                VigenereError::InvalidKeyLength,
            ))
            &&& (1 <= l <= count_alpha(text@) ==> r === Result::Ok(l))
        },
        specified_key_length is None ==> {
            let pool = candidate_pool(possible_key_lengths@, strategies@);
            &&& ((possible_key_lengths@.len() == 0) <==> r === Result::Err(
                VigenereError::InvalidKeyLength,
            ))
            &&& (possible_key_lengths@.len() >= 1 ==> r === Result::Ok(
                spec_select(pool, strategies@, text@, frequency_multiplier),
            ))
        },
{
    if let Some(l) = specified_key_length {
        let n_total = crate::freq_analysis::count_alphabetic(text);
        if l == 0 || l > n_total {
            return Err(VigenereError::InvalidKeyLength);
        }
        return Ok(l);
    }
    if possible_key_lengths.len() == 0 {
        return Err(VigenereError::InvalidKeyLength);
    }
    let ghost cands = possible_key_lengths@;
    let mut pool = possible_key_lengths;
    let g = find_gcd_of_list(&pool);
    let has_gcd = contains_gcd_strategy(strategies);
    if has_gcd && g > 5 {
        proof {
            lemma_gcd_list_zero(cands, cands.len() as int);
            let w = choose|i: int| 0 <= i < cands.len() && cands[i] > 5;
            lemma_gcd_list_divides_elem(cands, cands.len() as int, w);
            lemma_positive_multiple_ge(cands[w] as int, g as int);
        }
        pool.push(g);
    }
    proof {
        assert(pool@ == candidate_pool(cands, strategies@));
    }
    let freq_map = create_frequency_map(&pool);
    let mut best: usize = pool[0];
    let mut best_total: u64 = total_score_for(
        best,
        strategies,
        text,
        &pool,
        &freq_map,
        frequency_multiplier,
    );
    let mut i: usize = 1;
    while i < pool.len()
        invariant
            strategies@.len() >= 1,
            text@.len() <= crate::MAX_TEXT_LEN,
            frequency_multiplier <= 1000000000000,
            pool@.len() <= 10001,
            1 <= i <= pool@.len(),
            forall|k2: int| 0 <= k2 < pool@.len() ==> 1 <= #[trigger] pool@[k2]
                <= crate::MAX_TEXT_LEN,
            strategies@.contains(KeyLengthEstimationStrategy::Autocorrelation) ==> forall|
                k2: int,
            |
                0 <= k2 < pool@.len() ==> #[trigger] pool@[k2] < text@.len(),
            forall|k2: usize| #[trigger] freq_map@.contains_key(k2) <==> pool@.contains(k2),
            forall|k2: usize| #[trigger]
                freq_map@.contains_key(k2) ==> freq_map@[k2] == count_occ(pool@, k2),
            best == select_upto(pool@, strategies@, text@, frequency_multiplier, i as int),
            best_total == spec_total_score(
                strategies@,
                text@,
                best,
                pool@,
                frequency_multiplier,
            ),
        decreases pool@.len() - i,
    {
        let t = total_score_for(
            pool[i],
            strategies,
            text,
            &pool,
            &freq_map,
            frequency_multiplier,
        );
        if t > best_total {
            best = pool[i];
            best_total = t;
        }
        i += 1;
    }
    Ok(best)
}

/// With the GCD strategy selected, if every candidate above the divisor
/// threshold is a multiple of one base length `b > 5` and at least one such
/// candidate exists, then the folded GCD is itself a positive multiple of
/// `b` above the threshold, and the estimator's candidate pool contains it.
/// In particular, when `b` is that GCD, `b` itself joins the pool.
pub proof fn lemma_gcd_strategy_surfaces_base(
    cands: Seq<usize>,
    strategies: Seq<KeyLengthEstimationStrategy>,
    b: usize,
)
    requires
        5 < b,
        strategies.contains(KeyLengthEstimationStrategy::GCD),
        exists|i: int| 0 <= i < cands.len() && cands[i] > 5,
        forall|i: int| 0 <= i < cands.len() && #[trigger] cands[i] > 5 ==> (cands[i] as int) % (
        b as int) == 0,
    ensures
        5 < spec_gcd_of_list(cands),
        spec_gcd_of_list(cands) % (b as int) == 0,
        b <= spec_gcd_of_list(cands),
        candidate_pool(cands, strategies).contains(spec_gcd_of_list(cands) as usize),
{
    let g = spec_gcd_of_list(cands);
    let len = cands.len() as int;
    lemma_gcd_list_zero(cands, len);
    let w = choose|i: int| 0 <= i < cands.len() && cands[i] > 5;
    assert(g != 0);
    lemma_common_divides_gcd_list(cands, len, b as int);
    lemma_positive_multiple_ge(g, b as int);
    lemma_gcd_list_divides_elem(cands, len, w);
    lemma_positive_multiple_ge(cands[w] as int, g);
    let pool = candidate_pool(cands, strategies);
    assert(pool == cands.push(g as usize));
    assert(pool[pool.len() - 1] == g as usize);
    assert(pool.contains(g as usize));
}

} // verus!
