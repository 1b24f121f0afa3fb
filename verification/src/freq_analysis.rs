//! Letter counting and the index of coincidence.
//!
//! A frequency profile is kept as absolute counts over the 26-letter
//! alphabet, case-folded. The index of coincidence uses the counting form
//! `sum f_i * (f_i - 1) / (N * (N - 1))` over the `N` alphabetic characters
//! and is returned as an exact numerator/denominator pair.

use vstd::prelude::*;
use crate::VigenereError;
use crate::decryption::is_ascii_letter;

verus! {

/// The 0-25 alphabet index of a letter, case-folded.
pub open spec fn letter_index(c: u8) -> int {
    if 97 <= c && c <= 122 {
        c - 97
    } else {
        c - 65
    }
}

/// How many bytes of `s` are the letter with alphabet index `j`.
pub open spec fn count_letter(s: Seq<u8>, j: int) -> nat
    decreases s.len(),
{
    if s.len() == 0 {
        0
    } else {
        count_letter(s.drop_last(), j) + if is_ascii_letter(s.last()) && letter_index(s.last())
            == j {
            1nat
        } else {
            0nat
        }
    }
}

/// How many bytes of `s` are ASCII letters.
pub open spec fn count_alpha(s: Seq<u8>) -> nat
    decreases s.len(),
{
    if s.len() == 0 {
        0
    } else {
        count_alpha(s.drop_last()) + if is_ascii_letter(s.last()) {
            1nat
        } else {
            0nat
        }
    }
}

/// The letter counts of the first `j` alphabet positions, added up.
pub open spec fn sum_counts(s: Seq<u8>, j: int) -> nat
    decreases j,
{
    if j <= 0 {
        0
    } else {
        sum_counts(s, j - 1) + count_letter(s, j - 1)
    }
}

/// Numerator of the index of coincidence, restricted to the first `j`
/// alphabet positions: `sum_{i < j} f_i * (f_i - 1)`. A letter that does not
/// occur contributes `0 * (-1) == 0`.
pub open spec fn ic_num_partial(s: Seq<u8>, j: int) -> int
    decreases j,
{
    if j <= 0 {
        0
    } else {
        ic_num_partial(s, j - 1) + count_letter(s, j - 1) * (count_letter(s, j - 1) - 1)
    }
}

/// Numerator of the index of coincidence of `s`.
pub open spec fn ic_num(s: Seq<u8>) -> int {
    ic_num_partial(s, 26)
}

proof fn lemma_sum_counts_empty(j: int)
    ensures
        sum_counts(Seq::<u8>::empty(), j) == 0,
    decreases j,
{
    if j > 0 {
        lemma_sum_counts_empty(j - 1);
    }
}

proof fn lemma_sum_counts_push(t: Seq<u8>, c: u8, j: int)
    ensures
        sum_counts(t.push(c), j) == sum_counts(t, j) + if is_ascii_letter(c) && letter_index(c)
            < j {
            1nat
        } else {
            0nat
        },
    decreases j,
{
    if j > 0 {
        lemma_sum_counts_push(t, c, j - 1);
        assert(t.push(c).drop_last() =~= t);
    }
}

/// The per-letter counts add up to the count of letters.
pub proof fn lemma_count_alpha_is_sum(s: Seq<u8>)
    ensures
        count_alpha(s) == sum_counts(s, 26),
    decreases s.len(),
{
    if s.len() == 0 {
        assert(s =~= Seq::<u8>::empty());
        lemma_sum_counts_empty(26);
    } else {
        let t = s.drop_last();
        lemma_count_alpha_is_sum(t);
        assert(s =~= t.push(s.last()));
        lemma_sum_counts_push(t, s.last(), 26);
        if is_ascii_letter(s.last()) {
            assert(0 <= letter_index(s.last()) < 26);
        }
    }
}

/// No single letter occurs more often than there are letters.
pub proof fn lemma_count_letter_le_alpha(s: Seq<u8>, j: int)
    ensures
        count_letter(s, j) <= count_alpha(s),
    decreases s.len(),
{
    if s.len() > 0 {
        lemma_count_letter_le_alpha(s.drop_last(), j);
    }
}

/// `sum_counts` grows with the number of alphabet positions it covers.
pub proof fn lemma_sum_counts_mono(s: Seq<u8>, j1: int, j2: int)
    requires
        j1 <= j2,
    ensures
        sum_counts(s, j1) <= sum_counts(s, j2),
    decreases j2 - j1,
{
    if j1 < j2 {
        lemma_sum_counts_mono(s, j1, j2 - 1);
    }
}

/// A text has no more letters than bytes.
pub proof fn lemma_count_alpha_le_len(s: Seq<u8>)
    ensures
        count_alpha(s) <= s.len(),
    decreases s.len(),
{
    if s.len() > 0 {
        lemma_count_alpha_le_len(s.drop_last());
    }
}

/// The IC numerator is non-negative and bounded by the letter total over
/// the first `j` alphabet positions times `N - 1`.
pub proof fn lemma_ic_num_bound(s: Seq<u8>, j: int)
    ensures
        0 <= ic_num_partial(s, j),
        count_alpha(s) >= 1 ==> ic_num_partial(s, j) <= sum_counts(s, j) * ((count_alpha(s)
            - 1) as int),
    decreases j,
{
    if j > 0 {
        lemma_ic_num_bound(s, j - 1);
        lemma_count_letter_le_alpha(s, j - 1);
        let f = count_letter(s, j - 1) as int;
        let n = count_alpha(s) as int;
        let sp = sum_counts(s, j - 1) as int;
        assert(0 <= f * (f - 1)) by (nonlinear_arith)
            requires
                0 <= f,
        ;
        if n >= 1 {
            assert(ic_num_partial(s, j - 1) + f * (f - 1) <= (sp + f) * ((n - 1) as int))
                by (nonlinear_arith)
                requires
                    ic_num_partial(s, j - 1) <= sp * ((n - 1) as int),
                    0 <= f <= n,
                    0 <= sp,
                    1 <= n,
            ;
        }
    }
}

/// Counts each ASCII letter of `text`, case-insensitively: entry `j` of the
/// result is the number of occurrences of the `j`-th alphabet letter.
pub fn character_frequency_usize(text: &Vec<u8>) -> (r: Vec<usize>)
    ensures
        r@.len() == 26,
        forall|j: int| 0 <= j < 26 ==> r@[j] == count_letter(text@, j),
{
    let mut counts: Vec<usize> = Vec::new();
    let mut k: usize = 0;
    while k < 26
        invariant
            counts@.len() == k,
            k <= 26,
            forall|j: int| 0 <= j < k ==> counts@[j] == 0,
        decreases 26 - k,
    {
        counts.push(0);
        k += 1;
    }
    let mut i: usize = 0;
    while i < text.len()
        invariant
            counts@.len() == 26,
            i <= text@.len(),
            forall|j: int| 0 <= j < 26 ==> counts@[j] == count_letter(text@.subrange(0, i as int), j),
            forall|j: int| 0 <= j < 26 ==> counts@[j] <= i,
        decreases text@.len() - i,
    {
        let ghost prefix = text@.subrange(0, i as int);
        let c = text[i];
        if (65 <= c && c <= 90) || (97 <= c && c <= 122) {
            let idx: usize = if 97 <= c {
                (c - 97) as usize
            } else {
                (c - 65) as usize
            };
            let old_v = counts[idx];
            counts.set(idx, old_v + 1);
        }
        i += 1;
        proof {
            assert(text@.subrange(0, i as int).drop_last() =~= prefix);
            assert(text@.subrange(0, i as int).last() == text@[i - 1]);
        }
    }
    proof {
        assert(text@.subrange(0, text@.len() as int) =~= text@);
    }
    counts
}

/// Counts the ASCII letters of `text`.
pub fn count_alphabetic(text: &Vec<u8>) -> (n: usize)
    ensures
        n == count_alpha(text@),
        n <= text@.len(),
{
    let mut n: usize = 0;
    let mut i: usize = 0;
    while i < text.len()
        invariant
            i <= text@.len(),
            n == count_alpha(text@.subrange(0, i as int)),
            n <= i,
        decreases text@.len() - i,
    {
        let ghost prefix = text@.subrange(0, i as int);
        let c = text[i];
        if (65 <= c && c <= 90) || (97 <= c && c <= 122) {
            n += 1;
        }
        i += 1;
        proof {
            assert(text@.subrange(0, i as int).drop_last() =~= prefix);
        }
    }
    proof {
        assert(text@.subrange(0, text@.len() as int) =~= text@);
    }
    n
}

/// The exact index of coincidence of `text`, as the pair
/// `(sum f_i * (f_i - 1), N * (N - 1))` over the `N` alphabetic characters.
/// With fewer than two letters the statistic is undefined and the call
/// returns `InputTooShort`.
pub fn index_of_coincidence(text: &Vec<u8>) -> (r: Result<(u64, u64), VigenereError>)
    requires
        text@.len() <= crate::MAX_TEXT_LEN,
    ensures
        count_alpha(text@) <= 1 ==> r == Result::<(u64, u64), VigenereError>::Err(
            VigenereError::InputTooShort,
        ),
        count_alpha(text@) >= 2 ==> r == Result::<(u64, u64), VigenereError>::Ok(
            (
                ic_num(text@) as u64,
                (count_alpha(text@) * (count_alpha(text@) - 1)) as u64,
            ),
        ),
{
    let counts = character_frequency_usize(text);
    let n = count_alphabetic(text);
    if n <= 1 {
        return Err(VigenereError::InputTooShort);
    }
    let n64: u64 = n as u64;
    let mut num: u64 = 0;
    let mut j: usize = 0;
    proof {
        lemma_count_alpha_is_sum(text@);
    }
    while j < 26
        invariant
            counts@.len() == 26,
            forall|i: int| 0 <= i < 26 ==> counts@[i] == count_letter(text@, i),
            2 <= n64 == n == count_alpha(text@),
            n <= crate::MAX_TEXT_LEN,
            j <= 26,
            num == ic_num_partial(text@, j as int),
            num <= sum_counts(text@, j as int) * ((n - 1) as int),
            count_alpha(text@) == sum_counts(text@, 26),
        decreases 26 - j,
    {
        let f: u64 = counts[j] as u64;
        proof {
            lemma_count_letter_le_alpha(text@, j as int);
            lemma_sum_counts_mono(text@, j as int + 1, 26);
            let s = sum_counts(text@, j as int) as int;
            assert(num + f * (f - 1) <= (s + f) * ((n - 1) as int)) by (nonlinear_arith)
                requires
                    num <= s * ((n - 1) as int),
                    0 <= f <= n,
                    1 <= n,
                    0 <= s,
            ;
            assert((s + f) * ((n - 1) as int) <= n * ((n - 1) as int)) by (nonlinear_arith)
                requires
                    0 <= s + f <= n,
                    1 <= n,
            ;
            assert(n * ((n - 1) as int) < 1000000000000000000int) by (nonlinear_arith)
                requires
                    1 <= n <= 1000000000,
            ;
        }
        if f >= 1 {
            num = num + f * (f - 1);
        }
        proof {
            let cl = count_letter(text@, j as int);
            assert(cl == f);
            if f == 0 {
                assert(cl * (cl - 1) == 0) by (nonlinear_arith)
                    requires
                        cl == 0,
                ;
            }
            assert(ic_num_partial(text@, j as int + 1) == ic_num_partial(text@, j as int) + cl * (
            cl - 1));
        }
        j += 1;
    }
    proof {
        assert(n64 * (n64 - 1) < 1000000000000000000u64) by (nonlinear_arith)
            requires
                2 <= n64 <= 1000000000,
        ;
    }
    Ok((num, n64 * (n64 - 1)))
}

} // verus!
