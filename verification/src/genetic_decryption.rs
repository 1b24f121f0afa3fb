//! A stochastic alternative to per-column key recovery: a population of
//! random candidate keys evolves by selection on a letter-frequency fitness,
//! single-point crossover and per-character mutation.
//!
//! The search is randomized, so its contract is structural: the result is a
//! well-formed upper-case key of the requested length. The fitness
//! function, crossover and selection helpers carry exact contracts; the
//! fitness of a key is `sum_j |observed_j * 100000 - expected_j * N|` over
//! the decrypted text's letter counts, lower being better.

use vstd::prelude::*;
use crate::VigenereError;
use crate::decryption::english_freq;
use crate::decryption::english_freq_at;
use crate::decryption::vigenere_decrypt;
use crate::freq_analysis::count_letter;
use crate::freq_analysis::count_alpha;
use crate::freq_analysis::character_frequency_usize;
use crate::freq_analysis::count_alphabetic;
use crate::freq_analysis::lemma_count_letter_le_alpha;
use crate::freq_analysis::lemma_count_alpha_le_len;

verus! {

/// Relies on `rand::random_range` with the range `0 .. n`: a value drawn
/// from the thread-local generator, uniformly below `n`; only an empty
/// range panics.
#[verifier::external_body]
fn random_below(n: usize) -> (r: usize)
    requires
        1 <= n,
    ensures
        r < n,
{
    rand::random_range(0..n)
}

/// A well-formed candidate key: exactly `l` upper-case ASCII letters.
pub open spec fn wf_upper_key(k: Seq<u8>, l: int) -> bool {
    &&& k.len() == l
    &&& forall|j: int| 0 <= j < k.len() ==> 65 <= #[trigger] k[j] <= 90
}

/// Draws a uniformly random key of `key_length` upper-case letters.
pub fn generate_random_key(key_length: usize) -> (r: Vec<u8>)
    ensures
        wf_upper_key(r@, key_length as int),
{
    let mut key: Vec<u8> = Vec::new();
    let mut i: usize = 0;
    while i < key_length
        invariant
            i <= key_length,
            key@.len() == i,
            forall|j: int| 0 <= j < i ==> 65 <= #[trigger] key@[j] <= 90,
        decreases key_length - i,
    {
        let v = random_below(26);
        key.push(65 + v as u8);
        i += 1;
    }
    key
}

/// Copies a key byte for byte.
fn copy_key(key: &Vec<u8>) -> (r: Vec<u8>)
    ensures
        r@ == key@,
{
    let mut out: Vec<u8> = Vec::new();
    let mut i: usize = 0;
    while i < key.len()
        invariant
            i <= key@.len(),
            out@ == key@.subrange(0, i as int),
        decreases key@.len() - i,
    {
        out.push(key[i]);
        proof {
            assert(out@ =~= key@.subrange(0, i as int + 1));
        }
        i += 1;
    }
    proof {
        assert(key@.subrange(0, key@.len() as int) =~= key@);
    }
    out
}

/// The fitness contribution of the first `j` alphabet positions:
/// `sum |observed * 100000 - expected * N|` over the letter counts of `s`.
pub open spec fn fitness_partial(s: Seq<u8>, j: int) -> int
    decreases j,
{
    if j <= 0 {
        0
    } else {
        let d = count_letter(s, j - 1) * 100000 - english_freq(j - 1) * count_alpha(s);
        fitness_partial(s, j - 1) + if d >= 0 {
            d
        } else {
            -d
        }
    }
}

/// The frequency fitness of a decrypted text; lower is closer to English.
pub open spec fn spec_fitness(s: Seq<u8>) -> int {
    fitness_partial(s, 26)
}

/// Scores a decrypted text by how far its letter frequencies lie from the
/// English reference: `sum_j |observed_j * 100000 - expected_j * N|` over
/// the 26 letters, `N` the number of letters. Lower is better.
pub fn evaluate_key_fitness(decrypted_text: &Vec<u8>) -> (r: u64)
    requires
        decrypted_text@.len() <= crate::MAX_TEXT_LEN,
    ensures
        r == spec_fitness(decrypted_text@),
{
    let counts = character_frequency_usize(decrypted_text);
    let n = count_alphabetic(decrypted_text);
    let mut acc: u64 = 0;
    let mut j: usize = 0;
    while j < 26
        invariant
            counts@.len() == 26,
            forall|i: int| 0 <= i < 26 ==> counts@[i] == count_letter(decrypted_text@, i),
            n == count_alpha(decrypted_text@),
            n <= crate::MAX_TEXT_LEN,
            j <= 26,
            acc == fitness_partial(decrypted_text@, j as int),
            acc <= j * 200000000000000,
        decreases 26 - j,
    {
        proof {
            lemma_count_letter_le_alpha(decrypted_text@, j as int);
            lemma_count_alpha_le_len(decrypted_text@);
        }
        let f: u64 = counts[j] as u64;
        let e: u64 = english_freq_at(j);
        proof {
            assert(e * (n as u64) <= 12702 * 1000000000int) by (nonlinear_arith)
                requires
                    e <= 12702,
                    0 <= n <= 1000000000int,
            ;
        }
        let a: u64 = f * 100000;
        let b: u64 = e * (n as u64);
        let d: u64 = if a >= b {
            a - b
        } else {
            b - a
        };
        acc = acc + d;
        j += 1;
    }
    acc
}

/// Splices two equal-length keys at `point`: the child takes the first
/// parent's prefix and the second parent's suffix.
pub fn crossover_keys(a: &Vec<u8>, b: &Vec<u8>, point: usize) -> (r: Vec<u8>)
    requires
        a@.len() == b@.len(),
        point <= a@.len(),
    ensures
        r@.len() == a@.len(),
        forall|j: int|
            0 <= j < r@.len() ==> r@[j] == if j < point {
                a@[j]
            } else {
                b@[j]
            },
{
    let mut out: Vec<u8> = Vec::new();
    let mut i: usize = 0;
    while i < point
        invariant
            point <= a@.len(),
            i <= point,
            out@.len() == i,
            forall|j: int| 0 <= j < i ==> out@[j] == a@[j],
        decreases point - i,
    {
        out.push(a[i]);
        i += 1;
    }
    let mut k: usize = point;
    while k < b.len()
        invariant
            a@.len() == b@.len(),
            point <= k <= b@.len(),
            out@.len() == k,
            forall|j: int| 0 <= j < point ==> out@[j] == a@[j],
            forall|j: int| point <= j < k ==> out@[j] == b@[j],
        decreases b@.len() - k,
    {
        out.push(b[k]);
        k += 1;
    }
    out
}

/// Mutates a key in place: each position is replaced by a fresh random
/// letter with probability `mutation_permille / 1000`.
pub fn mutate_key(key: &mut Vec<u8>, mutation_permille: u64)
    ensures
        final(key)@.len() == old(key)@.len(),
        forall|j: int|
            0 <= j < final(key)@.len() ==> (final(key)@[j] == old(key)@[j] || (65 <= #[trigger]
            final(key)@[j] <= 90)),
{
    let mut i: usize = 0;
    while i < key.len()
        invariant
            key@.len() == old(key)@.len(),
            i <= key@.len(),
            forall|j: int|
                0 <= j < key@.len() ==> (key@[j] == old(key)@[j] || (65 <= #[trigger] key@[j]
                    <= 90)),
        decreases key@.len() - i,
    {
        if (random_below(1000) as u64) < mutation_permille {
            let v = random_below(26);
            key.set(i, 65 + v as u8);
        }
        i += 1;
    }
}

/// `p` carries the key and fitness of some entry of `input`.
pub open spec fn from_scored(p: (Vec<u8>, u64), input: Seq<(Vec<u8>, u64)>) -> bool {
    exists|i2: int|
        0 <= i2 < input.len() && p.0@ == (#[trigger] input[i2]).0@ && p.1 == input[i2].1
}

/// Sorts scored keys by fitness, ascending (best first). The result holds
/// exactly as many entries, each one an entry of the input.
fn sort_by_fitness(pairs: Vec<(Vec<u8>, u64)>) -> (r: Vec<(Vec<u8>, u64)>)
    ensures
        r@.len() == pairs@.len(),
        forall|i1: int, i2: int| 0 <= i1 <= i2 < r@.len() ==> r@[i1].1 <= r@[i2].1,
        forall|i1: int| 0 <= i1 < r@.len() ==> from_scored(#[trigger] r@[i1], pairs@),
{
    let ghost input = pairs@;
    let mut rest = pairs;
    let mut out: Vec<(Vec<u8>, u64)> = Vec::new();
    proof {
        assert forall|i1: int| 0 <= i1 < rest@.len() implies from_scored(
            #[trigger] rest@[i1],
            input,
        ) by {
            assert(rest@[i1].0@ == input[i1].0@);
        }
    }
    while rest.len() > 0
        invariant
            out@.len() + rest@.len() == input.len(),
            forall|i1: int, i2: int| 0 <= i1 <= i2 < out@.len() ==> out@[i1].1 <= out@[i2].1,
            forall|i1: int| 0 <= i1 < out@.len() ==> from_scored(#[trigger] out@[i1], input),
            forall|i1: int| 0 <= i1 < rest@.len() ==> from_scored(#[trigger] rest@[i1], input),
        decreases rest@.len(),
    {
        let ghost old_rest = rest@;
        let x = rest.pop().unwrap();
        proof {
            assert(x == old_rest[old_rest.len() - 1]);
        }
        let mut idx: usize = 0;
        while idx < out.len() && out[idx].1 <= x.1
            invariant
                idx <= out@.len(),
                forall|k: int| 0 <= k < idx ==> out@[k].1 <= x.1,
            decreases out@.len() - idx,
        {
            idx += 1;
        }
        let ghost old_out = out@;
        out.insert(idx, x);
        proof {
            assert forall|i1: int, i2: int| 0 <= i1 <= i2 < out@.len() implies out@[i1].1
                <= out@[i2].1 by {
                if i1 < idx {
                    assert(out@[i1] == old_out[i1]);
                } else if i1 == idx {
                    assert(out@[i1] == x);
                } else {
                    assert(out@[i1] == old_out[i1 - 1]);
                }
                if i2 < idx {
                    assert(out@[i2] == old_out[i2]);
                } else if i2 == idx {
                    assert(out@[i2] == x);
                } else {
                    assert(out@[i2] == old_out[i2 - 1]);
                }
            }
            assert forall|i1: int| 0 <= i1 < out@.len() implies from_scored(
                #[trigger] out@[i1],
                input,
            ) by {
                if i1 < idx {
                    assert(out@[i1] == old_out[i1]);
                } else if i1 == idx {
                    assert(out@[i1] == x);
                    assert(from_scored(x, input));
                } else {
                    assert(out@[i1] == old_out[i1 - 1]);
                }
            }
        }
    }
    out
}

/// Tunable parameters of the genetic search.
#[derive(Clone, Copy, Debug, PartialEq, Eq, Structural)]
pub struct GeneticParams {
    /// How many candidate keys each generation holds.
    pub population_size: usize,
    /// How many generations to evolve.
    pub generations: usize,
    /// How many of the best keys survive as parents.
    pub tournament_size: usize,
    /// Crossover probability, per mille.
    pub crossover_permille: u64,
    /// Per-character mutation probability, per mille.
    pub mutation_permille: u64,
}

/// Recovers a key of length `key_length` by population search: random keys
/// are scored by the letter-frequency fitness of their decryptions, the
/// best `tournament_size` survive as parents, and the population is
/// refilled by crossover and mutation for a fixed generation budget. The
/// result is the best-scoring key of the final population. The search is
/// randomized: two calls on the same input may return different keys, but
/// the result is always a well-formed upper-case key of the requested
/// length, and an invalid length is rejected exactly as in the per-column
/// recovery.
pub fn genetic_guess_key(
    text: &Vec<u8>,
    key_length: usize,
    params: &GeneticParams,
) -> (r: Result<Vec<u8>, VigenereError>)
    requires
        text@.len() <= crate::MAX_TEXT_LEN,
        1 <= params.tournament_size <= params.population_size,
    ensures
        (key_length == 0 || key_length > count_alpha(text@)) <==> r === Result::Err(
            VigenereError::InvalidKeyLength,
        ),
        r matches Result::Ok(k) ==> wf_upper_key(k@, key_length as int),
{
    let n_total = count_alphabetic(text);
    if key_length == 0 || key_length > n_total {
        return Err(VigenereError::InvalidKeyLength);
    }
    let mut population: Vec<Vec<u8>> = Vec::new();
    while population.len() < params.population_size
        invariant
            population@.len() <= params.population_size,
            forall|i: int|
                0 <= i < population@.len() ==> wf_upper_key(
                    #[trigger] population@[i]@,
                    key_length as int,
                ),
        decreases params.population_size - population@.len(),
    {
        population.push(generate_random_key(key_length));
    }
    let mut generation: usize = 0;
    while generation < params.generations
        invariant
            text@.len() <= crate::MAX_TEXT_LEN,
            1 <= params.tournament_size <= params.population_size,
            params.population_size <= population@.len(),
            forall|i: int|
                0 <= i < population@.len() ==> wf_upper_key(
                    #[trigger] population@[i]@,
                    key_length as int,
                ),
            1 <= key_length,
            generation <= params.generations,
        decreases params.generations - generation,
    {
        let mut fitnesses: Vec<(Vec<u8>, u64)> = Vec::new();
        let mut i: usize = 0;
        while i < population.len()
            invariant
                text@.len() <= crate::MAX_TEXT_LEN,
                1 <= key_length,
                forall|t: int|
                    0 <= t < population@.len() ==> wf_upper_key(
                        #[trigger] population@[t]@,
                        key_length as int,
                    ),
                i <= population@.len(),
                fitnesses@.len() == i,
                forall|t: int|
                    0 <= t < fitnesses@.len() ==> wf_upper_key(
                        (#[trigger] fitnesses@[t]).0@,
                        key_length as int,
                    ),
            decreases population@.len() - i,
        {
            let key_copy = copy_key(&population[i]);
            let decrypted = vigenere_decrypt(text, &population[i]);
            let fitness = evaluate_key_fitness(&decrypted);
            fitnesses.push((key_copy, fitness));
            i += 1;
        }
        let sorted = sort_by_fitness(fitnesses);
        let mut new_population: Vec<Vec<u8>> = Vec::new();
        let mut s: usize = 0;
        while s < params.tournament_size
            invariant
                params.tournament_size <= sorted@.len(),
                forall|t: int|
                    0 <= t < sorted@.len() ==> wf_upper_key(
                        (#[trigger] sorted@[t]).0@,
                        key_length as int,
                    ),
                s <= params.tournament_size,
                new_population@.len() == s,
                forall|t: int|
                    0 <= t < new_population@.len() ==> wf_upper_key(
                        #[trigger] new_population@[t]@,
                        key_length as int,
                    ),
            decreases params.tournament_size - s,
        {
            new_population.push(copy_key(&sorted[s].0));
            s += 1;
        }
        while new_population.len() < params.population_size
            invariant
                text@.len() <= crate::MAX_TEXT_LEN,
                1 <= key_length,
                1 <= population@.len(),
                forall|t: int|
                    0 <= t < population@.len() ==> wf_upper_key(
                        #[trigger] population@[t]@,
                        key_length as int,
                    ),
                forall|t: int|
                    0 <= t < new_population@.len() ==> wf_upper_key(
                        #[trigger] new_population@[t]@,
                        key_length as int,
                    ),
            decreases params.population_size - new_population@.len(),
        {
            let plen = population.len();
            let i1 = random_below(plen);
            let i2 = if plen >= 2 {
                let j0 = random_below(plen - 1);
                if j0 >= i1 {
                    j0 + 1
                } else {
                    j0
                }
            } else {
                i1
            };
            let do_cross = key_length >= 2 && (random_below(1000) as u64)
                < params.crossover_permille;
            let mut child1: Vec<u8>;
            let mut child2: Vec<u8>;
            if do_cross {
                let point = 1 + random_below(key_length - 1);
                child1 = crossover_keys(&population[i1], &population[i2], point);
                child2 = crossover_keys(&population[i2], &population[i1], point);
                proof {
                    assert(wf_upper_key(child1@, key_length as int));
                    assert(wf_upper_key(child2@, key_length as int));
                }
            } else {
                child1 = copy_key(&population[i1]);
                child2 = copy_key(&population[i2]);
            }
            mutate_key(&mut child1, params.mutation_permille);
            mutate_key(&mut child2, params.mutation_permille);
            new_population.push(child1);
            if new_population.len() < params.population_size {
                new_population.push(child2);
            }
        }
        population = new_population;
        generation += 1;
    }
    let mut best_index: usize = 0;
    let decrypted0 = vigenere_decrypt(text, &population[0]);
    let mut best_fitness: u64 = evaluate_key_fitness(&decrypted0);
    let mut i: usize = 1;
    while i < population.len()
        invariant
            text@.len() <= crate::MAX_TEXT_LEN,
            1 <= key_length,
            1 <= population@.len(),
            forall|t: int|
                0 <= t < population@.len() ==> wf_upper_key(
                    #[trigger] population@[t]@,
                    key_length as int,
                ),
            best_index < population@.len(),
            1 <= i <= population@.len(),
        decreases population@.len() - i,
    {
        let decrypted = vigenere_decrypt(text, &population[i]);
        let fitness = evaluate_key_fitness(&decrypted);
        if fitness < best_fitness {
            best_fitness = fitness;
            best_index = i;
        }
        i += 1;
    }
    Ok(copy_key(&population[best_index]))
}

} // verus!
