//! Kasiski examination: repeated substrings of the ciphertext are found,
//! the distances between their recurrences are tallied, and the divisors of
//! the best-supported distances become key-length candidates.
//!
//! The candidate list is fully determined by the text: distances are tallied
//! in first-appearance order, sorted by occurrence count descending with the
//! smaller distance winning ties, expanded to their divisors above 1 in that
//! order, and truncated to the top 15.

use vstd::prelude::*;
use crate::VigenereError;
use crate::freq_analysis::count_alpha;
use crate::freq_analysis::ic_num;
use crate::freq_analysis::index_of_coincidence;
use crate::k_len_estimator::count_occ;

verus! {

/// The divisors of `n` among `1 ..= j`, ascending.
pub open spec fn divisors_upto(n: int, j: int) -> Seq<usize>
    decreases j,
{
    if j <= 0 {
        Seq::empty()
    } else {
        divisors_upto(n, j - 1) + if n % j == 0 {
            seq![j as usize]
        } else {
            Seq::empty()
        }
    }
}

/// All divisors of `n`, ascending.
pub open spec fn spec_divisors(n: int) -> Seq<usize> {
    divisors_upto(n, n)
}

/// Finds the divisors of `number`, in ascending order.
pub fn find_divisors(number: usize) -> (r: Vec<usize>)
    requires
        number <= crate::MAX_TEXT_LEN,
    ensures
        r@ == spec_divisors(number as int),
        forall|t: int| 0 <= t < r@.len() ==> 1 <= #[trigger] r@[t] <= number,
{
    let mut divisors: Vec<usize> = Vec::new();
    let mut i: usize = 1;
    while i <= number
        invariant
            number <= crate::MAX_TEXT_LEN,
            1 <= i <= number + 1,
            divisors@ == divisors_upto(number as int, i as int - 1),
            forall|t: int| 0 <= t < divisors@.len() ==> 1 <= #[trigger] divisors@[t] <= number,
        decreases number + 1 - i,
    {
        if number % i == 0 {
            divisors.push(i);
            proof {
                assert(divisors@ =~= divisors_upto(number as int, i as int));
            }
        } else {
            proof {
                assert(divisors@ =~= divisors_upto(number as int, i as int));
            }
        }
        i += 1;
    }
    divisors
}

/// The entries of `divs` up to position `k` that are above 1, in order.
pub open spec fn filter_gt1_prefix(divs: Seq<usize>, k: int) -> Seq<usize>
    decreases k,
{
    if k <= 0 {
        Seq::empty()
    } else {
        filter_gt1_prefix(divs, k - 1) + if divs[k - 1] > 1 {
            seq![divs[k - 1]]
        } else {
            Seq::empty()
        }
    }
}

/// The non-overlapping occurrences of `pat` in `text` from position `from`
/// on, leftmost first: the search resumes right after the end of each
/// match, as a multi-pattern matcher with standard semantics reports them.
pub open spec fn pattern_occurrences(text: Seq<u8>, pat: Seq<u8>, from: int) -> Seq<int>
    decreases text.len() - from,
{
    if pat.len() == 0 || from < 0 || from + pat.len() > text.len() {
        Seq::empty()
    } else if text.subrange(from, from + pat.len()) == pat {
        seq![from] + pattern_occurrences(text, pat, from + pat.len())
    } else {
        pattern_occurrences(text, pat, from + 1)
    }
}

/// Relies on `aho_corasick::AhoCorasick::find_iter`: built from a single
/// non-empty pattern with the default (standard) match semantics, it yields
/// exactly the non-overlapping occurrences of the pattern, leftmost first,
/// each search resuming at the end of the previous match; `Match::start` is
/// the byte offset of an occurrence. `AhoCorasick::new` cannot fail for one
/// pattern of at most 8 bytes.
#[verifier::external_body]
fn find_pattern_occurrences(pattern: &Vec<u8>, text: &Vec<u8>) -> (r: Vec<usize>)
    requires
        1 <= pattern@.len() <= 8,
    ensures
        r@.len() == pattern_occurrences(text@, pattern@, 0).len(),
        forall|k: int|
            0 <= k < r@.len() ==> r@[k] == pattern_occurrences(text@, pattern@, 0)[k],
{
    let ac = aho_corasick::AhoCorasick::new([pattern.as_slice()]).unwrap();
    ac.find_iter(text.as_slice()).map(|m| m.start()).collect()
}

/// Every occurrence lies between `from` and the last position where the
/// pattern still fits.
proof fn lemma_occurrence_bounds(text: Seq<u8>, pat: Seq<u8>, from: int)
    ensures
        forall|k: int|
            0 <= k < pattern_occurrences(text, pat, from).len() ==> from <= #[trigger]
            pattern_occurrences(text, pat, from)[k] && pattern_occurrences(text, pat, from)[k]
                + pat.len() <= text.len(),
    decreases text.len() - from,
{
    let occ = pattern_occurrences(text, pat, from);
    if pat.len() == 0 || from < 0 || from + pat.len() > text.len() {
    } else if text.subrange(from, from + pat.len()) == pat {
        let rec = pattern_occurrences(text, pat, from + pat.len());
        lemma_occurrence_bounds(text, pat, from + pat.len() as int);
        assert forall|k: int| 0 <= k < occ.len() implies from <= occ[k] && occ[k] + pat.len()
            <= text.len() by {
            if k == 0 {
                assert(occ[0] == from);
            } else {
                assert(occ[k] == rec[k - 1]);
            }
        }
    } else {
        let rec = pattern_occurrences(text, pat, from + 1);
        lemma_occurrence_bounds(text, pat, from + 1);
        assert forall|k: int| 0 <= k < occ.len() implies from <= occ[k] && occ[k] + pat.len()
            <= text.len() by {
            assert(occ[k] == rec[k]);
        }
    }
}

/// Copies `text[start .. start + len]` into a fresh vector.
fn copy_range(text: &Vec<u8>, start: usize, len: usize) -> (r: Vec<u8>)
    requires
        text@.len() <= crate::MAX_TEXT_LEN,
        start + len <= text@.len(),
    ensures
        r@ == text@.subrange(start as int, start as int + len as int),
{
    let mut out: Vec<u8> = Vec::new();
    let mut k: usize = 0;
    while k < len
        invariant
            text@.len() <= crate::MAX_TEXT_LEN,
            start + len <= text@.len(),
            k <= len,
            out@ == text@.subrange(start as int, start as int + k as int),
        decreases len - k,
    {
        out.push(text[start + k]);
        proof {
            assert(out@ =~= text@.subrange(start as int, start as int + k as int + 1));
        }
        k += 1;
    }
    out
}

/// The distances recorded from `start` to the later ones among the first
/// `j` occurrences.
pub open spec fn dists_prefix(occs: Seq<int>, start: int, j: int) -> Seq<usize>
    decreases j,
{
    if j <= 0 {
        Seq::empty()
    } else {
        dists_prefix(occs, start, j - 1) + if occs[j - 1] > start {
            seq![(occs[j - 1] - start) as usize]
        } else {
            Seq::empty()
        }
    }
}

/// All distances recorded for the length-`l` pattern starting at `start`.
pub open spec fn dists_for_start(text: Seq<u8>, l: int, start: int) -> Seq<usize> {
    let occs = pattern_occurrences(text, text.subrange(start, start + l), 0);
    dists_prefix(occs, start, occs.len() as int)
}

/// The distances recorded at pattern length `l` from the starts `< start`.
pub open spec fn events_for_len_upto(text: Seq<u8>, l: int, start: int) -> Seq<usize>
    decreases start,
{
    if start <= 0 {
        Seq::empty()
    } else {
        events_for_len_upto(text, l, start - 1) + dists_for_start(text, l, start - 1)
    }
}

/// How many start offsets a length-`l` pattern has in `text`.
pub open spec fn num_starts(text: Seq<u8>, l: int) -> int {
    if text.len() >= l {
        text.len() - l + 1
    } else {
        0
    }
}

/// All distances recorded at pattern length `l`.
pub open spec fn events_for_len(text: Seq<u8>, l: int) -> Seq<usize> {
    events_for_len_upto(text, l, num_starts(text, l))
}

/// All distances recorded at the pattern lengths `min_len <= . < l`.
pub open spec fn events_upto(text: Seq<u8>, min_len: int, l: int) -> Seq<usize>
    decreases l - min_len,
{
    if l <= min_len {
        Seq::empty()
    } else {
        events_upto(text, min_len, l - 1) + events_for_len(text, l - 1)
    }
}

/// The shortest n-gram length mined: 2 for texts under 100 bytes, else 3.
pub open spec fn kasiski_min_len(text: Seq<u8>) -> int {
    if text.len() < 100 {
        2
    } else {
        3
    }
}

/// Every distance the examination records, n-gram lengths `min ..= 4`, in
/// order of recording.
pub open spec fn kasiski_events(text: Seq<u8>) -> Seq<usize> {
    events_upto(text, kasiski_min_len(text), 5)
}

/// Records, for every n-gram length and start offset, the distances from
/// the start to the later non-overlapping occurrences of that n-gram.
fn collect_distance_events(text: &Vec<u8>) -> (r: Vec<usize>)
    requires
        text@.len() <= crate::MAX_TEXT_LEN,
    ensures
        r@ == kasiski_events(text@),
        forall|t: int| 0 <= t < r@.len() ==> 1 <= #[trigger] r@[t] && r@[t] < text@.len(),
{
    let min_len: usize = if text.len() < 100 {
        2
    } else {
        3
    };
    let mut events: Vec<usize> = Vec::new();
    let mut l: usize = min_len;
    while l <= 4
        invariant
            text@.len() <= crate::MAX_TEXT_LEN,
            min_len == kasiski_min_len(text@),
            2 <= min_len <= l <= 5,
            events@ == events_upto(text@, min_len as int, l as int),
            forall|t: int|
                0 <= t < events@.len() ==> 1 <= #[trigger] events@[t] && events@[t]
                    < text@.len(),
        decreases 5 - l,
    {
        let starts: usize = if text.len() >= l {
            text.len() - l + 1
        } else {
            0
        };
        let mut start: usize = 0;
        while start < starts
            invariant
                text@.len() <= crate::MAX_TEXT_LEN,
                min_len == kasiski_min_len(text@),
                2 <= min_len <= l <= 4,
                starts == num_starts(text@, l as int),
                starts <= text@.len(),
                start <= starts,
                events@ == events_upto(text@, min_len as int, l as int) + events_for_len_upto(
                    text@,
                    l as int,
                    start as int,
                ),
                forall|t: int|
                    0 <= t < events@.len() ==> 1 <= #[trigger] events@[t] && events@[t]
                        < text@.len(),
            decreases starts - start,
        {
            let pattern = copy_range(text, start, l);
            let occs = find_pattern_occurrences(&pattern, text);
            let ghost socc = pattern_occurrences(
                text@,
                text@.subrange(start as int, start as int + l as int),
                0,
            );
            proof {
                lemma_occurrence_bounds(
                    text@,
                    text@.subrange(start as int, start as int + l as int),
                    0,
                );
            }
            let mut k: usize = 0;
            while k < occs.len()
                invariant
                    text@.len() <= crate::MAX_TEXT_LEN,
                    min_len == kasiski_min_len(text@),
                    2 <= min_len <= l <= 4,
                    start + l <= text@.len(),
                    occs@.len() == socc.len(),
                    forall|k2: int| 0 <= k2 < occs@.len() ==> occs@[k2] == socc[k2],
                    forall|k2: int|
                        0 <= k2 < socc.len() ==> 0 <= #[trigger] socc[k2] && socc[k2] + l
                            <= text@.len(),
                    k <= occs@.len(),
                    events@ == events_upto(text@, min_len as int, l as int)
                        + events_for_len_upto(text@, l as int, start as int) + dists_prefix(
                        socc,
                        start as int,
                        k as int,
                    ),
                    forall|t: int|
                        0 <= t < events@.len() ==> 1 <= #[trigger] events@[t] && events@[t]
                            < text@.len(),
                decreases occs@.len() - k,
            {
                let o = occs[k];
                if o > start {
                    events.push(o - start);
                }
                proof {
                    assert(events@ =~= events_upto(text@, min_len as int, l as int)
                        + events_for_len_upto(text@, l as int, start as int) + dists_prefix(
                        socc,
                        start as int,
                        k as int + 1,
                    ));
                }
                k += 1;
            }
            proof {
                assert(events@ =~= events_upto(text@, min_len as int, l as int)
                    + events_for_len_upto(text@, l as int, start as int + 1));
            }
            start += 1;
        }
        proof {
            assert(events@ =~= events_upto(text@, min_len as int, l as int + 1));
        }
        l += 1;
    }
    events
}

/// The distinct values among the first `j` events, in first-appearance
/// order.
pub open spec fn uniq_prefix(events: Seq<usize>, j: int) -> Seq<usize>
    decreases j,
{
    if j <= 0 {
        Seq::empty()
    } else {
        let u = uniq_prefix(events, j - 1);
        if u.contains(events[j - 1]) {
            u
        } else {
            u.push(events[j - 1])
        }
    }
}

/// `true` exactly when `x` occurs in `v`.
fn vec_contains(v: &Vec<usize>, x: usize) -> (b: bool)
    ensures
        b == v@.contains(x),
{
    let mut i: usize = 0;
    let mut found = false;
    while i < v.len()
        invariant
            i <= v@.len(),
            found <==> exists|k: int| 0 <= k < i && v@[k] == x,
        decreases v@.len() - i,
    {
        if v[i] == x {
            found = true;
        }
        i += 1;
    }
    found
}

/// The distinct distances, in first-appearance order.
fn unique_values(events: &Vec<usize>) -> (r: Vec<usize>)
    ensures
        r@ == uniq_prefix(events@, events@.len() as int),
        forall|t: int| 0 <= t < r@.len() ==> events@.contains(#[trigger] r@[t]),
{
    let mut out: Vec<usize> = Vec::new();
    let mut j: usize = 0;
    while j < events.len()
        invariant
            j <= events@.len(),
            out@ == uniq_prefix(events@, j as int),
            forall|t: int| 0 <= t < out@.len() ==> events@.contains(#[trigger] out@[t]),
        decreases events@.len() - j,
    {
        let d = events[j];
        if !vec_contains(&out, d) {
            out.push(d);
        }
        j += 1;
    }
    out
}

/// Counts the occurrences of `d` among the events.
fn count_occurrences(events: &Vec<usize>, d: usize) -> (c: usize)
    ensures
        c == count_occ(events@, d),
{
    let mut c: usize = 0;
    let mut i: usize = 0;
    while i < events.len()
        invariant
            i <= events@.len(),
            c == count_occ(events@.subrange(0, i as int), d),
            c <= i,
        decreases events@.len() - i,
    {
        let ghost prefix = events@.subrange(0, i as int);
        if events[i] == d {
            c += 1;
        }
        i += 1;
        proof {
            assert(events@.subrange(0, i as int).drop_last() =~= prefix);
        }
    }
    proof {
        assert(events@.subrange(0, events@.len() as int) =~= events@);
    }
    c
}

/// One histogram entry per distinct distance: the distance and its
/// occurrence count among the events.
pub open spec fn hist_pairs(events: Seq<usize>, uniq: Seq<usize>) -> Seq<(usize, usize)> {
    Seq::new(uniq.len(), |i: int| (uniq[i], count_occ(events, uniq[i]) as usize))
}

/// Builds the histogram entries for the distinct distances.
fn build_pairs(events: &Vec<usize>, uniq: &Vec<usize>) -> (r: Vec<(usize, usize)>)
    ensures
        r@ == hist_pairs(events@, uniq@),
{
    let mut out: Vec<(usize, usize)> = Vec::new();
    let mut i: usize = 0;
    while i < uniq.len()
        invariant
            i <= uniq@.len(),
            out@.len() == i,
            forall|t: int|
                0 <= t < i ==> out@[t] == (uniq@[t], count_occ(events@, uniq@[t]) as usize),
        decreases uniq@.len() - i,
    {
        let c = count_occurrences(events, uniq[i]);
        proof {
            crate::k_len_estimator::lemma_count_occ_le_len(events@, uniq@[i as int]);
        }
        out.push((uniq[i], c));
        i += 1;
    }
    proof {
        assert(out@ =~= hist_pairs(events@, uniq@));
    }
    out
}

/// `a` sorts before `b` (or ties with it): more occurrences first, the
/// smaller distance first among equals.
pub open spec fn pair_le(a: (usize, usize), b: (usize, usize)) -> bool {
    a.1 > b.1 || (a.1 == b.1 && a.0 <= b.0)
}

/// Inserts `x` into the sorted sequence `s`, after the entries that sort
/// before it.
pub open spec fn insert_sorted(x: (usize, usize), s: Seq<(usize, usize)>) -> Seq<
    (usize, usize),
>
    decreases s.len(),
{
    if s.len() == 0 {
        seq![x]
    } else if pair_le(s[0], x) {
        seq![s[0]] + insert_sorted(x, s.subrange(1, s.len() as int))
    } else {
        seq![x] + s
    }
}

/// The first `j` entries of `s`, insertion-sorted by `pair_le`.
pub open spec fn sort_prefix(s: Seq<(usize, usize)>, j: int) -> Seq<(usize, usize)>
    decreases j,
{
    if j <= 0 {
        Seq::empty()
    } else {
        insert_sorted(s[j - 1], sort_prefix(s, j - 1))
    }
}

/// Inserts `x` into the sorted tail `s[from ..]`, returning the new
/// sequence.
fn insert_pair_from(x: (usize, usize), s: &Vec<(usize, usize)>, from: usize) -> (r: Vec<
    (usize, usize),
>)
    requires
        from <= s@.len(),
    ensures
        r@ == insert_sorted(x, s@.subrange(from as int, s@.len() as int)),
    decreases s@.len() - from,
{
    let ghost tail = s@.subrange(from as int, s@.len() as int);
    if from >= s.len() {
        let mut out: Vec<(usize, usize)> = Vec::new();
        out.push(x);
        proof {
            assert(out@ =~= insert_sorted(x, tail));
        }
        out
    } else {
        let head = s[from];
        if head.1 > x.1 || (head.1 == x.1 && head.0 <= x.0) {
            let rest = insert_pair_from(x, s, from + 1);
            let mut out: Vec<(usize, usize)> = Vec::new();
            out.push(head);
            let mut k: usize = 0;
            while k < rest.len()
                invariant
                    k <= rest@.len(),
                    out@ == seq![head] + rest@.subrange(0, k as int),
                decreases rest@.len() - k,
            {
                out.push(rest[k]);
                proof {
                    assert(out@ =~= seq![head] + rest@.subrange(0, k as int + 1));
                }
                k += 1;
            }
            proof {
                assert(rest@.subrange(0, rest@.len() as int) =~= rest@);
                assert(tail.subrange(1, tail.len() as int) =~= s@.subrange(
                    from as int + 1,
                    s@.len() as int,
                ));
                assert(out@ =~= insert_sorted(x, tail));
            }
            out
        } else {
            let mut out: Vec<(usize, usize)> = Vec::new();
            out.push(x);
            let mut k: usize = from;
            while k < s.len()
                invariant
                    from <= k <= s@.len(),
                    out@ == seq![x] + s@.subrange(from as int, k as int),
                decreases s@.len() - k,
            {
                out.push(s[k]);
                proof {
                    assert(out@ =~= seq![x] + s@.subrange(from as int, k as int + 1));
                }
                k += 1;
            }
            proof {
                assert(out@ =~= insert_sorted(x, tail));
            }
            out
        }
    }
}

/// Insertion-sorts the histogram entries: occurrence count descending, the
/// smaller distance first among equals.
fn sort_pairs(pairs: &Vec<(usize, usize)>) -> (r: Vec<(usize, usize)>)
    ensures
        r@ == sort_prefix(pairs@, pairs@.len() as int),
{
    let mut out: Vec<(usize, usize)> = Vec::new();
    let mut j: usize = 0;
    while j < pairs.len()
        invariant
            j <= pairs@.len(),
            out@ == sort_prefix(pairs@, j as int),
        decreases pairs@.len() - j,
    {
        let next = insert_pair_from(pairs[j], &out, 0);
        proof {
            assert(out@.subrange(0, out@.len() as int) =~= out@);
        }
        out = next;
        j += 1;
    }
    out
}

/// The key-length candidates read off the first `j` sorted histogram
/// entries: each entry's divisors above 1, ascending, entries in order.
pub open spec fn expand_prefix(sorted: Seq<(usize, usize)>, j: int) -> Seq<usize>
    decreases j,
{
    if j <= 0 {
        Seq::empty()
    } else {
        let divs = spec_divisors(sorted[j - 1].0 as int);
        expand_prefix(sorted, j - 1) + filter_gt1_prefix(divs, divs.len() as int)
    }
}

/// The Kasiski candidate list of `text`: divisors above 1 of the recorded
/// distances, best-supported distances first, truncated to the top 15.
pub open spec fn spec_kasiski(text: Seq<u8>) -> Seq<usize> {
    let events = kasiski_events(text);
    let uniq = uniq_prefix(events, events.len() as int);
    let pairs = hist_pairs(events, uniq);
    let sorted = sort_prefix(pairs, pairs.len() as int);
    let cands = expand_prefix(sorted, sorted.len() as int);
    if cands.len() <= 15 {
        cands
    } else {
        cands.subrange(0, 15)
    }
}

/// Performs the Kasiski examination: finds the repeated n-grams of the
/// text, tallies the distances between their non-overlapping recurrences,
/// and returns the divisors above 1 of those distances as key-length
/// candidates, the best-supported distances first, at most 15 candidates.
pub fn kasiski_examination(text: &Vec<u8>) -> (r: Vec<usize>)
    requires
        text@.len() <= crate::MAX_TEXT_LEN,
    ensures
        r@ == spec_kasiski(text@),
        r@.len() <= 15,
        forall|t: int| 0 <= t < r@.len() ==> 2 <= #[trigger] r@[t] && r@[t] < text@.len(),
{
    let events = collect_distance_events(text);
    let uniq = unique_values(&events);
    let pairs = build_pairs(&events, &uniq);
    let sorted = sort_pairs(&pairs);
    proof {
        assert forall|t: int| 0 <= t < sorted@.len() implies 1 <= #[trigger] sorted@[t].0
            && sorted@[t].0 < text@.len() by {
            lemma_insert_sort_elements(pairs@, pairs@.len() as int, t);
            let t2 = choose|t2: int|
                0 <= t2 < pairs@.len() && pairs@[t2] == sort_prefix(
                    pairs@,
                    pairs@.len() as int,
                )[t];
            assert(events@.contains(uniq@[t2]));
        }
    }
    let mut cands: Vec<usize> = Vec::new();
    let mut j: usize = 0;
    while j < sorted.len()
        invariant
            text@.len() <= crate::MAX_TEXT_LEN,
            j <= sorted@.len(),
            forall|t: int|
                0 <= t < sorted@.len() ==> 1 <= #[trigger] sorted@[t].0 && sorted@[t].0
                    < text@.len(),
            cands@ == expand_prefix(sorted@, j as int),
            forall|t: int| 0 <= t < cands@.len() ==> 2 <= #[trigger] cands@[t] && cands@[t]
                < text@.len(),
        decreases sorted@.len() - j,
    {
        let d = sorted[j].0;
        let divs = find_divisors(d);
        let mut k: usize = 0;
        while k < divs.len()
            invariant
                text@.len() <= crate::MAX_TEXT_LEN,
                j < sorted@.len(),
                d == sorted@[j as int].0,
                1 <= d < text@.len(),
                divs@ == spec_divisors(d as int),
                forall|t: int| 0 <= t < divs@.len() ==> 1 <= #[trigger] divs@[t] <= d,
                k <= divs@.len(),
                cands@ == expand_prefix(sorted@, j as int) + filter_gt1_prefix(
                    divs@,
                    k as int,
                ),
                forall|t: int| 0 <= t < cands@.len() ==> 2 <= #[trigger] cands@[t] && cands@[t]
                    < text@.len(),
            decreases divs@.len() - k,
        {
            if divs[k] > 1 {
                cands.push(divs[k]);
            }
            proof {
                assert(cands@ =~= expand_prefix(sorted@, j as int) + filter_gt1_prefix(
                    divs@,
                    k as int + 1,
                ));
            }
            k += 1;
        }
        proof {
            assert(cands@ =~= expand_prefix(sorted@, j as int + 1));
        }
        j += 1;
    }
    if cands.len() > 15 {
        cands.truncate(15);
    }
    cands
}

/// Every entry of an insertion-sorted sequence is an entry of the input.
proof fn lemma_insert_elements(x: (usize, usize), s: Seq<(usize, usize)>, t: int)
    requires
        0 <= t < insert_sorted(x, s).len(),
    ensures
        insert_sorted(x, s)[t] == x || exists|t2: int|
            0 <= t2 < s.len() && s[t2] == #[trigger] insert_sorted(x, s)[t],
    decreases s.len(),
{
    let r = insert_sorted(x, s);
    if s.len() == 0 {
    } else if pair_le(s[0], x) {
        let tail = s.subrange(1, s.len() as int);
        if t == 0 {
            assert(r[0] == s[0]);
        } else {
            lemma_insert_elements(x, tail, t - 1);
            assert(r[t] == insert_sorted(x, tail)[t - 1]);
            if insert_sorted(x, tail)[t - 1] != x {
                let t2 = choose|t2: int|
                    0 <= t2 < tail.len() && tail[t2] == insert_sorted(x, tail)[t - 1];
                assert(s[t2 + 1] == r[t]);
            }
        }
    } else {
        if t > 0 {
            assert(r[t] == s[t - 1]);
        }
    }
}

/// Every entry of the sorted prefix is an entry of the input.
proof fn lemma_insert_sort_elements(s: Seq<(usize, usize)>, j: int, t: int)
    requires
        j <= s.len(),
        0 <= t < sort_prefix(s, j).len(),
    ensures
        exists|t2: int| 0 <= t2 < j && s[t2] == #[trigger] sort_prefix(s, j)[t],
    decreases j,
{
    if j > 0 {
        let prev = sort_prefix(s, j - 1);
        lemma_insert_elements(s[j - 1], prev, t);
        if sort_prefix(s, j)[t] != s[j - 1] {
            let t2 = choose|t2: int| 0 <= t2 < prev.len() && prev[t2] == sort_prefix(s, j)[t];
            lemma_insert_sort_elements(s, j - 1, t2);
        }
    }
}

/// Every entry of `divisors_upto(n, j)` is at least 1 and divides `n`.
proof fn lemma_divisors_upto_divide(n: int, j: int, t: int)
    requires
        0 <= t < divisors_upto(n, j).len(),
        j <= usize::MAX,
    ensures
        1 <= divisors_upto(n, j)[t],
        n % (divisors_upto(n, j)[t] as int) == 0,
    decreases j,
{
    if j > 0 {
        let prev = divisors_upto(n, j - 1);
        if t < prev.len() {
            lemma_divisors_upto_divide(n, j - 1, t);
        } else {
            assert(divisors_upto(n, j)[t] == (j as usize));
        }
    }
}

/// Every entry the filter keeps is an entry of its input, above 1.
proof fn lemma_filter_gt1_elements(divs: Seq<usize>, k: int, t: int)
    requires
        0 <= t < filter_gt1_prefix(divs, k).len(),
    ensures
        1 < filter_gt1_prefix(divs, k)[t],
        exists|t2: int| 0 <= t2 < k && divs[t2] == filter_gt1_prefix(divs, k)[t],
    decreases k,
{
    if k > 0 {
        let prev = filter_gt1_prefix(divs, k - 1);
        if t < prev.len() {
            lemma_filter_gt1_elements(divs, k - 1, t);
            let t2 = choose|t2: int| 0 <= t2 < k - 1 && divs[t2] == prev[t];
            assert(divs[t2] == filter_gt1_prefix(divs, k)[t]);
        } else {
            assert(divs[k - 1] == filter_gt1_prefix(divs, k)[t]);
        }
    }
}

/// Every distinct distance was recorded as an event.
proof fn lemma_uniq_prefix_elements(events: Seq<usize>, j: int, t: int)
    requires
        j <= events.len(),
        0 <= t < uniq_prefix(events, j).len(),
    ensures
        events.contains(uniq_prefix(events, j)[t]),
    decreases j,
{
    if j > 0 {
        let prev = uniq_prefix(events, j - 1);
        if t < prev.len() {
            lemma_uniq_prefix_elements(events, j - 1, t);
        } else {
            assert(events[j - 1] == uniq_prefix(events, j)[t]);
        }
    }
}

/// Every candidate the expansion emits is above 1 and divides the distance
/// of one of the histogram entries it was read off.
proof fn lemma_expand_elements(sorted: Seq<(usize, usize)>, j: int, t: int)
    requires
        0 <= t < expand_prefix(sorted, j).len(),
    ensures
        1 < expand_prefix(sorted, j)[t],
        exists|j2: int|
            0 <= j2 < j && ((#[trigger] sorted[j2]).0 as int) % (expand_prefix(sorted, j)[t]
                as int) == 0,
    decreases j,
{
    if j > 0 {
        let prev = expand_prefix(sorted, j - 1);
        let divs = spec_divisors(sorted[j - 1].0 as int);
        let seg = filter_gt1_prefix(divs, divs.len() as int);
        if t < prev.len() {
            lemma_expand_elements(sorted, j - 1, t);
            let j2 = choose|j2: int|
                0 <= j2 < j - 1 && ((sorted[j2]).0 as int) % (prev[t] as int) == 0;
            assert(((sorted[j2]).0 as int) % (expand_prefix(sorted, j)[t] as int) == 0);
        } else {
            let c = expand_prefix(sorted, j)[t];
            assert(c == seg[t - prev.len()]);
            lemma_filter_gt1_elements(divs, divs.len() as int, t - prev.len() as int);
            let t2 = choose|t2: int| 0 <= t2 < divs.len() && divs[t2] == c;
            lemma_divisors_upto_divide(sorted[j - 1].0 as int, sorted[j - 1].0 as int, t2);
            assert(((sorted[j - 1]).0 as int) % (c as int) == 0);
        }
    }
}

/// Kasiski correctness: every candidate key length the examination emits is
/// a divisor above 1 of one of the recurrence distances it recorded.
pub proof fn lemma_kasiski_candidates_divide_distances(text: Seq<u8>)
    ensures
        forall|t: int|
            0 <= t < spec_kasiski(text).len() ==> 1 < #[trigger] spec_kasiski(text)[t]
                && exists|d: usize|
                kasiski_events(text).contains(d) && (d as int) % (spec_kasiski(text)[t]
                    as int) == 0,
{
    let events = kasiski_events(text);
    let uniq = uniq_prefix(events, events.len() as int);
    let pairs = hist_pairs(events, uniq);
    let sorted = sort_prefix(pairs, pairs.len() as int);
    let cands = expand_prefix(sorted, sorted.len() as int);
    assert forall|t: int| 0 <= t < spec_kasiski(text).len() implies 1 < #[trigger] spec_kasiski(
        text,
    )[t] && exists|d: usize|
        kasiski_events(text).contains(d) && (d as int) % (spec_kasiski(text)[t] as int)
            == 0 by {
        let c = spec_kasiski(text)[t];
        assert(c == cands[t]);
        lemma_expand_elements(sorted, sorted.len() as int, t);
        let j2 = choose|j2: int|
            0 <= j2 < sorted.len() && ((#[trigger] sorted[j2]).0 as int) % (cands[t] as int)
                == 0;
        lemma_insert_sort_elements(pairs, pairs.len() as int, j2);
        let p2 = choose|p2: int| 0 <= p2 < pairs.len() && pairs[p2] == sorted[j2];
        lemma_uniq_prefix_elements(events, events.len() as int, p2);
        assert(events.contains(uniq[p2]));
        assert(sorted[j2].0 == uniq[p2]);
    }
}

/// Analyzes a ciphertext: its exact index of coincidence (as a
/// numerator/denominator pair) and its Kasiski key-length candidates. A
/// text with fewer than two alphabetic characters has no defined index of
/// coincidence and yields `InputTooShort` - in particular an empty text or
/// one with no letters at all.
pub fn analyze_text(text: &Vec<u8>) -> (r: Result<((u64, u64), Vec<usize>), VigenereError>)
    requires
        text@.len() <= crate::MAX_TEXT_LEN,
    ensures
        count_alpha(text@) <= 1 <==> r === Result::Err(VigenereError::InputTooShort),
        count_alpha(text@) >= 2 ==> (r matches Result::Ok(t) && t.0.0 == ic_num(text@) && t.0.1
            == count_alpha(text@) * (count_alpha(text@) - 1) && t.1@ == spec_kasiski(text@)
            && t.1@.len() <= 15 && (forall|i: int|
            0 <= i < t.1@.len() ==> 2 <= #[trigger] t.1@[i] && t.1@[i] < text@.len())),
{
    let ic = match index_of_coincidence(text) {
        Err(e) => {
            return Err(e);
        },
        Ok(pair) => pair,
    };
    let candidates = kasiski_examination(text);
    proof {
        crate::freq_analysis::lemma_count_alpha_le_len(text@);
        crate::freq_analysis::lemma_ic_num_bound(text@, 26);
        crate::freq_analysis::lemma_count_alpha_is_sum(text@);
        let n = count_alpha(text@) as int;
        let sc = crate::freq_analysis::sum_counts(text@, 26) as int;
        assert(n * (n - 1) < 1000000000000000000int) by (nonlinear_arith)
            requires
                0 <= n <= 1000000000int,
        ;
        assert(ic_num(text@) <= n * (n - 1)) by (nonlinear_arith)
            requires
                n >= 1 ==> ic_num(text@) <= sc * (n - 1),
                n >= 2,
                sc == n,
        ;
    }
    Ok((ic, candidates))
}

} // verus!
