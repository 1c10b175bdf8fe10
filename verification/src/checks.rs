use vstd::prelude::*;
use crate::{Letter, Word, N, is_letter, SearchError};
use crate::distmap::{DistanceMap, MAX_DIST};
use crate::score::{antidistance, antidistance_spec, canon_key, zarankiewicz_spec};
use crate::letter::{antipode_spec, letter_chars, letter_to_string, parse_letter};
use vstd::std_specs::cmp::PartialEqSpec;

verus! {

broadcast use vstd::seq_lib::group_to_multiset_ensures;

/// The letters of a word, as plain digit sequences.
pub open spec fn word_view(w: Word) -> Seq<Seq<u8>> {
    Seq::new(w@.len(), |i: int| w@[i]@)
}

/// Every letter of the word is a letter.
pub open spec fn wf_word(w: Seq<Seq<u8>>) -> bool {
    forall|i: int| 0 <= i < w.len() ==> is_letter(#[trigger] w[i])
}

/// Whether the antidistance of `x` and `y` is defined over `m`.
pub open spec fn ad_ok(m: Map<Seq<u8>, u32>, x: Seq<u8>, y: Seq<u8>) -> bool {
    antidistance_spec(m, x, y) is Some
}

/// The antidistance of `x` and `y` over `m` (meaningful when defined).
pub open spec fn ad_val(m: Map<Seq<u8>, u32>, x: Seq<u8>, y: Seq<u8>) -> int {
    (match antidistance_spec(m, x, y) {
        Some(d) => d,
        None => 0,
    }) as int
}

/// Whether every unordered pair of distinct positions has a defined
/// antidistance.
pub open spec fn pairs_ok(m: Map<Seq<u8>, u32>, w: Seq<Seq<u8>>) -> bool {
    forall|a: int, b: int| 0 <= a < b < w.len() ==> #[trigger] ad_ok(m, w[a], w[b])
}

/// Sum of the antidistances of `w[i]` against `w[j], w[j+1], ...`.
pub open spec fn row_sum(m: Map<Seq<u8>, u32>, w: Seq<Seq<u8>>, i: int, j: int) -> int
    decreases w.len() - j,
{
    if j >= w.len() || j < 0 {
        0
    } else {
        ad_val(m, w[i], w[j]) + row_sum(m, w, i, j + 1)
    }
}

/// Sum of the antidistances of all unordered pairs in rows `i` and beyond.
pub open spec fn antisum_from(m: Map<Seq<u8>, u32>, w: Seq<Seq<u8>>, i: int) -> int
    decreases w.len() - i,
{
    if i >= w.len() || i < 0 {
        0
    } else {
        row_sum(m, w, i, i + 1) + antisum_from(m, w, i + 1)
    }
}

/// The antisum of a word: the sum of the antidistances of all unordered
/// pairs of its positions.
pub open spec fn antisum_spec(m: Map<Seq<u8>, u32>, w: Seq<Seq<u8>>) -> int {
    antisum_from(m, w, 0)
}

/// The pairs strictly before row `i`, column `j` all have defined
/// antidistances.
pub open spec fn pairs_ok_upto(m: Map<Seq<u8>, u32>, w: Seq<Seq<u8>>, i: int, j: int) -> bool {
    forall|a: int, b: int|
        0 <= a < b < w.len() && (a < i || (a == i && b < j)) ==> #[trigger] ad_ok(m, w[a], w[b])
}

/// The number of unordered pairs among `n` positions.
pub open spec fn pair_count(n: int) -> int
    decreases n,
{
    if n <= 1 {
        0
    } else {
        (n - 1) + pair_count(n - 1)
    }
}

/// Pair counts grow with the position count.
proof fn lemma_pair_count_mono(a: int, b: int)
    requires
        a <= b,
    ensures
        0 <= pair_count(a) <= pair_count(b),
    decreases b,
{
    if a < b && b > 1 {
        lemma_pair_count_mono(a, b - 1);
    } else if a == b && b > 1 {
        lemma_pair_count_mono(a - 1, b - 1);
    }
}

/// A row's sum lies between `0` and one bounded antidistance per column.
proof fn lemma_row_sum_bounds(m: Map<Seq<u8>, u32>, w: Seq<Seq<u8>>, i: int, j: int)
    requires
        forall|s: Seq<u8>| #[trigger] m.contains_key(s) ==> m[s] <= MAX_DIST,
        0 <= j <= w.len(),
    ensures
        0 <= row_sum(m, w, i, j),
        row_sum(m, w, i, j) <= (w.len() - j) * MAX_DIST,
    decreases w.len() - j,
{
    if j < w.len() {
        lemma_row_sum_bounds(m, w, i, j + 1);
        assert(ad_val(m, w[i], w[j]) <= MAX_DIST) by {
            assert(9int / 2 == 4 && 8int / 2 == 4);
            assert(zarankiewicz_spec(N as int) == (9int / 2) * (8int / 2));
            let x = w[i];
            let y = w[j];
            if x != y && antipode_spec(x) != y {
                let k = canon_key(antipode_spec(x), y);
                if m.contains_key(k) {
                    assert(m[k] <= MAX_DIST);
                }
            }
        }
        assert(row_sum(m, w, i, j) == ad_val(m, w[i], w[j]) + row_sum(m, w, i, j + 1));
        assert((w.len() - j) * MAX_DIST == (w.len() - j - 1) * MAX_DIST + MAX_DIST)
            by (nonlinear_arith);
    }
}

/// A word's antisum lies between `0` and one bounded antidistance per
/// unordered pair.
proof fn lemma_antisum_from_bounds(m: Map<Seq<u8>, u32>, w: Seq<Seq<u8>>, i: int)
    requires
        forall|s: Seq<u8>| #[trigger] m.contains_key(s) ==> m[s] <= MAX_DIST,
        i >= 0,
    ensures
        0 <= antisum_from(m, w, i),
        antisum_from(m, w, i) <= pair_count(w.len() - i) * MAX_DIST,
    decreases w.len() - i,
{
    if i >= w.len() {
        lemma_pair_count_mono(w.len() - i, 0);
    } else {
        lemma_row_sum_bounds(m, w, i, i + 1);
        lemma_antisum_from_bounds(m, w, i + 1);
        assert(pair_count(w.len() - i) == (w.len() - i - 1) + pair_count(w.len() - i - 1));
        assert(((w.len() - i - 1) + pair_count(w.len() - i - 1)) * MAX_DIST == (w.len() - i - 1)
            * MAX_DIST + pair_count(w.len() - i - 1) * MAX_DIST) by (nonlinear_arith);
    }
}

/// The antisum of a word: `0` for a word of fewer than two letters, else
/// the sum of `antidistance` over every unordered pair of positions. Fails
/// exactly when some pair's antidistance is undefined.
pub fn antisum(dm: &DistanceMap, word: &Word) -> (r: Result<u32, SearchError>)
    requires
        dm.wf(),
        word@.len() <= N,
        wf_word(word_view(*word)),
    ensures
        match r {
            Ok(s) => pairs_ok(dm@, word_view(*word)) && s as int == antisum_spec(
                dm@,
                word_view(*word),
            ),
            Err(e) => !pairs_ok(dm@, word_view(*word)) && e == SearchError::InvariantViolation,
        },
{
    let ghost wv = word_view(*word);
    let len = word.len();
    let mut total: u64 = 0;
    let mut i: usize = 0;
    while i < len
        invariant
            dm.wf(),
            word@.len() == len,
            len <= N,
            wv == word_view(*word),
            wf_word(wv),
            i <= len,
            pairs_ok_upto(dm@, wv, i as int, i as int + 1),
            total as int == antisum_from(dm@, wv, 0) - antisum_from(dm@, wv, i as int),
            total as int <= (i as int) * 8 * MAX_DIST,
        decreases len - i,
    {
        let mut j: usize = i + 1;
        while j < len
            invariant
                dm.wf(),
                word@.len() == len,
                len <= N,
                wv == word_view(*word),
                wf_word(wv),
                i < len,
                i < j <= len,
                pairs_ok_upto(dm@, wv, i as int, j as int),
                total as int == antisum_from(dm@, wv, 0) - antisum_from(dm@, wv, i as int) + (
                row_sum(dm@, wv, i as int, i as int + 1) - row_sum(dm@, wv, i as int, j as int)),
                total as int <= ((i as int) * 8 + (j - i - 1)) * MAX_DIST,
            decreases len - j,
        {
            proof {
                assert(word@[i as int]@ == wv[i as int]);
                assert(word@[j as int]@ == wv[j as int]);
            }
            match antidistance(dm, &word[i], &word[j]) {
                Ok(d) => {
                    proof {
                        assert(row_sum(dm@, wv, i as int, j as int) == ad_val(
                            dm@,
                            wv[i as int],
                            wv[j as int],
                        ) + row_sum(dm@, wv, i as int, j as int + 1));
                        assert(((i as int) * 8 + (j - i - 1)) * MAX_DIST + MAX_DIST <= 81
                            * MAX_DIST) by (nonlinear_arith)
                            requires
                                0 <= i < 9,
                                i < j <= 9,
                        ;
                    }
                    total = total + d as u64;
                },
                Err(_) => {
                    proof {
                        assert(!ad_ok(dm@, wv[i as int], wv[j as int]));
                    }
                    return Err(SearchError::InvariantViolation);
                },
            }
            j = j + 1;
        }
        proof {
            assert(row_sum(dm@, wv, i as int, len as int) == 0);
            assert(antisum_from(dm@, wv, i as int) == row_sum(dm@, wv, i as int, i as int + 1)
                + antisum_from(dm@, wv, i as int + 1));
            assert(((i as int) * 8 + (len - i - 1)) * MAX_DIST <= ((i as int) + 1) * 8
                * MAX_DIST) by (nonlinear_arith)
                requires
                    0 <= i < len <= 9,
            ;
        }
        i = i + 1;
    }
    proof {
        assert(antisum_from(dm@, wv, len as int) == 0);
        dm.lemma_values_bounded();
        lemma_antisum_from_bounds(dm@, wv, 0);
        lemma_pair_count_mono(wv.len() as int, 9);
        assert(pair_count(9) == 36) by {
            assert(pair_count(0) == 0);
            assert(pair_count(1) == 0);
            assert(pair_count(2) == 1);
            assert(pair_count(3) == 3);
            assert(pair_count(4) == 6);
            assert(pair_count(5) == 10);
            assert(pair_count(6) == 15);
            assert(pair_count(7) == 21);
            assert(pair_count(8) == 28);
            assert(pair_count(9) == 36);
        }
        assert(pair_count(wv.len() as int) * (MAX_DIST as int) <= 36 * (MAX_DIST as int))
            by (nonlinear_arith)
            requires
                0 <= pair_count(wv.len() as int) <= 36,
        ;
        assert(total <= 36 * (MAX_DIST as int));
    }
    Ok(total as u32)
}

/// Sum of `antidistance(w[0], w[i])` for `i` from `i0` up.
pub open spec fn sum_a_from(m: Map<Seq<u8>, u32>, w: Seq<Seq<u8>>, i: int) -> int
    decreases w.len() - i,
{
    if i >= w.len() || i < 0 {
        0
    } else {
        ad_val(m, w[0], w[i]) + sum_a_from(m, w, i + 1)
    }
}

/// Sum of `antidistance(w[i], nl)` for `i` from `i0` up.
pub open spec fn sum_f_from(m: Map<Seq<u8>, u32>, w: Seq<Seq<u8>>, nl: Seq<u8>, i: int) -> int
    decreases w.len() - i,
{
    if i >= w.len() || i < 0 {
        0
    } else {
        ad_val(m, w[i], nl) + sum_f_from(m, w, nl, i + 1)
    }
}

/// The table of maximum admissible antisums, by position: positions `0`
/// through `7` hold the bounds for word lengths `2` through `9`.
pub open spec fn f_max_spec(p: int) -> int {
    if p == 0 {
        6
    } else if p == 1 {
        20
    } else if p == 2 {
        40
    } else if p == 3 {
        68
    } else if p == 4 {
        104
    } else if p == 5 {
        146
    } else if p == 6 {
        197
    } else {
        254
    }
}

/// Reads the bound table.
fn f_max_at(p: usize) -> (r: u32)
    requires
        p < 8,
    ensures
        r as int == f_max_spec(p as int),
{
    if p == 0 {
        6
    } else if p == 1 {
        20
    } else if p == 2 {
        40
    } else if p == 3 {
        68
    } else if p == 4 {
        104
    } else if p == 5 {
        146
    } else if p == 6 {
        197
    } else {
        254
    }
}

/// Whether the three antidistance groups that the incremental check reads
/// first are all defined: first letter against the candidate, first letter
/// against the rest, and every letter against the candidate.
pub open spec fn check1_reads_ok(m: Map<Seq<u8>, u32>, w: Seq<Seq<u8>>, nl: Seq<u8>) -> bool {
    &&& ad_ok(m, w[0], nl)
    &&& forall|i: int| 1 <= i < w.len() ==> #[trigger] ad_ok(m, w[0], w[i])
    &&& forall|i: int| 0 <= i < w.len() ==> #[trigger] ad_ok(m, w[i], nl)
}

/// What the incremental bound check decides for extending `w` (with antisum
/// `pa`) by the letter `nl`, in order: the hard cutoff for length-`4` words
/// with antisum at most `32`; the growth-rate rejection; the bound-table
/// rejection; the post-hoc cutoff on the extended word; else acceptance.
/// `None` where a needed antidistance is undefined.
pub open spec fn check1_spec(m: Map<Seq<u8>, u32>, w: Seq<Seq<u8>>, nl: Seq<u8>, pa: u32) -> Option<
    bool,
> {
    let k = w.len() as int;
    if k == 4 && pa <= 32 {
        Some(false)
    } else if !check1_reads_ok(m, w, nl) {
        None
    } else {
        let af = ad_val(m, w[0], nl);
        let ax = sum_a_from(m, w, 1);
        let xf = sum_f_from(m, w, nl, 0);
        if af < pa + ax - (k - 2) * xf {
            Some(false)
        } else if af > f_max_spec(k + 1) - pa - ax {
            Some(false)
        } else if !pairs_ok(m, w.push(nl)) {
            None
        } else if k + 1 == 4 && antisum_spec(m, w.push(nl)) <= 32 {
            Some(false)
        } else {
            Some(true)
        }
    }
}

/// Copies a word letter by letter.
fn clone_word(w: &Word) -> (r: Word)
    ensures
        word_view(r) == word_view(*w),
        r@.len() == w@.len(),
{
    let mut out: Word = Vec::new();
    let mut i: usize = 0;
    while i < w.len()
        invariant
            i <= w@.len(),
            out@.len() == i,
            forall|j: int| 0 <= j < i ==> #[trigger] out@[j]@ == w@[j]@,
        decreases w@.len() - i,
    {
        let l = w[i].clone();
        proof {
            assert(l@ =~= w@[i as int]@);
        }
        out.push(l);
        i = i + 1;
    }
    proof {
        assert(word_view(out) =~= word_view(*w));
    }
    out
}

/// Decides whether the word `prev_word`, with antisum `prev_antisum`, can
/// be extended by `new_letter` and stay a viable candidate: the hard
/// length-`4` cutoff, the growth-rate and bound-table inequalities, and the
/// post-hoc cutoff on the extended word, in that order. Fails exactly where
/// a needed antidistance is undefined.
pub fn check1(dm: &DistanceMap, prev_word: &Word, new_letter: &Letter, prev_antisum: u32) -> (r:
    Result<bool, SearchError>)
    requires
        dm.wf(),
        1 <= prev_word@.len() <= 6,
        wf_word(word_view(*prev_word)),
        is_letter(new_letter@),
    ensures
        match r {
            Ok(b) => check1_spec(dm@, word_view(*prev_word), new_letter@, prev_antisum) == Some(b),
            Err(e) => check1_spec(dm@, word_view(*prev_word), new_letter@, prev_antisum) is None
                && e == SearchError::InvariantViolation,
        },
{
    let ghost wv = word_view(*prev_word);
    let k = prev_word.len();

    if k == 4 && prev_antisum <= 32 {
        return Ok(false);
    }

    let af: u32 = match antidistance(dm, &prev_word[0], new_letter) {
        Ok(d) => d,
        Err(_) => {
            return Err(SearchError::InvariantViolation);
        },
    };

    let mut ax: u64 = 0;
    let mut i: usize = 1;
    while i < k
        invariant
            dm.wf(),
            prev_word@.len() == k,
            1 <= k <= 6,
            wv == word_view(*prev_word),
            wf_word(wv),
            is_letter(new_letter@),
            1 <= i <= k,
            !(k == 4 && prev_antisum <= 32),
            forall|j: int| 1 <= j < i ==> #[trigger] ad_ok(dm@, wv[0], wv[j]),
            ax as int == sum_a_from(dm@, wv, 1) - sum_a_from(dm@, wv, i as int),
            ax as int <= (i as int) * MAX_DIST,
        decreases k - i,
    {
        match antidistance(dm, &prev_word[0], &prev_word[i]) {
            Ok(d) => {
                proof {
                    assert(sum_a_from(dm@, wv, i as int) == ad_val(dm@, wv[0], wv[i as int])
                        + sum_a_from(dm@, wv, i as int + 1));
                }
                ax = ax + d as u64;
            },
            Err(_) => {
                proof {
                    assert(!ad_ok(dm@, wv[0], wv[i as int]));
                }
                return Err(SearchError::InvariantViolation);
            },
        }
        i = i + 1;
    }
    proof {
        assert(sum_a_from(dm@, wv, k as int) == 0);
    }

    let mut xf: u64 = 0;
    let mut i2: usize = 0;
    while i2 < k
        invariant
            dm.wf(),
            prev_word@.len() == k,
            1 <= k <= 6,
            wv == word_view(*prev_word),
            wf_word(wv),
            is_letter(new_letter@),
            i2 <= k,
            !(k == 4 && prev_antisum <= 32),
            forall|j: int| 0 <= j < i2 ==> #[trigger] ad_ok(dm@, wv[j], new_letter@),
            xf as int == sum_f_from(dm@, wv, new_letter@, 0) - sum_f_from(
                dm@,
                wv,
                new_letter@,
                i2 as int,
            ),
            xf as int <= (i2 as int) * MAX_DIST,
        decreases k - i2,
    {
        match antidistance(dm, &prev_word[i2], new_letter) {
            Ok(d) => {
                proof {
                    assert(sum_f_from(dm@, wv, new_letter@, i2 as int) == ad_val(
                        dm@,
                        wv[i2 as int],
                        new_letter@,
                    ) + sum_f_from(dm@, wv, new_letter@, i2 as int + 1));
                }
                xf = xf + d as u64;
            },
            Err(_) => {
                proof {
                    assert(!ad_ok(dm@, wv[i2 as int], new_letter@));
                }
                return Err(SearchError::InvariantViolation);
            },
        }
        i2 = i2 + 1;
    }
    proof {
        assert(sum_f_from(dm@, wv, new_letter@, k as int) == 0);
        assert(check1_reads_ok(dm@, wv, new_letter@));
        assert(ax as int <= 6 * MAX_DIST);
        assert(xf as int <= 6 * MAX_DIST);
        assert((k as int - 2) * (xf as int) <= 4 * 6 * MAX_DIST) by (nonlinear_arith)
            requires
                -1 <= k as int - 2 <= 4,
                0 <= xf as int <= 6 * MAX_DIST,
        ;
        assert((k as int - 2) * (xf as int) >= -6 * MAX_DIST) by (nonlinear_arith)
            requires
                -1 <= k as int - 2 <= 4,
                0 <= xf as int <= 6 * MAX_DIST,
        ;
    }

    if (af as i64) < prev_antisum as i64 + ax as i64 - ((k as i64 - 2) * xf as i64) {
        return Ok(false);
    } else if (af as i64) > f_max_at(k + 1) as i64 - prev_antisum as i64 - ax as i64 {
        return Ok(false);
    }

    let mut new_word = clone_word(prev_word);
    let nl = new_letter.clone();
    proof {
        assert(nl@ =~= new_letter@);
    }
    new_word.push(nl);
    proof {
        assert(word_view(new_word) =~= wv.push(new_letter@));
    }

    let new_antisum = match antisum(dm, &new_word) {
        Ok(s) => s,
        Err(_) => {
            return Err(SearchError::InvariantViolation);
        },
    };

    if k + 1 == 4 && new_antisum <= 32 {
        return Ok(false);
    }
    return Ok(true);
}

/// Relies on itertools::Itertools::permutations with the item count as
/// length: over `n` buffered items it yields one vector per arrangement of
/// the item positions, cloning the items, so every vector holds the same
/// letters as the input and every ordering of those letters appears.
#[verifier::external_body]
fn permutations_of(v: &Vec<Letter>) -> (r: Vec<Vec<Letter>>)
    ensures
        forall|i: int| 0 <= i < r@.len() ==> (#[trigger] word_view(r@[i])).to_multiset()
            == word_view(*v).to_multiset(),
        forall|s: Seq<Seq<u8>>|
            #[trigger] s.to_multiset() == word_view(*v).to_multiset() ==> exists|i: int|
                0 <= i < r@.len() && word_view(#[trigger] r@[i]) == s,
{
    itertools::Itertools::permutations(v.iter().cloned(), v.len()).collect()
}

/// Whether every ordered pair of positions has a defined antidistance.
pub open spec fn all_pairs_ok(m: Map<Seq<u8>, u32>, w: Seq<Seq<u8>>) -> bool {
    forall|a: int, b: int|
        0 <= a < w.len() && 0 <= b < w.len() ==> #[trigger] ad_ok(m, w[a], w[b])
}

/// Compares two letters digit by digit.
fn letters_equal(a: &Letter, b: &Letter) -> (r: bool)
    ensures
        r == (a@ == b@),
{
    if a.len() != b.len() {
        return false;
    }
    let mut i: usize = 0;
    while i < a.len()
        invariant
            a@.len() == b@.len(),
            i <= a@.len(),
            forall|j: int| 0 <= j < i ==> a@[j] == b@[j],
        decreases a@.len() - i,
    {
        if a[i] != b[i] {
            return false;
        }
        i = i + 1;
    }
    proof {
        assert(a@ =~= b@);
    }
    true
}

/// Compares two words letter by letter.
fn words_equal(a: &Word, b: &Word) -> (r: bool)
    ensures
        r == (word_view(*a) == word_view(*b)),
{
    if a.len() != b.len() {
        proof {
            assert(word_view(*a).len() != word_view(*b).len());
        }
        return false;
    }
    let mut i: usize = 0;
    while i < a.len()
        invariant
            a@.len() == b@.len(),
            i <= a@.len(),
            forall|j: int| 0 <= j < i ==> word_view(*a)[j] == word_view(*b)[j],
        decreases a@.len() - i,
    {
        if !letters_equal(&a[i], &b[i]) {
            proof {
                assert(word_view(*a)[i as int] != word_view(*b)[i as int]);
            }
            return false;
        }
        i = i + 1;
    }
    proof {
        assert(word_view(*a) =~= word_view(*b));
    }
    true
}

/// A strictly better representative: a reordering of `w` (same letters)
/// with a strictly lower antisum.
pub open spec fn strictly_better(m: Map<Seq<u8>, u32>, w: Seq<Seq<u8>>, c: Seq<Seq<u8>>) -> bool {
    &&& c.to_multiset() == w.to_multiset()
    &&& antisum_spec(m, c) < antisum_spec(m, w)
}

/// An equal-antisum candidate: a reordering of `w` with the same antisum
/// that differs from `w`.
pub open spec fn equal_different(m: Map<Seq<u8>, u32>, w: Seq<Seq<u8>>, c: Seq<Seq<u8>>) -> bool {
    &&& c.to_multiset() == w.to_multiset()
    &&& antisum_spec(m, c) == antisum_spec(m, w)
    &&& c != w
}

/// Whether some word of the list reads as `c`.
pub open spec fn in_list(res: Seq<Word>, c: Seq<Seq<u8>>) -> bool {
    exists|i: int| 0 <= i < res.len() && word_view(res[i]) == c
}

/// The last letter of `c` matches one of the first `h` letters of `w`.
pub open spec fn row_match(w: Seq<Seq<u8>>, c: Seq<Seq<u8>>, h: int) -> bool {
    exists|x: int| 0 <= x < h && w[x] == c[c.len() - 1]
}

/// Removing the last letter of a reordering undoes appending it: what is
/// left holds the same letters as `w` without position `idx`.
proof fn lemma_drop_last_multiset(c: Seq<Seq<u8>>, w: Seq<Seq<u8>>, idx: int)
    requires
        0 <= idx < w.len(),
        c.len() >= 1,
        c.to_multiset() == w.to_multiset(),
        c[c.len() - 1] == w[idx],
    ensures
        c.drop_last().to_multiset() == w.remove(idx).to_multiset(),
{
    assert(c =~= c.drop_last().push(c.last()));
    assert(c.drop_last().push(c.last()).to_multiset() =~= c.drop_last().to_multiset().insert(
        c.last(),
    ));
    assert(w.remove(idx).to_multiset() =~= w.to_multiset().remove(w[idx]));
    assert(c.drop_last().to_multiset() =~= w.to_multiset().remove(w[idx]));
}

/// Searches the reorderings of `word` for cheaper representatives: for each
/// position, the letter there is moved to the end and the rest is permuted.
/// When some reordering has a strictly lower antisum, the result is the
/// non-empty set of exactly those reorderings; otherwise it is the set of
/// exactly the reorderings with an equal antisum that differ from `word`.
/// Fails only where some antidistance among `word`'s letters is undefined.
pub fn check2(dm: &DistanceMap, word: &Word) -> (r: Result<Vec<Word>, SearchError>)
    requires
        dm.wf(),
        word@.len() <= N,
        word@.len() >= 1,
        wf_word(word_view(*word)),
    ensures
        match r {
            Ok(res) => {
                &&& ((exists|c: Seq<Seq<u8>>| strictly_better(dm@, word_view(*word), c)) ==> {
                    &&& res@.len() > 0
                    &&& forall|i: int|
                        0 <= i < res@.len() ==> strictly_better(
                            dm@,
                            word_view(*word),
                            word_view(#[trigger] res@[i]),
                        )
                    &&& forall|c: Seq<Seq<u8>>|
                        #[trigger] strictly_better(dm@, word_view(*word), c) ==> in_list(res@, c)
                })
                &&& ((forall|c: Seq<Seq<u8>>| !(#[trigger] strictly_better(
                    dm@,
                    word_view(*word),
                    c,
                ))) ==> {
                    &&& forall|i: int|
                        0 <= i < res@.len() ==> equal_different(
                            dm@,
                            word_view(*word),
                            word_view(#[trigger] res@[i]),
                        )
                    &&& forall|c: Seq<Seq<u8>>|
                        #[trigger] equal_different(dm@, word_view(*word), c) ==> in_list(res@, c)
                })
            },
            Err(e) => e == SearchError::InvariantViolation && !all_pairs_ok(
                dm@,
                word_view(*word),
            ),
        },
{
    let ghost wv = word_view(*word);
    let orig = match antisum(dm, word) {
        Ok(s) => s,
        Err(_) => {
            proof {
                let (a, b): (int, int) = choose|a: int, b: int|
                    0 <= a < b < wv.len() && !ad_ok(dm@, wv[a], wv[b]);
                assert(!all_pairs_ok(dm@, wv));
            }
            return Err(SearchError::InvariantViolation);
        },
    };

    let mut better_antisum: Vec<Word> = Vec::new();
    let mut better_lex: Vec<Word> = Vec::new();

    let len = word.len();
    let mut idx: usize = 0;
    while idx < len
        invariant
            dm.wf(),
            word@.len() == len,
            1 <= len <= N,
            wv == word_view(*word),
            wf_word(wv),
            orig as int == antisum_spec(dm@, wv),
            idx <= len,
            forall|i: int|
                0 <= i < better_antisum@.len() ==> strictly_better(
                    dm@,
                    wv,
                    word_view(#[trigger] better_antisum@[i]),
                ),
            forall|i: int|
                0 <= i < better_lex@.len() ==> equal_different(
                    dm@,
                    wv,
                    word_view(#[trigger] better_lex@[i]),
                ),
            forall|c: Seq<Seq<u8>>|
                #[trigger] strictly_better(dm@, wv, c) && row_match(wv, c, idx as int) ==> in_list(
                    better_antisum@,
                    c,
                ),
            (forall|c: Seq<Seq<u8>>| !(#[trigger] strictly_better(dm@, wv, c))) ==> (forall|
                c: Seq<Seq<u8>>,
            |
                #[trigger] equal_different(dm@, wv, c) && row_match(wv, c, idx as int) ==> in_list(
                    better_lex@,
                    c,
                )),
        decreases len - idx,
    {
        let mut elements = clone_word(word);
        let removed = elements.remove(idx);
        proof {
            assert(removed@ == wv[idx as int]);
            assert(word_view(elements) =~= wv.remove(idx as int));
        }

        let perms = permutations_of(&elements);
        let mut p: usize = 0;
        while p < perms.len()
            invariant
                dm.wf(),
                word@.len() == len,
                1 <= len <= N,
                wv == word_view(*word),
                wf_word(wv),
                orig as int == antisum_spec(dm@, wv),
                idx < len,
                p <= perms@.len(),
                removed@ == wv[idx as int],
                word_view(elements) == wv.remove(idx as int),
                forall|i: int| 0 <= i < perms@.len() ==> (#[trigger] word_view(
                    perms@[i],
                )).to_multiset() == word_view(elements).to_multiset(),
                forall|s: Seq<Seq<u8>>|
                    #[trigger] s.to_multiset() == word_view(elements).to_multiset()
                        ==> exists|k: int|
                        0 <= k < perms@.len() && word_view(perms@[k]) == s,
                forall|i: int|
                    0 <= i < better_antisum@.len() ==> strictly_better(
                        dm@,
                        wv,
                        word_view(#[trigger] better_antisum@[i]),
                    ),
                forall|i: int|
                    0 <= i < better_lex@.len() ==> equal_different(
                        dm@,
                        wv,
                        word_view(#[trigger] better_lex@[i]),
                    ),
                forall|c: Seq<Seq<u8>>|
                    #[trigger] strictly_better(dm@, wv, c) && row_match(wv, c, idx as int)
                        ==> in_list(better_antisum@, c),
                (forall|c: Seq<Seq<u8>>| !(#[trigger] strictly_better(dm@, wv, c))) ==> (forall|
                    c: Seq<Seq<u8>>,
                |
                    #[trigger] equal_different(dm@, wv, c) && row_match(wv, c, idx as int)
                        ==> in_list(better_lex@, c)),
                forall|k: int|
                    0 <= k < p && strictly_better(
                        dm@,
                        wv,
                        #[trigger] word_view(perms@[k]).push(wv[idx as int]),
                    ) ==> in_list(better_antisum@, word_view(perms@[k]).push(wv[idx as int])),
                (forall|c: Seq<Seq<u8>>| !(#[trigger] strictly_better(dm@, wv, c))) ==> (forall|
                    k: int,
                |
                    0 <= k < p && equal_different(
                        dm@,
                        wv,
                        #[trigger] word_view(perms@[k]).push(wv[idx as int]),
                    ) ==> in_list(better_lex@, word_view(perms@[k]).push(wv[idx as int]))),
            decreases perms@.len() - p,
        {
            let mut cand = clone_word(&perms[p]);
            let rem = removed.clone();
            proof {
                assert(rem@ =~= removed@);
            }
            cand.push(rem);
            let ghost cv = word_view(cand);
            proof {
                let pv = word_view(perms@[p as int]);
                assert(cv =~= pv.push(wv[idx as int]));
                assert(pv.push(wv[idx as int]).to_multiset() == pv.to_multiset().insert(
                    wv[idx as int],
                ));
                assert(wv.contains(wv[idx as int]));
                assert(wv.to_multiset().count(wv[idx as int]) > 0);
                assert(wv.remove(idx as int).to_multiset() == wv.to_multiset().remove(
                    wv[idx as int],
                ));
                assert(cv.to_multiset() =~= wv.to_multiset());
                assert(cv.to_multiset().len() == wv.to_multiset().len());
                assert(cv.len() == wv.len());
                assert forall|i: int| 0 <= i < cv.len() implies is_letter(#[trigger] cv[i]) by {
                    assert(cv.to_multiset().count(cv[i]) > 0);
                    assert(wv.to_multiset().contains(cv[i]));
                    assert(wv.contains(cv[i]));
                }
            }
            let ca = match antisum(dm, &cand) {
                Ok(s) => s,
                Err(_) => {
                    proof {
                        let (a, b): (int, int) = choose|a: int, b: int|
                            0 <= a < b < cv.len() && !ad_ok(dm@, cv[a], cv[b]);
                        assert(wv.to_multiset().count(cv[a]) > 0);
                        assert(wv.contains(cv[a]));
                        assert(wv.to_multiset().count(cv[b]) > 0);
                        assert(wv.contains(cv[b]));
                        let x = choose|x: int| 0 <= x < wv.len() && wv[x] == cv[a];
                        let y = choose|y: int| 0 <= y < wv.len() && wv[y] == cv[b];
                        assert(!ad_ok(dm@, wv[x], wv[y]));
                        assert(!all_pairs_ok(dm@, wv));
                    }
                    return Err(SearchError::InvariantViolation);
                },
            };
            let ghost ba0 = better_antisum@;
            let ghost bl0 = better_lex@;
            if ca > orig {
                // worse ordering: discard
            } else if ca < orig {
                better_antisum.push(cand);
                proof {
                    assert(word_view(better_antisum@[better_antisum@.len() - 1]) == cv);
                    assert forall|c: Seq<Seq<u8>>| in_list(ba0, c) implies in_list(
                        better_antisum@,
                        c,
                    ) by {
                        let i = choose|i: int| 0 <= i < ba0.len() && word_view(ba0[i]) == c;
                        assert(word_view(better_antisum@[i]) == c);
                    }
                }
            } else if better_antisum.is_empty() {
                if !words_equal(&cand, word) {
                    better_lex.push(cand);
                    proof {
                        assert(word_view(better_lex@[better_lex@.len() - 1]) == cv);
                        assert forall|c: Seq<Seq<u8>>| in_list(bl0, c) implies in_list(
                            better_lex@,
                            c,
                        ) by {
                            let i = choose|i: int| 0 <= i < bl0.len() && word_view(bl0[i]) == c;
                            assert(word_view(better_lex@[i]) == c);
                        }
                    }
                }
            }
            proof {
                if forall|c: Seq<Seq<u8>>| !(#[trigger] strictly_better(dm@, wv, c)) {
                    if better_antisum@.len() > 0 {
                        assert(strictly_better(dm@, wv, word_view(better_antisum@[0])));
                    }
                    assert(better_antisum@.len() == 0);
                    assert forall|k: int|
                        0 <= k < p + 1 && equal_different(
                            dm@,
                            wv,
                            #[trigger] word_view(perms@[k]).push(wv[idx as int]),
                        ) implies in_list(
                        better_lex@,
                        word_view(perms@[k]).push(wv[idx as int]),
                    ) by {
                        let c = word_view(perms@[k]).push(wv[idx as int]);
                        if k == p {
                            assert(c == cv);
                            assert(antisum_spec(dm@, cv) == antisum_spec(dm@, wv));
                            assert(ca == orig);
                            assert(cv != wv);
                        } else {
                            assert(in_list(bl0, c) ==> in_list(better_lex@, c)) by {
                                if in_list(bl0, c) {
                                    let i = choose|i: int|
                                        0 <= i < bl0.len() && word_view(bl0[i]) == c;
                                    assert(word_view(better_lex@[i]) == c);
                                }
                            }
                        }
                    }
                }
            }
            p = p + 1;
        }
        proof {
            assert forall|c: Seq<Seq<u8>>|
                #[trigger] strictly_better(dm@, wv, c) && row_match(wv, c, idx as int + 1)
                    implies in_list(better_antisum@, c) by {
                let x = choose|x: int| 0 <= x < idx + 1 && wv[x] == c[c.len() - 1];
                if x < idx {
                    assert(row_match(wv, c, idx as int));
                } else {
                    assert(c.to_multiset().len() == c.len());
                    assert(wv.to_multiset().len() == wv.len());
                    lemma_drop_last_multiset(c, wv, idx as int);
                    let k = choose|k: int|
                        0 <= k < perms@.len() && word_view(perms@[k]) == c.drop_last();
                    assert(c =~= word_view(perms@[k]).push(wv[idx as int]));
                }
            }
            if forall|c: Seq<Seq<u8>>| !(#[trigger] strictly_better(dm@, wv, c)) {
                assert forall|c: Seq<Seq<u8>>|
                    #[trigger] equal_different(dm@, wv, c) && row_match(wv, c, idx as int + 1)
                        implies in_list(better_lex@, c) by {
                    let x = choose|x: int| 0 <= x < idx + 1 && wv[x] == c[c.len() - 1];
                    if x < idx {
                        assert(row_match(wv, c, idx as int));
                    } else {
                        assert(c.to_multiset().len() == c.len());
                        assert(wv.to_multiset().len() == wv.len());
                        lemma_drop_last_multiset(c, wv, idx as int);
                        let k = choose|k: int|
                            0 <= k < perms@.len() && word_view(perms@[k]) == c.drop_last();
                        assert(c =~= word_view(perms@[k]).push(wv[idx as int]));
                    }
                }
            }
        }
        idx = idx + 1;
    }

    proof {
        assert forall|c: Seq<Seq<u8>>|
            c.to_multiset() == wv.to_multiset() implies row_match(wv, c, len as int) by {
            assert(c.to_multiset().len() == c.len());
            assert(wv.to_multiset().len() == wv.len());
            assert(c.len() >= 1);
            assert(c.contains(c[c.len() - 1]));
            assert(c.to_multiset().count(c[c.len() - 1]) > 0);
            assert(wv.to_multiset().contains(c[c.len() - 1]));
            assert(wv.contains(c[c.len() - 1]));
        }
    }

    if better_antisum.len() > 0 {
        proof {
            assert(strictly_better(dm@, wv, word_view(better_antisum@[0])));
        }
        Ok(better_antisum)
    } else {
        proof {
            assert forall|c: Seq<Seq<u8>>| !(#[trigger] strictly_better(dm@, wv, c)) by {
                if strictly_better(dm@, wv, c) {
                    assert(row_match(wv, c, len as int));
                    assert(in_list(better_antisum@, c));
                }
            }
        }
        Ok(better_lex)
    }
}

/// The textual form of a word: its letters' digit strings, joined by
/// single spaces.
pub open spec fn word_chars(ws: Seq<Seq<u8>>) -> Seq<char>
    decreases ws.len(),
{
    if ws.len() <= 0 {
        Seq::empty()
    } else if ws.len() == 1 {
        letter_chars(ws[0])
    } else {
        word_chars(ws.drop_last()) + seq![' '] + letter_chars(ws.last())
    }
}

/// A non-empty word of `k` letters renders as `10*k - 1` characters.
proof fn lemma_word_chars_len(ws: Seq<Seq<u8>>)
    requires
        forall|i: int| 0 <= i < ws.len() ==> (#[trigger] ws[i]).len() == N,
    ensures
        ws.len() == 0 ==> word_chars(ws).len() == 0,
        ws.len() >= 1 ==> word_chars(ws).len() == 10 * ws.len() - 1,
    decreases ws.len(),
{
    if ws.len() > 1 {
        lemma_word_chars_len(ws.drop_last());
    }
}

/// Where each letter's digits and each separating space stand in a word's
/// textual form.
proof fn lemma_word_chars_index(ws: Seq<Seq<u8>>)
    requires
        ws.len() >= 1,
        forall|i: int| 0 <= i < ws.len() ==> (#[trigger] ws[i]).len() == N,
    ensures
        word_chars(ws).len() == 10 * ws.len() - 1,
        forall|j: int, t: int|
            0 <= j < ws.len() && 0 <= t < 9 ==> word_chars(ws)[j * 10 + t] == #[trigger] (
            letter_chars(ws[j])[t]),
        forall|j: int| 1 <= j < ws.len() ==> word_chars(ws)[#[trigger] (j * 10) - 1] == ' ',
    decreases ws.len(),
{
    lemma_word_chars_len(ws);
    if ws.len() > 1 {
        lemma_word_chars_index(ws.drop_last());
        assert forall|j: int, t: int|
            0 <= j < ws.len() && 0 <= t < 9 implies word_chars(ws)[j * 10 + t] == #[trigger] (
        letter_chars(ws[j])[t]) by {
            if j < ws.len() - 1 {
                assert(ws.drop_last()[j] == ws[j]);
                assert(word_chars(ws)[j * 10 + t] == word_chars(ws.drop_last())[j * 10 + t]);
            } else {
                assert(word_chars(ws)[j * 10 + t] == letter_chars(ws.last())[t]);
            }
        }
        assert forall|j: int| 1 <= j < ws.len() implies word_chars(ws)[#[trigger] (j * 10)
            - 1] == ' ' by {
            if j < ws.len() - 1 {
                assert(word_chars(ws)[j * 10 - 1] == word_chars(ws.drop_last())[j * 10 - 1]);
            } else {
                assert(word_chars(ws)[j * 10 - 1] == seq![' '][0]);
            }
        }
    }
}

/// Renders a word as its letters' digit strings, joined by single spaces.
pub fn word_to_string(w: &Word) -> (r: String)
    requires
        wf_word(word_view(*w)),
    ensures
        r@ == word_chars(word_view(*w)),
{
    let ghost wv = word_view(*w);
    let mut out = String::new();
    let mut i: usize = 0;
    while i < w.len()
        invariant
            w@.len() == wv.len(),
            wv == word_view(*w),
            wf_word(wv),
            i <= wv.len(),
            out@ == word_chars(wv.take(i as int)),
        decreases w@.len() - i,
    {
        if i > 0 {
            proof {
                reveal_strlit(" ");
            }
            out.append(" ");
        }
        proof {
            assert(w@[i as int]@ == wv[i as int]);
            assert(is_letter(wv[i as int]));
        }
        let piece = letter_to_string(&w[i]);
        out.append(piece.as_str());
        proof {
            assert(wv.take(i as int + 1).drop_last() =~= wv.take(i as int));
            assert(wv.take(i as int + 1).last() == wv[i as int]);
            if i > 0 {
                assert(out@ =~= word_chars(wv.take(i as int + 1)));
            } else {
                assert(out@ =~= letter_chars(wv[0]));
                assert(out@ =~= word_chars(wv.take(1)));
            }
        }
        i = i + 1;
    }
    proof {
        assert(wv.take(wv.len() as int) =~= wv);
    }
    out
}

/// Reads a word back from its textual form: letters of `N` digit
/// characters each, joined by single spaces. Anything else is rejected as
/// malformed.
pub fn parse_word(s: &str) -> (r: Result<Word, SearchError>)
    ensures
        match r {
            Ok(w) => w@.len() >= 1 && wf_word(word_view(w)) && s@ == word_chars(word_view(w)),
            Err(e) => e == SearchError::MalformedSnapshot && (forall|ws: Seq<Seq<u8>>|
                ws.len() >= 1 && wf_word(ws) ==> s@ != word_chars(ws)),
        },
{
    broadcast use vstd::arithmetic::div_mod::group_div_basics;

    let total = s.unicode_len();
    if total % 10 != 9 {
        proof {
            assert forall|ws: Seq<Seq<u8>>|
                ws.len() >= 1 && wf_word(ws) implies s@ != word_chars(ws) by {
                if s@ == word_chars(ws) {
                    lemma_word_chars_len(ws);
                    assert(total == 10 * ws.len() - 1);
                    assert((10 * ws.len() - 1) % 10 == 9) by (nonlinear_arith)
                        requires
                            ws.len() >= 1,
                    ;
                }
            }
        }
        return Err(SearchError::MalformedSnapshot);
    }
    let k = total / 10 + 1;
    proof {
        assert(total == 10 * (total as int / 10) + 9);
        assert(total == 10 * k - 1);
    }
    let mut w: Word = Vec::new();
    let mut j: usize = 0;
    while j < k
        invariant
            total == s@.len(),
            total == 10 * k - 1,
            k >= 1,
            j <= k,
            w@.len() == j,
            forall|jj: int| 0 <= jj < j ==> is_letter(#[trigger] word_view(w)[jj]),
            forall|jj: int| 0 <= jj < j ==> letter_chars(#[trigger] word_view(w)[jj])
                =~= s@.subrange(jj * 10, jj * 10 + 9),
            forall|jj: int| 1 <= jj < j ==> s@[#[trigger] (jj * 10) - 1] == ' ',
        decreases k - j,
    {
        if j > 0 {
            if s.get_char(j * 10 - 1) != ' ' {
                proof {
                    assert forall|ws: Seq<Seq<u8>>|
                        ws.len() >= 1 && wf_word(ws) implies s@ != word_chars(ws) by {
                        if s@ == word_chars(ws) {
                            lemma_word_chars_index(ws);
                            assert(ws.len() == k);
                            assert(word_chars(ws)[j as int * 10 - 1] == ' ');
                        }
                    }
                }
                return Err(SearchError::MalformedSnapshot);
            }
        }
        let seg = s.substring_char(j * 10, j * 10 + 9);
        match parse_letter(seg) {
            Ok(l) => {
                let ghost w0 = word_view(w);
                w.push(l);
                proof {
                    assert(word_view(w) =~= w0.push(l@));
                }
            },
            Err(_) => {
                proof {
                    assert forall|ws: Seq<Seq<u8>>|
                        ws.len() >= 1 && wf_word(ws) implies s@ != word_chars(ws) by {
                        if s@ == word_chars(ws) {
                            lemma_word_chars_index(ws);
                            assert(ws.len() == k);
                            assert(is_letter(ws[j as int]));
                            assert(seg@ =~= letter_chars(ws[j as int])) by {
                                assert forall|t: int| 0 <= t < 9 implies seg@[t] == letter_chars(
                                    ws[j as int],
                                )[t] by {
                                    assert(word_chars(ws)[j as int * 10 + t] == letter_chars(
                                        ws[j as int],
                                    )[t]);
                                }
                            }
                        }
                    }
                }
                return Err(SearchError::MalformedSnapshot);
            },
        }
        j = j + 1;
    }
    proof {
        let pv = word_view(w);
        lemma_word_chars_index(pv);
        assert(s@ =~= word_chars(pv)) by {
            assert forall|pos: int| 0 <= pos < s@.len() implies s@[pos] == word_chars(
                pv,
            )[pos] by {
                let jj = pos / 10;
                let t = pos % 10;
                assert(pos == 10 * jj + t);
                assert(0 <= t < 10);
                assert(0 <= jj < k);
                if t == 9 {
                    assert((jj + 1) * 10 - 1 == pos);
                    assert(jj + 1 < k);
                    assert(s@[pos] == ' ');
                    assert(word_chars(pv)[pos] == ' ');
                } else {
                    assert(letter_chars(pv[jj])[t] == s@.subrange(jj * 10, jj * 10 + 9)[t]);
                    assert(word_chars(pv)[jj * 10 + t] == letter_chars(pv[jj])[t]);
                }
            }
        }
    }
    Ok(w)
}

} // verus!
