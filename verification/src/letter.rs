use vstd::prelude::*;
use vstd::string::StringExecFns;
use crate::{Letter, N, is_letter, SearchError};

verus! {

/// The sequence `s` with positions `i` and `j` exchanged.
pub open spec fn swap_spec(s: Seq<u8>, i: int, j: int) -> Seq<u8> {
    s.update(i, s[j]).update(j, s[i])
}

/// The sequence `s` rotated one position to the left.
pub open spec fn rot_left1(s: Seq<u8>) -> Seq<u8> {
    s.subrange(1, s.len() as int).push(s[0])
}

/// The sequence `s` rotated one position to the right.
pub open spec fn rot_right1(s: Seq<u8>) -> Seq<u8> {
    seq![s.last()] + s.drop_last()
}

/// The `i`-th neighbor of a letter in the permutation graph:
/// - neighbor `0`: swap positions `0` and `1`, then rotate left;
/// - neighbors `1..N-2`: swap positions `i` and `i+1`;
/// - neighbor `N-1`: rotate right, then swap positions `0` and `1`.
pub open spec fn neighbor_spec(s: Seq<u8>, i: int) -> Seq<u8> {
    if i == 0 {
        rot_left1(swap_spec(s, 0, 1))
    } else if i < s.len() - 1 {
        swap_spec(s, i, i + 1)
    } else {
        swap_spec(rot_right1(s), 0, 1)
    }
}

/// Exchanges two positions of a letter in place.
fn swap_digits(v: &mut Vec<u8>, i: usize, j: usize)
    requires
        i < old(v)@.len(),
        j < old(v)@.len(),
    ensures
        final(v)@ == swap_spec(old(v)@, i as int, j as int),
{
    let a = v[i];
    let b = v[j];
    v[i] = b;
    v[j] = a;
}

/// Rotates a letter one position to the left, in place.
fn rotate_left1(v: &mut Vec<u8>)
    requires
        old(v)@.len() >= 1,
    ensures
        final(v)@ == rot_left1(old(v)@),
{
    let first = v.remove(0);
    v.push(first);
    proof {
        assert(v@ =~= rot_left1(old(v)@));
    }
}

/// Rotates a letter one position to the right, in place.
fn rotate_right1(v: &mut Vec<u8>)
    requires
        old(v)@.len() >= 1,
    ensures
        final(v)@ == rot_right1(old(v)@),
{
    let last = v.pop().unwrap();
    v.insert(0, last);
    proof {
        assert(v@ =~= rot_right1(old(v)@));
    }
}

/// The `N` neighbors of a letter in the permutation graph, in order: the
/// left-rotated boundary swap, the `N-2` interior swaps, and the
/// right-rotated boundary swap. Total on all letters.
pub fn get_neighbors(node: &Letter) -> (r: Vec<Letter>)
    requires
        node@.len() == N,
    ensures
        r@.len() == N,
        forall|i: int| 0 <= i < N ==> #[trigger] r@[i]@ == neighbor_spec(node@, i),
{
    let mut neighbors: Vec<Letter> = Vec::new();

    let max_idx: usize = node.len() - 1;

    let mut first = node.clone();
    swap_digits(&mut first, 0, 1);
    rotate_left1(&mut first);
    neighbors.push(first);

    let mut idx: usize = 1;
    while idx < max_idx
        invariant
            1 <= idx <= max_idx,
            max_idx == N - 1,
            node@.len() == N,
            neighbors@.len() == idx,
            forall|i: int| 0 <= i < idx ==> #[trigger] neighbors@[i]@ == neighbor_spec(node@, i),
        decreases max_idx - idx,
    {
        let mut nb = node.clone();
        swap_digits(&mut nb, idx, idx + 1);
        neighbors.push(nb);
        idx = idx + 1;
    }

    let mut last = node.clone();
    rotate_right1(&mut last);
    swap_digits(&mut last, 0, 1);
    neighbors.push(last);

    neighbors
}

/// The antipode of a letter: the first symbol stays, the remaining `N-1`
/// symbols are reversed.
pub open spec fn antipode_spec(s: Seq<u8>) -> Seq<u8> {
    seq![s[0]] + s.subrange(1, s.len() as int).reverse()
}

/// Computes the antipode of a letter: position `0` is kept, positions
/// `1..N` appear in reverse order.
pub fn antipode(node: &Letter) -> (r: Letter)
    requires
        node@.len() == N,
    ensures
        r@ == antipode_spec(node@),
{
    let mut out: Vec<u8> = Vec::new();
    out.push(node[0]);
    let mut i: usize = N - 1;
    while i >= 1
        invariant
            0 <= i <= N - 1,
            node@.len() == N,
            out@.len() == N - i,
            out@[0] == node@[0],
            forall|j: int| 1 <= j < out@.len() ==> out@[j] == node@[N - j],
        decreases i,
    {
        out.push(node[i]);
        i = i - 1;
    }
    proof {
        assert(out@ =~= antipode_spec(node@));
    }
    out
}

/// The antipode of a letter is again a letter.
pub proof fn lemma_antipode_is_letter(s: Seq<u8>)
    requires
        is_letter(s),
    ensures
        is_letter(antipode_spec(s)),
{
    let a = antipode_spec(s);
    assert(a.len() == N);
    assert forall|i: int| 0 <= i < a.len() implies a[i] < N by {
        if i > 0 {
            assert(a[i] == s[N - i]);
        }
    }
    assert forall|i: int, j: int| 0 <= i < j < a.len() implies a[i] != a[j] by {
        if i == 0 {
            assert(a[j] == s[N - j]);
        } else {
            assert(a[i] == s[N - i]);
            assert(a[j] == s[N - j]);
        }
    }
    assert forall|v: u8| v < N implies #[trigger] a.contains(v) by {
        assert(s.contains(v));
        let i = choose|i: int| 0 <= i < s.len() && s[i] == v;
        if i == 0 {
            assert(a[0] == v);
        } else {
            assert(a[N - i] == s[i]);
        }
    }
}

/// Exchanging two positions of a letter yields a letter.
pub proof fn lemma_swap_is_letter(s: Seq<u8>, i: int, j: int)
    requires
        is_letter(s),
        0 <= i < s.len(),
        0 <= j < s.len(),
    ensures
        is_letter(swap_spec(s, i, j)),
{
    let a = swap_spec(s, i, j);
    assert forall|v: u8| v < N implies #[trigger] a.contains(v) by {
        assert(s.contains(v));
        let p = choose|p: int| 0 <= p < s.len() && s[p] == v;
        if p == i {
            assert(a[j] == v);
        } else if p == j {
            assert(a[i] == v);
        } else {
            assert(a[p] == v);
        }
    }
}

/// Rotating a letter one position to the left yields a letter.
pub proof fn lemma_rot_left_is_letter(s: Seq<u8>)
    requires
        is_letter(s),
    ensures
        is_letter(rot_left1(s)),
{
    let a = rot_left1(s);
    assert(a.len() == N);
    assert forall|v: u8| v < N implies #[trigger] a.contains(v) by {
        assert(s.contains(v));
        let p = choose|p: int| 0 <= p < s.len() && s[p] == v;
        if p == 0 {
            assert(a[N - 1] == v);
        } else {
            assert(a[p - 1] == v);
        }
    }
}

/// Rotating a letter one position to the right yields a letter.
pub proof fn lemma_rot_right_is_letter(s: Seq<u8>)
    requires
        is_letter(s),
    ensures
        is_letter(rot_right1(s)),
{
    let a = rot_right1(s);
    assert(a.len() == N);
    assert forall|v: u8| v < N implies #[trigger] a.contains(v) by {
        assert(s.contains(v));
        let p = choose|p: int| 0 <= p < s.len() && s[p] == v;
        if p == N - 1 {
            assert(a[0] == v);
        } else {
            assert(a[p + 1] == v);
        }
    }
}

/// Every neighbor of a letter keeps the letter's first symbol: the two
/// boundary moves rotate exactly so that position `0` is restored, and the
/// interior swaps never touch it.
pub proof fn lemma_neighbor_keeps_first(s: Seq<u8>, i: int)
    requires
        s.len() == N,
        0 <= i < N,
    ensures
        neighbor_spec(s, i)[0] == s[0],
{
    if i == 0 {
        assert(rot_left1(swap_spec(s, 0, 1))[0] == swap_spec(s, 0, 1)[1]);
    } else if i < s.len() - 1 {
        assert(swap_spec(s, i, i + 1)[0] == s[0]);
    } else {
        assert(swap_spec(rot_right1(s), 0, 1)[0] == rot_right1(s)[1]);
        assert(rot_right1(s)[1] == s[0]);
    }
}

/// Every neighbor of a letter is a letter.
pub proof fn lemma_neighbor_is_letter(s: Seq<u8>, i: int)
    requires
        is_letter(s),
        0 <= i < N,
    ensures
        is_letter(neighbor_spec(s, i)),
{
    if i == 0 {
        lemma_swap_is_letter(s, 0, 1);
        lemma_rot_left_is_letter(swap_spec(s, 0, 1));
    } else if i < s.len() - 1 {
        lemma_swap_is_letter(s, i, i + 1);
    } else {
        lemma_rot_right_is_letter(s);
        lemma_swap_is_letter(rot_right1(s), 0, 1);
    }
}

/// Index of symbol `v` in `s` (meaningful when `s` contains `v`).
pub open spec fn index_of(s: Seq<u8>, v: u8) -> int {
    choose|i: int| 0 <= i < s.len() && s[i] == v
}

/// Returns the symbol renaming under which `letter` becomes the base letter:
/// a table `r` with `r[letter[i]] == i` for every position `i`.
pub fn map_to_base(letter: &Letter) -> (r: Vec<u8>)
    requires
        is_letter(letter@),
    ensures
        r@.len() == N,
        forall|i: int| 0 <= i < N ==> #[trigger] r@[letter@[i] as int] == i as u8,
        forall|i: int| 0 <= i < N ==> r@[i] < N,
{
    let mut mapping: Vec<u8> = vec![0; N];
    let mut i: usize = 0;
    while i < N
        invariant
            i <= N,
            is_letter(letter@),
            mapping@.len() == N,
            forall|j: int| 0 <= j < i ==> #[trigger] mapping@[letter@[j] as int] == j as u8,
            forall|j: int| 0 <= j < N ==> mapping@[j] < N,
        decreases N - i,
    {
        let sym = letter[i];
        mapping[sym as usize] = i as u8;
        proof {
            assert forall|j: int| 0 <= j < i + 1 implies #[trigger] mapping@[letter@[j] as int]
                == j as u8 by {
                if j < i {
                    assert(letter@[j] != letter@[i as int]);
                }
            }
        }
        i = i + 1;
    }
    mapping
}

/// Returns the symbol renaming that carries `from` to `to`: a table `r` with
/// `r[from[i]] == to[i]` for every position `i`.
pub fn map_to_letter(from: &Letter, to: &Letter) -> (r: Vec<u8>)
    requires
        is_letter(from@),
        to@.len() == N,
    ensures
        r@.len() == N,
        forall|i: int| 0 <= i < N ==> #[trigger] r@[from@[i] as int] == to@[i],
{
    let mut mapping: Vec<u8> = vec![0; N];
    let mut i: usize = 0;
    while i < N
        invariant
            i <= N,
            is_letter(from@),
            to@.len() == N,
            mapping@.len() == N,
            forall|j: int| 0 <= j < i ==> #[trigger] mapping@[from@[j] as int] == to@[j],
        decreases N - i,
    {
        let sym = from[i];
        mapping[sym as usize] = to[i];
        proof {
            assert forall|j: int| 0 <= j < i + 1 implies #[trigger] mapping@[from@[j] as int]
                == to@[j] by {
                if j < i {
                    assert(from@[j] != from@[i as int]);
                }
            }
        }
        i = i + 1;
    }
    mapping
}

/// Converts a plain digit vector into a letter, rejecting any vector whose
/// length is not `N` (an invariant violation, since candidate letters always
/// come from permutations of the base letter).
pub fn vec_to_arr(v: Vec<u8>) -> (r: Result<Letter, SearchError>)
    ensures
        v@.len() == N ==> r == Result::<Letter, SearchError>::Ok(v),
        v@.len() != N ==> r == Result::<Letter, SearchError>::Err(SearchError::InvariantViolation),
{
    if v.len() == N {
        Ok(v)
    } else {
        Err(SearchError::InvariantViolation)
    }
}

/// Decides whether a digit vector is a letter: length `N`, all symbols below
/// `N`, each exactly once.
pub fn is_valid_letter(v: &Vec<u8>) -> (r: bool)
    ensures
        r == is_letter(v@),
{
    if v.len() != N {
        return false;
    }
    let mut seen: Vec<bool> = vec![false; N];
    let mut i: usize = 0;
    while i < N
        invariant
            i <= N,
            v@.len() == N,
            seen@.len() == N,
            forall|s: int| 0 <= s < N ==> (#[trigger] seen@[s] <==> exists|j: int|
                0 <= j < i && v@[j] == s),
            forall|j: int| 0 <= j < i ==> v@[j] < N,
            forall|j: int, k: int| 0 <= j < k < i ==> v@[j] != v@[k],
        decreases N - i,
    {
        let d = v[i];
        if d as usize >= N {
            return false;
        }
        if seen[d as usize] {
            proof {
                let j = choose|j: int| 0 <= j < i && v@[j] == d;
                assert(v@[j] == v@[i as int]);
            }
            return false;
        }
        seen[d as usize] = true;
        proof {
            assert forall|s: int| 0 <= s < N implies (#[trigger] seen@[s] <==> exists|j: int|
                0 <= j < i + 1 && v@[j] == s) by {
                if s == d as int {
                    assert(v@[i as int] == s);
                } else {
                    assert(seen@[s] == old_contains(v@, s, i as int)) by {
                        assert(seen@[s] <==> exists|j: int| 0 <= j < i && v@[j] == s);
                    }
                }
            }
        }
        i = i + 1;
    }
    let mut s: usize = 0;
    while s < N
        invariant
            s <= N,
            v@.len() == N,
            seen@.len() == N,
            forall|t: int| 0 <= t < N ==> (#[trigger] seen@[t] <==> exists|j: int|
                0 <= j < N && v@[j] == t),
            forall|j: int| 0 <= j < N ==> v@[j] < N,
            forall|j: int, k: int| 0 <= j < k < N ==> v@[j] != v@[k],
            forall|t: u8| t < s ==> #[trigger] v@.contains(t),
        decreases N - s,
    {
        if !seen[s] {
            proof {
                assert(!v@.contains(s as u8)) by {
                    if v@.contains(s as u8) {
                        let j = choose|j: int| 0 <= j < N && v@[j] == s as u8;
                        assert(v@[j] == s as int);
                    }
                }
            }
            return false;
        }
        proof {
            let j = choose|j: int| 0 <= j < N && v@[j] == s as int;
            assert(v@[j] == s as u8);
            assert(v@.contains(s as u8));
        }
        s = s + 1;
    }
    true
}

/// Whether some position of `s` below `bound` holds the symbol `sym`.
pub open spec fn old_contains(s: Seq<u8>, sym: int, bound: int) -> bool {
    exists|j: int| 0 <= j < bound && s[j] == sym
}

/// The digit character of a symbol: `0` renders as `'0'`, and so on.
pub open spec fn digit_char(d: u8) -> char {
    ((d + 48) as u8) as char
}

/// The textual form of a letter: its digits, concatenated.
pub open spec fn letter_chars(s: Seq<u8>) -> Seq<char> {
    Seq::new(s.len(), |i: int| digit_char(s[i]))
}

/// One digit as text.
fn digit_str(d: u8) -> (r: &'static str)
    requires
        d < N,
    ensures
        r@ == seq![digit_char(d)],
{
    proof {
        reveal_strlit("0");
        reveal_strlit("1");
        reveal_strlit("2");
        reveal_strlit("3");
        reveal_strlit("4");
        reveal_strlit("5");
        reveal_strlit("6");
        reveal_strlit("7");
        reveal_strlit("8");
    }
    if d == 0 {
        "0"
    } else if d == 1 {
        "1"
    } else if d == 2 {
        "2"
    } else if d == 3 {
        "3"
    } else if d == 4 {
        "4"
    } else if d == 5 {
        "5"
    } else if d == 6 {
        "6"
    } else if d == 7 {
        "7"
    } else {
        "8"
    }
}

/// Renders a letter as its `N` digit characters, with no separator.
pub fn letter_to_string(l: &Letter) -> (r: String)
    requires
        l@.len() == N,
        forall|i: int| 0 <= i < N ==> l@[i] < N,
    ensures
        r@ == letter_chars(l@),
{
    let mut out = String::new();
    let mut i: usize = 0;
    while i < N
        invariant
            i <= N,
            l@.len() == N,
            forall|j: int| 0 <= j < N ==> l@[j] < N,
            out@ == letter_chars(l@).take(i as int),
        decreases N - i,
    {
        let piece = digit_str(l[i]);
        out.append(piece);
        proof {
            assert(out@ =~= letter_chars(l@).take(i as int + 1));
        }
        i = i + 1;
    }
    proof {
        assert(out@ =~= letter_chars(l@));
    }
    out
}

/// Reads a letter back from its textual form: exactly `N` digit characters
/// naming a permutation of the symbols. Anything else is rejected as a
/// malformed snapshot entry.
pub fn parse_letter(s: &str) -> (r: Result<Letter, SearchError>)
    ensures
        match r {
            Ok(l) => is_letter(l@) && s@ == letter_chars(l@),
            Err(e) => e == SearchError::MalformedSnapshot && (forall|l: Seq<u8>|
                is_letter(l) ==> s@ != letter_chars(l)),
        },
{
    let len = s.unicode_len();
    if len != N {
        proof {
            assert forall|l: Seq<u8>| is_letter(l) implies s@ != letter_chars(l) by {
                assert(letter_chars(l).len() == N);
            }
        }
        return Err(SearchError::MalformedSnapshot);
    }
    let mut digits: Vec<u8> = Vec::new();
    let mut i: usize = 0;
    while i < N
        invariant
            i <= N,
            s@.len() == N,
            digits@.len() == i,
            forall|j: int| 0 <= j < i ==> digits@[j] < N && s@[j] == digit_char(
                #[trigger] digits@[j],
            ),
        decreases N - i,
    {
        let c = s.get_char(i);
        let code = c as u32;
        if code < 48 || code > 56 {
            proof {
                assert forall|l: Seq<u8>| is_letter(l) implies s@ != letter_chars(l) by {
                    if s@ == letter_chars(l) {
                        assert(s@[i as int] == digit_char(l[i as int]));
                        assert(l[i as int] < N);
                        assert(digit_char(l[i as int]) as u32 == l[i as int] + 48);
                    }
                }
            }
            return Err(SearchError::MalformedSnapshot);
        }
        let d = (code - 48) as u8;
        proof {
            assert(digit_char(d) == c) by {
                assert(digit_char(d) as u32 == code);
            }
        }
        digits.push(d);
        i = i + 1;
    }
    if !is_valid_letter(&digits) {
        proof {
            assert forall|l: Seq<u8>| is_letter(l) implies s@ != letter_chars(l) by {
                if s@ == letter_chars(l) {
                    assert forall|j: int| 0 <= j < N implies l[j] == digits@[j] by {
                        assert(s@[j] == digit_char(l[j]));
                        assert(s@[j] == digit_char(digits@[j]));
                        assert(digit_char(l[j]) as u32 == l[j] + 48);
                        assert(digit_char(digits@[j]) as u32 == digits@[j] + 48);
                    }
                    assert(l =~= digits@);
                }
            }
        }
        return Err(SearchError::MalformedSnapshot);
    }
    proof {
        assert(s@ =~= letter_chars(digits@));
    }
    Ok(digits)
}

/// Reading a rendered letter back yields that letter: the textual form is
/// faithful in both directions.
pub proof fn lemma_letter_codec_round_trip(l: Seq<u8>, l2: Seq<u8>)
    requires
        is_letter(l),
        is_letter(l2),
        letter_chars(l) == letter_chars(l2),
    ensures
        l == l2,
{
    assert forall|j: int| 0 <= j < N implies l[j] == l2[j] by {
        assert(letter_chars(l)[j] == digit_char(l[j]));
        assert(letter_chars(l2)[j] == digit_char(l2[j]));
        assert(digit_char(l[j]) as u32 == l[j] + 48);
        assert(digit_char(l2[j]) as u32 == l2[j] + 48);
    }
    assert(l =~= l2);
}

} // verus!
