use vstd::prelude::*;

pub mod bfs;
pub mod checks;
pub mod distmap;
pub mod laws;
pub mod letter;
pub mod score;

verus! {

/// How an operation of the search fails: a broken internal invariant (a
/// distance lookup that misses, a digit vector that is no letter), or a
/// persisted distance snapshot that does not parse back as a distance map.
#[derive(Clone, Copy, Debug, PartialEq, Eq, Structural)]
pub enum SearchError {
    InvariantViolation,
    MalformedSnapshot,
}

/// Number of symbols in a letter: each letter is a permutation of `0..N`.
pub const N: usize = 9;

/// A letter: a permutation of the symbols `0..N`, stored as a vector of digits.
pub type Letter = Vec<u8>;

/// A word: an ordered sequence of letters standing for a multiset of letters.
pub type Word = Vec<Letter>;

/// A sequence of digits is a letter when it has length `N`, every entry is a
/// symbol below `N`, no symbol repeats, and every symbol below `N` occurs.
pub open spec fn is_letter(s: Seq<u8>) -> bool {
    &&& s.len() == N
    &&& forall|i: int| 0 <= i < s.len() ==> s[i] < N
    &&& forall|i: int, j: int| 0 <= i < j < s.len() ==> s[i] != s[j]
    &&& forall|v: u8| v < N ==> #[trigger] s.contains(v)
}

/// The base letter `[0, 1, ..., N-1]`: the identity permutation, the
/// lexicographically smallest letter and the root of the distance map.
pub open spec fn base_seq() -> Seq<u8> {
    Seq::new(N as nat, |i: int| i as u8)
}

/// Builds the base letter `[0, 1, ..., N-1]`.
pub fn base_letter() -> (r: Letter)
    ensures
        r@ == base_seq(),
        is_letter(r@),
{
    let mut v: Vec<u8> = Vec::new();
    let mut i: usize = 0;
    while i < N
        invariant
            i <= N,
            v@.len() == i,
            forall|j: int| 0 <= j < i ==> v@[j] == j as u8,
        decreases N - i,
    {
        v.push(i as u8);
        i = i + 1;
    }
    proof {
        assert(v@ =~= base_seq());
        assert forall|x: u8| x < N implies #[trigger] v@.contains(x) by {
            assert(v@[x as int] == x);
        }
    }
    v
}

} // verus!
