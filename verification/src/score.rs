use vstd::prelude::*;
use crate::{Letter, N, is_letter, SearchError};
use crate::distmap::{DistanceMap, MAX_DIST};
use crate::letter::{antipode, antipode_spec, lemma_antipode_is_letter, map_to_base, index_of};

verus! {

/// The Zarankiewicz number of a side of size `n`: `floor(n/2) * floor((n-1)/2)`.
pub open spec fn zarankiewicz_spec(n: int) -> int {
    (n / 2) * ((n - 1) / 2)
}

/// Calculates the Zarankiewicz number for one side of a complete bipartite
/// graph.
pub fn zarankiewicz_number(num_nodes: u32) -> (r: u32)
    requires
        num_nodes >= 1,
        zarankiewicz_spec(num_nodes as int) <= u32::MAX,
    ensures
        r == zarankiewicz_spec(num_nodes as int),
{
    let f = num_nodes / 2u32;
    let g = (num_nodes - 1) / 2u32;
    return f * g;
}

/// The crossing number of the complete bipartite graph, as conjectured:
/// the product of the two sides' Zarankiewicz numbers.
pub fn zarankiewicz_conjecture(left_nodes: u32, right_nodes: u32) -> (r: u32)
    requires
        left_nodes >= 1,
        right_nodes >= 1,
        zarankiewicz_spec(left_nodes as int) <= u32::MAX,
        zarankiewicz_spec(right_nodes as int) <= u32::MAX,
        zarankiewicz_spec(left_nodes as int) * zarankiewicz_spec(right_nodes as int) <= u32::MAX,
    ensures
        r == zarankiewicz_spec(left_nodes as int) * zarankiewicz_spec(right_nodes as int),
{
    let left = zarankiewicz_number(left_nodes);
    let right = zarankiewicz_number(right_nodes);
    return left * right;
}

/// The relabeling of `r` under the renaming that carries `lp` to the base
/// letter: symbol `v` of `r` becomes the position of `v` inside `lp`.
pub open spec fn relabel_spec(lp: Seq<u8>, r: Seq<u8>) -> Seq<u8> {
    Seq::new(r.len(), |i: int| index_of(lp, r[i]) as u8)
}

/// The sequence rotated so that symbol `0` stands first.
pub open spec fn rot_to_zero(s: Seq<u8>) -> Seq<u8> {
    let z = index_of(s, 0);
    s.subrange(z, s.len() as int) + s.subrange(0, z)
}

/// The canonical key under which the pair `(lp, r)` is looked up in the
/// distance oracle: relabel `r` so that `lp` becomes the base letter, then
/// rotate the result so that `0` stands first.
pub open spec fn canon_key(lp: Seq<u8>, r: Seq<u8>) -> Seq<u8> {
    rot_to_zero(relabel_spec(lp, r))
}

/// What `antidistance` returns for the letters `l` and `r` over the
/// distance mapping `m`: the self-distance `floor(N/2) * floor((N-1)/2)`
/// when they are equal; `0` when `r` is the antipode of `l`; else the
/// recorded distance of the canonical key, or nothing when that key is not
/// recorded (an invariant violation).
pub open spec fn antidistance_spec(m: Map<Seq<u8>, u32>, l: Seq<u8>, r: Seq<u8>) -> Option<u32> {
    if l == r {
        Some(zarankiewicz_spec(N as int) as u32)
    } else if antipode_spec(l) == r {
        Some(0u32)
    } else {
        let k = canon_key(antipode_spec(l), r);
        if m.contains_key(k) {
            Some(m[k])
        } else {
            None
        }
    }
}

/// The canonicalized distance of two letters: the self-distance for equal
/// letters, `0` for a letter and its antipode, and otherwise the oracle's
/// distance for the relabeled, rotated pair. A missing oracle entry is an
/// invariant violation, never an answer.
pub fn antidistance(dm: &DistanceMap, left: &Letter, right: &Letter) -> (r: Result<
    u32,
    SearchError,
>)
    requires
        dm.wf(),
        is_letter(left@),
        is_letter(right@),
    ensures
        match r {
            Ok(d) => antidistance_spec(dm@, left@, right@) == Some(d) && d <= MAX_DIST,
            Err(e) => antidistance_spec(dm@, left@, right@) is None && e
                == SearchError::InvariantViolation,
        },
{
    if left == right {
        proof {
            assert(left@ =~= right@);
        }
        return Ok(zarankiewicz_number(N as u32));
    }
    proof {
        assert(left@ != right@) by {
            if left@ == right@ {
                assert(forall|i: int| 0 <= i < N ==> left@[i] == right@[i]);
            }
        }
        lemma_antipode_is_letter(left@);
    }
    let lp = antipode(left);
    if &lp == right {
        proof {
            assert(lp@ =~= right@);
        }
        return Ok(0);
    }
    proof {
        assert(lp@ != right@) by {
            if lp@ == right@ {
                assert(forall|i: int| 0 <= i < N ==> lp@[i] == right@[i]);
            }
        }
    }

    let mapping = map_to_base(&lp);
    let mut mapped: Vec<u8> = Vec::new();
    let mut i: usize = 0;
    while i < N
        invariant
            i <= N,
            is_letter(lp@),
            is_letter(right@),
            mapping@.len() == N,
            forall|j: int| 0 <= j < N ==> #[trigger] mapping@[lp@[j] as int] == j as u8,
            forall|j: int| 0 <= j < N ==> mapping@[j] < N,
            mapped@.len() == i,
            forall|j: int| 0 <= j < i ==> #[trigger] mapped@[j] == relabel_spec(lp@, right@)[j],
        decreases N - i,
    {
        let sym = right[i];
        mapped.push(mapping[sym as usize]);
        proof {
            let j = index_of(lp@, sym);
            assert(lp@.contains(sym));
            assert(lp@[j] == sym);
            assert(mapping@[sym as int] == j as u8);
        }
        i = i + 1;
    }
    proof {
        assert(mapped@ =~= relabel_spec(lp@, right@));
    }

    // The relabeled letter contains the symbol `0`: `right` holds `lp`'s
    // first symbol somewhere, and that position relabels to `0`.
    proof {
        assert(right@.contains(lp@[0]));
        let w = choose|w: int| 0 <= w < right@.len() && right@[w] == lp@[0];
        assert(mapped@[w] == index_of(lp@, right@[w]) as u8);
        assert(lp@[0] == right@[w]);
        assert(index_of(lp@, right@[w]) == 0) by {
            let j = index_of(lp@, right@[w]);
            assert(lp@.contains(right@[w]));
            assert(lp@[j] == right@[w]);
            if j != 0 {
                assert(lp@[j] != lp@[0]);
            }
        }
        assert(mapped@[w] == 0);
        assert(mapped@.contains(0));
    }

    let mut z: usize = 0;
    let mut found = false;
    let mut s: usize = 0;
    while s < N
        invariant
            s <= N,
            mapped@.len() == N,
            found ==> z < N && mapped@[z as int] == 0,
            !found ==> forall|j: int| 0 <= j < s ==> mapped@[j] != 0,
            found ==> z < s,
        decreases N - s,
    {
        if !found && mapped[s] == 0 {
            z = s;
            found = true;
        }
        s = s + 1;
    }
    if !found {
        proof {
            let w = choose|w: int| 0 <= w < mapped@.len() && mapped@[w] == 0;
            assert(false);
        }
        return Err(SearchError::InvariantViolation);
    }

    // `0` occurs only once in the relabeled letter, so `z` is its canonical
    // rotation point.
    proof {
        assert forall|a: int, b: int| 0 <= a < b < N implies mapped@[a] != mapped@[b] by {
            if mapped@[a] == mapped@[b] {
                let ja = index_of(lp@, right@[a]);
                let jb = index_of(lp@, right@[b]);
                assert(lp@.contains(right@[a]) && lp@.contains(right@[b]));
                assert(lp@[ja] == right@[a] && lp@[jb] == right@[b]);
                assert(ja == jb);
                assert(right@[a] != right@[b]);
            }
        }
        let zz = index_of(mapped@, 0);
        assert(mapped@.contains(0));
        assert(mapped@[zz] == 0);
        if zz != z as int {
            assert(mapped@[zz] != mapped@[z as int]);
        }
        assert(index_of(mapped@, 0) == z as int);
    }

    let mut rotated: Vec<u8> = Vec::new();
    let mut t: usize = 0;
    while t < N - z
        invariant
            z < N,
            t <= N - z,
            mapped@.len() == N,
            rotated@.len() == t,
            forall|j: int| 0 <= j < t ==> #[trigger] rotated@[j] == mapped@[z + j],
        decreases N - z - t,
    {
        rotated.push(mapped[z + t]);
        t = t + 1;
    }
    let mut t2: usize = 0;
    while t2 < z
        invariant
            z < N,
            t2 <= z,
            mapped@.len() == N,
            rotated@.len() == N - z + t2,
            forall|j: int| 0 <= j < N - z ==> #[trigger] rotated@[j] == mapped@[z + j],
            forall|j: int| N - z <= j < N - z + t2 ==> #[trigger] rotated@[j] == mapped@[j - (N
                - z)],
        decreases z - t2,
    {
        rotated.push(mapped[t2]);
        t2 = t2 + 1;
    }
    proof {
        assert(rotated@ =~= canon_key(lp@, right@));
    }

    if !crate::letter::is_valid_letter(&rotated) {
        proof {
            dm.lemma_only_letters();
            assert(!dm@.contains_key(rotated@));
        }
        return Err(SearchError::InvariantViolation);
    }
    match dm.get(&rotated) {
        Some(d) => Ok(d),
        None => Err(SearchError::InvariantViolation),
    }
}

} // verus!
