use vstd::prelude::*;
use std::collections::HashMap;
use crate::{Letter, N, is_letter};

verus! {

broadcast use vstd::std_specs::hash::group_hash_axioms;

/// Upper bound on any stored distance. Every letter that keeps symbol `0`
/// first has a distinct nine-digit code below `100000000`, so fewer letters
/// than this exist, and no breadth-first distance can reach it.
pub const MAX_DIST: u32 = 100000000;

/// A letter read as a base-ten number, one digit per symbol. Distinct
/// letters give distinct codes, so a code can serve as a map key.
pub open spec fn code_spec(s: Seq<u8>) -> int {
    s[0] * 100000000 + s[1] * 10000000 + s[2] * 1000000 + s[3] * 100000 + s[4] * 10000 + s[5]
        * 1000 + s[6] * 100 + s[7] * 10 + s[8]
}

/// Two digit sequences with the same code are equal.
#[verifier::rlimit(100)]
pub proof fn lemma_code_injective(s: Seq<u8>, t: Seq<u8>)
    requires
        s.len() == N,
        t.len() == N,
        forall|i: int| 0 <= i < N ==> s[i] < N,
        forall|i: int| 0 <= i < N ==> t[i] < N,
        code_spec(s) == code_spec(t),
    ensures
        s == t,
{
    let a1 = s[1] * 10000000 + s[2] * 1000000 + s[3] * 100000 + s[4] * 10000 + s[5] * 1000 + s[6]
        * 100 + s[7] * 10 + s[8];
    let b1 = t[1] * 10000000 + t[2] * 1000000 + t[3] * 100000 + t[4] * 10000 + t[5] * 1000 + t[6]
        * 100 + t[7] * 10 + t[8];
    assert(0 <= a1 < 100000000 && 0 <= b1 < 100000000);
    assert(s[0] == t[0]);
    let a2 = s[2] * 1000000 + s[3] * 100000 + s[4] * 10000 + s[5] * 1000 + s[6] * 100 + s[7] * 10
        + s[8];
    let b2 = t[2] * 1000000 + t[3] * 100000 + t[4] * 10000 + t[5] * 1000 + t[6] * 100 + t[7] * 10
        + t[8];
    assert(0 <= a2 < 10000000 && 0 <= b2 < 10000000);
    assert(s[1] == t[1]);
    let a3 = s[3] * 100000 + s[4] * 10000 + s[5] * 1000 + s[6] * 100 + s[7] * 10 + s[8];
    let b3 = t[3] * 100000 + t[4] * 10000 + t[5] * 1000 + t[6] * 100 + t[7] * 10 + t[8];
    assert(0 <= a3 < 1000000 && 0 <= b3 < 1000000);
    assert(s[2] == t[2]);
    let a4 = s[4] * 10000 + s[5] * 1000 + s[6] * 100 + s[7] * 10 + s[8];
    let b4 = t[4] * 10000 + t[5] * 1000 + t[6] * 100 + t[7] * 10 + t[8];
    assert(0 <= a4 < 100000 && 0 <= b4 < 100000);
    assert(s[3] == t[3]);
    let a5 = s[5] * 1000 + s[6] * 100 + s[7] * 10 + s[8];
    let b5 = t[5] * 1000 + t[6] * 100 + t[7] * 10 + t[8];
    assert(0 <= a5 < 10000 && 0 <= b5 < 10000);
    assert(s[4] == t[4]);
    let a6 = s[6] * 100 + s[7] * 10 + s[8];
    let b6 = t[6] * 100 + t[7] * 10 + t[8];
    assert(0 <= a6 < 1000 && 0 <= b6 < 1000);
    assert(s[5] == t[5]);
    let a7 = s[7] * 10 + s[8];
    let b7 = t[7] * 10 + t[8];
    assert(0 <= a7 < 100 && 0 <= b7 < 100);
    assert(s[6] == t[6]);
    assert(s[7] == t[7]);
    assert(s[8] == t[8]);
    assert(s =~= t);
}

/// Computes the numeric code of a letter.
pub fn letter_code(l: &Letter) -> (r: u64)
    requires
        l@.len() == N,
        forall|i: int| 0 <= i < N ==> l@[i] < N,
    ensures
        r == code_spec(l@),
{
    l[0] as u64 * 100000000 + l[1] as u64 * 10000000 + l[2] as u64 * 1000000 + l[3] as u64
        * 100000 + l[4] as u64 * 10000 + l[5] as u64 * 1000 + l[6] as u64 * 100 + l[7] as u64 * 10
        + l[8] as u64
}

/// The distance oracle: for each recorded letter, its breadth-first distance
/// from the base letter in the permutation graph. Lookup goes through a hash
/// table keyed by letter codes; the insertion order is kept in `entries` so
/// that a snapshot of the map can be written out deterministically.
pub struct DistanceMap {
    m: HashMap<u64, u32>,
    entries: Vec<(Letter, u32)>,
}

impl View for DistanceMap {
    type V = Map<Seq<u8>, u32>;

    closed spec fn view(&self) -> Map<Seq<u8>, u32> {
        Map::new(
            |s: Seq<u8>| is_letter(s) && self.m@.contains_key(code_spec(s) as u64),
            |s: Seq<u8>| self.m@[code_spec(s) as u64],
        )
    }
}

impl DistanceMap {
    /// Every hash-table key is the code of a recorded letter, every recorded
    /// entry is a letter with a bounded distance, and no letter is recorded
    /// twice.
    pub closed spec fn wf(&self) -> bool {
        &&& forall|i: int| 0 <= i < self.entries@.len() ==> {
            &&& is_letter(#[trigger] self.entries@[i].0@)
            &&& self.entries@[i].1 <= MAX_DIST
            &&& self.m@.contains_pair(code_spec(self.entries@[i].0@) as u64, self.entries@[i].1)
        }
        &&& forall|i: int, j: int| 0 <= i < j < self.entries@.len()
            ==> self.entries@[i].0@ != self.entries@[j].0@
        &&& forall|k: u64| #[trigger] self.m@.contains_key(k) ==> exists|i: int|
            0 <= i < self.entries@.len() && code_spec(self.entries@[i].0@) as u64 == k
    }

    /// The recorded letters and distances, in insertion order.
    pub closed spec fn entries_view(&self) -> Seq<(Seq<u8>, u32)> {
        self.entries@.map_values(|e: (Letter, u32)| (e.0@, e.1))
    }

    /// The map holds exactly the recorded entries.
    pub proof fn lemma_entries_agree(&self)
        requires
            self.wf(),
        ensures
            forall|i: int| 0 <= i < self.entries_view().len() ==> {
                &&& is_letter(#[trigger] self.entries_view()[i].0)
                &&& self@.contains_key(self.entries_view()[i].0)
                &&& self@[self.entries_view()[i].0] == self.entries_view()[i].1
            },
            forall|s: Seq<u8>| #[trigger] self@.contains_key(s) ==> exists|i: int|
                0 <= i < self.entries_view().len() && self.entries_view()[i].0 == s,
            forall|i: int, j: int| 0 <= i < j < self.entries_view().len()
                ==> self.entries_view()[i].0 != self.entries_view()[j].0,
    {
        assert forall|s: Seq<u8>| #[trigger] self@.contains_key(s) implies exists|i: int|
            0 <= i < self.entries_view().len() && self.entries_view()[i].0 == s by {
            let k = code_spec(s) as u64;
            let i = choose|i: int|
                0 <= i < self.entries@.len() && code_spec(self.entries@[i].0@) as u64 == k;
            lemma_code_injective(self.entries@[i].0@, s);
            assert(self.entries_view()[i].0 == s);
        }
    }

    /// Every recorded distance is bounded by `MAX_DIST`.
    pub proof fn lemma_values_bounded(&self)
        requires
            self.wf(),
        ensures
            forall|s: Seq<u8>| #[trigger] self@.contains_key(s) ==> self@[s] <= MAX_DIST,
    {
        assert forall|s: Seq<u8>| #[trigger] self@.contains_key(s) implies self@[s]
            <= MAX_DIST by {
            let k = code_spec(s) as u64;
            let i = choose|i: int|
                0 <= i < self.entries@.len() && code_spec(self.entries@[i].0@) as u64 == k;
            assert(self.m@[k] == self.entries@[i].1);
        }
    }

    /// Only letters are ever recorded.
    pub proof fn lemma_only_letters(&self)
        requires
            self.wf(),
        ensures
            forall|s: Seq<u8>| #[trigger] self@.contains_key(s) ==> is_letter(s),
    {
    }

    /// An empty distance map.
    pub fn new() -> (r: DistanceMap)
        ensures
            r.wf(),
            r@ == Map::<Seq<u8>, u32>::empty(),
            r.entries_view() == Seq::<(Seq<u8>, u32)>::empty(),
    {
        let r = DistanceMap { m: HashMap::new(), entries: Vec::new() };
        proof {
            assert(r@ =~= Map::<Seq<u8>, u32>::empty());
            assert(r.entries_view() =~= Seq::<(Seq<u8>, u32)>::empty());
        }
        r
    }

    /// Number of recorded letters.
    pub fn len(&self) -> (r: usize)
        ensures
            r == self.entries_view().len(),
    {
        self.entries.len()
    }

    /// Reads a recorded entry by position, for writing a snapshot out.
    pub fn entry_at(&self, i: usize) -> (r: (Letter, u32))
        requires
            i < self.entries_view().len(),
        ensures
            r.0@ == self.entries_view()[i as int].0,
            r.1 == self.entries_view()[i as int].1,
    {
        let l = self.entries[i].0.clone();
        let d = self.entries[i].1;
        proof {
            assert(l@ =~= self.entries@[i as int].0@);
        }
        (l, d)
    }

    /// Records a letter's distance. The letter must be new to the map.
    #[verifier::rlimit(50)]
    pub fn insert(&mut self, l: Letter, d: u32)
        requires
            old(self).wf(),
            is_letter(l@),
            d <= MAX_DIST,
            !old(self)@.contains_key(l@),
        ensures
            final(self).wf(),
            final(self)@ == old(self)@.insert(l@, d),
            final(self).entries_view() == old(self).entries_view().push((l@, d)),
    {
        let code = letter_code(&l);
        let ghost lv = l@;
        self.m.insert(code, d);
        self.entries.push((l, d));
        proof {
            assert(self.entries_view() =~= old(self).entries_view().push((lv, d)));
            assert forall|s: Seq<u8>| is_letter(s) && s != lv implies code_spec(s) != code_spec(
                lv,
            ) by {
                lemma_code_injective_contra(s, lv);
            }
            assert forall|i: int, j: int| 0 <= i < j < self.entries@.len() implies self
                .entries@[i].0@ != self.entries@[j].0@ by {
                if j == self.entries@.len() - 1 {
                    if self.entries@[i].0@ == lv {
                        assert(old(self).m@.contains_key(code_spec(lv) as u64));
                    }
                }
            }
            assert forall|i: int| 0 <= i < self.entries@.len() implies {
                &&& is_letter(#[trigger] self.entries@[i].0@)
                &&& self.entries@[i].1 <= MAX_DIST
                &&& self.m@.contains_pair(code_spec(self.entries@[i].0@) as u64, self.entries@[i].1)
            } by {
                if i < self.entries@.len() - 1 {
                    assert(old(self).entries@[i] == self.entries@[i]);
                    assert(self.entries@[i].0@ != lv);
                }
            }
            assert forall|k: u64| #[trigger] self.m@.contains_key(k) implies exists|i: int|
                0 <= i < self.entries@.len() && code_spec(self.entries@[i].0@) as u64 == k by {
                if k == code_spec(lv) as u64 {
                    let last = self.entries@.len() - 1;
                    assert(code_spec(self.entries@[last].0@) as u64 == k);
                } else {
                    let i = choose|i: int|
                        0 <= i < old(self).entries@.len() && code_spec(
                            old(self).entries@[i].0@,
                        ) as u64 == k;
                    assert(code_spec(self.entries@[i].0@) as u64 == k);
                }
            }
            assert(self@ =~= old(self)@.insert(lv, d));
        }
    }

    /// Looks a letter up; returns its recorded distance, if any.
    pub fn get(&self, l: &Letter) -> (r: Option<u32>)
        requires
            self.wf(),
            is_letter(l@),
        ensures
            match r {
                Some(d) => self@.contains_key(l@) && self@[l@] == d && d <= MAX_DIST,
                None => !self@.contains_key(l@),
            },
    {
        let code = letter_code(l);
        match self.m.get(&code) {
            Some(d) => {
                proof {
                    let k = code_spec(l@) as u64;
                    let i = choose|i: int|
                        0 <= i < self.entries@.len() && code_spec(self.entries@[i].0@) as u64 == k;
                    assert(self.m@[k] == self.entries@[i].1);
                }
                Some(*d)
            },
            None => None,
        }
    }

    /// Whether a letter is recorded.
    pub fn contains(&self, l: &Letter) -> (r: bool)
        requires
            self.wf(),
            is_letter(l@),
        ensures
            r == self@.contains_key(l@),
    {
        let code = letter_code(l);
        self.m.contains_key(&code)
    }
}

/// Distinct letters have distinct codes.
pub proof fn lemma_code_injective_contra(s: Seq<u8>, t: Seq<u8>)
    requires
        is_letter(s),
        is_letter(t),
        s != t,
    ensures
        code_spec(s) != code_spec(t),
{
    if code_spec(s) == code_spec(t) {
        lemma_code_injective(s, t);
    }
}

} // verus!
