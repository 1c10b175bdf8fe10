use vstd::prelude::*;
use crate::{N, base_seq, is_letter};
use crate::letter::antipode_spec;
use crate::score::{antidistance_spec, zarankiewicz_spec};
use crate::checks::{antisum_spec, check1_spec, strictly_better, equal_different, antisum_from, row_sum};

verus! {

broadcast use vstd::seq_lib::group_to_multiset_ensures;

/// The antidistance of a letter with itself is `floor(N/2) * floor((N-1)/2)`,
/// whatever the distance mapping holds.
pub proof fn lemma_self_antidistance(m: Map<Seq<u8>, u32>, x: Seq<u8>)
    ensures
        antidistance_spec(m, x, x) == Some((zarankiewicz_spec(N as int)) as u32),
        antidistance_spec(m, x, x) == Some(16u32),
{
    assert(zarankiewicz_spec(N as int) == 16);
}

/// The antidistance of the base letter and its antipode is `0`, whatever
/// the distance mapping holds.
pub proof fn lemma_base_antipode_distance(m: Map<Seq<u8>, u32>)
    ensures
        antidistance_spec(m, base_seq(), antipode_spec(base_seq())) == Some(0u32),
{
    let b = base_seq();
    let a = antipode_spec(b);
    assert(a[1] == b[8]);
    assert(b[1] == 1 && b[8] == 8);
    assert(a != b);
}

/// A word of fewer than two letters has antisum `0`, whatever the distance
/// mapping holds.
pub proof fn lemma_antisum_short_word(m: Map<Seq<u8>, u32>, w: Seq<Seq<u8>>)
    requires
        w.len() <= 1,
    ensures
        antisum_spec(m, w) == 0,
{
    if w.len() == 1 {
        assert(row_sum(m, w, 0, 1) == 0);
        assert(antisum_from(m, w, 1) == 0);
        assert(antisum_from(m, w, 0) == row_sum(m, w, 0, 1) + antisum_from(m, w, 1));
    }
}

/// The incremental check rejects every extension of a length-`4` word whose
/// antisum is at most `32`, whatever letter is offered.
pub proof fn lemma_check1_hard_cutoff(m: Map<Seq<u8>, u32>, w: Seq<Seq<u8>>, nl: Seq<u8>, pa: u32)
    requires
        w.len() == 4,
        pa <= 32,
    ensures
        check1_spec(m, w, nl, pa) == Some(false),
{
}

/// A word whose letters are all equal admits exactly one reordering:
/// itself. So no reordering of it is ever reported: none has a lower
/// antisum, and none is an equal-antisum candidate that differs from the
/// word.
pub proof fn lemma_uniform_word_unreported(m: Map<Seq<u8>, u32>, w: Seq<Seq<u8>>, c: Seq<Seq<u8>>)
    requires
        w.len() >= 1,
        forall|i: int| 0 <= i < w.len() ==> #[trigger] w[i] == w[0],
        c.to_multiset() == w.to_multiset(),
    ensures
        c == w,
        !strictly_better(m, w, c),
        !equal_different(m, w, c),
{
    assert(c.to_multiset().len() == c.len());
    assert(w.to_multiset().len() == w.len());
    assert(c.len() == w.len());
    assert forall|i: int| 0 <= i < c.len() implies c[i] == w[i] by {
        assert(c.contains(c[i]));
        assert(c.to_multiset().count(c[i]) > 0);
        assert(w.to_multiset().contains(c[i]));
        assert(w.contains(c[i]));
        let j = choose|j: int| 0 <= j < w.len() && w[j] == c[i];
        assert(w[j] == w[0]);
    }
    assert(c =~= w);
}

} // verus!
