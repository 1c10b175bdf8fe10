use vstd::prelude::*;
use vstd::set_lib::{set_int_range, lemma_int_range, lemma_len_subset};
use crate::{Letter, N, base_seq, base_letter, is_letter};
use crate::distmap::{DistanceMap, MAX_DIST, code_spec, lemma_code_injective_contra};
use crate::letter::{
    get_neighbors, neighbor_spec, lemma_neighbor_is_letter, lemma_neighbor_keeps_first,
};

verus! {

/// The record ledger: the traversal queue and the map hold the same
/// letters, in the same order, with the same distances.
pub open spec fn ledger_ok(dm: DistanceMap, q: Seq<(Letter, u32)>) -> bool {
    &&& dm.entries_view().len() == q.len()
    &&& forall|i: int| 0 <= i < q.len() ==> (#[trigger] dm.entries_view()[i]) == (q[i].0@, q[i].1)
}

/// Every recorded letter other than the base letter lies one step beyond
/// some recorded letter.
pub open spec fn parents_ok(m: Map<Seq<u8>, u32>) -> bool {
    forall|s: Seq<u8>| #[trigger] m.contains_key(s) && s != base_seq() ==> exists|
        p: Seq<u8>,
        j: int,
    |
        m.contains_key(p) && 0 <= j < N && neighbor_spec(p, j) == s && m[s] == m[p] + 1
}

/// All neighbors of the first `h` queued letters are recorded, each at most
/// one step beyond its letter.
pub open spec fn expanded_to(m: Map<Seq<u8>, u32>, q: Seq<(Letter, u32)>, h: int) -> bool {
    forall|i: int, j: int|
        0 <= i < h && 0 <= j < N ==> m.contains_key(#[trigger] neighbor_spec(q[i].0@, j))
            && m[neighbor_spec(q[i].0@, j)] <= q[i].1 + 1
}

/// Every queued letter keeps the symbol `0` first, and each one's recorded
/// distance is at most its discovery position.
pub open spec fn queue_shape_ok(q: Seq<(Letter, u32)>) -> bool {
    &&& forall|i: int| 0 <= i < q.len() ==> is_letter(#[trigger] q[i].0@) && q[i].0@[0] == 0
    &&& forall|i: int| 0 <= i < q.len() ==> (#[trigger] q[i].1) as int <= i
    &&& forall|i: int, j: int| 0 <= i <= j < q.len() ==> q[i].1 <= q[j].1
}

/// Distinct letters that keep the symbol `0` first have distinct nine-digit
/// codes below `100000000`, so no queue of them can hold more entries.
proof fn lemma_queue_bounded(q: Seq<(Letter, u32)>)
    requires
        forall|i: int| 0 <= i < q.len() ==> is_letter(#[trigger] q[i].0@) && q[i].0@[0] == 0,
        forall|i: int, j: int| 0 <= i < j < q.len() ==> q[i].0@ != q[j].0@,
    ensures
        q.len() <= MAX_DIST,
{
    let cs = Seq::new(q.len(), |i: int| code_spec(q[i].0@));
    assert forall|i: int, j: int| 0 <= i < j < cs.len() implies cs[i] != cs[j] by {
        lemma_code_injective_contra(q[i].0@, q[j].0@);
    }
    assert(cs.no_duplicates());
    cs.unique_seq_to_set();
    assert forall|i: int| 0 <= i < cs.len() implies 0 <= #[trigger] cs[i] < 100000000 by {
        assert(q[i].0@[0] == 0);
        assert(forall|k: int| 0 <= k < N ==> q[i].0@[k] < N);
    }
    assert(cs.to_set().subset_of(set_int_range(0, 100000000))) by {
        assert forall|x: int| cs.to_set().contains(x) implies set_int_range(
            0,
            100000000,
        ).contains(x) by {
            let i = choose|i: int| 0 <= i < cs.len() && cs[i] == x;
        }
    }
    lemma_int_range(0, 100000000);
    lemma_len_subset(cs.to_set(), set_int_range(0, 100000000));
}

/// Records one newly discovered letter `nb`, a neighbor of the already
/// recorded `node`, one step beyond it.
fn record_discovery(
    dm: &mut DistanceMap,
    queue: &mut Vec<(Letter, u32)>,
    node: &Letter,
    t: usize,
    nb: Letter,
    d: u32,
)
    requires
        old(dm).wf(),
        t < N,
        is_letter(nb@),
        nb@ == neighbor_spec(node@, t as int),
        old(dm)@.contains_key(node@),
        old(dm)@[node@] == d,
        d < MAX_DIST,
        !old(dm)@.contains_key(nb@),
        ledger_ok(*old(dm), old(queue)@),
        parents_ok(old(dm)@),
    ensures
        final(dm).wf(),
        final(dm)@ == old(dm)@.insert(nb@, (d + 1) as u32),
        final(queue)@ == old(queue)@.push((nb, (d + 1) as u32)),
        ledger_ok(*final(dm), final(queue)@),
        parents_ok(final(dm)@),
{
    let ghost dm0 = dm@;
    let ghost nv = nb@;
    dm.insert(nb.clone(), d + 1);
    queue.push((nb, d + 1));
    proof {
        assert forall|i: int| 0 <= i < queue@.len() implies (#[trigger] dm.entries_view()[i]) == (
            queue@[i].0@,
            queue@[i].1,
        ) by {
            if i < queue@.len() - 1 {
                assert(dm.entries_view()[i] == old(dm).entries_view()[i]);
                assert(queue@[i] == old(queue)@[i]);
            }
        }
        assert forall|s: Seq<u8>| #[trigger] dm@.contains_key(s) && s != base_seq() implies exists|
            p: Seq<u8>,
            j: int,
        |
            dm@.contains_key(p) && 0 <= j < N && neighbor_spec(p, j) == s && dm@[s] == dm@[p]
                + 1 by {
            if s == nv {
                assert(dm@.contains_key(node@) && neighbor_spec(node@, t as int) == s && dm@[s]
                    == dm@[node@] + 1);
            } else {
                let (p, j): (Seq<u8>, int) = choose|p: Seq<u8>, j: int|
                    dm0.contains_key(p) && 0 <= j < N && neighbor_spec(p, j) == s && dm0[s]
                        == dm0[p] + 1;
                assert(dm@.contains_key(p) && neighbor_spec(p, j) == s && dm@[s] == dm@[p] + 1);
            }
        }
    }
}

/// Builds the distance oracle by a breadth-first traversal of the
/// permutation graph from the base letter. The frontier is first-in
/// first-out, so letters are discovered in order of their graph distance;
/// each letter is recorded the first time it is discovered, one step beyond
/// the letter it was reached from. The result: the base letter at distance
/// `0`, a record set closed under the neighbor rule with each neighbor at
/// most one step further, and every other recorded letter exactly one step
/// beyond some recorded neighbor. The traversal stays among the letters
/// that keep the symbol `0` first, so it always ends.
pub fn build_map() -> (dm: DistanceMap)
    ensures
        dm.wf(),
        dm@.contains_key(base_seq()),
        dm@[base_seq()] == 0,
        forall|s: Seq<u8>| #[trigger] dm@.contains_key(s) ==> is_letter(s),
        forall|s: Seq<u8>, j: int|
            dm@.contains_key(s) && 0 <= j < N ==> dm@.contains_key(#[trigger] neighbor_spec(s, j))
                && dm@[neighbor_spec(s, j)] <= dm@[s] + 1,
        parents_ok(dm@),
{
    let mut dm = DistanceMap::new();
    let base = base_letter();
    dm.insert(base.clone(), 0);
    let mut queue: Vec<(Letter, u32)> = Vec::new();
    queue.push((base, 0));
    let mut head: usize = 0;

    while head < queue.len()
        invariant
            dm.wf(),
            head <= queue@.len(),
            queue@.len() <= MAX_DIST,
            ledger_ok(dm, queue@),
            queue_shape_ok(queue@),
            head < queue@.len() ==> (forall|i: int|
                0 <= i < queue@.len() ==> (#[trigger] queue@[i].1) <= queue@[head as int].1 + 1),
            dm@.contains_key(base_seq()),
            dm@[base_seq()] == 0,
            parents_ok(dm@),
            expanded_to(dm@, queue@, head as int),
        decreases MAX_DIST - head,
    {
        let node = queue[head].0.clone();
        let d = queue[head].1;
        proof {
            dm.lemma_entries_agree();
            let ghost h = head as int;
            assert(dm.entries_view()[h] == (queue@[h].0@, queue@[h].1));
            assert(is_letter(node@));
            assert(dm@.contains_key(node@) && dm@[node@] == d);
            assert(d < MAX_DIST);
        }
        head = head + 1;
        let neighbors = get_neighbors(&node);
        let mut t: usize = 0;
        while t < neighbors.len()
            invariant
                dm.wf(),
                t <= neighbors@.len(),
                neighbors@.len() == N,
                is_letter(node@),
                d < MAX_DIST,
                dm@.contains_key(node@),
                dm@[node@] == d,
                1 <= head <= queue@.len(),
                queue@.len() <= MAX_DIST,
                node@ == queue@[head - 1].0@,
                d == queue@[head - 1].1,
                forall|u: int| 0 <= u < N ==> #[trigger] neighbors@[u]@ == neighbor_spec(node@, u),
                ledger_ok(dm, queue@),
                queue_shape_ok(queue@),
                forall|i: int| 0 <= i < queue@.len() ==> (#[trigger] queue@[i].1) <= d + 1,
                dm@.contains_key(base_seq()),
                dm@[base_seq()] == 0,
                parents_ok(dm@),
                expanded_to(dm@, queue@, head - 1),
                forall|u: int|
                    0 <= u < t ==> dm@.contains_key(#[trigger] neighbor_spec(node@, u))
                        && dm@[neighbor_spec(node@, u)] <= d + 1,
            decreases neighbors@.len() - t,
        {
            let nb = neighbors[t].clone();
            proof {
                assert(nb@ == neighbor_spec(node@, t as int));
                lemma_neighbor_is_letter(node@, t as int);
                lemma_neighbor_keeps_first(node@, t as int);
            }
            if !dm.contains(&nb) {
                let ghost q0 = queue@;
                record_discovery(&mut dm, &mut queue, &node, t, nb, d);
                proof {
                    assert forall|i: int, j: int|
                        0 <= i < head - 1 && 0 <= j < N implies dm@.contains_key(
                        #[trigger] neighbor_spec(queue@[i].0@, j),
                    ) && dm@[neighbor_spec(queue@[i].0@, j)] <= queue@[i].1 + 1 by {
                        assert(queue@[i] == q0[i]);
                        assert(expanded_to(dm@, q0, head - 1));
                    }
                    dm.lemma_entries_agree();
                    assert forall|i: int, j: int|
                        0 <= i < j < queue@.len() implies queue@[i].0@ != queue@[j].0@ by {
                        assert(dm.entries_view()[i].0 == queue@[i].0@);
                        assert(dm.entries_view()[j].0 == queue@[j].0@);
                    }
                    lemma_queue_bounded(queue@);
                }
            } else {
                proof {
                    dm.lemma_entries_agree();
                    let i = choose|i: int|
                        0 <= i < dm.entries_view().len() && dm.entries_view()[i].0 == nb@;
                    assert(dm.entries_view()[i] == (queue@[i].0@, queue@[i].1));
                    assert(dm@[nb@] == queue@[i].1);
                    assert(queue@[i].1 <= d + 1);
                }
            }
            t = t + 1;
        }
        proof {
            assert(expanded_to(dm@, queue@, head as int)) by {
                assert forall|i: int, j: int|
                    0 <= i < head && 0 <= j < N implies dm@.contains_key(
                    #[trigger] neighbor_spec(queue@[i].0@, j),
                ) && dm@[neighbor_spec(queue@[i].0@, j)] <= queue@[i].1 + 1 by {
                    if i == head - 1 {
                        assert(dm@.contains_key(neighbor_spec(node@, j)));
                        assert(dm@[neighbor_spec(node@, j)] <= d + 1);
                    }
                }
            }
            if head < queue@.len() {
                assert forall|i: int| 0 <= i < queue@.len() implies (#[trigger] queue@[i].1)
                    <= queue@[head as int].1 + 1 by {
                    assert(queue@[head - 1].1 <= queue@[head as int].1);
                    assert(queue@[i].1 <= d + 1);
                }
            }
        }
    }
    proof {
        dm.lemma_entries_agree();
        assert forall|s: Seq<u8>, j: int|
            dm@.contains_key(s) && 0 <= j < N implies dm@.contains_key(
            #[trigger] neighbor_spec(s, j),
        ) && dm@[neighbor_spec(s, j)] <= dm@[s] + 1 by {
            let i = choose|i: int|
                0 <= i < dm.entries_view().len() && dm.entries_view()[i].0 == s;
            assert(dm.entries_view()[i] == (queue@[i].0@, queue@[i].1));
            assert(queue@[i].0@ == s);
            assert(dm@[s] == queue@[i].1);
            assert(dm@.contains_key(neighbor_spec(queue@[i].0@, j)));
            assert(dm@[neighbor_spec(queue@[i].0@, j)] <= queue@[i].1 + 1);
        }
    }
    dm
}

} // verus!
