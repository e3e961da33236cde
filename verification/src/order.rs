use vstd::prelude::*;
use vstd::seq_lib::{
    lemma_multiset_commutative, to_multiset_build, to_multiset_contains, to_multiset_insert,
    to_multiset_len, to_multiset_remove,
};
use crate::types::MotorSteps;

verus! {

/// `a` comes no later than `b` when rings are walked upwards and each ring by
/// ascending horizontal step.
pub open spec fn ring_major_le(a: MotorSteps, b: MotorSteps) -> bool {
    a.v < b.v || (a.v == b.v && a.h <= b.h)
}

/// Every position comes no later than those behind it, ring by ring and by
/// ascending horizontal step within a ring.
pub open spec fn ring_major_sorted(s: Seq<MotorSteps>) -> bool {
    forall|i: int, j: int| 0 <= i < j < s.len() ==> ring_major_le(#[trigger] s[i], #[trigger] s[j])
}

/// Elevations never fall along the sequence.
pub open spec fn rings_ascending(s: Seq<MotorSteps>) -> bool {
    forall|i: int, j: int| 0 <= i < j < s.len() ==> (#[trigger] s[i]).v <= (#[trigger] s[j]).v
}

/// The number of the ring that holds position `i`, counted from 0: how often
/// the elevation has changed up to `i`.
pub open spec fn ring_index(s: Seq<MotorSteps>, i: int) -> nat
    decreases i,
{
    if i <= 0 {
        0
    } else if s[i].v != s[i - 1].v {
        ring_index(s, i - 1) + 1
    } else {
        ring_index(s, i - 1)
    }
}

/// Two neighbours on one ring follow the ring's direction: ascending
/// horizontal steps on rings of even number, descending on odd ones.
pub open spec fn follows_direction(s: Seq<MotorSteps>, i: int) -> bool {
    s[i].v == s[i + 1].v ==> if ring_index(s, i) % 2 == 0 {
        s[i].h <= s[i + 1].h
    } else {
        s[i].h >= s[i + 1].h
    }
}

/// Rings come by ascending elevation, and the direction of travel alternates
/// from each ring to the next, starting with ascending horizontal steps.
pub open spec fn is_snake_order(s: Seq<MotorSteps>) -> bool {
    &&& rings_ascending(s)
    &&& forall|i: int| 0 <= i && i + 1 < s.len() ==> #[trigger] follows_direction(s, i)
}

/// As `follows_direction`, for a sequence whose first ring has the number
/// `first_ring`.
pub open spec fn follows_direction_from(s: Seq<MotorSteps>, first_ring: nat, i: int) -> bool {
    s[i].v == s[i + 1].v ==> if (first_ring + ring_index(s, i)) % 2 == 0 {
        s[i].h <= s[i + 1].h
    } else {
        s[i].h >= s[i + 1].h
    }
}

/// As `is_snake_order`, for a sequence whose first ring has the number
/// `first_ring`.
pub open spec fn is_snake_order_from(s: Seq<MotorSteps>, first_ring: nat) -> bool {
    &&& rings_ascending(s)
    &&& forall|i: int|
        0 <= i && i + 1 < s.len() ==> #[trigger] follows_direction_from(s, first_ring, i)
}

/// Two sequences with the same elements, counted, hold the same positions.
pub proof fn lemma_same_members(a: Seq<MotorSteps>, b: Seq<MotorSteps>)
    requires
        a.to_multiset() == b.to_multiset(),
    ensures
        a.len() == b.len(),
        forall|i: int| 0 <= i < a.len() ==> b.contains(#[trigger] a[i]),
{
    to_multiset_len(a);
    to_multiset_len(b);
    assert forall|i: int| 0 <= i < a.len() implies b.contains(#[trigger] a[i]) by {
        to_multiset_contains(a, a[i]);
        to_multiset_contains(b, a[i]);
        assert(a.contains(a[i]));
    }
}

/// Past the first position, ring numbers are those of the rest of the
/// sequence, one higher where the first position has a ring to itself.
proof fn lemma_ring_index_tail(s: Seq<MotorSteps>, i: int)
    requires
        0 <= i,
        i + 1 < s.len(),
    ensures
        ring_index(s, i + 1) == ring_index(s.drop_first(), i) + if s[1].v != s[0].v {
            1nat
        } else {
            0nat
        },
    decreases i,
{
    let tail = s.drop_first();
    if i == 0 {
        assert(ring_index(s, 0) == 0);
        assert(ring_index(tail, 0) == 0);
    } else {
        lemma_ring_index_tail(s, i - 1);
        assert(tail[i] == s[i + 1]);
        assert(tail[i - 1] == s[i]);
    }
}

/// The number of the ring on which the rest of a sequence starts.
pub open spec fn tail_ring(s: Seq<MotorSteps>, first_ring: nat) -> nat {
    if s.len() >= 2 && s[1].v != s[0].v {
        first_ring + 1
    } else {
        first_ring
    }
}

/// The rest of a snake is a snake.
proof fn lemma_snake_tail(s: Seq<MotorSteps>, first_ring: nat)
    requires
        s.len() >= 1,
        is_snake_order_from(s, first_ring),
    ensures
        is_snake_order_from(s.drop_first(), tail_ring(s, first_ring)),
{
    let tail = s.drop_first();
    let next = tail_ring(s, first_ring);
    assert forall|i: int, j: int| 0 <= i < j < tail.len() implies (#[trigger] tail[i]).v <= (
    #[trigger] tail[j]).v by {
        assert(s[i + 1].v <= s[j + 1].v);
    }
    assert forall|i: int| 0 <= i && i + 1 < tail.len() implies #[trigger] follows_direction_from(
        tail,
        next,
        i,
    ) by {
        lemma_ring_index_tail(s, i);
        assert(follows_direction_from(s, first_ring, i + 1));
        assert(tail[i] == s[i + 1]);
        assert(tail[i + 1] == s[i + 2]);
    }
}

/// Along the first ring of a snake the horizontal steps run one way from the
/// first position on.
proof fn lemma_first_ring_run(s: Seq<MotorSteps>, first_ring: nat, j: int)
    requires
        is_snake_order_from(s, first_ring),
        0 <= j < s.len(),
        s[j].v == s[0].v,
    ensures
        ring_index(s, j) == 0,
        first_ring % 2 == 0 ==> s[0].h <= s[j].h,
        first_ring % 2 != 0 ==> s[0].h >= s[j].h,
    decreases j,
{
    if j > 0 {
        if j - 1 > 0 {
            assert(s[0].v <= s[j - 1].v);
        }
        assert(s[j - 1].v <= s[j].v);
        lemma_first_ring_run(s, first_ring, j - 1);
        assert(follows_direction_from(s, first_ring, j - 1));
    }
}

/// Two sequences of the same positions, both with ascending rings, start on
/// the same ring.
proof fn lemma_first_elevation(a: Seq<MotorSteps>, b: Seq<MotorSteps>)
    requires
        a.to_multiset() == b.to_multiset(),
        rings_ascending(a),
        rings_ascending(b),
        a.len() > 0,
    ensures
        b.len() > 0,
        a[0].v == b[0].v,
{
    lemma_same_members(a, b);
    lemma_same_members(b, a);
    let k = choose|k: int| 0 <= k < b.len() && b[k] == a[0];
    let j = choose|j: int| 0 <= j < a.len() && a[j] == b[0];
    if k > 0 {
        assert(b[0].v <= b[k].v);
    }
    if j > 0 {
        assert(a[0].v <= a[j].v);
    }
}

/// Two snakes of the same positions, on first rings of the same number, are
/// the same sequence.
proof fn lemma_snake_order_unique_from(a: Seq<MotorSteps>, b: Seq<MotorSteps>, first_ring: nat)
    requires
        a.to_multiset() == b.to_multiset(),
        is_snake_order_from(a, first_ring),
        is_snake_order_from(b, first_ring),
    ensures
        a == b,
    decreases a.len(),
{
    lemma_same_members(a, b);
    lemma_same_members(b, a);
    if a.len() == 0 {
        assert(a =~= b);
    } else {
        lemma_first_elevation(a, b);
        let k = choose|k: int| 0 <= k < b.len() && b[k] == a[0];
        let j = choose|j: int| 0 <= j < a.len() && a[j] == b[0];
        lemma_first_ring_run(a, first_ring, j);
        lemma_first_ring_run(b, first_ring, k);
        assert(a[0] == b[0]);
        let ta = a.drop_first();
        let tb = b.drop_first();
        assert(ta =~= a.remove(0));
        assert(tb =~= b.remove(0));
        to_multiset_remove(a, 0);
        to_multiset_remove(b, 0);
        lemma_snake_tail(a, first_ring);
        lemma_snake_tail(b, first_ring);
        if a.len() >= 2 {
            lemma_first_elevation(ta, tb);
            assert(ta[0] == a[1]);
            assert(tb[0] == b[1]);
        }
        lemma_snake_order_unique_from(ta, tb, tail_ring(a, first_ring));
        assert(a =~= seq![a[0]] + ta);
        assert(b =~= seq![b[0]] + tb);
    }
}

/// The snake order of a collection of positions is unique: two sequences that
/// hold the same positions, each as often as the other, and are both in snake
/// order are the same sequence. So the order in which positions are handed in
/// does not matter, and ordering a snake again changes nothing.
pub proof fn lemma_snake_order_unique(a: Seq<MotorSteps>, b: Seq<MotorSteps>)
    requires
        a.to_multiset() == b.to_multiset(),
        is_snake_order(a),
        is_snake_order(b),
    ensures
        a == b,
{
    assert forall|i: int| 0 <= i && i + 1 < a.len() implies #[trigger] follows_direction_from(
        a,
        0,
        i,
    ) by {
        assert(follows_direction(a, i));
    }
    assert forall|i: int| 0 <= i && i + 1 < b.len() implies #[trigger] follows_direction_from(
        b,
        0,
        i,
    ) by {
        assert(follows_direction(b, i));
    }
    lemma_snake_order_unique_from(a, b, 0);
}

/// The ring number of a position depends on the elevations up to it alone.
pub proof fn lemma_ring_index_by_elevation(a: Seq<MotorSteps>, b: Seq<MotorSteps>, i: int)
    requires
        0 <= i < a.len(),
        i < b.len(),
        forall|j: int| 0 <= j <= i ==> (#[trigger] a[j]).v == b[j].v,
    ensures
        ring_index(a, i) == ring_index(b, i),
    decreases i,
{
    if i > 0 {
        lemma_ring_index_by_elevation(a, b, i - 1);
    }
}

/// The positions sorted ring by ring, each ring by ascending horizontal step.
pub fn sort_ring_major(positions: &Vec<MotorSteps>) -> (sorted: Vec<MotorSteps>)
    ensures
        sorted@.to_multiset() == positions@.to_multiset(),
        sorted@.len() == positions@.len(),
        ring_major_sorted(sorted@),
{
    let mut sorted: Vec<MotorSteps> = Vec::new();
    let mut n: usize = 0;
    proof {
        assert(positions@.take(0) =~= sorted@);
    }
    while n < positions.len()
        invariant
            0 <= n <= positions@.len(),
            sorted@.len() == n,
            sorted@.to_multiset() == positions@.take(n as int).to_multiset(),
            ring_major_sorted(sorted@),
        decreases positions@.len() - n,
    {
        let x: MotorSteps = positions[n];
        let mut p: usize = 0;
        while p < sorted.len() && (sorted[p].v < x.v || (sorted[p].v == x.v && sorted[p].h <= x.h))
            invariant
                0 <= p <= sorted@.len(),
                forall|j: int| 0 <= j < p ==> ring_major_le(#[trigger] sorted@[j], x),
            decreases sorted@.len() - p,
        {
            p = p + 1;
        }
        let ghost before = sorted@;
        proof {
            assert forall|j: int| p <= j < before.len() implies ring_major_le(
                x,
                #[trigger] before[j],
            ) by {
                if j > p {
                    assert(ring_major_le(before[p as int], before[j]));
                }
            }
        }
        sorted.insert(p, x);
        proof {
            let after = sorted@;
            assert forall|i: int, j: int| 0 <= i < j < after.len() implies ring_major_le(
                #[trigger] after[i],
                #[trigger] after[j],
            ) by {
                let bi = if i < p { i } else { i - 1 };
                let bj = if j < p { j } else { j - 1 };
                if i != p && j != p {
                    assert(ring_major_le(before[bi], before[bj]));
                } else if i == p {
                    assert(ring_major_le(x, before[bj]));
                } else {
                    assert(ring_major_le(before[bi], x));
                }
            }
            assert(positions@.take(n + 1) =~= positions@.take(n as int).push(x));
            to_multiset_insert(before, p as int, x);
            to_multiset_build(positions@.take(n as int), x);
            assert(after.to_multiset() == before.to_multiset().insert(x));
            assert(positions@.take(n + 1).to_multiset() =~= before.to_multiset().insert(x));
        }
        n = n + 1;
    }
    proof {
        assert(positions@.take(n as int) =~= positions@);
    }
    sorted
}

/// Lays sorted rings out as a snake: rings of even number as they are, rings
/// of odd number back to front.
pub fn snake_rings(sorted: &Vec<MotorSteps>) -> (out: Vec<MotorSteps>)
    requires
        ring_major_sorted(sorted@),
    ensures
        out@.to_multiset() == sorted@.to_multiset(),
        out@.len() == sorted@.len(),
        is_snake_order(out@),
{
    let len: usize = sorted.len();
    let mut out: Vec<MotorSteps> = Vec::new();
    let mut start: usize = 0;
    let mut ring: usize = 0;
    proof {
        assert(sorted@.take(0) =~= out@);
    }
    while start < len
        invariant
            len == sorted@.len(),
            ring_major_sorted(sorted@),
            0 <= start <= len,
            out@.len() == start,
            ring <= start,
            out@.to_multiset() == sorted@.take(start as int).to_multiset(),
            forall|j: int| 0 <= j < start ==> (#[trigger] out@[j]).v == sorted@[j].v,
            forall|i: int|
                0 <= i && i + 1 < start && out@[i].v == out@[i + 1].v ==> if ring_index(
                    sorted@,
                    i,
                ) % 2 == 0 {
                    (#[trigger] out@[i]).h <= out@[i + 1].h
                } else {
                    out@[i].h >= out@[i + 1].h
                },
            start == 0 ==> ring == 0,
            start > 0 ==> ring == ring_index(sorted@, start - 1) + 1,
            0 < start < len ==> sorted@[start - 1].v != sorted@[start as int].v,
        decreases len - start,
    {
        let v: i32 = sorted[start].v;
        let mut end: usize = start + 1;
        proof {
            assert(ring_index(sorted@, start as int) == ring);
        }
        while end < len && sorted[end].v == v
            invariant
                len == sorted@.len(),
                start < end <= len,
                v == sorted@[start as int].v,
                forall|j: int| start <= j < end ==> (#[trigger] sorted@[j]).v == v,
                forall|j: int| start <= j < end ==> #[trigger] ring_index(sorted@, j) == ring,
            decreases len - end,
        {
            proof {
                assert(sorted@[end - 1].v == v);
                assert(ring_index(sorted@, end - 1) == ring);
                assert(ring_index(sorted@, end as int) == ring);
            }
            end = end + 1;
        }
        let ghost before = out@;
        let ghost segment = sorted@.subrange(start as int, end as int);
        let reversed: bool = ring % 2 == 1;
        let mut t: usize = 0;
        while t < end - start
            invariant
                len == sorted@.len(),
                start < end <= len,
                0 <= t <= end - start,
                out@.len() == start + t,
                reversed == (ring % 2 == 1),
                forall|j: int| 0 <= j < start ==> out@[j] == before[j],
                before.len() == start,
                forall|j: int|
                    0 <= j < t ==> #[trigger] out@[start + j] == if reversed {
                        sorted@[end - 1 - j]
                    } else {
                        sorted@[start + j]
                    },
            decreases end - start - t,
        {
            let x: MotorSteps = if reversed {
                sorted[end - 1 - t]
            } else {
                sorted[start + t]
            };
            out.push(x);
            t = t + 1;
        }
        proof {
            let placed = if reversed {
                segment.reverse()
            } else {
                segment
            };
            assert(out@ =~= before + placed) by {
                assert(out@.len() == (before + placed).len());
                assert forall|j: int| 0 <= j < out@.len() implies out@[j] == (before + placed)[j] by {
                    if j >= start {
                        assert(out@[start + (j - start)] == placed[j - start]);
                    }
                }
            }
            segment.lemma_reverse_to_multiset();
            lemma_multiset_commutative(before, placed);
            lemma_multiset_commutative(sorted@.take(start as int), segment);
            assert(sorted@.take(end as int) =~= sorted@.take(start as int) + segment);
            assert forall|j: int| 0 <= j < end implies (#[trigger] out@[j]).v == sorted@[j].v by {
                if j >= start {
                    assert(out@[start + (j - start)].v == v);
                    assert(sorted@[j].v == v);
                }
            }
            assert forall|i: int|
                0 <= i && i + 1 < end && out@[i].v == out@[i + 1].v implies if ring_index(
                    sorted@,
                    i,
                ) % 2 == 0 {
                    (#[trigger] out@[i]).h <= out@[i + 1].h
                } else {
                    out@[i].h >= out@[i + 1].h
                } by {
                if i + 1 < start {
                    assert(out@[i] == before[i]);
                    assert(out@[i + 1] == before[i + 1]);
                } else if i + 1 == start {
                    assert(out@[i].v == sorted@[i].v);
                    assert(out@[start + 0].v == v);
                } else {
                    let a = i - start;
                    assert(ring_index(sorted@, i) == ring);
                    assert(out@[start + a] == placed[a]);
                    assert(out@[start + (a + 1)] == placed[a + 1]);
                    if reversed {
                        assert(ring_major_le(sorted@[end - 2 - a], sorted@[end - 1 - a]));
                    } else {
                        assert(ring_major_le(sorted@[start + a], sorted@[start + a + 1]));
                    }
                }
            }
            assert(ring_index(sorted@, end - 1) == ring);
            if end < len {
                assert(sorted@[end - 1].v == v);
            }
        }
        start = end;
        ring = ring + 1;
    }
    proof {
        assert(sorted@.take(len as int) =~= sorted@);
        assert forall|i: int, j: int| 0 <= i < j < out@.len() implies (#[trigger] out@[i]).v <= (
        #[trigger] out@[j]).v by {
            assert(ring_major_le(sorted@[i], sorted@[j]));
        }
        assert forall|i: int| 0 <= i && i + 1 < out@.len() implies #[trigger] follows_direction(
            out@,
            i,
        ) by {
            lemma_ring_index_by_elevation(out@, sorted@, i);
        }
    }
    out
}

} // verus!
