//! Axial hexagon coordinates: the six directions, adjacency and distance.
use vstd::prelude::*;

verus! {

/// The offset of the `i`-th neighbour of a hexagon, in the order in which
/// the grid lists them: bottom-left, left, top-left, top-right, right,
/// bottom-right.
pub open spec fn hex_direction(i: int) -> (int, int) {
    if i == 0 {
        (-1, 1)
    } else if i == 1 {
        (-1, 0)
    } else if i == 2 {
        (0, -1)
    } else if i == 3 {
        (1, -1)
    } else if i == 4 {
        (1, 0)
    } else {
        (0, 1)
    }
}

/// `b` is one of the six hexagons that share an edge with `a`.
pub open spec fn hex_adjacent(a: (i32, i32), b: (i32, i32)) -> bool {
    let dq = b.0 - a.0;
    let dr = b.1 - a.1;
    ||| (dq == -1 && dr == 1)
    ||| (dq == -1 && dr == 0)
    ||| (dq == 0 && dr == -1)
    ||| (dq == 1 && dr == -1)
    ||| (dq == 1 && dr == 0)
    ||| (dq == 0 && dr == 1)
}

pub open spec fn abs(x: int) -> int {
    if x < 0 {
        -x
    } else {
        x
    }
}

/// The number of steps between two hexagons in axial coordinates.
pub open spec fn hex_dist(a_q: int, a_r: int, b_q: int, b_r: int) -> int {
    (abs(a_q - b_q) + abs(a_q + a_r - b_q - b_r) + abs(a_r - b_r)) / 2
}

/// The three terms of the distance always add up to an even number, so the
/// halving loses nothing.
pub proof fn lemma_hex_dist_exact(a_q: int, a_r: int, b_q: int, b_r: int)
    ensures
        2 * hex_dist(a_q, a_r, b_q, b_r) == abs(a_q - b_q) + abs(a_q + a_r - b_q - b_r) + abs(
            a_r - b_r,
        ),
{
}

/// The distance is never negative, is the same both ways, and is zero
/// exactly between a hexagon and itself.
pub proof fn lemma_hex_dist_metric(a_q: int, a_r: int, b_q: int, b_r: int)
    ensures
        hex_dist(a_q, a_r, b_q, b_r) >= 0,
        hex_dist(a_q, a_r, b_q, b_r) == hex_dist(b_q, b_r, a_q, a_r),
        hex_dist(a_q, a_r, b_q, b_r) == 0 <==> (a_q == b_q && a_r == b_r),
{
}

/// The distance obeys the triangle inequality: no detour is shorter than
/// the direct way.
pub proof fn lemma_hex_dist_triangle(a_q: int, a_r: int, b_q: int, b_r: int, c_q: int, c_r: int)
    ensures
        hex_dist(a_q, a_r, c_q, c_r) <= hex_dist(a_q, a_r, b_q, b_r) + hex_dist(b_q, b_r, c_q, c_r),
{
    lemma_hex_dist_exact(a_q, a_r, c_q, c_r);
    lemma_hex_dist_exact(a_q, a_r, b_q, b_r);
    lemma_hex_dist_exact(b_q, b_r, c_q, c_r);
}

/// Two hexagons are adjacent exactly when they are one step apart.
pub proof fn lemma_adjacent_iff_distance_one(a: (i32, i32), b: (i32, i32))
    ensures
        hex_adjacent(a, b) <==> hex_dist(a.0 as int, a.1 as int, b.0 as int, b.1 as int) == 1,
{
    lemma_hex_dist_exact(a.0 as int, a.1 as int, b.0 as int, b.1 as int);
}

/// Adjacency is symmetric.
pub proof fn lemma_adjacent_symmetric(a: (i32, i32), b: (i32, i32))
    ensures
        hex_adjacent(a, b) <==> hex_adjacent(b, a),
{
}

/// `p` is a chain of hexagons, each adjacent to the next.
pub open spec fn is_hex_chain(p: Seq<(i32, i32)>) -> bool {
    &&& p.len() > 0
    &&& forall|i: int| 0 <= i < p.len() - 1 ==> hex_adjacent(#[trigger] p[i], p[i + 1])
}

/// A chain of `hex_dist(a, b) + 1` hexagons from `a` to `b`, found by
/// stepping each time to the neighbour that lies towards `b`.
proof fn chain_towards(a: (i32, i32), b: (i32, i32)) -> (p: Seq<(i32, i32)>)
    ensures
        is_hex_chain(p),
        p[0] == a,
        p.last() == b,
        p.len() == hex_dist(a.0 as int, a.1 as int, b.0 as int, b.1 as int) + 1,
    decreases hex_dist(a.0 as int, a.1 as int, b.0 as int, b.1 as int),
{
    lemma_hex_dist_exact(a.0 as int, a.1 as int, b.0 as int, b.1 as int);
    lemma_hex_dist_metric(a.0 as int, a.1 as int, b.0 as int, b.1 as int);
    if a == b {
        seq![a]
    } else {
        let dq = b.0 - a.0;
        let dr = b.1 - a.1;
        let step: (int, int) = if dq > 0 && dr < 0 {
            (1, -1)
        } else if dq < 0 && dr > 0 {
            (-1, 1)
        } else if dq > 0 {
            (1, 0)
        } else if dq < 0 {
            (-1, 0)
        } else if dr > 0 {
            (0, 1)
        } else {
            (0, -1)
        };
        let n: (i32, i32) = ((a.0 + step.0) as i32, (a.1 + step.1) as i32);
        assert(n.0 == a.0 + step.0 && n.1 == a.1 + step.1);
        lemma_hex_dist_exact(n.0 as int, n.1 as int, b.0 as int, b.1 as int);
        assert(hex_dist(n.0 as int, n.1 as int, b.0 as int, b.1 as int) == hex_dist(
            a.0 as int,
            a.1 as int,
            b.0 as int,
            b.1 as int,
        ) - 1);
        let rest = chain_towards(n, b);
        let p = seq![a] + rest;
        assert forall|i: int| 0 <= i < p.len() - 1 implies hex_adjacent(#[trigger] p[i], p[i + 1]) by {
            if i > 0 {
                assert(p[i] == rest[i - 1] && p[i + 1] == rest[(i - 1) + 1]);
            } else {
                assert(p[1] == rest[0]);
            }
        }
        assert(p.last() == rest.last());
        p
    }
}

/// The distance is exactly the number of steps of the shortest chain of
/// adjacent hexagons: some chain from `a` to `b` takes that many steps (and
/// by `lemma_chain_no_shorter` none takes fewer).
pub proof fn law_distance_is_attained(a: (i32, i32), b: (i32, i32))
    ensures
        exists|p: Seq<(i32, i32)>|
            is_hex_chain(p) && p[0] == a && p.last() == b && p.len() == hex_dist(
                a.0 as int,
                a.1 as int,
                b.0 as int,
                b.1 as int,
            ) + 1,
{
    let p = chain_towards(a, b);
    assert(is_hex_chain(p) && p[0] == a && p.last() == b);
}

/// No chain of adjacent hexagons is shorter than the distance between its
/// ends.
pub proof fn lemma_chain_no_shorter(p: Seq<(i32, i32)>)
    requires
        is_hex_chain(p),
    ensures
        hex_dist(p[0].0 as int, p[0].1 as int, p.last().0 as int, p.last().1 as int) <= p.len() - 1,
    decreases p.len(),
{
    if p.len() > 1 {
        let q = p.drop_last();
        assert(is_hex_chain(q)) by {
            assert forall|i: int| 0 <= i < q.len() - 1 implies hex_adjacent(#[trigger] q[i], q[i + 1]) by {
                assert(q[i] == p[i] && q[i + 1] == p[i + 1]);
            }
        }
        lemma_chain_no_shorter(q);
        let n = p.len();
        assert(q.last() == p[n - 2]);
        assert(hex_adjacent(p[n - 2], p[(n - 2) + 1]));
        lemma_adjacent_iff_distance_one(p[n - 2], p[n - 1]);
        lemma_hex_dist_triangle(
            p[0].0 as int,
            p[0].1 as int,
            p[n - 2].0 as int,
            p[n - 2].1 as int,
            p[n - 1].0 as int,
            p[n - 1].1 as int,
        );
    } else {
        lemma_hex_dist_metric(p[0].0 as int, p[0].1 as int, p[0].0 as int, p[0].1 as int);
    }
}

} // verus!
