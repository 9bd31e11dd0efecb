//! The boundary projector: turns one cell's boundary vertices into a closed
//! polygon ring for planar display, correcting for the antimeridian.
//!
//! A point is a `(longitude, latitude)` pair in signed microdegrees.  When
//! any two consecutive vertices of the open chain jump by more than 180
//! degrees of longitude, the cell straddles the antimeridian; every vertex
//! with negative longitude is then shifted east by 360 degrees, so the ring
//! stays contiguous on the plane instead of wrapping across it.

use vstd::prelude::*;

verus! {

/// Whether a point lies in the coordinate domain.
pub open spec fn point_in_domain(p: (i64, i64)) -> bool {
    -180_000000 <= p.0 <= 180_000000 && -90_000000 <= p.1 <= 90_000000
}

/// Whether two longitudes differ by more than 180 degrees.
pub open spec fn lng_jump(a: i64, b: i64) -> bool {
    (if a >= b {
        a - b
    } else {
        b - a
    }) > 180_000000
}

/// Whether some consecutive pair of the open vertex chain jumps the
/// antimeridian.
pub open spec fn straddles(ps: Seq<(i64, i64)>) -> bool {
    exists|i: int| 1 <= i < ps.len() && lng_jump((#[trigger] ps[i - 1]).0, ps[i].0)
}

/// The straddle test over only the first `k` vertices.
pub open spec fn straddles_prefix(ps: Seq<(i64, i64)>, k: int) -> bool {
    exists|i: int| 1 <= i < k && i < ps.len() && lng_jump((#[trigger] ps[i - 1]).0, ps[i].0)
}

/// Shifts a vertex with negative longitude east by a full turn.
pub open spec fn shift_point(p: (i64, i64)) -> (i64, i64) {
    if p.0 < 0 {
        ((p.0 + 360_000000) as i64, p.1)
    } else {
        p
    }
}

/// The projected ring: the chain, shifted as a whole exactly when it
/// straddles the antimeridian, and closed by repeating its first vertex.
pub open spec fn spec_project(ps: Seq<(i64, i64)>) -> Seq<(i64, i64)> {
    let base = if straddles(ps) {
        ps.map_values(|p: (i64, i64)| shift_point(p))
    } else {
        ps
    };
    if base.len() == 0 {
        base
    } else {
        base.push(base[0])
    }
}

/// A closed ring: at least two points, the first repeated as the last.
pub open spec fn ring_closed(r: Seq<(i64, i64)>) -> bool {
    r.len() >= 2 && r[0] == r[r.len() - 1]
}

/// Projects one cell boundary onto the plane: detects an antimeridian
/// straddle over the consecutive pairs of the open chain, shifts the
/// negative longitudes east by 360 degrees when one is found, and closes
/// the ring.
pub fn project_ring(points: &Vec<(i64, i64)>) -> (r: Vec<(i64, i64)>)
    requires
        forall|i: int| 0 <= i < points@.len() ==> point_in_domain(#[trigger] points@[i]),
    ensures
        r@ == spec_project(points@),
        points@.len() > 0 ==> ring_closed(r@),
        r@.len() == (if points@.len() == 0 {
            0int
        } else {
            points@.len() as int + 1
        }),
{
    let ghost ps = points@;
    let n = points.len();
    let mut straddle = false;
    let mut i: usize = 1;
    while i < n
        invariant
            1 <= i,
            n == ps.len(),
            ps == points@,
            straddle == straddles_prefix(ps, i as int),
            forall|x: int| 0 <= x < ps.len() ==> point_in_domain(#[trigger] ps[x]),
        decreases n - i,
    {
        let a = points[i - 1].0;
        let b = points[i].0;
        let diff = if a >= b {
            a - b
        } else {
            b - a
        };
        if diff > 180_000000 {
            straddle = true;
        }
        i = i + 1;
    }
    proof {
        if n > 0 {
            assert(straddles_prefix(ps, n as int) == straddles(ps));
        }
        assert(straddle == straddles(ps));
    }
    let mut out: Vec<(i64, i64)> = Vec::new();
    let mut j: usize = 0;
    while j < n
        invariant
            j <= n,
            n == ps.len(),
            ps == points@,
            straddle == straddles(ps),
            forall|x: int| 0 <= x < ps.len() ==> point_in_domain(#[trigger] ps[x]),
            out@ == (if straddle {
                ps.take(j as int).map_values(|p: (i64, i64)| shift_point(p))
            } else {
                ps.take(j as int)
            }),
        decreases n - j,
    {
        let p = points[j];
        let q = if straddle && p.0 < 0 {
            (p.0 + 360_000000, p.1)
        } else {
            p
        };
        proof {
            assert(q == (if straddle {
                shift_point(ps[j as int])
            } else {
                ps[j as int]
            }));
            assert(ps.take(j + 1 as int) =~= ps.take(j as int).push(ps[j as int]));
            assert(ps.take(j + 1 as int).map_values(|p: (i64, i64)| shift_point(p)) =~= ps.take(
                j as int,
            ).map_values(|p: (i64, i64)| shift_point(p)).push(shift_point(ps[j as int])));
        }
        out.push(q);
        j = j + 1;
    }
    proof {
        assert(ps.take(n as int) =~= ps);
        assert(ps.map_values(|p: (i64, i64)| shift_point(p)).len() == ps.len());
    }
    if out.len() > 0 {
        let first = out[0];
        out.push(first);
    }
    out
}

} // verus!
