//! Cells of a rectangular grid addressed by signed coordinates.
use vstd::prelude::*;

verus! {

/// A cell position: column and row.
pub type Coord = (isize, isize);

/// The offset of cell `(x, y)` in a row-major buffer of `width` by `height` cells, if the cell
/// lies inside it.
pub open spec fn cell_offset(x: int, y: int, width: int, height: int) -> Option<int> {
    if 0 <= x < width && 0 <= y < height {
        Some(x + y * width)
    } else {
        None
    }
}

/// Squared Euclidean distance between two cells.
pub open spec fn sq_dist(a: Coord, b: Coord) -> int {
    (a.0 - b.0) * (a.0 - b.0) + (a.1 - b.1) * (a.1 - b.1)
}

/// Cell `p` lies strictly inside the circle of radius `r` around `c`.
pub open spec fn in_disc(c: Coord, r: int, p: Coord) -> bool {
    r > 0 && (p.0 - c.0) * (p.0 - c.0) + (p.1 - c.1) * (p.1 - c.1) < r * r
}

/// If the given coordinate is in bounds, its index within an image with the given dimensions.
pub fn bounds(x: isize, y: isize, width: usize, height: usize) -> (r: Option<usize>)
    requires
        width * height <= usize::MAX,
    ensures
        r matches Some(i) ==> cell_offset(x as int, y as int, width as int, height as int) == Some(i as int),
        r is None ==> cell_offset(x as int, y as int, width as int, height as int) is None,
{
    if x >= 0 && y >= 0 && (x as usize) < width && (y as usize) < height {
        let ux = x as usize;
        let uy = y as usize;
        assert(ux + uy * width < width * height) by (nonlinear_arith)
            requires
                ux < width,
                uy < height,
        {
            assert(uy * width + width <= height * width);
        }
        Some(ux + uy * width)
    } else {
        None
    }
}

proof fn lemma_square_bounds(d: int, m: int)
    requires
        d * d <= m,
    ensures
        -m <= d <= m,
        0 <= d * d,
{
    assert(0 <= d * d) by (nonlinear_arith);
    assert(-m <= d <= m) by (nonlinear_arith)
        requires
            d * d <= m,
            0 <= d * d,
    {
        if d > 1 {
            assert(d <= d * d);
        } else if d < -1 {
            assert(-d <= d * d);
        }
    }
}

proof fn lemma_sq_dist_nonneg(a: Coord, b: Coord)
    ensures
        0 <= sq_dist(a, b),
{
    let dx = a.0 - b.0;
    let dy = a.1 - b.1;
    assert(0 <= dx * dx) by (nonlinear_arith);
    assert(0 <= dy * dy) by (nonlinear_arith);
}

/// Squared distance between two cells.
pub fn dist_sq(a: Coord, b: Coord) -> (r: isize)
    requires
        sq_dist(a, b) <= isize::MAX,
    ensures
        r == sq_dist(a, b),
{
    let ghost gx = a.0 - b.0;
    let ghost gy = a.1 - b.1;
    proof {
        lemma_square_bounds(gy, gy * gy);
        lemma_square_bounds(gx, gx * gx);
        lemma_square_bounds(gx, isize::MAX as int - gy * gy);
        lemma_square_bounds(gy, isize::MAX as int - gx * gx);
    }
    let dx = a.0 - b.0;
    let dy = a.1 - b.1;
    dx * dx + dy * dy
}

/// How much closer to `goal` cell `a` is than cell `b`, in squared distance.
pub fn heuristic(a: Coord, b: Coord, goal: Coord) -> (r: isize)
    requires
        sq_dist(a, goal) <= isize::MAX,
        sq_dist(b, goal) <= isize::MAX,
    ensures
        r == sq_dist(a, goal) - sq_dist(b, goal),
{
    proof {
        lemma_sq_dist_nonneg(a, goal);
        lemma_sq_dist_nonneg(b, goal);
    }
    dist_sq(a, goal) - dist_sq(b, goal)
}

/// Up, down, left, right.
pub fn four_directions(p: Coord) -> (r: [Coord; 4])
    requires
        isize::MIN < p.0 < isize::MAX,
        isize::MIN < p.1 < isize::MAX,
    ensures
        r@ == seq![((p.0 - 1) as isize, p.1), ((p.0 + 1) as isize, p.1), (p.0, (p.1 - 1) as isize), (p.0, (p.1 + 1) as isize)],
{
    let (x, y) = p;
    let r = [(x - 1, y), (x + 1, y), (x, y - 1), (x, y + 1)];
    assert(r@ =~= seq![((p.0 - 1) as isize, p.1), ((p.0 + 1) as isize, p.1), (p.0, (p.1 - 1) as isize), (p.0, (p.1 + 1) as isize)]);
    r
}

proof fn lemma_disc_range(c: Coord, r: int, p: Coord)
    requires
        in_disc(c, r, p),
    ensures
        -r < p.0 - c.0 < r,
        -r < p.1 - c.1 < r,
{
    let a = p.0 - c.0;
    let b = p.1 - c.1;
    assert(-r < a < r && -r < b < r) by (nonlinear_arith)
        requires
            r > 0,
            a * a + b * b < r * r,
    {
        assert(0 <= a * a);
        assert(0 <= b * b);
        if a >= r {
            assert(a * a >= r * r);
        }
        if a <= -r {
            assert(a * a >= r * r);
        }
        if b >= r {
            assert(b * b >= r * r);
        }
        if b <= -r {
            assert(b * b >= r * r);
        }
    }
}

/// Cell `p` comes before cell `q` when their offsets from `c` are ordered by column
/// offset, then by row offset.
pub open spec fn offset_before(c: Coord, p: Coord, q: Coord) -> bool {
    (p.0 - c.0 < q.0 - c.0) || (p.0 - c.0 == q.0 - c.0 && p.1 - c.1 < q.1 - c.1)
}

/// The cells strictly inside the circle of radius `r` around `c`, each once, in ascending
/// order of their offset from `c`: by column offset, then by row offset.
pub fn circle(c: Coord, r: isize) -> (out: Vec<Coord>)
    requires
        r > 0 ==> 2 * r * r <= isize::MAX,
        r > 0 ==> isize::MIN + r <= c.0 <= isize::MAX - r - 1,
        r > 0 ==> isize::MIN + r <= c.1 <= isize::MAX - r - 1,
    ensures
        forall|p: Coord| #[trigger] out@.contains(p) <==> in_disc(c, r as int, p),
        forall|i: int, j: int| 0 <= i < j < out@.len() ==> offset_before(c, #[trigger] out@[i], #[trigger] out@[j]),
        out@.no_duplicates(),
{
    let mut out: Vec<Coord> = Vec::new();
    if r <= 0 {
        return out;
    }
    let mut dx: isize = -r;
    assert(r < isize::MAX) by (nonlinear_arith)
        requires
            2 * r * r <= isize::MAX,
            r > 0,
    ;
    proof {
        assert forall|p: Coord| #[trigger] out@.contains(p) <==> in_disc(c, r as int, p) && p.0 - c.0 < dx by {
            if in_disc(c, r as int, p) {
                lemma_disc_range(c, r as int, p);
            }
        }
    }
    while dx <= r
        invariant
            0 < r < isize::MAX,
            2 * r * r <= isize::MAX,
            isize::MIN + r <= c.0 <= isize::MAX - r - 1,
            isize::MIN + r <= c.1 <= isize::MAX - r - 1,
            -r <= dx <= r + 1,
            forall|p: Coord| #[trigger] out@.contains(p) <==> in_disc(c, r as int, p) && p.0 - c.0 < dx,
            forall|i: int, j: int| 0 <= i < j < out@.len() ==> offset_before(c, #[trigger] out@[i], #[trigger] out@[j]),
            out@.no_duplicates(),
        decreases r + 1 - dx,
    {
        let mut dy: isize = -r;
        proof {
            assert forall|p: Coord| #[trigger] out@.contains(p) <==> in_disc(c, r as int, p) && (p.0 - c.0 < dx
                || (p.0 - c.0 == dx && p.1 - c.1 < dy)) by {
                if in_disc(c, r as int, p) {
                    lemma_disc_range(c, r as int, p);
                }
            }
        }
        while dy <= r
            invariant
                0 < r < isize::MAX,
                2 * r * r <= isize::MAX,
                isize::MIN + r <= c.0 <= isize::MAX - r - 1,
                isize::MIN + r <= c.1 <= isize::MAX - r - 1,
                -r <= dx <= r,
                -r <= dy <= r + 1,
                forall|p: Coord| #[trigger] out@.contains(p) <==> in_disc(c, r as int, p) && (p.0 - c.0 < dx
                    || (p.0 - c.0 == dx && p.1 - c.1 < dy)),
                forall|i: int, j: int| 0 <= i < j < out@.len() ==> offset_before(c, #[trigger] out@[i], #[trigger] out@[j]),
                out@.no_duplicates(),
            decreases r + 1 - dy,
        {
            assert(0 <= dx * dx <= r * r && 0 <= dy * dy <= r * r && 2 * (r * r) <= isize::MAX) by (nonlinear_arith)
                requires
                    -r <= dx <= r,
                    -r <= dy <= r,
                    2 * r * r <= isize::MAX,
            ;
            if dx * dx + dy * dy < r * r {
                let p = (c.0 + dx, c.1 + dy);
                proof {
                    assert(p.0 - c.0 == dx);
                    assert(p.1 - c.1 == dy);
                    assert(in_disc(c, r as int, p));
                    assert(!out@.contains(p));
                }
                let ghost before = out@;
                out.push(p);
                proof {
                    assert forall|i: int, j: int| 0 <= i < j < out@.len() implies offset_before(c, #[trigger] out@[i], #[trigger] out@[j]) by {
                        if j == before.len() {
                            assert(before.contains(before[i]));
                        } else {
                            assert(before[i] == out@[i] && before[j] == out@[j]);
                        }
                    }
                    assert forall|i: int, j: int| 0 <= i < j < out@.len() implies out@[i] != out@[j] by {
                        if j == before.len() {
                            assert(before.contains(before[i]));
                        }
                    }
                    assert forall|q: Coord| #[trigger] out@.contains(q) <==> in_disc(c, r as int, q) && (q.0 - c.0 < dx
                        || (q.0 - c.0 == dx && q.1 - c.1 < dy + 1)) by {
                        assert(out@[before.len() as int] == p);
                        if q.0 - c.0 == dx && q.1 - c.1 == dy {
                            assert(q == p);
                        }
                        if q == p {
                        } else if before.contains(q) {
                            let k = choose|k: int| 0 <= k < before.len() && before[k] == q;
                            assert(out@[k] == q);
                        } else if out@.contains(q) {
                            let k = choose|k: int| 0 <= k < out@.len() && out@[k] == q;
                            assert(k != before.len());
                            assert(before[k] == q);
                        }
                    }
                }
            } else {
                proof {
                    assert forall|q: Coord| #[trigger] out@.contains(q) <==> in_disc(c, r as int, q) && (q.0 - c.0 < dx
                        || (q.0 - c.0 == dx && q.1 - c.1 < dy + 1)) by {
                        if q.0 - c.0 == dx && q.1 - c.1 == dy {
                            assert(!in_disc(c, r as int, q));
                        }
                    }
                }
            }
            dy = dy + 1;
        }
        proof {
            assert forall|p: Coord| #[trigger] out@.contains(p) <==> in_disc(c, r as int, p) && p.0 - c.0 < dx + 1 by {
                if in_disc(c, r as int, p) {
                    lemma_disc_range(c, r as int, p);
                }
            }
        }
        dx = dx + 1;
    }
    proof {
        assert forall|p: Coord| #[trigger] out@.contains(p) <==> in_disc(c, r as int, p) by {
            if in_disc(c, r as int, p) {
                lemma_disc_range(c, r as int, p);
            }
        }
    }
    out
}

/// The cost of a step from `a` to `b` on the way to `goal`: one, plus how much farther from
/// `goal` the step leads in squared distance, and never below zero.
pub open spec fn step_cost_of(a: Coord, b: Coord, goal: Coord) -> int {
    let c = 1 + sq_dist(b, goal) - sq_dist(a, goal);
    if c < 0 {
        0
    } else {
        c
    }
}

/// One plus how much farther from `goal` a step from `a` to `b` leads, floored at zero.
pub fn step_cost(a: Coord, b: Coord, goal: Coord) -> (r: u64)
    requires
        sq_dist(a, goal) <= isize::MAX,
        sq_dist(b, goal) <= isize::MAX,
    ensures
        r == step_cost_of(a, b, goal),
{
    let c: i128 = 1i128 + heuristic(b, a, goal) as i128;
    if c < 0 {
        0
    } else {
        proof {
            lemma_sq_dist_nonneg(a, goal);
        }
        c as u64
    }
}

/// The four cells next to `p`: left, right, above and below.
pub open spec fn beside(p: Coord, q: Coord) -> bool {
    ||| q == ((p.0 - 1) as isize, p.1)
    ||| q == ((p.0 + 1) as isize, p.1)
    ||| q == (p.0, (p.1 - 1) as isize)
    ||| q == (p.0, (p.1 + 1) as isize)
}

/// Cell `q` lies in the `width` by `height` grid and is not marked in `blocked`.
pub open spec fn is_open(q: Coord, width: int, height: int, blocked: Seq<bool>) -> bool {
    cell_offset(q.0 as int, q.1 as int, width, height) matches Some(i) && !blocked[i]
}

/// The cells next to `p` that lie in the grid and are not blocked.
pub fn open_neighbours(p: Coord, width: usize, height: usize, blocked: &[bool]) -> (r: Vec<Coord>)
    requires
        isize::MIN < p.0 < isize::MAX,
        isize::MIN < p.1 < isize::MAX,
        width * height <= usize::MAX,
        blocked@.len() == width * height,
    ensures
        forall|q: Coord| #[trigger] r@.contains(q) <==> beside(p, q) && is_open(q, width as int, height as int, blocked@),
{
    let dirs = four_directions(p);
    let mut out: Vec<Coord> = Vec::new();
    let mut k: usize = 0;
    while k < 4
        invariant
            k <= 4,
            width * height <= usize::MAX,
            blocked@.len() == width * height,
            dirs@ == seq![((p.0 - 1) as isize, p.1), ((p.0 + 1) as isize, p.1), (p.0, (p.1 - 1) as isize), (p.0, (p.1 + 1) as isize)],
            forall|q: Coord| #[trigger] out@.contains(q) <==> dirs@.take(k as int).contains(q) && is_open(q, width as int, height as int, blocked@),
        decreases 4 - k,
    {
        let q = dirs[k];
        let ghost before = out@;
        match bounds(q.0, q.1, width, height) {
            Some(i) => {
                proof {
                    assert(i < width * height) by (nonlinear_arith)
                        requires
                            i == q.0 + q.1 * width,
                            0 <= q.0 < width,
                            0 <= q.1 < height,
                    {
                        assert(q.1 * width + width <= height * width);
                    }
                }
                assert(is_open(q, width as int, height as int, blocked@) == !blocked@[i as int]);
                if !blocked[i] {
                    out.push(q);
                }
            },
            None => {
                assert(!is_open(q, width as int, height as int, blocked@));
            },
        }
        let ghost open_q = is_open(q, width as int, height as int, blocked@);
        assert(open_q ==> out@ == before.push(q));
        assert(!open_q ==> out@ == before);
        proof {
            assert(dirs@.take(k + 1) =~= dirs@.take(k as int).push(q));
            assert forall|x: Coord| #[trigger] out@.contains(x) <==> dirs@.take(k + 1).contains(x) && is_open(x, width as int, height as int, blocked@) by {
                assert(dirs@.take(k + 1).contains(x) <==> dirs@.take(k as int).contains(x) || x == q) by {
                    if dirs@.take(k + 1).contains(x) {
                        let j = choose|j: int| 0 <= j < k + 1 && #[trigger] dirs@.take(k + 1)[j] == x;
                        if j < k {
                            assert(dirs@.take(k as int)[j] == x);
                        }
                    }
                    if dirs@.take(k as int).contains(x) {
                        let j = choose|j: int| 0 <= j < k && #[trigger] dirs@.take(k as int)[j] == x;
                        assert(dirs@.take(k + 1)[j] == x);
                    }
                    assert(dirs@.take(k + 1)[k as int] == q);
                }
                if open_q {
                    assert(out@.contains(x) <==> before.contains(x) || x == q) by {
                        if out@.contains(x) && x != q {
                            let j = choose|j: int| 0 <= j < out@.len() && out@[j] == x;
                            assert(j < before.len());
                            assert(before[j] == x);
                        }
                        if before.contains(x) {
                            let j = choose|j: int| 0 <= j < before.len() && before[j] == x;
                            assert(out@[j] == x);
                        }
                        assert(out@[before.len() as int] == q);
                    }
                }
            }
        }
        k = k + 1;
    }
    proof {
        assert(dirs@.take(4) =~= dirs@);
        assert forall|q: Coord| beside(p, q) <==> #[trigger] dirs@.contains(q) by {
            if beside(p, q) {
                if q == dirs@[0] {} else if q == dirs@[1] { assert(dirs@[1] == q); } else if q == dirs@[2] { assert(dirs@[2] == q); } else { assert(dirs@[3] == q); }
            }
        }
    }
    out
}

} // verus!
