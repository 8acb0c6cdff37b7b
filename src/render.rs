//! Colours and mirrored copies of row-major RGB images, and random cells.
use crate::grid::{bounds, cell_offset, circle, in_disc, Coord};
use rand::rngs::SmallRng;
use rand::{Rng, SeedableRng};
use vstd::prelude::*;

verus! {

#[verifier::external_type_specification]
#[verifier::external_body]
pub struct ExSmallRng(SmallRng);

/// Relies on rand's `SeedableRng::seed_from_u64` for `SmallRng`: a generator started from `seed`.
#[verifier::external_body]
pub(crate) fn seeded_rng(seed: u64) -> SmallRng {
    SmallRng::seed_from_u64(seed)
}

/// Relies on rand's `Rng::gen_range` over `lo..=hi`: it returns a value of that range, and
/// panics only when the range is empty.
#[verifier::external_body]
pub(crate) fn draw_between(rng: &mut SmallRng, lo: i64, hi: i64) -> (r: i64)
    requires
        lo <= hi,
    ensures
        lo <= r <= hi,
{
    rng.gen_range(lo..=hi)
}

/// How far each colour component of a path may stray from its base colour.
pub const JITTER: i32 = 30;

/// The base colour of path number `idx`: three colours in turn.
pub open spec fn base_color(idx: int) -> Seq<int> {
    if idx % 3 == 0 {
        seq![0xFF, 0xEC, 0x04]
    } else if idx % 3 == 1 {
        seq![0x38, 0xC6, 0xDB]
    } else {
        seq![0xDB, 0x38, 0x83]
    }
}

/// `v` held to the range of a byte.
pub open spec fn clamp_byte(v: int) -> int {
    if v < 0 {
        0
    } else if v > 255 {
        255
    } else {
        v
    }
}

fn base_component(idx: usize, c: usize) -> (r: i32)
    requires
        c < 3,
    ensures
        r == base_color(idx as int)[c as int],
{
    let k = idx % 3;
    if k == 0 {
        if c == 0 { 0xFF } else if c == 1 { 0xEC } else { 0x04 }
    } else if k == 1 {
        if c == 0 { 0x38 } else if c == 1 { 0xC6 } else { 0xDB }
    } else {
        if c == 0 { 0xDB } else if c == 1 { 0x38 } else { 0x83 }
    }
}

/// The colour of path number `idx` with each component moved by `jitter` and held to a byte.
pub fn jittered_color(idx: usize, jitter: [i32; 3]) -> (r: [u8; 3])
    requires
        forall|c: int| 0 <= c < 3 ==> -JITTER <= #[trigger] jitter[c] <= JITTER,
    ensures
        forall|c: int| 0 <= c < 3 ==> #[trigger] r[c] as int == clamp_byte(base_color(idx as int)[c] + jitter[c]),
{
    let mut out: [u8; 3] = [0; 3];
    let mut c: usize = 0;
    while c < 3
        invariant
            c <= 3,
            forall|c: int| 0 <= c < 3 ==> -JITTER <= #[trigger] jitter[c] <= JITTER,
            forall|d: int| 0 <= d < c ==> #[trigger] out[d] as int == clamp_byte(base_color(idx as int)[d] + jitter[d]),
        decreases 3 - c,
    {
        let v = base_component(idx, c) + jitter[c];
        let b: u8 = if v < 0 {
            0
        } else if v > 255 {
            255
        } else {
            v as u8
        };
        out[c] = b;
        c = c + 1;
    }
    out
}

/// A colour for path number `idx`: its base colour with each component moved by up to
/// [`JITTER`], drawn from a generator seeded with `idx`.
pub fn index_color(idx: usize) -> (r: [u8; 3])
    ensures
        forall|c: int|
            0 <= c < 3 ==> clamp_byte(base_color(idx as int)[c] - JITTER) <= #[trigger] r[c] as int
                <= clamp_byte(base_color(idx as int)[c] + JITTER),
{
    let mut rng = seeded_rng(idx as u64);
    let mut jitter: [i32; 3] = [0; 3];
    let mut c: usize = 0;
    while c < 3
        invariant
            c <= 3,
            forall|d: int| 0 <= d < 3 ==> -JITTER <= #[trigger] jitter[d] <= JITTER,
        decreases 3 - c,
    {
        let d = draw_between(&mut rng, -(JITTER as i64), JITTER as i64);
        jitter[c] = d as i32;
        c = c + 1;
    }
    jittered_color(idx, jitter)
}

/// A random cell of a `width` by `height` grid.
pub fn random_pos(rng: &mut SmallRng, width: usize, height: usize) -> (r: Coord)
    requires
        0 < width <= i64::MAX,
        0 < height <= i64::MAX,
        width <= isize::MAX,
        height <= isize::MAX,
    ensures
        0 <= r.0 < width,
        0 <= r.1 < height,
{
    let x = draw_between(rng, 0, width as i64 - 1);
    let y = draw_between(rng, 0, height as i64 - 1);
    (x as isize, y as isize)
}

/// Row `k` of an image whose rows are `w3` bytes long.
pub open spec fn row(img: Seq<u8>, w3: int, k: int) -> Seq<u8> {
    img.subrange(k * w3, k * w3 + w3)
}

/// The first `n` rows, each followed by its own bytes in reverse order.
pub open spec fn mirrored_rows(img: Seq<u8>, w3: int, n: int) -> Seq<u8>
    decreases n,
{
    if n <= 0 {
        Seq::empty()
    } else {
        mirrored_rows(img, w3, n - 1) + row(img, w3, n - 1) + row(img, w3, n - 1).reverse()
    }
}

/// The first `n` rows, last row first.
pub open spec fn flipped_rows(img: Seq<u8>, w3: int, n: int) -> Seq<u8>
    decreases n,
{
    if n <= 0 {
        Seq::empty()
    } else {
        row(img, w3, n - 1) + flipped_rows(img, w3, n - 1)
    }
}

proof fn lemma_row_fits(len: int, w3: int, k: int)
    requires
        w3 > 0,
        0 <= k < len / w3,
    ensures
        k * w3 + w3 <= len,
        0 <= k * w3,
{
    vstd::arithmetic::div_mod::lemma_fundamental_div_mod(len, w3);
    let n = len / w3;
    assert(k * w3 + w3 <= n * w3 && 0 <= k * w3) by (nonlinear_arith)
        requires
            k < n,
            0 <= k,
            w3 > 0,
    ;
    assert(len % w3 >= 0) by {
        vstd::arithmetic::div_mod::lemma_mod_pos_bound(len, w3);
    }
}

/// Each whole row of `w` RGB pixels followed by its bytes in reverse order, which doubles
/// the image's width.
pub fn mirror_y(img: &[u8], w: usize) -> (out: Vec<u8>)
    requires
        0 < w,
        3 * w <= usize::MAX,
    ensures
        out@ == mirrored_rows(img@, 3 * w as int, img@.len() as int / (3 * w as int)),
{
    let w3 = w * 3;
    let n = img.len() / w3;
    let mut out: Vec<u8> = Vec::new();
    let mut k: usize = 0;
    while k < n
        invariant
            w3 == 3 * w as int,
            w3 > 0,
            n == img@.len() as int / (w3 as int),
            k <= n,
            img@.len() <= usize::MAX,
            out@ == mirrored_rows(img@, w3 as int, k as int),
        decreases n - k,
    {
        proof {
            lemma_row_fits(img@.len() as int, w3 as int, k as int);
        }
        let base = k * w3;
        let ghost r = row(img@, w3 as int, k as int);
        let ghost done = out@;
        let mut i: usize = 0;
        while i < w3
            invariant
                w3 > 0,
                base == k as int * w3 as int,
                base + w3 <= img@.len(),
                img@.len() <= usize::MAX,
                r == row(img@, w3 as int, k as int),
                i <= w3,
                out@ == done + r.take(i as int),
            decreases w3 - i,
        {
            out.push(img[base + i]);
            i = i + 1;
            proof {
                assert(out@ =~= done + r.take(i as int));
            }
        }
        let mut i: usize = w3;
        while i > 0
            invariant
                w3 > 0,
                base == k as int * w3 as int,
                base + w3 <= img@.len(),
                img@.len() <= usize::MAX,
                r == row(img@, w3 as int, k as int),
                i <= w3,
                out@ == done + r + r.reverse().take(w3 as int - i as int),
            decreases i,
        {
            i = i - 1;
            out.push(img[base + i]);
            proof {
                assert(out@ =~= done + r + r.reverse().take(w3 as int - i as int));
            }
        }
        proof {
            assert(r.take(w3 as int) =~= r);
            assert(r.reverse().take(w3 as int) =~= r.reverse());
        }
        k = k + 1;
    }
    out
}

/// The image followed by its whole rows of `w` RGB pixels in reverse order, which doubles
/// the image's height.
pub fn mirror_x(img: &[u8], w: usize) -> (out: Vec<u8>)
    requires
        0 < w,
        3 * w <= usize::MAX,
    ensures
        out@ == img@ + flipped_rows(img@, 3 * w as int, img@.len() as int / (3 * w as int)),
{
    let w3 = w * 3;
    let n = img.len() / w3;
    let mut out: Vec<u8> = Vec::new();
    let mut i: usize = 0;
    while i < img.len()
        invariant
            i <= img@.len(),
            out@ == img@.take(i as int),
        decreases img@.len() - i,
    {
        out.push(img[i]);
        i = i + 1;
        proof {
            assert(out@ =~= img@.take(i as int));
        }
    }
    proof {
        assert(img@.take(img@.len() as int) =~= img@);
        assert(flipped_rows(img@, w3 as int, n as int) =~= flipped_rows(img@, w3 as int, n as int).subrange(0, 0) + flipped_rows(img@, w3 as int, n as int));
    }
    let mut k: usize = n;
    while k > 0
        invariant
            w3 == 3 * w as int,
            w3 > 0,
            n == img@.len() as int / (w3 as int),
            k <= n,
            img@.len() <= usize::MAX,
            out@ + flipped_rows(img@, w3 as int, k as int) == img@ + flipped_rows(img@, w3 as int, n as int),
        decreases k,
    {
        k = k - 1;
        proof {
            lemma_row_fits(img@.len() as int, w3 as int, k as int);
        }
        let base = k * w3;
        let ghost r = row(img@, w3 as int, k as int);
        let ghost done = out@;
        let mut i: usize = 0;
        while i < w3
            invariant
                w3 > 0,
                base == k as int * w3 as int,
                base + w3 <= img@.len(),
                img@.len() <= usize::MAX,
                r == row(img@, w3 as int, k as int),
                i <= w3,
                out@ == done + r.take(i as int),
            decreases w3 - i,
        {
            out.push(img[base + i]);
            i = i + 1;
            proof {
                assert(out@ =~= done + r.take(i as int));
            }
        }
        proof {
            assert(r.take(w3 as int) =~= r);
            assert(done + flipped_rows(img@, w3 as int, k + 1) =~= out@ + flipped_rows(img@, w3 as int, k as int));
        }
    }
    proof {
        assert(out@ + flipped_rows(img@, w3 as int, 0) =~= out@);
    }
    out
}

/// Path cell `p`, if it lies in the grid, blocks its own cell `i` and each cell `i` strictly
/// within `r` of it.
pub open spec fn touches(p: Coord, r: int, w: int, h: int, i: int) -> bool {
    &&& cell_offset(p.0 as int, p.1 as int, w, h) is Some
    &&& cell_offset(p.0 as int, p.1 as int, w, h) == Some(i) || exists|q: Coord|
        in_disc(p, r, q) && #[trigger] cell_offset(q.0 as int, q.1 as int, w, h) == Some(i)
}

/// Some cell of `path` blocks cell `i`.
pub open spec fn carved(path: Seq<Coord>, r: int, w: int, h: int, i: int) -> bool {
    exists|k: int| 0 <= k < path.len() && #[trigger] touches(path[k], r, w, h, i)
}

/// Some cell of `path` is cell `i`.
pub open spec fn painted(path: Seq<Coord>, w: int, h: int, i: int) -> bool {
    exists|k: int| 0 <= k < path.len() && #[trigger] cell_offset(path[k].0 as int, path[k].1 as int, w, h) == Some(i)
}

/// Marks each cell of `path` that lies in the grid, and each cell strictly within `radius`
/// of it, as blocked, and paints the path's cells in `color`.
pub fn carve_path(
    blocked: &mut Vec<bool>,
    image: &mut Vec<u8>,
    path: &[Coord],
    color: [u8; 3],
    radius: isize,
    width: usize,
    height: usize,
)
    requires
        old(blocked)@.len() == width * height,
        old(image)@.len() == 3 * (width * height),
        3 * (width * height) <= usize::MAX,
        radius > 0 ==> 2 * radius * radius <= isize::MAX,
        width + radius < isize::MAX,
        height + radius < isize::MAX,
    ensures
        final(blocked)@.len() == width * height,
        final(image)@.len() == 3 * (width * height),
        forall|i: int|
            0 <= i < width * height ==> #[trigger] final(blocked)@[i] == (old(blocked)@[i] || carved(
                path@,
                radius as int,
                width as int,
                height as int,
                i,
            )),
        forall|i: int, c: int|
            0 <= i < width * height && 0 <= c < 3 ==> #[trigger] final(image)@[3 * i + c] == if painted(
                path@,
                width as int,
                height as int,
                i,
            ) {
                color[c]
            } else {
                old(image)@[3 * i + c]
            },
{
    let ghost b0 = blocked@;
    let ghost m0 = image@;
    let n = width * height;
    let mut k: usize = 0;
    while k < path.len()
        invariant
            n == width * height,
            3 * n <= usize::MAX,
            radius > 0 ==> 2 * radius * radius <= isize::MAX,
            width + radius < isize::MAX,
            height + radius < isize::MAX,
            k <= path@.len(),
            blocked@.len() == n,
            image@.len() == 3 * n,
            forall|i: int| 0 <= i < n ==> #[trigger] blocked@[i] == (b0[i] || carved(path@.take(k as int), radius as int, width as int, height as int, i)),
            forall|i: int, c: int| 0 <= i < n && 0 <= c < 3 ==> #[trigger] image@[3 * i + c] == if painted(path@.take(k as int), width as int, height as int, i) {
                color[c]
            } else {
                m0[3 * i + c]
            },
        decreases path@.len() - k,
    {
        let p = path[k];
        let ghost pre = path@.take(k as int);
        let ghost post = path@.take(k + 1);
        proof {
            assert(post =~= pre.push(p));
            assert forall|i: int| 0 <= i < n implies #[trigger] carved(post, radius as int, width as int, height as int, i) == (carved(pre, radius as int, width as int, height as int, i) || touches(p, radius as int, width as int, height as int, i)) by {
                if carved(post, radius as int, width as int, height as int, i) {
                    let j = choose|j: int| 0 <= j < post.len() && #[trigger] touches(post[j], radius as int, width as int, height as int, i);
                    if j < pre.len() {
                        assert(pre[j] == post[j]);
                    }
                }
                if carved(pre, radius as int, width as int, height as int, i) {
                    let j = choose|j: int| 0 <= j < pre.len() && #[trigger] touches(pre[j], radius as int, width as int, height as int, i);
                    assert(post[j] == pre[j]);
                }
                assert(post[k as int] == p);
            }
            assert forall|i: int| 0 <= i < n implies #[trigger] painted(post, width as int, height as int, i) == (painted(pre, width as int, height as int, i) || cell_offset(p.0 as int, p.1 as int, width as int, height as int) == Some(i)) by {
                if painted(post, width as int, height as int, i) {
                    let j = choose|j: int| 0 <= j < post.len() && #[trigger] cell_offset(post[j].0 as int, post[j].1 as int, width as int, height as int) == Some(i);
                    if j < pre.len() {
                        assert(pre[j] == post[j]);
                    }
                }
                if painted(pre, width as int, height as int, i) {
                    let j = choose|j: int| 0 <= j < pre.len() && #[trigger] cell_offset(pre[j].0 as int, pre[j].1 as int, width as int, height as int) == Some(i);
                    assert(post[j] == pre[j]);
                }
                assert(post[k as int] == p);
            }
        }
        match bounds(p.0, p.1, width, height) {
            Some(idx) => {
                proof {
                    assert(idx < n) by (nonlinear_arith)
                        requires
                            idx == p.0 + p.1 * width,
                            0 <= p.0 < width,
                            0 <= p.1 < height,
                            n == width * height,
                    {
                        assert(p.1 * width + width <= height * width);
                    }
                }
                let ghost bb = blocked@;
                let ghost mm = image@;
                blocked.set(idx, true);
                image.set(3 * idx, color[0]);
                image.set(3 * idx + 1, color[1]);
                image.set(3 * idx + 2, color[2]);
                proof {
                    assert forall|i: int, c: int| 0 <= i < n && 0 <= c < 3 implies #[trigger] image@[3 * i + c] == if painted(post, width as int, height as int, i) {
                        color[c]
                    } else {
                        m0[3 * i + c]
                    } by {
                        if i != idx {
                            assert(3 * i + c != 3 * idx && 3 * i + c != 3 * idx + 1 && 3 * i + c != 3 * idx + 2);
                            assert(image@[3 * i + c] == mm[3 * i + c]);
                        }
                    }
                }
                let cells = circle(p, radius);
                let ghost b1 = blocked@;
                let mut m: usize = 0;
                while m < cells.len()
                    invariant
                        n == width * height,
                        blocked@.len() == n,
                        m <= cells@.len(),
                        forall|q: Coord| #[trigger] cells@.contains(q) <==> in_disc(p, radius as int, q),
                        forall|i: int| 0 <= i < n ==> #[trigger] blocked@[i] == (b1[i] || exists|j: int| 0 <= j < m && #[trigger] cell_offset(cells@[j].0 as int, cells@[j].1 as int, width as int, height as int) == Some(i)),
                    decreases cells@.len() - m,
                {
                    let q = cells[m];
                    let ghost bq = blocked@;
                    match bounds(q.0, q.1, width, height) {
                        Some(i2) => {
                            proof {
                                assert(i2 < n) by (nonlinear_arith)
                                    requires
                                        i2 == q.0 + q.1 * width,
                                        0 <= q.0 < width,
                                        0 <= q.1 < height,
                                        n == width * height,
                                {
                                    assert(q.1 * width + width <= height * width);
                                }
                            }
                            blocked.set(i2, true);
                        },
                        None => {},
                    }
                    proof {
                        assert forall|i: int| 0 <= i < n implies #[trigger] blocked@[i] == (b1[i] || exists|j: int| 0 <= j < m + 1 && #[trigger] cell_offset(cells@[j].0 as int, cells@[j].1 as int, width as int, height as int) == Some(i)) by {
                            if exists|j: int| 0 <= j < m + 1 && #[trigger] cell_offset(cells@[j].0 as int, cells@[j].1 as int, width as int, height as int) == Some(i) {
                                let j = choose|j: int| 0 <= j < m + 1 && #[trigger] cell_offset(cells@[j].0 as int, cells@[j].1 as int, width as int, height as int) == Some(i);
                                if j < m {
                                    assert(bq[i]);
                                }
                            }
                            if bq[i] && !b1[i] {
                                let j = choose|j: int| 0 <= j < m && #[trigger] cell_offset(cells@[j].0 as int, cells@[j].1 as int, width as int, height as int) == Some(i);
                                assert(0 <= j < m + 1);
                            }
                        }
                    }
                    m = m + 1;
                }
                proof {
                    assert forall|i: int| 0 <= i < n implies #[trigger] blocked@[i] == (b0[i] || carved(post, radius as int, width as int, height as int, i)) by {
                        let tp = touches(p, radius as int, width as int, height as int, i);
                        if tp && cell_offset(p.0 as int, p.1 as int, width as int, height as int) != Some(i) {
                            let q = choose|q: Coord| in_disc(p, radius as int, q) && #[trigger] cell_offset(q.0 as int, q.1 as int, width as int, height as int) == Some(i);
                            assert(cells@.contains(q));
                            let j = choose|j: int| 0 <= j < cells@.len() && cells@[j] == q;
                            assert(cell_offset(cells@[j].0 as int, cells@[j].1 as int, width as int, height as int) == Some(i));
                        }
                        if exists|j: int| 0 <= j < cells@.len() && #[trigger] cell_offset(cells@[j].0 as int, cells@[j].1 as int, width as int, height as int) == Some(i) {
                            let j = choose|j: int| 0 <= j < cells@.len() && #[trigger] cell_offset(cells@[j].0 as int, cells@[j].1 as int, width as int, height as int) == Some(i);
                            assert(cells@.contains(cells@[j]));
                            assert(in_disc(p, radius as int, cells@[j]));
                            assert(tp);
                        }
                        if i == idx {
                            assert(tp);
                        }
                    }
                }
            },
            None => {
                proof {
                    assert forall|i: int| 0 <= i < n implies !touches(p, radius as int, width as int, height as int, i) by {}
                    assert forall|i: int| 0 <= i < n implies cell_offset(p.0 as int, p.1 as int, width as int, height as int) != Some(i) by {}
                }
            },
        }
        k = k + 1;
    }
    proof {
        assert(path@.take(k as int) =~= path@);
    }
}

} // verus!
