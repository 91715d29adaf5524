use vstd::prelude::*;
use vstd::arithmetic::div_mod::{lemma_div_pos_is_pos,
    lemma_fundamental_div_mod, lemma_mod_bound};
use vstd::arithmetic::mul::{lemma_mul_inequality, lemma_mul_is_associative,
    lemma_mul_is_commutative, lemma_mul_is_distributive_add,
    lemma_mul_is_distributive_add_other_way, lemma_mul_upper_bound};
use crate::layout::{covers_placement, placement_within, placements_disjoint, rects_disjoint,
    Placement, LayoutPlan};

verus! {

/// One decoded image: its pixel size and its interleaved RGBA bytes, four
/// per pixel, rows top to bottom.
#[derive(Clone, Debug)]
pub struct DecodedImage {
    pub w: u64,
    pub h: u64,
    pub buf: Vec<u8>,
}

impl DecodedImage {
    /// A decoded image is well formed when its buffer holds exactly four
    /// bytes per pixel and neither side is zero or beyond the pixel limit.
    pub open spec fn wf(self) -> bool {
        &&& 1 <= self.w <= 0xFFFF_FFFF
        &&& 1 <= self.h <= 0xFFFF_FFFF
        &&& self.buf@.len() == 4 * self.w * self.h
    }
}

/// One RGBA colour, used for the canvas background.
#[derive(Clone, Copy, Debug, PartialEq, Eq, Structural)]
pub struct Rgba {
    pub r: u8,
    pub g: u8,
    pub b: u8,
    pub a: u8,
}

/// Channel `t` of a colour, in buffer order.
pub open spec fn channel(bg: Rgba, t: int) -> u8 {
    if t == 0 {
        bg.r
    } else if t == 1 {
        bg.g
    } else if t == 2 {
        bg.b
    } else {
        bg.a
    }
}

/// Byte `t` of canvas pixel `(x, y)` on a canvas `cw` pixels wide.
pub open spec fn pix(out: Seq<u8>, cw: int, x: int, y: int, t: int) -> u8 {
    out[4 * (y * cw + x) + t]
}

/// The byte offset inside a source image of the pixel sampled for offset
/// `(dx, dy)` of its placement: nearest-neighbour sampling.
pub open spec fn sample_index(img: DecodedImage, p: Placement, dx: int, dy: int) -> int {
    let sx = dx * (img.w as int) / (p.w as int);
    let sy = dy * (img.h as int) / (p.h as int);
    4 * (sy * (img.w as int) + sx)
}

/// Whether any placement covers canvas pixel `(x, y)`.
pub open spec fn covered_any(ps: Seq<Placement>, x: int, y: int) -> bool {
    exists|i: int| 0 <= i < ps.len() && covers_placement(ps[i], x, y)
}

/// Byte `t` of canvas pixel `(x, y)` is correct: the background where no
/// image lands there, and the sampled source byte of each image whose
/// placement covers it.
pub open spec fn pix_ok(
    out: Seq<u8>,
    ps: Seq<Placement>,
    cw: int,
    images: Seq<DecodedImage>,
    bg: Rgba,
    x: int,
    y: int,
    t: int,
) -> bool {
    &&& (!covered_any(ps, x, y) ==> pix(out, cw, x, y, t) == channel(bg, t))
    &&& forall|i: int|
        0 <= i < ps.len() && covers_placement(#[trigger] ps[i], x, y) ==> pix(out, cw, x, y, t)
            == images[i].buf[sample_index(images[i], ps[i], x - ps[i].x, y - ps[i].y) + t]
}

/// The canvas is fully composited: every byte of every pixel is correct.
pub open spec fn composited(
    out: Seq<u8>,
    ps: Seq<Placement>,
    cw: int,
    ch: int,
    images: Seq<DecodedImage>,
    bg: Rgba,
) -> bool {
    forall|x: int, y: int, t: int|
        0 <= x < cw && 0 <= y < ch && 0 <= t < 4 ==> #[trigger] pix_ok(
            out,
            ps,
            cw,
            images,
            bg,
            x,
            y,
            t,
        )
}

/// Pixels earlier in row-major order sit at strictly smaller offsets.
proof fn lemma_rowmajor_lt(cw: int, x1: int, y1: int, x2: int, y2: int)
    requires
        0 <= x1 < cw,
        0 <= x2,
        0 <= y1,
        y1 < y2 || (y1 == y2 && x1 < x2),
    ensures
        y1 * cw + x1 < y2 * cw + x2,
{
    if y1 < y2 {
        lemma_mul_inequality(y1 + 1, y2, cw);
        lemma_mul_is_distributive_add_other_way(cw, y1, 1);
    }
}

fn find_cover(ps: &Vec<Placement>, x: u64, y: u64) -> (r: Option<usize>)
    ensures
        r matches Some(i) ==> i < ps@.len() && covers_placement(ps@[i as int], x as int, y as int),
        r is None ==> !covered_any(ps@, x as int, y as int),
{
    let mut i: usize = 0;
    while i < ps.len()
        invariant
            i <= ps@.len(),
            forall|k: int|
                0 <= k < i ==> !covers_placement(#[trigger] ps@[k], x as int, y as int),
        decreases ps@.len() - i,
    {
        let p = ps[i];
        if p.x <= x && x - p.x < p.w && p.y <= y && y - p.y < p.h {
            return Some(i);
        }
        i = i + 1;
    }
    None
}

/// Renders the plan: a canvas of the planned size, every pixel set to the
/// background, and each image's placed rectangle filled with its pixels,
/// nearest-neighbour sampled when the placement shrank the image. Never
/// reads or writes outside the canvas.
#[verifier::loop_isolation(false)]
#[verifier::rlimit(60)]
pub fn render(plan: &LayoutPlan, images: &Vec<DecodedImage>, bg: Rgba) -> (out: Vec<u8>)
    requires
        plan.placements@.len() == images@.len(),
        forall|i: int| 0 <= i < images@.len() ==> (#[trigger] images@[i]).wf(),
        forall|i: int|
            0 <= i < plan.placements@.len() ==> placement_within(
                #[trigger] plan.placements@[i],
                plan.canvas_w as int,
                plan.canvas_h as int,
            ),
        placements_disjoint(plan.placements@),
        plan.canvas_w <= usize::MAX,
        plan.canvas_h <= usize::MAX,
        4 * (plan.canvas_w as int) * (plan.canvas_h as int) <= usize::MAX,
    ensures
        out@.len() == 4 * (plan.canvas_w as int) * (plan.canvas_h as int),
        composited(
            out@,
            plan.placements@,
            plan.canvas_w as int,
            plan.canvas_h as int,
            images@,
            bg,
        ),
{
    let cw = plan.canvas_w;
    let ch = plan.canvas_h;
    let ghost cwi = cw as int;
    let ghost chi = ch as int;
    let mut out: Vec<u8> = Vec::new();
    let mut y: u64 = 0;
    while y < ch
        invariant
            y <= ch,
            out@.len() == 4 * ((y as int) * cwi),
            forall|x0: int, y0: int, t0: int|
                0 <= x0 < cwi && 0 <= y0 < y && 0 <= t0 < 4 ==> #[trigger] pix_ok(
                    out@,
                    plan.placements@,
                    cwi,
                    images@,
                    bg,
                    x0,
                    y0,
                    t0,
                ),
        decreases ch - y,
    {
        let mut x: u64 = 0;
        while x < cw
            invariant
                y < ch,
                x <= cw,
                out@.len() == 4 * ((y as int) * cwi + x as int),
                forall|x0: int, y0: int, t0: int|
                    0 <= x0 < cwi && 0 <= t0 < 4 && (0 <= y0 < y || (y0 == y && 0 <= x0 < x))
                        ==> #[trigger] pix_ok(
                        out@,
                        plan.placements@,
                        cwi,
                        images@,
                        bg,
                        x0,
                        y0,
                        t0,
                    ),
            decreases cw - x,
        {
            let ghost out_before = out@;
            proof {
                lemma_mul_inequality(y as int + 1, chi, cwi);
                lemma_mul_is_distributive_add_other_way(cwi, y as int, 1);
                lemma_mul_is_commutative(chi, cwi);
            }
            match find_cover(&plan.placements, x, y) {
                Some(i) => {
                    let p = plan.placements[i];
                    let img = &images[i];
                    let dx = x - p.x;
                    let dy = y - p.y;
                    proof {
                        lemma_mul_upper_bound(dx as int, u64::MAX as int, img.w as int,
                            u64::MAX as int);
                        lemma_mul_upper_bound(dy as int, u64::MAX as int, img.h as int,
                            u64::MAX as int);
                        lemma_sample_in_bounds(dx as int, img.w as int, p.w as int);
                        lemma_sample_in_bounds(dy as int, img.h as int, p.h as int);
                    }
                    let sx = ((dx as u128) * (img.w as u128) / (p.w as u128)) as u64;
                    let sy = ((dy as u128) * (img.h as u128) / (p.h as u128)) as u64;
                    proof {
                        lemma_src_index_in_bounds(img.w as int, img.h as int, sx as int, sy as int);
                        assert(img.buf@.len() <= usize::MAX) by {
                            assert(img.buf.len() == img.buf@.len());
                        }
                    }
                    let si = 4 * (sy * img.w + sx);
                    out.push(img.buf[si as usize]);
                    out.push(img.buf[(si + 1) as usize]);
                    out.push(img.buf[(si + 2) as usize]);
                    out.push(img.buf[(si + 3) as usize]);
                    proof {
                        lemma_pixel_established(
                            out_before,
                            out@,
                            plan.placements@,
                            cwi,
                            images@,
                            bg,
                            x as int,
                            y as int,
                            Some(i as int),
                        );
                    }
                },
                None => {
                    out.push(bg.r);
                    out.push(bg.g);
                    out.push(bg.b);
                    out.push(bg.a);
                    proof {
                        lemma_pixel_established(
                            out_before,
                            out@,
                            plan.placements@,
                            cwi,
                            images@,
                            bg,
                            x as int,
                            y as int,
                            None,
                        );
                    }
                },
            }
            proof {
                assert forall|x0: int, y0: int, t0: int|
                    0 <= x0 < cwi && 0 <= t0 < 4 && (0 <= y0 < y || (y0 == y && 0 <= x0 < x + 1))
                        implies #[trigger] pix_ok(
                    out@,
                    plan.placements@,
                    cwi,
                    images@,
                    bg,
                    x0,
                    y0,
                    t0,
                ) by {
                    if y0 < y || x0 < x {
                        lemma_rowmajor_lt(cwi, x0, y0, x as int, y as int);
                        assert(pix_ok(out_before, plan.placements@, cwi, images@, bg, x0, y0, t0));
                        assert(pix(out@, cwi, x0, y0, t0) == pix(out_before, cwi, x0, y0, t0));
                    }
                }
            }
            x = x + 1;
        }
        proof {
            lemma_mul_is_distributive_add_other_way(cwi, y as int, 1);
        }
        y = y + 1;
    }
    proof {
        lemma_mul_is_commutative(chi, cwi);
        lemma_mul_is_associative(4, cwi, chi);
        assert(out@.len() == 4 * cwi * chi);
    }
    out
}

/// Nearest-neighbour sampling never reaches past the source side: for
/// `dx < pw`, `dx * w / pw < w`.
proof fn lemma_sample_in_bounds(dx: int, w: int, pw: int)
    requires
        0 <= dx < pw,
        1 <= w,
    ensures
        0 <= dx * w / pw < w,
{
    lemma_mul_inequality(0, dx, w);
    lemma_div_pos_is_pos(dx * w, pw);
    lemma_mul_inequality(dx + 1, pw, w);
    lemma_mul_is_distributive_add_other_way(w, dx, 1);
    if dx * w / pw >= w {
        lemma_mul_inequality(w, dx * w / pw, pw);
        lemma_fundamental_div_mod(dx * w, pw);
        lemma_mod_bound(dx * w, pw);
        lemma_mul_is_commutative(pw, dx * w / pw);
        lemma_mul_is_commutative(w, pw);
        assert(false);
    }
}

/// The sampled byte offset stays inside the source buffer.
proof fn lemma_src_index_in_bounds(w: int, h: int, sx: int, sy: int)
    requires
        1 <= w,
        1 <= h,
        0 <= sx < w,
        0 <= sy < h,
    ensures
        0 <= 4 * (sy * w + sx),
        4 * (sy * w + sx) + 3 < 4 * w * h,
{
    lemma_mul_inequality(0, sy, w);
    lemma_mul_inequality(sy + 1, h, w);
    lemma_mul_is_distributive_add_other_way(w, sy, 1);
    lemma_mul_is_commutative(h, w);
    lemma_mul_is_commutative(sy, w);
    lemma_mul_is_associative(4, w, h);
}

/// After the four bytes of pixel `(x, y)` are pushed, that pixel is correct:
/// sampled from the covering image, or the background when none covers it.
proof fn lemma_pixel_established(
    before: Seq<u8>,
    after: Seq<u8>,
    ps: Seq<Placement>,
    cw: int,
    images: Seq<DecodedImage>,
    bg: Rgba,
    x: int,
    y: int,
    cover: Option<int>,
)
    requires
        0 <= x < cw,
        0 <= y,
        before.len() == 4 * (y * cw + x),
        after.len() == before.len() + 4,
        forall|q: int| 0 <= q < before.len() ==> after[q] == before[q],
        placements_disjoint(ps),
        cover matches Some(i) ==> 0 <= i < ps.len() && covers_placement(ps[i], x, y) && ps.len()
            == images.len() && after[before.len() as int] == images[i].buf[sample_index(
            images[i],
            ps[i],
            x - ps[i].x,
            y - ps[i].y,
        )] && after[before.len() + 1 as int] == images[i].buf[sample_index(
            images[i],
            ps[i],
            x - ps[i].x,
            y - ps[i].y,
        ) + 1] && after[before.len() + 2 as int] == images[i].buf[sample_index(
            images[i],
            ps[i],
            x - ps[i].x,
            y - ps[i].y,
        ) + 2] && after[before.len() + 3 as int] == images[i].buf[sample_index(
            images[i],
            ps[i],
            x - ps[i].x,
            y - ps[i].y,
        ) + 3],
        cover is None ==> !covered_any(ps, x, y) && after[before.len() as int] == bg.r && after[before.len() + 1 as int] == bg.g && after[before.len() + 2 as int] == bg.b && after[before.len() + 3 as int] == bg.a,
    ensures
        forall|t: int| 0 <= t < 4 ==> #[trigger] pix_ok(after, ps, cw, images, bg, x, y, t),
{
    assert forall|t: int| 0 <= t < 4 implies #[trigger] pix_ok(after, ps, cw, images, bg, x, y, t) by {
        assert(pix(after, cw, x, y, t) == after[before.len() as int + t]);
        match cover {
            Some(i) => {
                assert(covered_any(ps, x, y));
                assert forall|i2: int|
                    0 <= i2 < ps.len() && covers_placement(#[trigger] ps[i2], x, y) implies pix(
                    after,
                    cw,
                    x,
                    y,
                    t,
                ) == images[i2].buf[sample_index(
                    images[i2],
                    ps[i2],
                    x - ps[i2].x,
                    y - ps[i2].y,
                ) + t] by {
                    if i2 != i {
                        if i < i2 {
                            assert(rects_disjoint(ps[i], ps[i2]));
                        } else {
                            assert(rects_disjoint(ps[i2], ps[i]));
                        }
                        assert(false);
                    }
                }
            },
            None => {
            },
        }
    }
}

} // verus!
