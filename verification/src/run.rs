use vstd::prelude::*;
use vstd::arithmetic::mul::{lemma_mul_is_associative, lemma_mul_upper_bound};
use crate::enums::StitchError;
use crate::image_set::{composited, render, DecodedImage, Rgba};
use crate::layout::{plan_layout, scaled, spec_canvas_h, spec_canvas_w, spec_columns,
    spec_placement, spec_scale_of, Extent, Placement};
use crate::options::Opt;

verus! {

/// The sizes of the decoded images, in input order.
pub open spec fn dims_of(images: Seq<DecodedImage>) -> Seq<Extent> {
    Seq::new(images.len(), |i: int| Extent { w: images[i].w, h: images[i].h })
}

/// The planned placements for these images and options.
pub open spec fn spec_plan_placements(images: Seq<DecodedImage>, opt: Opt) -> Seq<Placement> {
    Seq::new(
        images.len(),
        |i: int|
            spec_placement(
                dims_of(images),
                opt.spec_alignment(),
                opt.maxw as int,
                opt.maxh as int,
                i,
            ),
    )
}

/// The canvas width the plan settles on for these images and options.
pub open spec fn spec_stitched_w(images: Seq<DecodedImage>, opt: Opt) -> int {
    let dims = dims_of(images);
    let c = spec_columns(dims.len() as int, opt.spec_alignment());
    let s = spec_scale_of(dims, opt.spec_alignment(), opt.maxw as int, opt.maxh as int);
    scaled(spec_canvas_w(dims, c), s.0, s.1)
}

/// The canvas height the plan settles on for these images and options.
pub open spec fn spec_stitched_h(images: Seq<DecodedImage>, opt: Opt) -> int {
    let dims = dims_of(images);
    let c = spec_columns(dims.len() as int, opt.spec_alignment());
    let s = spec_scale_of(dims, opt.spec_alignment(), opt.maxw as int, opt.maxh as int);
    scaled(spec_canvas_h(dims, c), s.0, s.1)
}

/// Whether the stitched canvas fits in one in-memory byte buffer.
pub open spec fn spec_output_fits(images: Seq<DecodedImage>, opt: Opt) -> bool {
    &&& spec_stitched_w(images, opt) <= usize::MAX
    &&& spec_stitched_h(images, opt) <= usize::MAX
    &&& 4 * spec_stitched_w(images, opt) * spec_stitched_h(images, opt) <= usize::MAX
}

/// The background every canvas starts from: opaque black.
pub open spec fn spec_background() -> Rgba {
    Rgba { r: 0, g: 0, b: 0, a: 255 }
}

/// The background colour of the canvas.
pub fn background() -> (r: Rgba)
    ensures
        r == spec_background(),
{
    Rgba { r: 0, g: 0, b: 0, a: 255 }
}

/// Stitches the decoded images into a single canvas image, using the
/// supplied options. The options should have been checked for basic errors
/// and prepared for use before calling this function. The canvas takes the
/// planned size for these options, every placed image is copied into its
/// planned rectangle (nearest-neighbour sampled where it was scaled down),
/// and uncovered pixels hold the background.
pub fn stitch_images(images: Vec<DecodedImage>, opt: &Opt) -> (r: Result<DecodedImage, StitchError>)
    requires
        images@.len() <= 0xFFFF_FFFF,
        forall|i: int| 0 <= i < images@.len() ==> (#[trigger] images@[i]).wf(),
    ensures
        images@.len() == 0 ==> (r matches Err(e) && e == StitchError::EmptyInput),
        images@.len() > 0 && !spec_output_fits(images@, *opt) ==> (r matches Err(e) && e
            == StitchError::OutputTooLarge),
        images@.len() > 0 && spec_output_fits(images@, *opt) ==> (r matches Ok(out) && ({
            &&& out.w == spec_stitched_w(images@, *opt)
            &&& out.h == spec_stitched_h(images@, *opt)
            &&& out.buf@.len() == 4 * spec_stitched_w(images@, *opt) * spec_stitched_h(
                images@,
                *opt,
            )
            &&& composited(
                out.buf@,
                spec_plan_placements(images@, *opt),
                spec_stitched_w(images@, *opt),
                spec_stitched_h(images@, *opt),
                images@,
                spec_background(),
            )
        })),
{
    if images.len() == 0 {
        return Err(StitchError::EmptyInput);
    }
    let n = images.len();
    let mut dims: Vec<Extent> = Vec::new();
    let mut i: usize = 0;
    while i < n
        invariant
            i <= n,
            n == images@.len(),
            dims@.len() == i,
            forall|k: int| 0 <= k < i ==> dims@[k] == dims_of(images@)[k],
        decreases n - i,
    {
        dims.push(Extent { w: images[i].w, h: images[i].h });
        i = i + 1;
    }
    proof {
        assert(dims@ =~= dims_of(images@));
    }
    let alignment = opt.get_alignment();
    let plan = match plan_layout(&dims, alignment, opt.maxw as u64, opt.maxh as u64) {
        Ok(p) => p,
        Err(_) => {
            proof {
                assert(false);
            }
            return Err(StitchError::EmptyInput);
        },
    };
    if plan.canvas_w > (usize::MAX as u64) || plan.canvas_h > (usize::MAX as u64) {
        return Err(StitchError::OutputTooLarge);
    }
    proof {
        lemma_mul_upper_bound(plan.canvas_w as int, u64::MAX as int, plan.canvas_h as int,
            u64::MAX as int);
    }
    let area: u128 = (plan.canvas_w as u128) * (plan.canvas_h as u128);
    proof {
        lemma_mul_is_associative(4, plan.canvas_w as int, plan.canvas_h as int);
    }
    if area > (usize::MAX as u128) / 4 {
        return Err(StitchError::OutputTooLarge);
    }
    proof {
        assert(plan.placements@ =~= spec_plan_placements(images@, *opt));
    }
    let buf = render(&plan, &images, background());
    Ok(DecodedImage { w: plan.canvas_w, h: plan.canvas_h, buf })
}

} // verus!
