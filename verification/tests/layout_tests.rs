use stitchy::enums::{AlignmentMode, StitchError};
use stitchy::layout::{plan_layout, Extent, Placement};

fn ext(w: u64, h: u64) -> Extent {
    Extent { w, h }
}

#[test]
fn grid_four_squares() {
    // 4 images of 100x100 in a grid: 2x2, canvas 200x200, row-major corners.
    let dims = vec![ext(100, 100), ext(100, 100), ext(100, 100), ext(100, 100)];
    let plan = plan_layout(&dims, AlignmentMode::Grid, 0, 0).unwrap();
    assert_eq!(plan.canvas_w, 200);
    assert_eq!(plan.canvas_h, 200);
    let expected = vec![
        Placement { x: 0, y: 0, w: 100, h: 100 },
        Placement { x: 100, y: 0, w: 100, h: 100 },
        Placement { x: 0, y: 100, w: 100, h: 100 },
        Placement { x: 100, y: 100, w: 100, h: 100 },
    ];
    assert_eq!(plan.placements, expected);
}

#[test]
fn horizontal_three_mixed() {
    // widths [100,50,80], row height 100: canvas 230x100, cumulative origins.
    let dims = vec![ext(100, 50), ext(50, 100), ext(80, 80)];
    let plan = plan_layout(&dims, AlignmentMode::Horizontal, 0, 0).unwrap();
    assert_eq!(plan.canvas_w, 230);
    assert_eq!(plan.canvas_h, 100);
    assert_eq!(plan.placements[0], Placement { x: 0, y: 0, w: 100, h: 50 });
    assert_eq!(plan.placements[1], Placement { x: 100, y: 0, w: 50, h: 100 });
    assert_eq!(plan.placements[2], Placement { x: 150, y: 0, w: 80, h: 80 });
}

#[test]
fn grid_two_with_max_width() {
    // 2 images of 300x300: grid is 2x1, pre-scale canvas 600x300; maxw=300
    // gives factor 1/2: canvas 300x150, both images 150x150.
    let dims = vec![ext(300, 300), ext(300, 300)];
    let plan = plan_layout(&dims, AlignmentMode::Grid, 300, 0).unwrap();
    assert_eq!(plan.canvas_w, 300);
    assert_eq!(plan.canvas_h, 150);
    assert_eq!(plan.placements[0], Placement { x: 0, y: 0, w: 150, h: 150 });
    assert_eq!(plan.placements[1], Placement { x: 150, y: 0, w: 150, h: 150 });
}

#[test]
fn vertical_stacks_heights() {
    let dims = vec![ext(40, 10), ext(30, 20), ext(50, 5)];
    let plan = plan_layout(&dims, AlignmentMode::Vertical, 0, 0).unwrap();
    assert_eq!(plan.canvas_w, 50);
    assert_eq!(plan.canvas_h, 35);
    assert_eq!(plan.placements[0], Placement { x: 0, y: 0, w: 40, h: 10 });
    assert_eq!(plan.placements[1], Placement { x: 0, y: 10, w: 30, h: 20 });
    assert_eq!(plan.placements[2], Placement { x: 0, y: 30, w: 50, h: 5 });
}

#[test]
fn grid_shape_for_five() {
    // ceil(sqrt(5)) = 3 columns, ceil(5/3) = 2 rows; last row is partial
    // and left-aligned.
    let dims = vec![ext(10, 10); 5];
    let plan = plan_layout(&dims, AlignmentMode::Grid, 0, 0).unwrap();
    assert_eq!(plan.canvas_w, 30);
    assert_eq!(plan.canvas_h, 20);
    assert_eq!(plan.placements[3], Placement { x: 0, y: 10, w: 10, h: 10 });
    assert_eq!(plan.placements[4], Placement { x: 10, y: 10, w: 10, h: 10 });
}

#[test]
fn empty_input_is_rejected() {
    let dims: Vec<Extent> = vec![];
    let r = plan_layout(&dims, AlignmentMode::Grid, 0, 0);
    assert!(matches!(r, Err(StitchError::EmptyInput)));
}

#[test]
fn constraint_never_upscales() {
    // the bound is far above the canvas: no scaling happens.
    let dims = vec![ext(10, 10), ext(10, 10)];
    let plan = plan_layout(&dims, AlignmentMode::Horizontal, 10_000, 10_000).unwrap();
    assert_eq!(plan.canvas_w, 20);
    assert_eq!(plan.canvas_h, 10);
}

#[test]
fn max_height_constrains_and_keeps_aspect() {
    // canvas 100x50, maxh=25: factor 1/2, canvas 50x25, image 50x25.
    let dims = vec![ext(100, 50)];
    let plan = plan_layout(&dims, AlignmentMode::Grid, 0, 25).unwrap();
    assert_eq!(plan.canvas_w, 50);
    assert_eq!(plan.canvas_h, 25);
    assert_eq!(plan.placements[0], Placement { x: 0, y: 0, w: 50, h: 25 });
}

#[test]
fn tighter_axis_wins() {
    // canvas 100x100; maxw=50 gives 1/2, maxh=25 gives 1/4: the tighter
    // factor applies to both axes.
    let dims = vec![ext(100, 100)];
    let plan = plan_layout(&dims, AlignmentMode::Grid, 50, 25).unwrap();
    assert_eq!(plan.canvas_w, 25);
    assert_eq!(plan.canvas_h, 25);
}
