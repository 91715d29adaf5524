use stitchy::enums::StitchError;
use stitchy::image_set::DecodedImage;
use stitchy::options::Opt;
use stitchy::run::stitch_images;

fn solid(w: u64, h: u64, rgba: [u8; 4]) -> DecodedImage {
    let mut buf = Vec::new();
    for _ in 0..(w * h) {
        buf.extend_from_slice(&rgba);
    }
    DecodedImage { w, h, buf }
}

fn opt_with_count(count: usize) -> Opt {
    let mut opt = Opt::default();
    opt.number_of_files = Some(count);
    opt
}

#[test]
fn single_pixel_is_copied() {
    let images = vec![solid(1, 1, [10, 20, 30, 40])];
    let out = stitch_images(images, &opt_with_count(1)).unwrap();
    assert_eq!(out.w, 1);
    assert_eq!(out.h, 1);
    assert_eq!(out.buf, vec![10, 20, 30, 40]);
}

#[test]
fn two_pixels_side_by_side() {
    let mut opt = opt_with_count(2);
    opt.horizontal = true;
    let images = vec![solid(1, 1, [1, 2, 3, 4]), solid(1, 1, [5, 6, 7, 8])];
    let out = stitch_images(images, &opt).unwrap();
    assert_eq!((out.w, out.h), (2, 1));
    assert_eq!(out.buf, vec![1, 2, 3, 4, 5, 6, 7, 8]);
}

#[test]
fn padding_is_background() {
    // a 2x1 image above a 1x1 image: the right cell of the second row is
    // empty and stays the opaque black background.
    let mut opt = opt_with_count(2);
    opt.vertical = true;
    let images = vec![solid(2, 1, [9, 9, 9, 9]), solid(1, 1, [7, 7, 7, 7])];
    let out = stitch_images(images, &opt).unwrap();
    assert_eq!((out.w, out.h), (2, 2));
    assert_eq!(
        out.buf,
        vec![
            9, 9, 9, 9, 9, 9, 9, 9, // first row: the wide image
            7, 7, 7, 7, 0, 0, 0, 255, // second row: image then background
        ]
    );
}

#[test]
fn downscaling_samples_the_source() {
    // a 2x2 image bounded to 1 pixel wide: factor 1/2 leaves a 1x1 canvas
    // holding the nearest-neighbour sample, the top-left source pixel.
    let mut buf = Vec::new();
    buf.extend_from_slice(&[1, 1, 1, 1]);
    buf.extend_from_slice(&[2, 2, 2, 2]);
    buf.extend_from_slice(&[3, 3, 3, 3]);
    buf.extend_from_slice(&[4, 4, 4, 4]);
    let images = vec![DecodedImage { w: 2, h: 2, buf }];
    let mut opt = opt_with_count(1);
    opt.maxw = 1;
    let out = stitch_images(images, &opt).unwrap();
    assert_eq!((out.w, out.h), (1, 1));
    assert_eq!(out.buf, vec![1, 1, 1, 1]);
}

#[test]
fn no_images_is_empty_input() {
    let r = stitch_images(Vec::new(), &opt_with_count(1));
    assert!(matches!(r, Err(StitchError::EmptyInput)));
}

#[test]
fn four_solid_squares_grid() {
    let images = vec![
        solid(2, 2, [1, 0, 0, 255]),
        solid(2, 2, [0, 1, 0, 255]),
        solid(2, 2, [0, 0, 1, 255]),
        solid(2, 2, [1, 1, 1, 255]),
    ];
    let out = stitch_images(images, &opt_with_count(4)).unwrap();
    assert_eq!((out.w, out.h), (4, 4));
    // top-left pixel of each quadrant
    let pixel = |x: usize, y: usize| {
        let i = 4 * (y * 4 + x);
        [out.buf[i], out.buf[i + 1], out.buf[i + 2], out.buf[i + 3]]
    };
    assert_eq!(pixel(0, 0), [1, 0, 0, 255]);
    assert_eq!(pixel(2, 0), [0, 1, 0, 255]);
    assert_eq!(pixel(0, 2), [0, 0, 1, 255]);
    assert_eq!(pixel(2, 2), [1, 1, 1, 255]);
}
