use stitchy::enums::{AlignmentMode, ImageFormat};
use stitchy::options::Opt;

fn valid_opt() -> Opt {
    let mut opt = Opt::default();
    opt.number_of_files = Some(3);
    opt
}

#[test]
fn valid_options_pass() {
    assert!(valid_opt().check_for_basic_errors().is_none());
}

#[test]
fn both_alphabetical_orders_conflict() {
    let mut opt = valid_opt();
    opt.ascalpha = true;
    opt.descalpha = true;
    let msg = opt.check_for_basic_errors().unwrap();
    assert!(msg.contains("ascending or descending"));
}

#[test]
fn both_alignments_conflict() {
    let mut opt = valid_opt();
    opt.horizontal = true;
    opt.vertical = true;
    let msg = opt.check_for_basic_errors().unwrap();
    assert!(msg.contains("horizontal or vertical"));
}

#[test]
fn maxd_conflicts_with_axis_bounds() {
    let mut opt = valid_opt();
    opt.maxd = 100;
    opt.maxw = 50;
    assert!(opt.check_for_basic_errors().unwrap().contains("maxw"));
    let mut opt = valid_opt();
    opt.maxd = 100;
    opt.maxh = 50;
    assert!(opt.check_for_basic_errors().unwrap().contains("maxh"));
}

#[test]
fn at_most_one_format_flag() {
    let mut opt = valid_opt();
    opt.png = true;
    opt.gif = true;
    let msg = opt.check_for_basic_errors().unwrap();
    assert!(msg.contains("more than one"));
}

#[test]
fn quality_must_be_in_range() {
    let mut opt = valid_opt();
    opt.quality = 0;
    assert!(opt.check_for_basic_errors().unwrap().contains("1 to 100"));
    let mut opt = valid_opt();
    opt.quality = 101;
    assert!(opt.check_for_basic_errors().unwrap().contains("1 to 100"));
}

#[test]
fn quality_only_for_jpeg() {
    let mut opt = valid_opt();
    opt.quality = 80;
    opt.png = true;
    let msg = opt.check_for_basic_errors().unwrap();
    assert!(msg.contains("JPEG"));
    // with the jpeg flag the same quality is accepted
    let mut opt = valid_opt();
    opt.quality = 80;
    opt.jpeg = true;
    assert!(opt.check_for_basic_errors().is_none());
}

#[test]
fn number_of_files_must_be_positive() {
    let mut opt = valid_opt();
    opt.number_of_files = Some(0);
    let msg = opt.check_for_basic_errors().unwrap();
    assert!(msg.contains("at least 1"));
    let mut opt = valid_opt();
    opt.number_of_files = None;
    assert!(opt.check_for_basic_errors().is_some());
    assert!(opt.check_number_of_files_provided().is_some());
    assert!(valid_opt().check_number_of_files_provided().is_none());
}

#[test]
fn prepare_for_use_expands_maxd() {
    let mut opt = valid_opt();
    opt.maxd = 120;
    opt.prepare_for_use();
    assert_eq!(opt.maxw, 120);
    assert_eq!(opt.maxh, 120);
    let mut opt = valid_opt();
    opt.maxw = 30;
    opt.prepare_for_use();
    assert_eq!(opt.maxw, 30);
    assert_eq!(opt.maxh, 0);
}

#[test]
fn requested_format_follows_flags() {
    assert_eq!(valid_opt().get_requested_image_format(), ImageFormat::Unspecified);
    let mut opt = valid_opt();
    opt.jpeg = true;
    assert_eq!(opt.get_requested_image_format(), ImageFormat::Jpeg);
    let mut opt = valid_opt();
    opt.bmp = true;
    assert_eq!(opt.get_requested_image_format(), ImageFormat::Bmp);
}

#[test]
fn alignment_follows_flags() {
    assert_eq!(valid_opt().get_alignment(), AlignmentMode::Grid);
    let mut opt = valid_opt();
    opt.horizontal = true;
    assert_eq!(opt.get_alignment(), AlignmentMode::Horizontal);
    let mut opt = valid_opt();
    opt.vertical = true;
    assert_eq!(opt.get_alignment(), AlignmentMode::Vertical);
}

#[test]
fn default_options_are_neutral() {
    let opt = Opt::default();
    assert!(!opt.horizontal && !opt.vertical && !opt.reverse);
    assert_eq!(opt.maxd, 0);
    assert_eq!(opt.maxw, 0);
    assert_eq!(opt.maxh, 0);
    assert_eq!(opt.quality, 100);
    assert_eq!(opt.number_of_files, None);
}
