use stitchy::enums::{ImageFormat, StitchError};
use stitchy::files::{next_available_output, build_output_name, FileEntry, ImageFiles};
use stitchy::options::Opt;

fn entry(name: &str, modified: u64) -> FileEntry {
    FileEntry { name: name.as_bytes().to_vec(), modified }
}

fn opt_with_count(count: usize) -> Opt {
    let mut opt = Opt::default();
    opt.number_of_files = Some(count);
    opt
}

#[test]
fn filters_to_supported_extensions() {
    let entries = vec![
        entry("a.png", 1),
        entry("b.txt", 2),
        entry("c.JPG", 3),
        entry("d.jpeg", 4),
        entry("noext", 5),
        entry(".hidden", 6),
        entry("e.gif", 7),
        entry("f.bmp", 8),
    ];
    let files = ImageFiles::from_entries(entries).unwrap();
    let names: Vec<&[u8]> = files.files.iter().map(|f| f.name.as_slice()).collect();
    assert_eq!(names, vec![b"a.png".as_slice(), b"c.JPG", b"d.jpeg", b"e.gif", b"f.bmp"]);
    assert_eq!(files.files[0].format, ImageFormat::Png);
    assert_eq!(files.files[1].format, ImageFormat::Jpeg);
    assert_eq!(files.files[2].format, ImageFormat::Jpeg);
    assert_eq!(files.files[3].format, ImageFormat::Gif);
    assert_eq!(files.files[4].format, ImageFormat::Bmp);
}

#[test]
fn no_files_found_when_nothing_supported() {
    let entries = vec![entry("a.txt", 1), entry("b.rs", 2)];
    let r = ImageFiles::from_entries(entries);
    assert!(matches!(r, Err(StitchError::NoFilesFound)));
}

#[test]
fn newest_first_with_name_tiebreak() {
    let entries = vec![
        entry("old.png", 10),
        entry("newest.png", 30),
        entry("b-mid.png", 20),
        entry("a-mid.png", 20),
    ];
    let files = ImageFiles::from_entries(entries).unwrap();
    let selected = files.sort_and_truncate_by(&opt_with_count(4)).unwrap();
    let names: Vec<&[u8]> = selected.files.iter().map(|f| f.name.as_slice()).collect();
    assert_eq!(
        names,
        vec![b"newest.png".as_slice(), b"a-mid.png", b"b-mid.png", b"old.png"]
    );
}

#[test]
fn ascending_alphabetical_order() {
    let entries = vec![entry("c.png", 1), entry("a.png", 2), entry("b.png", 3)];
    let files = ImageFiles::from_entries(entries).unwrap();
    let mut opt = opt_with_count(3);
    opt.ascalpha = true;
    let selected = files.sort_and_truncate_by(&opt).unwrap();
    let names: Vec<&[u8]> = selected.files.iter().map(|f| f.name.as_slice()).collect();
    assert_eq!(names, vec![b"a.png".as_slice(), b"b.png", b"c.png"]);
}

#[test]
fn descending_alphabetical_order() {
    let entries = vec![entry("c.png", 1), entry("a.png", 2), entry("b.png", 3)];
    let files = ImageFiles::from_entries(entries).unwrap();
    let mut opt = opt_with_count(3);
    opt.descalpha = true;
    let selected = files.sort_and_truncate_by(&opt).unwrap();
    let names: Vec<&[u8]> = selected.files.iter().map(|f| f.name.as_slice()).collect();
    assert_eq!(names, vec![b"c.png".as_slice(), b"b.png", b"a.png"]);
}

#[test]
fn reverse_flips_the_order() {
    let entries = vec![entry("a.png", 1), entry("b.png", 2)];
    let files = ImageFiles::from_entries(entries).unwrap();
    let mut opt = opt_with_count(2);
    opt.reverse = true;
    let selected = files.sort_and_truncate_by(&opt).unwrap();
    let names: Vec<&[u8]> = selected.files.iter().map(|f| f.name.as_slice()).collect();
    // newest-first reversed: oldest first
    assert_eq!(names, vec![b"a.png".as_slice(), b"b.png"]);
}

#[test]
fn truncates_to_requested_count() {
    let entries = vec![entry("a.png", 3), entry("b.png", 2), entry("c.png", 1)];
    let files = ImageFiles::from_entries(entries).unwrap();
    let selected = files.sort_and_truncate_by(&opt_with_count(2)).unwrap();
    assert_eq!(selected.files.len(), 2);
    let names: Vec<&[u8]> = selected.files.iter().map(|f| f.name.as_slice()).collect();
    assert_eq!(names, vec![b"a.png".as_slice(), b"b.png"]);
}

#[test]
fn insufficient_files_reports_counts() {
    let entries = vec![entry("a.png", 1), entry("b.png", 2)];
    let files = ImageFiles::from_entries(entries).unwrap();
    let r = files.sort_and_truncate_by(&opt_with_count(3));
    assert!(matches!(
        r,
        Err(StitchError::InsufficientFiles { found: 2, requested: 3 })
    ));
}

#[test]
fn requesting_exactly_available_succeeds() {
    let entries = vec![entry("a.png", 1), entry("b.png", 2)];
    let files = ImageFiles::from_entries(entries).unwrap();
    let r = files.sort_and_truncate_by(&opt_with_count(2));
    assert!(r.is_ok());
    assert_eq!(r.unwrap().files.len(), 2);
}

#[test]
fn selection_is_deterministic() {
    let make = || {
        vec![
            entry("x.png", 5),
            entry("y.png", 5),
            entry("w.png", 9),
            entry("z.png", 1),
        ]
    };
    let first = ImageFiles::from_entries(make())
        .unwrap()
        .sort_and_truncate_by(&opt_with_count(3))
        .unwrap();
    let second = ImageFiles::from_entries(make())
        .unwrap()
        .sort_and_truncate_by(&opt_with_count(3))
        .unwrap();
    let names1: Vec<&[u8]> = first.files.iter().map(|f| f.name.as_slice()).collect();
    let names2: Vec<&[u8]> = second.files.iter().map(|f| f.name.as_slice()).collect();
    assert_eq!(names1, names2);
}

#[test]
fn reselecting_a_selection_keeps_it() {
    // the selected list, fed back through selection, comes out unchanged
    let entries = vec![entry("a.png", 3), entry("b.png", 7), entry("c.png", 5)];
    let selected = ImageFiles::from_entries(entries)
        .unwrap()
        .sort_and_truncate_by(&opt_with_count(3))
        .unwrap();
    let names_before: Vec<Vec<u8>> = selected.files.iter().map(|f| f.name.clone()).collect();
    let again = selected.sort_and_truncate_by(&opt_with_count(3)).unwrap();
    let names_after: Vec<Vec<u8>> = again.files.iter().map(|f| f.name.clone()).collect();
    assert_eq!(names_before, names_after);
}

#[test]
fn explicit_format_wins() {
    let entries = vec![entry("a.png", 1)];
    let files = ImageFiles::from_entries(entries).unwrap();
    let mut opt = opt_with_count(1);
    opt.gif = true;
    assert_eq!(files.determine_output_format(&opt), ImageFormat::Gif);
}

#[test]
fn shared_input_format_is_kept() {
    let entries = vec![entry("a.png", 1), entry("b.PNG", 2)];
    let files = ImageFiles::from_entries(entries).unwrap();
    assert_eq!(
        files.determine_output_format(&opt_with_count(2)),
        ImageFormat::Png
    );
}

#[test]
fn mixed_input_formats_fall_back_to_jpeg() {
    let entries = vec![entry("a.png", 1), entry("b.gif", 2)];
    let files = ImageFiles::from_entries(entries).unwrap();
    assert_eq!(
        files.determine_output_format(&opt_with_count(2)),
        ImageFormat::Jpeg
    );
}

#[test]
fn output_name_avoids_existing_files() {
    let existing = vec![b"stitch.png".to_vec(), b"stitch-1.png".to_vec()];
    let name = next_available_output(&existing, ImageFormat::Png).unwrap();
    assert_eq!(name, b"stitch-2.png".to_vec());
}

#[test]
fn output_name_without_collisions() {
    let existing: Vec<Vec<u8>> = vec![];
    assert_eq!(
        next_available_output(&existing, ImageFormat::Jpeg).unwrap(),
        b"stitch.jpg".to_vec()
    );
    assert_eq!(
        next_available_output(&existing, ImageFormat::Bmp).unwrap(),
        b"stitch.bmp".to_vec()
    );
}

#[test]
fn output_name_is_deterministic() {
    let existing = vec![b"stitch.gif".to_vec()];
    let a = next_available_output(&existing, ImageFormat::Gif).unwrap();
    let b = next_available_output(&existing, ImageFormat::Gif).unwrap();
    assert_eq!(a, b);
    assert_eq!(a, b"stitch-1.gif".to_vec());
}

#[test]
fn output_names_exhaust_at_the_cap() {
    let mut existing: Vec<Vec<u8>> = Vec::new();
    for k in 0..=1000u64 {
        existing.push(build_output_name(ImageFormat::Png, k));
    }
    let r = next_available_output(&existing, ImageFormat::Png);
    assert!(matches!(r, Err(StitchError::PathExhaustion)));
}

#[test]
fn suffix_numbers_are_decimal() {
    assert_eq!(build_output_name(ImageFormat::Png, 12), b"stitch-12.png".to_vec());
    assert_eq!(build_output_name(ImageFormat::Png, 205), b"stitch-205.png".to_vec());
}
