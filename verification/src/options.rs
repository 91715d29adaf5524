use vstd::prelude::*;
use crate::enums::{AlignmentMode, ImageFormat, SortOrder};

verus! {

/// The options consumed by the selection-and-layout engine. They are plain
/// values: parsing them from the command line and merging them with a stored
/// profile happen before this crate is entered.
#[derive(Clone, Debug)]
pub struct Opt {
    pub help: bool,
    pub version: bool,
    pub horizontal: bool,
    pub vertical: bool,
    pub maxd: usize,
    pub maxw: usize,
    pub maxh: usize,
    pub reverse: bool,
    pub jpeg: bool,
    pub png: bool,
    pub gif: bool,
    pub bmp: bool,
    pub quality: usize,
    pub ascalpha: bool,
    pub descalpha: bool,
    pub number_of_files: Option<usize>,
}

impl Default for Opt {
    /// The neutral option set: no flags raised, no size limits, full quality.
    fn default() -> (r: Self)
        ensures
            r == Opt::spec_default(),
    {
        Opt {
            help: false,
            version: false,
            horizontal: false,
            vertical: false,
            maxd: 0,
            maxw: 0,
            maxh: 0,
            reverse: false,
            jpeg: false,
            png: false,
            gif: false,
            bmp: false,
            quality: 100,
            ascalpha: false,
            descalpha: false,
            number_of_files: None,
        }
    }
}

impl Opt {
    pub open spec fn spec_default() -> Opt {
        Opt {
            help: false,
            version: false,
            horizontal: false,
            vertical: false,
            maxd: 0,
            maxw: 0,
            maxh: 0,
            reverse: false,
            jpeg: false,
            png: false,
            gif: false,
            bmp: false,
            quality: 100,
            ascalpha: false,
            descalpha: false,
            number_of_files: None,
        }
    }

    /// How many of the format flags are raised.
    pub open spec fn format_flag_count(self) -> int {
        (if self.jpeg { 1int } else { 0 }) + (if self.png { 1int } else { 0 })
            + (if self.gif { 1int } else { 0 }) + (if self.bmp { 1int } else { 0 })
    }

    /// The message `check_for_basic_errors` reports, or `None` when the
    /// option set is acceptable. The checks run in a fixed order, so the
    /// message of the first failing check is the one reported.
    pub open spec fn spec_basic_error(self) -> Option<&'static str> {
        if self.ascalpha && self.descalpha {
            Some(
                "If selecting files based on alphabetical order, choose ascending or descending, not both.",
            )
        } else if self.horizontal && self.vertical {
            Some("Choose either horizontal or vertical (or neither), not both.")
        } else if self.maxd > 0 && self.maxw > 0 {
            Some("If using maxd, do not specify maxw as well.")
        } else if self.maxd > 0 && self.maxh > 0 {
            Some("If using maxd, do not specify maxh as well.")
        } else if self.format_flag_count() > 1 {
            Some("You cannot specify more than one of image types JPEG, PNG, GIF and BMP.")
        } else if self.quality == 0 || self.quality > 100 {
            Some("The quality setting must be in the range of 1 to 100 inclusive.")
        } else if self.quality != 100 && !self.jpeg && self.format_flag_count() > 0 {
            Some("The quality setting can only be used for JPEG output.")
        } else if self.number_of_files is None {
            Some("You did not provide number_of_files and StructOpt did not catch this error")
        } else if self.number_of_files matches Some(n) && n == 0 {
            Some("The number of images to stitch must be at least 1.")
        } else {
            None
        }
    }

    /// Validates the combinations of options that the engine cannot work
    /// with, reporting the first conflict found.
    pub fn check_for_basic_errors(&self) -> (r: Option<&'static str>)
        ensures
            r.is_some() == self.spec_basic_error().is_some(),
            r matches Some(m) ==> m@ == self.spec_basic_error().unwrap()@,
    {
        // Verify not requesting both ascending and descending alphabetical order
        if self.ascalpha && self.descalpha {
            return Some(
                "If selecting files based on alphabetical order, choose ascending or descending, not both.",
            );
        }
        // Verify not requesting both horizontal and vertical
        if self.horizontal && self.vertical {
            return Some("Choose either horizontal or vertical (or neither), not both.");
        }
        // Verify not requesting overlapping constraints
        if self.maxd > 0 && self.maxw > 0 {
            return Some("If using maxd, do not specify maxw as well.");
        }
        if self.maxd > 0 && self.maxh > 0 {
            return Some("If using maxd, do not specify maxh as well.");
        }
        // Choose one format only, or none at all
        let format_flag_count = (if self.jpeg { 1usize } else { 0 }) + (if self.png { 1usize } else { 0 })
            + (if self.gif { 1usize } else { 0 }) + (if self.bmp { 1usize } else { 0 });
        if format_flag_count > 1 {
            return Some("You cannot specify more than one of image types JPEG, PNG, GIF and BMP.");
        }
        // Verify quality setting is within the appropriate range, and is only used for JPEG
        if self.quality == 0 || self.quality > 100 {
            return Some("The quality setting must be in the range of 1 to 100 inclusive.");
        }
        if self.quality != 100 && !self.jpeg && format_flag_count > 0 {
            return Some("The quality setting can only be used for JPEG output.");
        }
        // Verify a sensible number was given
        let number_of_files = match self.number_of_files {
            Some(num) => num,
            _ => {
                return Some("You did not provide number_of_files and StructOpt did not catch this error");
            },
        };
        if number_of_files == 0 {
            return Some("The number of images to stitch must be at least 1.");
        }
        None
    }

    /// Reports whether a number of files is missing altogether. Kept apart
    /// from the basic checks because some profile operations are allowed to
    /// run without one.
    pub fn check_number_of_files_provided(&self) -> (r: Option<&'static str>)
        ensures
            r.is_some() == (self.number_of_files is None),
    {
        if self.number_of_files.is_none() {
            Some("You did not provide a number of files to stitch.")
        } else {
            None
        }
    }

    /// Expands the combined maximum-dimension shortcut into the two per-axis
    /// bounds, so that the engine only ever reasons about independent width
    /// and height limits.
    pub fn prepare_for_use(&mut self)
        ensures
            *final(self) == (Opt {
                maxw: if old(self).maxd > 0 { old(self).maxd } else { old(self).maxw },
                maxh: if old(self).maxd > 0 { old(self).maxd } else { old(self).maxh },
                ..*old(self)
            }),
    {
        if self.maxd > 0 {
            self.maxw = self.maxd;
            self.maxh = self.maxd;
        }
    }

    pub open spec fn spec_requested_format(self) -> ImageFormat {
        if self.jpeg {
            ImageFormat::Jpeg
        } else if self.png {
            ImageFormat::Png
        } else if self.gif {
            ImageFormat::Gif
        } else if self.bmp {
            ImageFormat::Bmp
        } else {
            ImageFormat::Unspecified
        }
    }

    /// The format the caller explicitly requested, or `Unspecified` when the
    /// choice is left to the inputs.
    pub fn get_requested_image_format(&self) -> (r: ImageFormat)
        ensures
            r == self.spec_requested_format(),
    {
        if self.jpeg {
            ImageFormat::Jpeg
        } else if self.png {
            ImageFormat::Png
        } else if self.gif {
            ImageFormat::Gif
        } else if self.bmp {
            ImageFormat::Bmp
        } else {
            ImageFormat::Unspecified
        }
    }

    pub open spec fn spec_alignment(self) -> AlignmentMode {
        if self.horizontal && !self.vertical {
            AlignmentMode::Horizontal
        } else if !self.horizontal && self.vertical {
            AlignmentMode::Vertical
        } else {
            AlignmentMode::Grid
        }
    }

    /// The arrangement the options ask for; neither flag means a grid.
    pub fn get_alignment(&self) -> (r: AlignmentMode)
        ensures
            r == self.spec_alignment(),
    {
        match (self.horizontal, self.vertical) {
            (true, false) => AlignmentMode::Horizontal,
            (false, true) => AlignmentMode::Vertical,
            _ => AlignmentMode::Grid,
        }
    }

    pub open spec fn spec_sort_order(self) -> SortOrder {
        if self.ascalpha && !self.descalpha {
            SortOrder::AscendingName
        } else if self.descalpha && !self.ascalpha {
            SortOrder::DescendingName
        } else {
            SortOrder::Newest
        }
    }

    /// The primary ordering of candidate files these options ask for; with
    /// neither alphabetical flag the most recently modified files come first.
    pub fn get_sort_order(&self) -> (r: SortOrder)
        ensures
            r == self.spec_sort_order(),
    {
        match (self.ascalpha, self.descalpha) {
            (true, false) => SortOrder::AscendingName,
            (false, true) => SortOrder::DescendingName,
            _ => SortOrder::Newest,
        }
    }
}

} // verus!
