use vstd::prelude::*;
use crate::enums::{ImageFormat, SortOrder, StitchError};
use crate::options::Opt;

verus! {

/// A directory entry as the caller found it: a file name (as raw bytes) and
/// its modification timestamp.
#[derive(Clone, Debug)]
pub struct FileEntry {
    pub name: Vec<u8>,
    pub modified: u64,
}

/// A candidate input file, tagged with the format inferred from its
/// extension. The tag of a candidate is never `Unspecified`.
#[derive(Clone, Debug)]
pub struct CandidateFile {
    pub name: Vec<u8>,
    pub modified: u64,
    pub format: ImageFormat,
}

/// Strict lexicographic order on byte strings.
pub open spec fn bytes_lt(a: Seq<u8>, b: Seq<u8>) -> bool
    decreases a.len(),
{
    if b.len() == 0 {
        false
    } else if a.len() == 0 {
        true
    } else if a[0] < b[0] {
        true
    } else if a[0] > b[0] {
        false
    } else {
        bytes_lt(a.skip(1), b.skip(1))
    }
}

fn bytes_lt_from(a: &Vec<u8>, b: &Vec<u8>, i: usize) -> (r: bool)
    requires
        i <= a.len(),
        i <= b.len(),
    ensures
        r == bytes_lt(a@.skip(i as int), b@.skip(i as int)),
    decreases a.len() - i,
{
    if i == b.len() {
        false
    } else if i == a.len() {
        true
    } else if a[i] < b[i] {
        true
    } else if a[i] > b[i] {
        false
    } else {
        proof {
            assert(a@.skip(i as int).skip(1) =~= a@.skip(i as int + 1));
            assert(b@.skip(i as int).skip(1) =~= b@.skip(i as int + 1));
        }
        bytes_lt_from(a, b, i + 1)
    }
}

/// Decides the lexicographic order of two byte-string names.
pub fn bytes_lt_exec(a: &Vec<u8>, b: &Vec<u8>) -> (r: bool)
    ensures
        r == bytes_lt(a@, b@),
{
    proof {
        assert(a@.skip(0) =~= a@);
        assert(b@.skip(0) =~= b@);
    }
    bytes_lt_from(a, b, 0)
}

/// The strict order the selector sorts by: most recent first (ties broken by
/// ascending name) or one of the two alphabetical orders.
pub open spec fn file_lt(a: CandidateFile, b: CandidateFile, order: SortOrder) -> bool {
    match order {
        SortOrder::Newest => a.modified > b.modified || (a.modified == b.modified && bytes_lt(
            a.name@,
            b.name@,
        )),
        SortOrder::AscendingName => bytes_lt(a.name@, b.name@),
        SortOrder::DescendingName => bytes_lt(b.name@, a.name@),
    }
}

fn file_lt_exec(a: &CandidateFile, b: &CandidateFile, order: SortOrder) -> (r: bool)
    ensures
        r == file_lt(*a, *b, order),
{
    match order {
        SortOrder::Newest => a.modified > b.modified || (a.modified == b.modified && bytes_lt_exec(
            &a.name,
            &b.name,
        )),
        SortOrder::AscendingName => bytes_lt_exec(&a.name, &b.name),
        SortOrder::DescendingName => bytes_lt_exec(&b.name, &a.name),
    }
}

/// Stable insertion of one file into an already built sequence: it lands
/// before the first element it is strictly less than.
pub open spec fn insert_by(x: CandidateFile, s: Seq<CandidateFile>, order: SortOrder) -> Seq<
    CandidateFile,
>
    decreases s.len(),
{
    if s.len() == 0 {
        seq![x]
    } else if file_lt(x, s[0], order) {
        seq![x] + s
    } else {
        seq![s[0]] + insert_by(x, s.skip(1), order)
    }
}

/// Stable insertion sort over the chosen order, processing the input left to
/// right. This is the ordering the selector promises.
pub open spec fn sort_by_order(s: Seq<CandidateFile>, order: SortOrder) -> Seq<CandidateFile>
    decreases s.len(),
{
    if s.len() == 0 {
        Seq::empty()
    } else {
        insert_by(s.last(), sort_by_order(s.drop_last(), order), order)
    }
}

proof fn lemma_insert_by_at(x: CandidateFile, s: Seq<CandidateFile>, order: SortOrder, j: int)
    requires
        0 <= j <= s.len(),
        forall|k: int| 0 <= k < j ==> !file_lt(x, s[k], order),
        j < s.len() ==> file_lt(x, s[j], order),
    ensures
        insert_by(x, s, order) == s.insert(j, x),
    decreases j,
{
    if j == 0 {
        if s.len() == 0 {
            assert(insert_by(x, s, order) =~= s.insert(0, x));
        } else {
            assert(file_lt(x, s[0], order));
            assert(insert_by(x, s, order) =~= s.insert(0, x));
        }
    } else {
        assert(!file_lt(x, s[0], order));
        assert forall|k: int| 0 <= k < j - 1 implies !file_lt(x, s.skip(1)[k], order) by {
            assert(s.skip(1)[k] == s[k + 1]);
        }
        assert(j - 1 < s.skip(1).len() ==> file_lt(x, s.skip(1)[j - 1], order));
        lemma_insert_by_at(x, s.skip(1), order, j - 1);
        assert(insert_by(x, s, order) =~= s.insert(j, x));
    }
}

proof fn lemma_insert_by_len(x: CandidateFile, s: Seq<CandidateFile>, order: SortOrder)
    ensures
        insert_by(x, s, order).len() == s.len() + 1,
    decreases s.len(),
{
    if s.len() == 0 {
    } else if file_lt(x, s[0], order) {
    } else {
        lemma_insert_by_len(x, s.skip(1), order);
    }
}

/// Sorting never adds or drops a file.
pub proof fn lemma_sort_by_order_len(s: Seq<CandidateFile>, order: SortOrder)
    ensures
        sort_by_order(s, order).len() == s.len(),
    decreases s.len(),
{
    if s.len() > 0 {
        lemma_sort_by_order_len(s.drop_last(), order);
        lemma_insert_by_len(s.last(), sort_by_order(s.drop_last(), order), order);
    }
}

fn insertion_index(out: &Vec<CandidateFile>, x: &CandidateFile, order: SortOrder) -> (j: usize)
    ensures
        j <= out@.len(),
        forall|k: int| 0 <= k < j ==> !file_lt(*x, out@[k], order),
        j < out@.len() ==> file_lt(*x, out@[j as int], order),
{
    let mut j: usize = 0;
    while j < out.len()
        invariant
            j <= out@.len(),
            forall|k: int| 0 <= k < j ==> !file_lt(*x, out@[k], order),
        decreases out@.len() - j,
    {
        if file_lt_exec(x, &out[j], order) {
            return j;
        }
        j = j + 1;
    }
    j
}

/// Sorts the candidate files by the chosen order, keeping the input order of
/// files the order does not distinguish.
pub fn sort_files(files: Vec<CandidateFile>, order: SortOrder) -> (r: Vec<CandidateFile>)
    ensures
        r@ == sort_by_order(files@, order),
{
    let ghost orig = files@;
    let mut input = files;
    proof {
        assert(input.len() == orig.len());
    }
    let mut out: Vec<CandidateFile> = Vec::new();
    let mut i: usize = 0;
    while input.len() > 0
        invariant
            orig.len() <= usize::MAX,
            i + input@.len() == orig.len(),
            input@ == orig.skip(i as int),
            out@ == sort_by_order(orig.take(i as int), order),
        decreases input@.len(),
    {
        let x = input.remove(0);
        proof {
            assert(orig.skip(i as int).remove(0) =~= orig.skip(i as int + 1));
            assert(x == orig[i as int]);
        }
        let ghost out0 = out@;
        let j = insertion_index(&out, &x, order);
        out.insert(j, x);
        proof {
            lemma_insert_by_at(x, out0, order, j as int);
            assert(orig.take(i as int + 1).drop_last() =~= orig.take(i as int));
            assert(orig.take(i as int + 1).last() == orig[i as int]);
            assert(out@ == sort_by_order(orig.take(i as int + 1), order));
        }
        i = i + 1;
    }
    proof {
        assert(orig.take(orig.len() as int) =~= orig);
    }
    out
}

fn reverse_vec(v: Vec<CandidateFile>) -> (r: Vec<CandidateFile>)
    ensures
        r@ == v@.reverse(),
{
    let ghost orig = v@;
    let mut input = v;
    let mut out: Vec<CandidateFile> = Vec::new();
    while input.len() > 0
        invariant
            input@.len() + out@.len() == orig.len(),
            input@ == orig.take(input@.len() as int),
            forall|k: int| 0 <= k < out@.len() ==> out@[k] == orig[orig.len() - 1 - k],
        decreases input@.len(),
    {
        let x_opt = input.pop();
        let x = match x_opt {
            Some(y) => y,
            None => {
                proof {
                    assert(false);
                }
                return out;
            },
        };
        proof {
            assert(orig.take((out@.len() + input@.len() + 1) as int).drop_last() =~= orig.take(
                (out@.len() + input@.len()) as int,
            ));
            assert(x == orig[orig.len() - 1 - out@.len()]);
        }
        out.push(x);
    }
    proof {
        assert(out@ =~= orig.reverse());
    }
    out
}

/// ASCII lower-casing of one byte, so that extensions match without regard to
/// case.
pub open spec fn lower_byte(b: u8) -> u8 {
    if 65 <= b && b <= 90 {
        (b + 32) as u8
    } else {
        b
    }
}

fn lower_byte_exec(b: u8) -> (r: u8)
    ensures
        r == lower_byte(b),
{
    if 65 <= b && b <= 90 {
        b + 32
    } else {
        b
    }
}

/// The image format a file extension stands for: `jpg`/`jpeg`, `png`, `gif`
/// or `bmp` in any letter case; anything else is unsupported.
pub open spec fn spec_format_from_extension(e: Seq<u8>) -> ImageFormat {
    if e.len() == 3 && lower_byte(e[0]) == 106 && lower_byte(e[1]) == 112 && lower_byte(e[2])
        == 103 {
        ImageFormat::Jpeg
    } else if e.len() == 4 && lower_byte(e[0]) == 106 && lower_byte(e[1]) == 112 && lower_byte(e[2])
        == 101 && lower_byte(e[3]) == 103 {
        ImageFormat::Jpeg
    } else if e.len() == 3 && lower_byte(e[0]) == 112 && lower_byte(e[1]) == 110 && lower_byte(e[2])
        == 103 {
        ImageFormat::Png
    } else if e.len() == 3 && lower_byte(e[0]) == 103 && lower_byte(e[1]) == 105 && lower_byte(e[2])
        == 102 {
        ImageFormat::Gif
    } else if e.len() == 3 && lower_byte(e[0]) == 98 && lower_byte(e[1]) == 109 && lower_byte(e[2])
        == 112 {
        ImageFormat::Bmp
    } else {
        ImageFormat::Unspecified
    }
}

/// Maps an extension to the format it stands for, or `Unspecified`.
pub fn format_from_extension(e: &Vec<u8>) -> (r: ImageFormat)
    ensures
        r == spec_format_from_extension(e@),
{
    if e.len() == 3 {
        let b0 = lower_byte_exec(e[0]);
        let b1 = lower_byte_exec(e[1]);
        let b2 = lower_byte_exec(e[2]);
        if b0 == 106 && b1 == 112 && b2 == 103 {
            ImageFormat::Jpeg
        } else if b0 == 112 && b1 == 110 && b2 == 103 {
            ImageFormat::Png
        } else if b0 == 103 && b1 == 105 && b2 == 102 {
            ImageFormat::Gif
        } else if b0 == 98 && b1 == 109 && b2 == 112 {
            ImageFormat::Bmp
        } else {
            ImageFormat::Unspecified
        }
    } else if e.len() == 4 {
        let b0 = lower_byte_exec(e[0]);
        let b1 = lower_byte_exec(e[1]);
        let b2 = lower_byte_exec(e[2]);
        let b3 = lower_byte_exec(e[3]);
        if b0 == 106 && b1 == 112 && b2 == 101 && b3 == 103 {
            ImageFormat::Jpeg
        } else {
            ImageFormat::Unspecified
        }
    } else {
        ImageFormat::Unspecified
    }
}

/// The index of the last `.` in a name, if any.
pub open spec fn spec_last_dot(name: Seq<u8>) -> Option<int>
    decreases name.len(),
{
    if name.len() == 0 {
        None
    } else if name[name.len() - 1] == 46 {
        Some(name.len() - 1)
    } else {
        spec_last_dot(name.drop_last())
    }
}

/// The extension of a file name: the bytes after the last dot, provided that
/// dot is not the leading byte (a leading dot marks a hidden file, not an
/// extension).
pub open spec fn spec_extension_of(name: Seq<u8>) -> Option<Seq<u8>> {
    match spec_last_dot(name) {
        Some(i) => if i >= 1 {
            Some(name.skip(i + 1))
        } else {
            None
        },
        None => None,
    }
}

fn last_dot_exec(name: &Vec<u8>) -> (r: Option<usize>)
    ensures
        r matches Some(i) ==> spec_last_dot(name@) == Some(i as int) && i < name@.len(),
        r is None ==> spec_last_dot(name@) is None,
{
    let mut k: usize = name.len();
    proof {
        assert(name@.take(name@.len() as int) =~= name@);
    }
    while k > 0
        invariant
            k <= name@.len(),
            spec_last_dot(name@) == spec_last_dot(name@.take(k as int)),
        decreases k,
    {
        if name[k - 1] == 46 {
            proof {
                assert(name@.take(k as int).len() == k);
                assert(name@.take(k as int)[k - 1] == name@[k - 1]);
            }
            return Some(k - 1);
        }
        proof {
            assert(name@.take(k as int)[k - 1] == name@[k - 1]);
            assert(name@.take(k as int).drop_last() =~= name@.take(k as int - 1));
        }
        k = k - 1;
    }
    proof {
        assert(name@.take(0).len() == 0);
    }
    None
}

/// Splits off the extension of a name, if it has one.
pub fn extension_of(name: &Vec<u8>) -> (r: Option<Vec<u8>>)
    ensures
        r matches Some(e) ==> spec_extension_of(name@) == Some(e@),
        r is None ==> spec_extension_of(name@) is None,
{
    let d = last_dot_exec(name);
    match d {
        Some(i) => {
            if i >= 1 {
                proof {
                    assert(name.len() == name@.len());
                }
                let mut ext: Vec<u8> = Vec::new();
                let mut j: usize = i + 1;
                while j < name.len()
                    invariant
                        i + 1 <= j <= name@.len(),
                        ext@ == name@.subrange(i as int + 1, j as int),
                    decreases name@.len() - j,
                {
                    let b = name[j];
                    ext.push(b);
                    proof {
                        assert(name@.subrange(i as int + 1, j as int + 1) =~= name@.subrange(
                            i as int + 1,
                            j as int,
                        ).push(name@[j as int]));
                    }
                    j = j + 1;
                }
                proof {
                    assert(ext@ =~= name@.skip(i as int + 1));
                }
                Some(ext)
            } else {
                None
            }
        },
        None => None,
    }
}

/// The format a file name's extension stands for, or `Unspecified` when the
/// name has no extension or an unsupported one.
pub open spec fn spec_format_from_name(name: Seq<u8>) -> ImageFormat {
    match spec_extension_of(name) {
        Some(e) => spec_format_from_extension(e),
        None => ImageFormat::Unspecified,
    }
}

/// Infers the image format of a file from its name.
pub fn format_from_name(name: &Vec<u8>) -> (r: ImageFormat)
    ensures
        r == spec_format_from_name(name@),
{
    match extension_of(name) {
        Some(e) => format_from_extension(&e),
        None => ImageFormat::Unspecified,
    }
}

/// The directory entries whose names carry a supported image extension, in
/// the order they were listed, each tagged with its inferred format.
pub open spec fn filter_supported(entries: Seq<FileEntry>) -> Seq<CandidateFile>
    decreases entries.len(),
{
    if entries.len() == 0 {
        Seq::empty()
    } else {
        let rest = filter_supported(entries.drop_last());
        let e = entries.last();
        if spec_format_from_name(e.name@) != ImageFormat::Unspecified {
            rest.push(
                CandidateFile {
                    name: e.name,
                    modified: e.modified,
                    format: spec_format_from_name(e.name@),
                },
            )
        } else {
            rest
        }
    }
}

/// The candidate files found in one directory listing.
#[derive(Clone, Debug)]
pub struct ImageFiles {
    pub files: Vec<CandidateFile>,
}

impl ImageFiles {
    /// Filters a directory listing down to the supported image files; fails
    /// with `NoFilesFound` when nothing remains.
    pub fn from_entries(entries: Vec<FileEntry>) -> (r: Result<ImageFiles, StitchError>)
        ensures
            filter_supported(entries@).len() == 0 ==> (r matches Err(e) && e
                == StitchError::NoFilesFound),
            filter_supported(entries@).len() > 0 ==> (r matches Ok(f) && f.files@
                == filter_supported(entries@)),
    {
        let ghost orig = entries@;
        let mut input = entries;
        proof {
            assert(input.len() == orig.len());
        }
        let mut out: Vec<CandidateFile> = Vec::new();
        let mut i: usize = 0;
        while input.len() > 0
            invariant
                orig.len() <= usize::MAX,
                i + input@.len() == orig.len(),
                input@ == orig.skip(i as int),
                out@ == filter_supported(orig.take(i as int)),
            decreases input@.len(),
        {
            let e = input.remove(0);
            proof {
                assert(orig.skip(i as int).remove(0) =~= orig.skip(i as int + 1));
                assert(e == orig[i as int]);
                assert(orig.take(i as int + 1).drop_last() =~= orig.take(i as int));
                assert(orig.take(i as int + 1).last() == orig[i as int]);
            }
            let format = format_from_name(&e.name);
            if !matches!(format, ImageFormat::Unspecified) {
                out.push(CandidateFile { name: e.name, modified: e.modified, format });
            }
            i = i + 1;
        }
        proof {
            assert(orig.take(orig.len() as int) =~= orig);
        }
        if out.len() == 0 {
            Err(StitchError::NoFilesFound)
        } else {
            Ok(ImageFiles { files: out })
        }
    }

    /// The ordering the options ask for, reversal included.
    pub open spec fn spec_ordered(files: Seq<CandidateFile>, opt: Opt) -> Seq<CandidateFile> {
        let sorted = sort_by_order(files, opt.spec_sort_order());
        if opt.reverse {
            sorted.reverse()
        } else {
            sorted
        }
    }

    /// The ordered candidates truncated to the requested count.
    pub open spec fn spec_selection(files: Seq<CandidateFile>, opt: Opt) -> Seq<CandidateFile>
        recommends
            opt.number_of_files is Some,
    {
        Self::spec_ordered(files, opt).take(opt.number_of_files.unwrap() as int)
    }

    /// Orders the candidates as the options ask and keeps the first
    /// `number_of_files` of them. Fails with `InsufficientFiles` exactly when
    /// fewer candidates exist than were requested; requesting exactly the
    /// available count succeeds.
    pub fn sort_and_truncate_by(self, opt: &Opt) -> (r: Result<ImageFiles, StitchError>)
        requires
            opt.number_of_files matches Some(n) && n >= 1,
        ensures
            self.files@.len() < opt.number_of_files.unwrap() ==> (r matches Err(e) && e == (
            StitchError::InsufficientFiles {
                found: self.files@.len() as usize,
                requested: opt.number_of_files.unwrap(),
            })),
            self.files@.len() >= opt.number_of_files.unwrap() ==> (r matches Ok(f) && f.files@
                == Self::spec_selection(self.files@, *opt)),
    {
        let ghost orig_files = self.files@;
        let requested = match opt.number_of_files {
            Some(n) => n,
            None => {
                proof {
                    assert(false);
                }
                return Err(StitchError::NoFilesFound);
            },
        };
        let found = self.files.len();
        if found < requested {
            return Err(StitchError::InsufficientFiles { found, requested });
        }
        let order = opt.get_sort_order();
        let sorted = sort_files(self.files, order);
        let ordered = if opt.reverse {
            reverse_vec(sorted)
        } else {
            sorted
        };
        let mut truncated = ordered;
        proof {
            lemma_sort_by_order_len(orig_files, order);
        }
        truncated.truncate(requested);
        proof {
            assert(truncated@ =~= Self::spec_selection(orig_files, *opt));
        }
        Ok(ImageFiles { files: truncated })
    }

    /// Whether every candidate carries the same format tag.
    pub open spec fn all_same_format(files: Seq<CandidateFile>) -> bool {
        forall|i: int| 0 <= i < files.len() ==> (#[trigger] files[i]).format == files[0].format
    }

    /// The output format the resolver decides on: the explicitly requested
    /// one; otherwise the single format shared by every input; otherwise the
    /// broadly compatible JPEG fallback.
    pub open spec fn spec_output_format(files: Seq<CandidateFile>, opt: Opt) -> ImageFormat {
        if opt.spec_requested_format() != ImageFormat::Unspecified {
            opt.spec_requested_format()
        } else if files.len() > 0 && Self::all_same_format(files) && files[0].format
            != ImageFormat::Unspecified {
            files[0].format
        } else {
            ImageFormat::Jpeg
        }
    }

    /// Decides the output container format. Never fails, and never returns
    /// `Unspecified`.
    pub fn determine_output_format(&self, opt: &Opt) -> (r: ImageFormat)
        ensures
            r == Self::spec_output_format(self.files@, *opt),
            r != ImageFormat::Unspecified,
    {
        let requested = opt.get_requested_image_format();
        if !matches!(requested, ImageFormat::Unspecified) {
            return requested;
        }
        if self.files.len() == 0 {
            return ImageFormat::Jpeg;
        }
        let first = self.files[0].format;
        let mut i: usize = 1;
        while i < self.files.len()
            invariant
                opt.spec_requested_format() == ImageFormat::Unspecified,
                1 <= i <= self.files@.len(),
                self.files@.len() > 0,
                first == self.files@[0].format,
                forall|k: int| 0 <= k < i ==> self.files@[k].format == first,
            decreases self.files@.len() - i,
        {
            if !(self.files[i].format == first) {
                proof {
                    assert(self.files@[i as int].format != self.files@[0].format);
                    assert(!Self::all_same_format(self.files@));
                }
                return ImageFormat::Jpeg;
            }
            i = i + 1;
        }
        if matches!(first, ImageFormat::Unspecified) {
            ImageFormat::Jpeg
        } else {
            first
        }
    }
}

/// The file extension written for each output format.
pub open spec fn spec_extension_for(f: ImageFormat) -> Seq<u8> {
    match f {
        ImageFormat::Jpeg => seq![106u8, 112u8, 103u8],
        ImageFormat::Png => seq![112u8, 110u8, 103u8],
        ImageFormat::Gif => seq![103u8, 105u8, 102u8],
        ImageFormat::Bmp => seq![98u8, 109u8, 112u8],
        ImageFormat::Unspecified => seq![],
    }
}

fn push_extension_for(format: ImageFormat, name: &mut Vec<u8>)
    ensures
        final(name)@ == old(name)@ + spec_extension_for(format),
{
    let ghost before = name@;
    match format {
        ImageFormat::Jpeg => {
            name.push(106);
            name.push(112);
            name.push(103);
        },
        ImageFormat::Png => {
            name.push(112);
            name.push(110);
            name.push(103);
        },
        ImageFormat::Gif => {
            name.push(103);
            name.push(105);
            name.push(102);
        },
        ImageFormat::Bmp => {
            name.push(98);
            name.push(109);
            name.push(112);
        },
        ImageFormat::Unspecified => {},
    }
    proof {
        assert(name@ =~= before + spec_extension_for(format));
    }
}

/// The decimal digits of a number, most significant first.
pub open spec fn spec_digits(n: int) -> Seq<u8>
    decreases n,
{
    if n < 10 {
        seq![(48 + n) as u8]
    } else {
        spec_digits(n / 10).push((48 + n % 10) as u8)
    }
}

fn push_digits(n: u64, out: &mut Vec<u8>)
    ensures
        final(out)@ == old(out)@ + spec_digits(n as int),
    decreases n,
{
    if n < 10 {
        out.push(48 + (n as u8));
        proof {
            assert(out@ =~= old(out)@ + spec_digits(n as int));
        }
    } else {
        push_digits(n / 10, out);
        out.push(48 + ((n % 10) as u8));
        proof {
            assert(out@ =~= old(out)@ + spec_digits(n as int));
        }
    }
}

/// The fixed base of every output file name.
pub open spec fn spec_base_name() -> Seq<u8> {
    seq![115u8, 116u8, 105u8, 116u8, 99u8, 104u8]
}

/// The candidate output name for suffix `k`: the base name for `k == 0`, and
/// the base name with `-k` appended for later attempts, always followed by
/// the format's extension.
pub open spec fn spec_output_name(format: ImageFormat, k: int) -> Seq<u8> {
    if k == 0 {
        spec_base_name() + seq![46u8] + spec_extension_for(format)
    } else {
        spec_base_name() + seq![45u8] + spec_digits(k) + seq![46u8] + spec_extension_for(format)
    }
}

/// Builds the candidate output name for suffix `k`.
pub fn build_output_name(format: ImageFormat, k: u64) -> (r: Vec<u8>)
    ensures
        r@ == spec_output_name(format, k as int),
{
    let mut name: Vec<u8> = Vec::new();
    name.push(115);
    name.push(116);
    name.push(105);
    name.push(116);
    name.push(99);
    name.push(104);
    proof {
        assert(name@ =~= spec_base_name());
    }
    if k > 0 {
        name.push(45);
        let ghost with_dash = name@;
        push_digits(k, &mut name);
        proof {
            assert(name@ =~= spec_base_name() + seq![45u8] + spec_digits(k as int));
        }
    }
    name.push(46);
    let ghost with_dot = name@;
    push_extension_for(format, &mut name);
    proof {
        assert(name@ =~= spec_output_name(format, k as int));
    }
    name
}

/// Whether some existing file already carries this name.
pub open spec fn name_taken(existing: Seq<Vec<u8>>, name: Seq<u8>) -> bool {
    exists|i: int| 0 <= i < existing.len() && existing[i]@ == name
}

fn bytes_eq(a: &Vec<u8>, b: &Vec<u8>) -> (r: bool)
    ensures
        r == (a@ == b@),
{
    if a.len() != b.len() {
        return false;
    }
    let mut i: usize = 0;
    while i < a.len()
        invariant
            a@.len() == b@.len(),
            i <= a@.len(),
            forall|k: int| 0 <= k < i ==> a@[k] == b@[k],
        decreases a@.len() - i,
    {
        if a[i] != b[i] {
            return false;
        }
        i = i + 1;
    }
    proof {
        assert(a@ =~= b@);
    }
    true
}

fn name_exists(existing: &Vec<Vec<u8>>, name: &Vec<u8>) -> (r: bool)
    ensures
        r == name_taken(existing@, name@),
{
    let mut i: usize = 0;
    while i < existing.len()
        invariant
            i <= existing@.len(),
            forall|k: int| 0 <= k < i ==> (#[trigger] existing@[k])@ != name@,
        decreases existing@.len() - i,
    {
        if bytes_eq(&existing[i], name) {
            return true;
        }
        i = i + 1;
    }
    false
}

/// The first collision-free candidate name, searching suffixes in increasing
/// order up to the cap of 1000; `None` when every candidate is taken.
pub open spec fn spec_next_output_from(existing: Seq<Vec<u8>>, format: ImageFormat, k: int) -> Option<
    Seq<u8>,
>
    decreases 1001 - k,
{
    if k < 0 || k > 1000 {
        None
    } else if !name_taken(existing, spec_output_name(format, k)) {
        Some(spec_output_name(format, k))
    } else {
        spec_next_output_from(existing, format, k + 1)
    }
}

/// The name the resolver hands out for this directory listing and format.
pub open spec fn spec_next_output(existing: Seq<Vec<u8>>, format: ImageFormat) -> Option<Seq<u8>> {
    spec_next_output_from(existing, format, 0)
}

/// Resolves a collision-free output file name: the fixed base name with the
/// format's extension, with an incrementing numeric suffix appended while the
/// name is already in use. The result never names an existing file, and is a
/// pure function of the directory listing and the format. Fails with
/// `PathExhaustion` when the first 1001 candidates are all taken.
pub fn next_available_output(existing: &Vec<Vec<u8>>, format: ImageFormat) -> (r: Result<
    Vec<u8>,
    StitchError,
>)
    ensures
        r matches Ok(name) ==> spec_next_output(existing@, format) == Some(name@) && !name_taken(
            existing@,
            name@,
        ),
        r matches Err(e) ==> e == StitchError::PathExhaustion && spec_next_output(
            existing@,
            format,
        ) is None,
{
    let mut k: u64 = 0;
    while k <= 1000
        invariant
            k <= 1001,
            spec_next_output(existing@, format) == spec_next_output_from(
                existing@,
                format,
                k as int,
            ),
        decreases 1001 - k,
    {
        let name = build_output_name(format, k);
        if !name_exists(existing, &name) {
            return Ok(name);
        }
        k = k + 1;
    }
    Err(StitchError::PathExhaustion)
}

/// Whether a sequence of files is in order: no later file sorts strictly
/// before an earlier one.
pub open spec fn sorted_by_order(s: Seq<CandidateFile>, order: SortOrder) -> bool {
    forall|i: int, j: int| 0 <= i < j < s.len() ==> !file_lt(s[j], s[i], order)
}

proof fn lemma_bytes_lt_asym(a: Seq<u8>, b: Seq<u8>)
    requires
        bytes_lt(a, b),
    ensures
        !bytes_lt(b, a),
    decreases a.len(),
{
    if b.len() == 0 {
    } else if a.len() == 0 {
    } else if a[0] < b[0] {
    } else if a[0] > b[0] {
    } else {
        lemma_bytes_lt_asym(a.skip(1), b.skip(1));
    }
}

proof fn lemma_bytes_lt_trans(a: Seq<u8>, b: Seq<u8>, c: Seq<u8>)
    requires
        bytes_lt(a, b),
        bytes_lt(b, c),
    ensures
        bytes_lt(a, c),
    decreases a.len(),
{
    if c.len() == 0 {
    } else if b.len() == 0 {
    } else if a.len() == 0 {
    } else {
        if a[0] == b[0] && b[0] == c[0] {
            lemma_bytes_lt_trans(a.skip(1), b.skip(1), c.skip(1));
        }
    }
}

proof fn lemma_file_lt_asym(a: CandidateFile, b: CandidateFile, order: SortOrder)
    requires
        file_lt(a, b, order),
    ensures
        !file_lt(b, a, order),
{
    match order {
        SortOrder::Newest => {
            if a.modified == b.modified {
                lemma_bytes_lt_asym(a.name@, b.name@);
            }
        },
        SortOrder::AscendingName => {
            lemma_bytes_lt_asym(a.name@, b.name@);
        },
        SortOrder::DescendingName => {
            lemma_bytes_lt_asym(b.name@, a.name@);
        },
    }
}

proof fn lemma_file_lt_trans(a: CandidateFile, b: CandidateFile, c: CandidateFile, order: SortOrder)
    requires
        file_lt(a, b, order),
        file_lt(b, c, order),
    ensures
        file_lt(a, c, order),
{
    match order {
        SortOrder::Newest => {
            if a.modified == b.modified && b.modified == c.modified {
                lemma_bytes_lt_trans(a.name@, b.name@, c.name@);
            }
        },
        SortOrder::AscendingName => {
            lemma_bytes_lt_trans(a.name@, b.name@, c.name@);
        },
        SortOrder::DescendingName => {
            lemma_bytes_lt_trans(c.name@, b.name@, a.name@);
        },
    }
}

proof fn lemma_first_geq_index(x: CandidateFile, s: Seq<CandidateFile>, order: SortOrder) -> (j:
    int)
    ensures
        0 <= j <= s.len(),
        forall|k: int| 0 <= k < j ==> !file_lt(x, s[k], order),
        j < s.len() ==> file_lt(x, s[j], order),
    decreases s.len(),
{
    if s.len() == 0 {
        0
    } else if file_lt(x, s[0], order) {
        0
    } else {
        let j1 = lemma_first_geq_index(x, s.skip(1), order);
        assert forall|k: int| 0 <= k < j1 + 1 implies !file_lt(x, s[k], order) by {
            if k > 0 {
                assert(s.skip(1)[k - 1] == s[k]);
            }
        }
        assert(j1 + 1 < s.len() ==> file_lt(x, s[j1 + 1], order)) by {
            if j1 + 1 < s.len() {
                assert(s.skip(1)[j1] == s[j1 + 1]);
            }
        }
        j1 + 1
    }
}

/// Inserting a file into an ordered sequence keeps it ordered.
pub proof fn lemma_insert_by_sorted(x: CandidateFile, s: Seq<CandidateFile>, order: SortOrder)
    requires
        sorted_by_order(s, order),
    ensures
        sorted_by_order(insert_by(x, s, order), order),
{
    let j = lemma_first_geq_index(x, s, order);
    lemma_insert_by_at(x, s, order, j);
    let r = s.insert(j, x);
    assert forall|p: int, q: int| 0 <= p < q < r.len() implies !file_lt(r[q], r[p], order) by {
        if p == j && q > j {
            if j < s.len() && file_lt(r[q], x, order) {
                lemma_file_lt_trans(s[q - 1], x, s[j], order);
                if q - 1 == j {
                    lemma_file_lt_asym(s[j], s[j], order);
                }
            }
        } else if q == j {
        } else if p < j && q > j {
            if file_lt(r[q], r[p], order) {
                assert(!file_lt(s[q - 1], s[p], order));
            }
        }
    }
}

/// The sorted order of the selector really is sorted.
pub proof fn lemma_sort_by_order_sorted(s: Seq<CandidateFile>, order: SortOrder)
    ensures
        sorted_by_order(sort_by_order(s, order), order),
    decreases s.len(),
{
    if s.len() > 0 {
        lemma_sort_by_order_sorted(s.drop_last(), order);
        lemma_insert_by_sorted(s.last(), sort_by_order(s.drop_last(), order), order);
    }
}

/// The selection the engine promises is itself in order: the truncated
/// prefix of the sorted candidates inherits its sortedness.
pub proof fn lemma_selection_sorted(files: Seq<CandidateFile>, opt: Opt)
    requires
        opt.number_of_files is Some,
        opt.number_of_files.unwrap() <= files.len(),
        !opt.reverse,
    ensures
        sorted_by_order(ImageFiles::spec_selection(files, opt), opt.spec_sort_order()),
{
    let order = opt.spec_sort_order();
    lemma_sort_by_order_sorted(files, order);
    lemma_sort_by_order_len(files, order);
    let sorted = sort_by_order(files, order);
    let sel = ImageFiles::spec_selection(files, opt);
    assert forall|i: int, j: int| 0 <= i < j < sel.len() implies !file_lt(sel[j], sel[i], order) by {
        assert(sel[i] == sorted[i] && sel[j] == sorted[j]);
    }
}

/// The selection-idempotence law: sorting an already ordered sequence hands
/// it back unchanged, so re-running selection on an unchanged listing
/// yields the same ordered list.
pub proof fn lemma_sort_by_order_idempotent(s: Seq<CandidateFile>, order: SortOrder)
    requires
        sorted_by_order(s, order),
    ensures
        sort_by_order(s, order) == s,
    decreases s.len(),
{
    if s.len() > 0 {
        assert forall|i: int, j: int|
            0 <= i < j < s.drop_last().len() implies !file_lt(
            s.drop_last()[j],
            s.drop_last()[i],
            order,
        ) by {
            assert(s.drop_last()[i] == s[i] && s.drop_last()[j] == s[j]);
        }
        lemma_sort_by_order_idempotent(s.drop_last(), order);
        assert forall|k: int| 0 <= k < s.len() - 1 implies !file_lt(
            s.last(),
            s.drop_last()[k],
            order,
        ) by {
            assert(s.drop_last()[k] == s[k]);
        }
        lemma_insert_by_at(s.last(), s.drop_last(), order, s.len() - 1);
        assert(s.drop_last().insert(s.len() - 1, s.last()) =~= s);
    }
}

} // verus!
