//! Files and directories as they are offered to other users.
use vstd::prelude::*;
use crate::config::{file_contains_only_valid_chars, may_be_judged};
use crate::text::{cat2, contains_text, decimal, digit, digits_value, has_part, has_prefix, is_digit, is_digits, law_digits_value_of_decimal, occurs_at, opt_text, push_decimal};

verus! {

/// A file that was chosen for download.
#[derive(Debug)]
pub struct SelectedDownload {
    pub path: String,
    pub owner: String,
    pub file_size: u64,
}

impl Clone for SelectedDownload {
    fn clone(&self) -> (r: Self)
        ensures
            r == *self,
    {
        SelectedDownload {
            path: self.path.clone(),
            owner: self.owner.clone(),
            file_size: self.file_size,
        }
    }
}

/// What is known of the files that a user shares.
#[derive(Debug)]
pub struct RefreshData {
    pub owner: String,
    pub error: Option<String>,
    pub data: Option<SharedFile>,
    pub in_progress: bool,
}

/// What a `RefreshData` says.
#[verifier::ext_equal]
pub struct RefreshDataView {
    pub owner: Seq<char>,
    pub error: Option<Seq<char>>,
    pub data: Option<FileView>,
    pub in_progress: bool,
}

impl View for RefreshData {
    type V = RefreshDataView;

    open spec fn view(&self) -> RefreshDataView {
        RefreshDataView {
            owner: self.owner@,
            error: opt_text(self.error),
            data: opt_file(self.data),
            in_progress: self.in_progress,
        }
    }
}

impl Clone for RefreshData {
    fn clone(&self) -> (r: Self)
        ensures
            r@ == self@,
    {
        RefreshData {
            owner: self.owner.clone(),
            error: match &self.error {
                Some(e) => Some(e.clone()),
                None => None,
            },
            data: match &self.data {
                Some(f) => Some(f.clone()),
                None => None,
            },
            in_progress: self.in_progress,
        }
    }
}

/// A file, or a directory with what is in it.
#[derive(Debug)]
pub struct SharedFile {
    pub path: String,
    pub is_directory: bool,
    pub files: Vec<SharedFile>,
    pub file_size: u64,
    pub size_string: String,
}

/// What a `SharedFile` says.
#[verifier::ext_equal]
pub struct FileView {
    pub path: Seq<char>,
    pub is_directory: bool,
    pub files: Seq<FileView>,
    pub file_size: u64,
    pub size_string: Seq<char>,
}

pub open spec fn file_view(f: SharedFile) -> FileView
    decreases f,
{
    FileView {
        path: f.path@,
        is_directory: f.is_directory,
        files: Seq::new(
            f.files@.len(),
            |i: int|
                if 0 <= i < f.files@.len() {
                    file_view(f.files@[i])
                } else {
                    arbitrary()
                },
        ),
        file_size: f.file_size,
        size_string: f.size_string@,
    }
}

impl View for SharedFile {
    type V = FileView;

    open spec fn view(&self) -> FileView {
        file_view(*self)
    }
}

pub open spec fn opt_file(f: Option<SharedFile>) -> Option<FileView> {
    match f {
        Some(file) => Some(file@),
        None => None,
    }
}

/// `n / d`, rounded to the nearest, ties to even.
pub open spec fn rounded_quotient(n: nat, d: nat) -> nat {
    let q = n / d;
    let r = n % d;
    if 2 * r > d || (2 * r == d && q % 2 == 1) {
        q + 1
    } else {
        q
    }
}

/// The distance of numbers around `n` that have 53 significant bits.
pub open spec fn precision_step(n: nat) -> nat
    decreases n,
{
    if n < 0x20_0000_0000_0000 {
        1
    } else {
        2 * precision_step(n / 2)
    }
}

/// `n` with 53 significant bits.
pub open spec fn with_53_bits(n: nat) -> nat {
    rounded_quotient(n, precision_step(n)) * precision_step(n)
}

/// Two decimal digits.
pub open spec fn two_digits(n: nat) -> Seq<char> {
    seq![digit(n / 10 % 10), digit(n % 10)]
}

/// A number of hundredths, with a point.
pub open spec fn hundredths_text(h: nat) -> Seq<char> {
    decimal(h / 100) + "."@ + two_digits(h % 100)
}

/// How a size is shown: in bytes, or in the largest unit that fits, with two decimals. An empty
/// file counts as one byte.
pub open spec fn size_text(bytes: u64) -> Seq<char> {
    if bytes == 0 {
        decimal(1) + " bytes"@
    } else if bytes >= 1_073_741_824 {
        hundredths_text(rounded_quotient(with_53_bits(bytes as nat) * 100, 1_073_741_824))
            + " GB"@
    } else if bytes >= 1_048_576 {
        hundredths_text(rounded_quotient(bytes as nat * 100, 1_048_576)) + " MB"@
    } else if bytes >= 1024 {
        hundredths_text(rounded_quotient(bytes as nat * 100, 1024)) + " KB"@
    } else {
        decimal(bytes as nat) + " bytes"@
    }
}

fn round_quotient(n: u128, d: u128) -> (q: u128)
    requires
        0 < d <= 0x1_0000_0000_0000_0000,
        n <= 0xffff_ffff_ffff_ffff_ffff_ffff,
    ensures
        q == rounded_quotient(n as nat, d as nat),
        q <= n + 1,
{
    let q: u128 = n / d;
    let r: u128 = n % d;
    proof {
        assert(n / d <= n) by (nonlinear_arith)
            requires
                d > 0,
        ;
    }
    if 2 * r > d || (2 * r == d && q % 2 == 1) {
        q + 1
    } else {
        q
    }
}

proof fn lemma_precision_step(n: nat)
    requires
        n <= u64::MAX,
    ensures
        1 <= precision_step(n) <= n + 1,
        precision_step(n) <= 2048,
        n / precision_step(n) < 0x20_0000_0000_0000,
    decreases n,
{
    reveal_with_fuel(precision_step, 13);
    let a = n / 2;
    if n >= 0x20_0000_0000_0000 {
        lemma_precision_step(a);
        lemma_step_bound(n);
        let p = precision_step(a);
        assert(n / (2 * p) == (n / 2) / p) by (nonlinear_arith)
            requires
                p >= 1,
        ;
    }
}

/// Up to eleven bits are lost of a number of 64 bits.
proof fn lemma_step_bound(n: nat)
    requires
        n <= u64::MAX,
    ensures
        precision_step(n) <= 2048,
{
    reveal_with_fuel(precision_step, 13);
}

fn keep_53_bits(n: u64) -> (r: u128)
    ensures
        r == with_53_bits(n as nat),
        r <= 0x2_0000_0000_0000_0000,
{
    let mut step: u128 = 1;
    let mut rest: u64 = n;
    proof {
        lemma_precision_step(n as nat);
    }
    let ghost total = precision_step(n as nat);
    while rest >= 0x20_0000_0000_0000
        invariant
            1 <= step,
            step * precision_step(rest as nat) == total,
            total <= 2048,
        decreases rest,
    {
        proof {
            lemma_precision_step((rest / 2) as nat);
            let p = precision_step((rest / 2) as nat);
            assert(step * (2 * p) == (step * 2) * p) by (nonlinear_arith);
            assert(step * 2 <= 2048) by (nonlinear_arith)
                requires
                    (step * 2) * p <= 2048,
                    p >= 1,
            ;
        }
        step = step * 2;
        rest = rest / 2;
    }
    assert(step == total) by {
        assert(step * 1 == step);
    }
    let q: u128 = round_quotient(n as u128, step);
    proof {
        assert(q <= 0x20_0000_0000_0000);
        assert(q * step <= 0x20_0000_0000_0000 * 2048) by (nonlinear_arith)
            requires
                q <= 0x20_0000_0000_0000,
                step <= 2048,
        ;
    }
    q * step
}

fn push_hundredths(s: &mut String, h: u128)
    requires
        h <= u64::MAX,
    ensures
        final(s)@ == old(s)@ + hundredths_text(h as nat),
{
    let n: u64 = h as u64;
    push_decimal(s, n / 100);
    s.push_str(".");
    let rest: u8 = (n % 100) as u8;
    s.push((rest / 10 % 10 + 48) as char);
    s.push((rest % 10 + 48) as char);
    assert(s@ =~= old(s)@ + hundredths_text(h as nat));
}

fn get_file_size_string(bytes: u64) -> (s: String)
    ensures
        s@ == size_text(bytes),
{
    let gig: u64 = 1_073_741_824;
    let meg: u64 = 1_048_576;
    let kb: u64 = 1024;
    let mut s = String::new();
    if bytes == 0 {
        push_decimal(&mut s, 1);
        s.push_str(" bytes");
    } else if bytes >= gig {
        let value: u128 = keep_53_bits(bytes);
        let h: u128 = round_quotient(value * 100, gig as u128);
        assert(h <= u64::MAX);
        push_hundredths(&mut s, h);
        s.push_str(" GB");
    } else if bytes >= meg {
        let h: u128 = round_quotient(bytes as u128 * 100, meg as u128);
        push_hundredths(&mut s, h);
        s.push_str(" MB");
    } else if bytes >= kb {
        let h: u128 = round_quotient(bytes as u128 * 100, kb as u128);
        push_hundredths(&mut s, h);
        s.push_str(" KB");
    } else {
        push_decimal(&mut s, bytes);
        s.push_str(" bytes");
    }
    assert(s@ =~= size_text(bytes));
    s
}

impl SharedFile {
    pub fn new(path: String, is_directory: bool, files: Vec<SharedFile>, file_size: u64) -> (f:
        Self)
        ensures
            f.path == path,
            f.is_directory == is_directory,
            f.files == files,
            f.file_size == file_size,
            f.size_string@ == size_text(file_size),
    {
        let size_string = get_file_size_string(file_size);
        SharedFile { path, is_directory, files, file_size, size_string }
    }

    /// Makes the shown size that of the file.
    pub fn set_file_size_string(&mut self)
        ensures
            final(self)@ == (FileView {
                size_string: size_text(old(self)@.file_size),
                ..old(self)@
            }),
            final(self).files == old(self).files,
    {
        self.size_string = get_file_size_string(self.file_size);
        assert(self@ =~= (FileView { size_string: size_text(old(self)@.file_size), ..old(self)@ }));
    }
}

impl Clone for SharedFile {
    fn clone(&self) -> (r: Self)
        ensures
            r@ == self@,
        decreases self,
    {
        let mut files: Vec<SharedFile> = Vec::new();
        let mut i: usize = 0;
        while i < self.files.len()
            invariant
                i <= self.files@.len(),
                files@.len() == i,
                forall|k: int| 0 <= k < i ==> (#[trigger] files@[k])@ == self.files@[k]@,
            decreases self.files@.len() - i,
        {
            let file = self.files[i].clone();
            files.push(file);
            i += 1;
        }
        let r = SharedFile {
            path: self.path.clone(),
            is_directory: self.is_directory,
            files,
            file_size: self.file_size,
            size_string: self.size_string.clone(),
        };
        assert forall|k: int| 0 <= k < r@.files.len() implies r@.files[k] == self@.files[k] by {
            assert(r@.files[k] == r.files@[k]@);
            assert(self@.files[k] == self.files@[k]@);
        }
        assert(r@.files =~= self@.files);
        r
    }
}

/// A file with all shown sizes, down through its directories, made those of the files.
pub open spec fn with_true_sizes(f: FileView) -> FileView
    decreases f,
{
    FileView {
        files: if f.is_directory {
            Seq::new(
                f.files.len(),
                |i: int|
                    if 0 <= i < f.files.len() {
                        with_true_sizes(f.files[i])
                    } else {
                        arbitrary()
                    },
            )
        } else {
            f.files
        },
        size_string: size_text(f.file_size),
        ..f
    }
}

/// Makes all shown sizes those of the files, whatever the owner has sent.
pub fn reset_file_size_string(shared_file: &mut SharedFile)
    ensures
        final(shared_file)@ == with_true_sizes(old(shared_file)@),
    decreases *old(shared_file),
{
    if !shared_file.is_directory {
        shared_file.set_file_size_string();
        return;
    }
    let ghost before = *shared_file;
    let mut i: usize = 0;
    while i < shared_file.files.len()
        invariant
            i <= shared_file.files@.len(),
            before == *old(shared_file),
            shared_file.path == before.path,
            shared_file.is_directory == before.is_directory,
            shared_file.file_size == before.file_size,
            shared_file.size_string == before.size_string,
            shared_file.files@.len() == before.files@.len(),
            forall|k: int|
                0 <= k < i ==> (#[trigger] shared_file.files@[k])@ == with_true_sizes(
                    before.files@[k]@,
                ),
            forall|k: int|
                i <= k < before.files@.len() ==> #[trigger] shared_file.files@[k]
                    == before.files@[k],
        decreases shared_file.files@.len() - i,
    {
        assert(shared_file.files@[i as int] == before.files@[i as int]);
        reset_file_size_string(&mut shared_file.files[i]);
        i += 1;
    }
    shared_file.set_file_size_string();
    proof {
        let t = with_true_sizes(before@);
        assert forall|k: int| 0 <= k < t.files.len() implies shared_file@.files[k]
            == t.files[k] by {
            assert(shared_file@.files[k] == shared_file.files@[k]@);
            assert(before@.files[k] == before.files@[k]@);
            assert(t.files[k] == with_true_sizes(before@.files[k]));
        }
        assert(shared_file@.files =~= t.files);
    }
}

/// Whether `a` is `b` without the files, down through its directories, that were judged not valid.
pub open spec fn is_pruned(b: FileView, a: FileView) -> bool
    decreases b,
{
    if b.is_directory {
        &&& a == (FileView { files: a.files, ..b })
        &&& exists|valid: Seq<bool>|
            #[trigger] are_judged(b.files, valid) && are_pruned(b.files, valid, a.files)
    } else {
        a == b
    }
}

/// Whether each path may be judged as `valid` says.
pub open spec fn are_judged(files: Seq<FileView>, valid: Seq<bool>) -> bool {
    &&& valid.len() == files.len()
    &&& forall|i: int| 0 <= i < files.len() ==> may_be_judged(files[i].path, #[trigger] valid[i])
}

/// Whether `a` are the files of `b` that `valid` marks, each pruned.
pub open spec fn are_pruned(b: Seq<FileView>, valid: Seq<bool>, a: Seq<FileView>) -> bool
    decreases b,
{
    if b.len() == 0 {
        a.len() == 0
    } else if valid.last() {
        &&& a.len() > 0
        &&& is_pruned(b.last(), a.last())
        &&& are_pruned(b.drop_last(), valid.drop_last(), a.drop_last())
    } else {
        are_pruned(b.drop_last(), valid.drop_last(), a)
    }
}

/// The files of a directory, as their views.
pub open spec fn views(files: Seq<SharedFile>) -> Seq<FileView> {
    Seq::new(files.len(), |i: int| files[i]@)
}

proof fn lemma_file_view(f: SharedFile)
    ensures
        f@.files == views(f.files@),
        f@.path == f.path@,
        f@.is_directory == f.is_directory,
        f@.file_size == f.file_size,
        f@.size_string == f.size_string@,
{
    assert(f@.files =~= views(f.files@));
}

/// Takes the files out of a directory, and out of the directories in it, whose paths are not
/// valid.
pub fn remove_invalid_files(shared_file: &mut SharedFile)
    ensures
        is_pruned(old(shared_file)@, final(shared_file)@),
    decreases *old(shared_file),
{
    if !shared_file.is_directory {
        return;
    }
    let ghost before = *shared_file;
    let ghost b = views(before.files@);
    let ghost mut valid: Seq<bool> = seq![];
    let ghost mut p: int = 0;
    let mut i: usize = 0;
    proof {
        lemma_file_view(before);
        assert(b.take(0) =~= seq![]);
        assert(views(shared_file.files@.take(0)) =~= seq![]);
        assert(shared_file.files@.skip(0) =~= before.files@.skip(0));
    }
    while i < shared_file.files.len()
        invariant
            before == *old(shared_file),
            b == views(before.files@),
            i <= shared_file.files@.len(),
            0 <= p <= before.files@.len(),
            shared_file.files@.len() - i == before.files@.len() - p,
            shared_file.files@.skip(i as int) == before.files@.skip(p),
            shared_file.path == before.path,
            shared_file.is_directory == before.is_directory,
            shared_file.file_size == before.file_size,
            shared_file.size_string == before.size_string,
            are_judged(b.take(p), valid),
            are_pruned(b.take(p), valid, views(shared_file.files@.take(i as int))),
        decreases shared_file.files@.len() - i,
    {
        let ghost files = shared_file.files@;
        let ghost done = views(files.take(i as int));
        proof {
            assert(files[i as int] == files.skip(i as int)[0]);
            assert(before.files@[p] == before.files@.skip(p)[0]);
            assert(b.take(p + 1).drop_last() =~= b.take(p));
            assert(b.take(p + 1).last() == files[i as int]@);
            lemma_file_view(files[i as int]);
        }
        let ok = file_contains_only_valid_chars(shared_file.files[i].path.as_str());
        if ok {
            assert(shared_file.files@[i as int] == before.files@[p]);
            remove_invalid_files(&mut shared_file.files[i]);
            proof {
                let now = shared_file.files@;
                assert(views(now.take(i + 1)).drop_last() =~= done);
                assert(views(now.take(i + 1)).last() == now[i as int]@);
                assert(valid.push(true).drop_last() =~= valid);
                valid = valid.push(true);
                p = p + 1;
                assert(now.skip(i + 1) =~= files.skip(i as int).skip(1));
                assert(before.files@.skip(p) =~= before.files@.skip(p - 1).skip(1));
            }
            i += 1;
        } else {
            let removed = shared_file.files.remove(i);
            proof {
                let now = shared_file.files@;
                assert(now.take(i as int) =~= files.take(i as int));
                assert(valid.push(false).drop_last() =~= valid);
                valid = valid.push(false);
                p = p + 1;
                assert(now.skip(i as int) =~= files.skip(i as int).skip(1));
                assert(before.files@.skip(p) =~= before.files@.skip(p - 1).skip(1));
            }
        }
    }
    proof {
        lemma_file_view(*shared_file);
        assert(b.take(p) =~= b);
        assert(shared_file.files@.take(i as int) =~= shared_file.files@);
        assert(are_judged(b, valid));
    }
}

/// Whether all paths in a directory, and in the directories in it, may be judged valid.
pub open spec fn is_all_valid(f: FileView) -> bool
    decreases f,
{
    f.is_directory ==> forall|i: int|
        #![trigger f.files[i]]
        0 <= i < f.files.len() ==> may_be_judged(f.files[i].path, true) && is_all_valid(f.files[i])
}

proof fn lemma_pruned_keeps_path(b: FileView, a: FileView)
    requires
        is_pruned(b, a),
    ensures
        a.path == b.path,
        a.is_directory == b.is_directory,
{
}

proof fn lemma_are_pruned_is_all_valid(b: Seq<FileView>, valid: Seq<bool>, a: Seq<FileView>)
    requires
        are_judged(b, valid),
        are_pruned(b, valid, a),
    ensures
        forall|i: int|
            #![trigger a[i]]
            0 <= i < a.len() ==> may_be_judged(a[i].path, true) && is_all_valid(a[i]),
    decreases b,
{
    if b.len() > 0 {
        assert(valid.last() == valid[b.len() - 1]);
        assert(are_judged(b.drop_last(), valid.drop_last()));
        if valid.last() {
            lemma_pruned_keeps_path(b.last(), a.last());
            law_pruned_is_all_valid(b.last(), a.last());
            let rest = a.drop_last();
            lemma_are_pruned_is_all_valid(b.drop_last(), valid.drop_last(), rest);
            assert forall|i: int| #![trigger a[i]] 0 <= i < a.len() implies may_be_judged(
                a[i].path,
                true,
            ) && is_all_valid(a[i]) by {
                if i < rest.len() {
                    assert(rest[i] == a[i]);
                }
            }
        } else {
            lemma_are_pruned_is_all_valid(b.drop_last(), valid.drop_last(), a);
        }
    }
}

/// After the files that are not valid have been taken out, all that is left is valid.
pub proof fn law_pruned_is_all_valid(b: FileView, a: FileView)
    requires
        is_pruned(b, a),
    ensures
        is_all_valid(a),
    decreases b,
{
    if b.is_directory {
        let valid = choose|valid: Seq<bool>|
            #[trigger] are_judged(b.files, valid) && are_pruned(b.files, valid, a.files);
        lemma_are_pruned_is_all_valid(b.files, valid, a.files);
    }
}

/// How a file is listed, line by line, with the files of a directory indented under it.
pub open spec fn listing(f: FileView, spacer: Seq<char>) -> Seq<char>
    decreases f, 0int,
{
    let line = spacer + f.path + " | ("@ + f.size_string + ") ("@ + (if f.is_directory {
        "dir"@
    } else {
        "file"@
    }) + ")\n"@;
    if f.is_directory {
        line + listing_from(f.files, spacer + "    "@, 0)
    } else {
        line
    }
}

pub open spec fn listing_from(files: Seq<FileView>, spacer: Seq<char>, i: int) -> Seq<char>
    decreases files, files.len() - i,
{
    if 0 <= i < files.len() {
        listing(files[i], spacer) + listing_from(files, spacer, i + 1)
    } else {
        seq![]
    }
}

/// The lines that show a file and what is in it.
pub fn print_shared_files(shared_file: &SharedFile, spacer: &str) -> (s: String)
    ensures
        s@ == listing(shared_file@, spacer@),
    decreases shared_file,
{
    let mut s = String::new();
    s.push_str(spacer);
    s.push_str(shared_file.path.as_str());
    s.push_str(" | (");
    s.push_str(shared_file.size_string.as_str());
    s.push_str(") (");
    if shared_file.is_directory {
        s.push_str("dir");
    } else {
        s.push_str("file");
    }
    s.push_str(")\n");
    let ghost line = s@;
    proof {
        lemma_file_view(*shared_file);
        let f = shared_file@;
        assert(line =~= spacer@ + f.path + " | ("@ + f.size_string + ") ("@ + (
        if f.is_directory {
            "dir"@
        } else {
            "file"@
        }) + ")\n"@);
    }
    if shared_file.is_directory {
        let indent = cat2(spacer, "    ");
        let ghost files = shared_file@.files;
        let mut i: usize = 0;
        assert(s@ + listing_from(files, indent@, 0) =~= line + listing_from(files, indent@, 0));
        while i < shared_file.files.len()
            invariant
                i <= shared_file.files@.len(),
                files == views(shared_file.files@),
                s@ + listing_from(files, indent@, i as int) == line + listing_from(
                    files,
                    indent@,
                    0,
                ),
            decreases shared_file.files@.len() - i,
        {
            let part = print_shared_files(&shared_file.files[i], indent.as_str());
            let ghost before = s@;
            s.push_str(part.as_str());
            proof {
                assert(files[i as int] == shared_file.files@[i as int]@);
                assert(before + (part@ + listing_from(files, indent@, i + 1)) =~= s@
                    + listing_from(files, indent@, i + 1));
            }
            i += 1;
        }
        assert(s@ + listing_from(files, indent@, i as int) =~= s@);
    }
    s
}

/// A file or directory on disk, with what a directory holds.
#[derive(Debug)]
pub struct DiskEntry {
    pub path: String,
    pub is_directory: bool,
    pub entries: Vec<DiskEntry>,
    pub size: u64,
}

/// What a `DiskEntry` says.
#[verifier::ext_equal]
pub struct EntryView {
    pub path: Seq<char>,
    pub is_directory: bool,
    pub entries: Seq<EntryView>,
    pub size: u64,
}

pub open spec fn entry_view(e: DiskEntry) -> EntryView
    decreases e,
{
    EntryView {
        path: e.path@,
        is_directory: e.is_directory,
        entries: Seq::new(
            e.entries@.len(),
            |i: int|
                if 0 <= i < e.entries@.len() {
                    entry_view(e.entries@[i])
                } else {
                    arbitrary()
                },
        ),
        size: e.size,
    }
}

impl View for DiskEntry {
    type V = EntryView;

    open spec fn view(&self) -> EntryView {
        entry_view(*self)
    }
}

pub open spec fn entry_views(entries: Seq<DiskEntry>) -> Seq<EntryView> {
    Seq::new(entries.len(), |i: int| entries[i]@)
}

/// The size of a file; of a directory, that of all files in it but for the configuration.
pub open spec fn total_size(e: EntryView, config_dir: Seq<char>) -> nat
    decreases e,
{
    if e.is_directory {
        total_size_of(e.entries, config_dir)
    } else {
        e.size as nat
    }
}

pub open spec fn total_size_of(es: Seq<EntryView>, config_dir: Seq<char>) -> nat
    decreases es,
{
    if es.len() == 0 {
        0
    } else {
        total_size_of(es.drop_last(), config_dir) + if has_part(es.last().path, config_dir) {
            0nat
        } else {
            total_size(es.last(), config_dir)
        }
    }
}

/// A file or directory as it is offered: the configuration is left out.
pub open spec fn offered(e: EntryView, config_dir: Seq<char>) -> FileView
    decreases e,
{
    FileView {
        path: e.path,
        is_directory: e.is_directory,
        files: if e.is_directory {
            offered_of(e.entries, config_dir)
        } else {
            seq![]
        },
        file_size: total_size(e, config_dir) as u64,
        size_string: size_text(total_size(e, config_dir) as u64),
    }
}

pub open spec fn offered_of(es: Seq<EntryView>, config_dir: Seq<char>) -> Seq<FileView>
    decreases es,
{
    if es.len() == 0 {
        seq![]
    } else {
        let before = offered_of(es.drop_last(), config_dir);
        if has_part(es.last().path, config_dir) {
            before
        } else {
            before.push(offered(es.last(), config_dir))
        }
    }
}

proof fn lemma_total_grows(es: Seq<EntryView>, config_dir: Seq<char>, i: int)
    requires
        0 <= i <= es.len(),
    ensures
        total_size_of(es.take(i), config_dir) <= total_size_of(es, config_dir),
    decreases es.len() - i,
{
    if i < es.len() {
        assert(es.take(i + 1).drop_last() =~= es.take(i));
        lemma_total_grows(es, config_dir, i + 1);
    } else {
        assert(es.take(i) =~= es);
    }
}

/// Whether a path is left out of what is offered, because it lies where the configuration does.
pub fn is_config_path(path: &str, config_dir: &str) -> (r: bool)
    ensures
        r == has_part(path@, config_dir@),
{
    contains_text(path, config_dir)
}

/// A file or directory as it is offered; nothing where the sizes add up to more than fits.
pub fn process_shared_file(entry: &DiskEntry, config_dir: &str) -> (r: Option<SharedFile>)
    ensures
        r is Some <==> total_size(entry@, config_dir@) <= u64::MAX,
        r matches Some(f) ==> f@ == offered(entry@, config_dir@),
    decreases entry,
{
    let ghost es = entry_views(entry.entries@);
    assert(entry@.entries =~= es);
    let mut files: Vec<SharedFile> = Vec::new();
    if !entry.is_directory {
        let f = SharedFile::new(entry.path.clone(), false, files, entry.size);
        proof {
            lemma_file_view(f);
            assert(f@.files =~= seq![]);
        }
        return Some(f);
    }
    let mut file_size: u64 = 0;
    let mut i: usize = 0;
    assert(views(files@) =~= offered_of(es.take(0), config_dir@));
    while i < entry.entries.len()
        invariant
            i <= entry.entries@.len(),
            entry@.is_directory,
            entry@.entries == es,
            es == entry_views(entry.entries@),
            file_size == total_size_of(es.take(i as int), config_dir@),
            views(files@) == offered_of(es.take(i as int), config_dir@),
        decreases entry.entries@.len() - i,
    {
        proof {
            assert(es.take(i + 1).drop_last() =~= es.take(i as int));
            assert(es.take(i + 1).last() == entry.entries@[i as int]@);
            assert(entry.entries@[i as int]@.path == entry.entries@[i as int].path@);
            lemma_total_grows(es, config_dir@, i + 1);
        }
        if !is_config_path(entry.entries[i].path.as_str(), config_dir) {
            match process_shared_file(&entry.entries[i], config_dir) {
                None => return None,
                Some(f) => {
                    assert(f@.file_size == f.file_size);
                    match file_size.checked_add(f.file_size) {
                        None => return None,
                        Some(total) => file_size = total,
                    }
                    let ghost before = files@;
                    files.push(f);
                    assert(views(files@) =~= views(before).push(f@));
                },
            }
        }
        i += 1;
    }
    assert(es.take(i as int) =~= es);
    let f = SharedFile::new(entry.path.clone(), true, files, file_size);
    proof {
        lemma_file_view(f);
    }
    Some(f)
}

/// The size of all files that are offered.
pub open spec fn everything_size(roots: Seq<EntryView>, config_dir: Seq<char>) -> nat
    decreases roots.len(),
{
    if roots.len() == 0 {
        0
    } else {
        everything_size(roots.drop_last(), config_dir) + total_size(roots.last(), config_dir)
    }
}

/// The directory that holds all that is offered to a user.
pub open spec fn everything(roots: Seq<EntryView>, config_dir: Seq<char>) -> FileView {
    let size = everything_size(roots, config_dir) as u64;
    FileView {
        path: "everything/"@,
        is_directory: true,
        files: Seq::new(roots.len(), |i: int| offered(roots[i], config_dir)),
        file_size: size,
        size_string: size_text(size),
    }
}

proof fn lemma_everything_grows(roots: Seq<EntryView>, config_dir: Seq<char>, i: int)
    requires
        0 <= i <= roots.len(),
    ensures
        everything_size(roots.take(i), config_dir) <= everything_size(roots, config_dir),
    decreases roots.len() - i,
{
    if i < roots.len() {
        assert(roots.take(i + 1).drop_last() =~= roots.take(i));
        lemma_everything_grows(roots, config_dir, i + 1);
    } else {
        assert(roots.take(i) =~= roots);
    }
}

/// The directory that holds all that is offered to a user; nothing where the sizes add up to more
/// than fits.
pub fn get_everything_file(roots: &Vec<DiskEntry>, config_dir: &str) -> (r: Option<SharedFile>)
    ensures
        r is Some <==> everything_size(entry_views(roots@), config_dir@) <= u64::MAX,
        r matches Some(f) ==> f@ == everything(entry_views(roots@), config_dir@),
{
    let ghost es = entry_views(roots@);
    let mut files: Vec<SharedFile> = Vec::new();
    let mut file_size: u64 = 0;
    let mut i: usize = 0;
    while i < roots.len()
        invariant
            i <= roots@.len(),
            es == entry_views(roots@),
            file_size == everything_size(es.take(i as int), config_dir@),
            files@.len() == i,
            forall|k: int| 0 <= k < i ==> (#[trigger] files@[k])@ == offered(es[k], config_dir@),
        decreases roots@.len() - i,
    {
        proof {
            assert(es.take(i + 1).drop_last() =~= es.take(i as int));
            assert(es.take(i + 1).last() == roots@[i as int]@);
            lemma_everything_grows(es, config_dir@, i + 1);
        }
        match process_shared_file(&roots[i], config_dir) {
            None => return None,
            Some(f) => {
                assert(f@.file_size == f.file_size);
                match file_size.checked_add(f.file_size) {
                    None => return None,
                    Some(total) => file_size = total,
                }
                files.push(f);
            },
        }
        i += 1;
    }
    assert(es.take(i as int) =~= es);
    let f = SharedFile::new("everything/".to_owned(), true, files, file_size);
    proof {
        lemma_file_view(f);
        assert(f@.files =~= everything(es, config_dir@).files);
    }
    Some(f)
}

/// Whether nothing in a directory, and in the directories in it, belongs to the configuration.
pub open spec fn is_free_of(f: FileView, config_dir: Seq<char>) -> bool
    decreases f,
{
    forall|i: int|
        #![trigger f.files[i]]
        0 <= i < f.files.len() ==> !has_part(f.files[i].path, config_dir) && is_free_of(
            f.files[i],
            config_dir,
        )
}

proof fn lemma_offered_of_leaves_config_out(es: Seq<EntryView>, config_dir: Seq<char>)
    ensures
        forall|i: int|
            #![trigger offered_of(es, config_dir)[i]]
            0 <= i < offered_of(es, config_dir).len() ==> !has_part(
                offered_of(es, config_dir)[i].path,
                config_dir,
            ) && is_free_of(offered_of(es, config_dir)[i], config_dir),
    decreases es,
{
    if es.len() > 0 {
        lemma_offered_of_leaves_config_out(es.drop_last(), config_dir);
        let before = offered_of(es.drop_last(), config_dir);
        if !has_part(es.last().path, config_dir) {
            law_offered_leaves_config_out(es.last(), config_dir);
            let all = offered_of(es, config_dir);
            assert forall|i: int| #![trigger all[i]] 0 <= i < all.len() implies !has_part(
                all[i].path,
                config_dir,
            ) && is_free_of(all[i], config_dir) by {
                if i < before.len() {
                    assert(all[i] == before[i]);
                }
            }
        }
    }
}

/// Nothing of the configuration directory is ever offered with a directory around it.
pub proof fn law_offered_leaves_config_out(e: EntryView, config_dir: Seq<char>)
    ensures
        is_free_of(offered(e, config_dir), config_dir),
    decreases e,
{
    let f = offered(e, config_dir);
    if e.is_directory {
        lemma_offered_of_leaves_config_out(e.entries, config_dir);
        assert forall|i: int| #![trigger f.files[i]] 0 <= i < f.files.len() implies !has_part(
            f.files[i].path,
            config_dir,
        ) && is_free_of(f.files[i], config_dir) by {
            assert(f.files[i] == offered_of(e.entries, config_dir)[i]);
        }
    }
}

/// The sum of sizes.
pub open spec fn sum_of_sizes(files: Seq<FileView>) -> nat
    decreases files.len(),
{
    if files.len() == 0 {
        0
    } else {
        sum_of_sizes(files.drop_last()) + files.last().file_size as nat
    }
}

proof fn lemma_offered_of_sum(es: Seq<EntryView>, config_dir: Seq<char>)
    requires
        total_size_of(es, config_dir) <= u64::MAX,
    ensures
        sum_of_sizes(offered_of(es, config_dir)) == total_size_of(es, config_dir),
    decreases es.len(),
{
    if es.len() > 0 {
        lemma_offered_of_sum(es.drop_last(), config_dir);
        let before = offered_of(es.drop_last(), config_dir);
        if !has_part(es.last().path, config_dir) {
            assert(before.push(offered(es.last(), config_dir)).drop_last() =~= before);
        }
    }
}

/// A directory is offered with the size of what is in it.
pub proof fn law_directory_size(e: EntryView, config_dir: Seq<char>)
    requires
        e.is_directory,
        total_size(e, config_dir) <= u64::MAX,
    ensures
        offered(e, config_dir).file_size == sum_of_sizes(offered(e, config_dir).files),
{
    lemma_offered_of_sum(e.entries, config_dir);
}

/// Whether an entry on disk is offered, where it does not stand by itself.
pub open spec fn is_shown(config_dir: Seq<char>) -> spec_fn(EntryView) -> bool {
    |e: EntryView| !has_part(e.path, config_dir)
}

/// Whether a file is what is on disk: it has the path of the entry and is a directory exactly where
/// the entry is one. A file holds no files and has the size of the entry. A directory holds, in
/// order, what is on disk but for the configuration, and nothing else, and has the size of what it
/// holds. The size that is shown is the size that it has.
pub open spec fn is_offer_of(f: FileView, e: EntryView, config_dir: Seq<char>) -> bool
    decreases e,
{
    &&& f.path == e.path
    &&& f.is_directory == e.is_directory
    &&& f.size_string == size_text(f.file_size)
    &&& !e.is_directory ==> f.files.len() == 0 && f.file_size == e.size
    &&& e.is_directory ==> f.file_size == sum_of_sizes(f.files)
    &&& e.is_directory ==> f.files.len() == e.entries.filter(is_shown(config_dir)).len()
    &&& e.is_directory ==> forall|i: int|
        #![trigger e.entries[i]]
        0 <= i < e.entries.len() && !has_part(e.entries[i].path, config_dir) ==> is_offer_of(
            f.files[e.entries.take(i).filter(is_shown(config_dir)).len() as int],
            e.entries[i],
            config_dir,
        )
}

proof fn lemma_offered_of_places(es: Seq<EntryView>, config_dir: Seq<char>)
    ensures
        offered_of(es, config_dir).len() == es.filter(is_shown(config_dir)).len(),
        forall|i: int|
            #![trigger es[i]]
            0 <= i < es.len() && !has_part(es[i].path, config_dir) ==> {
                let k = es.take(i).filter(is_shown(config_dir)).len();
                k < offered_of(es, config_dir).len() && offered_of(es, config_dir)[k as int]
                    == offered(es[i], config_dir)
            },
    decreases es.len(),
{
    reveal(Seq::filter);
    if es.len() > 0 {
        let front = es.drop_last();
        lemma_offered_of_places(front, config_dir);
        assert forall|i: int|
            #![trigger es[i]]
            0 <= i < es.len() && !has_part(es[i].path, config_dir) implies {
            let k = es.take(i).filter(is_shown(config_dir)).len();
            k < offered_of(es, config_dir).len() && offered_of(es, config_dir)[k as int]
                == offered(es[i], config_dir)
        } by {
            if i < front.len() {
                assert(front[i] == es[i]);
                assert(front.take(i) =~= es.take(i));
            } else {
                assert(es.take(i) =~= front);
            }
        }
    }
}

proof fn lemma_total_covers(es: Seq<EntryView>, config_dir: Seq<char>, i: int)
    requires
        0 <= i < es.len(),
        !has_part(es[i].path, config_dir),
    ensures
        total_size(es[i], config_dir) <= total_size_of(es, config_dir),
    decreases es.len(),
{
    if i < es.len() - 1 {
        assert(es.drop_last()[i] == es[i]);
        lemma_total_covers(es.drop_last(), config_dir, i);
    }
}

/// What is offered of an entry on disk is what is on disk, at every depth: directories stay
/// directories, files stay files and hold none, paths and sizes are those on disk, and nothing but
/// the configuration is left out.
#[verifier::rlimit(40)]
pub proof fn law_offered_is_what_is_there(e: EntryView, config_dir: Seq<char>)
    requires
        total_size(e, config_dir) <= u64::MAX,
    ensures
        is_offer_of(offered(e, config_dir), e, config_dir),
    decreases e,
{
    let f = offered(e, config_dir);
    if e.is_directory {
        law_directory_size(e, config_dir);
        lemma_offered_of_places(e.entries, config_dir);
        assert forall|i: int|
            #![trigger e.entries[i]]
            0 <= i < e.entries.len() && !has_part(
                e.entries[i].path,
                config_dir,
            ) implies is_offer_of(
            f.files[e.entries.take(i).filter(is_shown(config_dir)).len() as int],
            e.entries[i],
            config_dir,
        ) by {
            lemma_total_covers(e.entries, config_dir, i);
            law_offered_is_what_is_there(e.entries[i], config_dir);
        }
    }
}

proof fn lemma_everything_covers(roots: Seq<EntryView>, config_dir: Seq<char>, i: int)
    requires
        0 <= i < roots.len(),
    ensures
        total_size(roots[i], config_dir) <= everything_size(roots, config_dir),
    decreases roots.len(),
{
    if i < roots.len() - 1 {
        assert(roots.drop_last()[i] == roots[i]);
        lemma_everything_covers(roots.drop_last(), config_dir, i);
    }
}

proof fn lemma_everything_sum(roots: Seq<EntryView>, config_dir: Seq<char>)
    requires
        everything_size(roots, config_dir) <= u64::MAX,
    ensures
        sum_of_sizes(everything(roots, config_dir).files) == everything_size(roots, config_dir),
    decreases roots.len(),
{
    if roots.len() > 0 {
        let front = roots.drop_last();
        lemma_everything_sum(front, config_dir);
        assert(everything(roots, config_dir).files.drop_last() =~= everything(
            front,
            config_dir,
        ).files);
    }
}

/// All that is shared with a user is offered in one directory, in order and each as it is on disk,
/// and nothing else is.
pub proof fn law_everything_is_offered(roots: Seq<EntryView>, config_dir: Seq<char>)
    requires
        everything_size(roots, config_dir) <= u64::MAX,
    ensures
        ({
            let f = everything(roots, config_dir);
            &&& f.path == "everything/"@
            &&& f.is_directory
            &&& f.files.len() == roots.len()
            &&& f.file_size == sum_of_sizes(f.files)
            &&& f.size_string == size_text(f.file_size)
            &&& forall|i: int|
                0 <= i < roots.len() ==> is_offer_of(#[trigger] f.files[i], roots[i], config_dir)
        }),
{
    let f = everything(roots, config_dir);
    lemma_everything_sum(roots, config_dir);
    assert forall|i: int| 0 <= i < roots.len() implies is_offer_of(
        #[trigger] f.files[i],
        roots[i],
        config_dir,
    ) by {
        lemma_everything_covers(roots, config_dir, i);
        law_offered_is_what_is_there(roots[i], config_dir);
    }
}

/// Whether two files are the same but for the sizes that are shown, which are those of the files
/// in the second, down through its directories.
pub open spec fn is_resized(a: FileView, b: FileView) -> bool
    decreases a,
{
    &&& b.path == a.path
    &&& b.is_directory == a.is_directory
    &&& b.file_size == a.file_size
    &&& b.size_string == size_text(a.file_size)
    &&& b.files.len() == a.files.len()
    &&& !a.is_directory ==> b.files == a.files
    &&& a.is_directory ==> forall|i: int|
        #![trigger a.files[i]]
        0 <= i < a.files.len() ==> is_resized(a.files[i], b.files[i])
}

/// Making the shown sizes true changes no path, no size, and not which files there are.
pub proof fn law_true_sizes_change_nothing_else(f: FileView)
    ensures
        is_resized(f, with_true_sizes(f)),
    decreases f,
{
    if f.is_directory {
        assert forall|i: int| #![trigger f.files[i]] 0 <= i < f.files.len() implies is_resized(
            f.files[i],
            with_true_sizes(f).files[i],
        ) by {
            law_true_sizes_change_nothing_else(f.files[i]);
        }
    }
}

/// Whether a flag is set.
pub open spec fn is_set() -> spec_fn(bool) -> bool {
    |v: bool| v
}

/// Whether file `i`, which is marked as valid, is still there: as many files stand before it as are
/// marked before it.
pub open spec fn is_pruned_at(
    b: Seq<FileView>,
    valid: Seq<bool>,
    a: Seq<FileView>,
    i: int,
) -> bool {
    let k = valid.take(i).filter(is_set()).len();
    k < a.len() && is_pruned(b[i], a[k as int])
}

proof fn lemma_pruned_places(b: Seq<FileView>, valid: Seq<bool>, a: Seq<FileView>)
    requires
        valid.len() == b.len(),
        are_pruned(b, valid, a),
    ensures
        a.len() == valid.filter(is_set()).len(),
        forall|i: int|
            0 <= i < b.len() && #[trigger] valid[i] ==> is_pruned_at(b, valid, a, i),
    decreases b.len(),
{
    reveal(Seq::filter);
    if b.len() > 0 {
        let front = b.drop_last();
        let marks = valid.drop_last();
        let rest = if valid.last() {
            a.drop_last()
        } else {
            a
        };
        lemma_pruned_places(front, marks, rest);
        assert forall|i: int| 0 <= i < b.len() && #[trigger] valid[i] implies is_pruned_at(
            b,
            valid,
            a,
            i,
        ) by {
            if i < front.len() {
                assert(front[i] == b[i]);
                assert(marks[i] == valid[i]);
                assert(is_pruned_at(front, marks, rest, i));
                assert(marks.take(i) =~= valid.take(i));
            } else {
                assert(valid.take(i) =~= marks);
            }
        }
    }
}

/// Taking out the files that are not valid takes out no others: a file by itself stays as it is; a
/// directory keeps its path and size, and of the files in it, in order, those that are judged
/// valid, which all are whose path cannot be judged otherwise.
pub proof fn law_pruning_keeps_what_is_valid(b: FileView, a: FileView)
    requires
        is_pruned(b, a),
    ensures
        !b.is_directory ==> a == b,
        a == (FileView { files: a.files, ..b }),
        b.is_directory ==> exists|valid: Seq<bool>| #[trigger] valid.len() == b.files.len() && {
            &&& a.files.len() == valid.filter(is_set()).len()
            &&& forall|i: int|
                #![trigger b.files[i]]
                0 <= i < b.files.len() ==> may_be_judged(b.files[i].path, valid[i]) && (valid[i]
                    ==> is_pruned_at(b.files, valid, a.files, i))
        },
{
    if b.is_directory {
        let valid = choose|valid: Seq<bool>|
            #[trigger] are_judged(b.files, valid) && are_pruned(b.files, valid, a.files);
        lemma_pruned_places(b.files, valid, a.files);
        assert(valid.len() == b.files.len());
        assert forall|i: int| #![trigger b.files[i]] 0 <= i < b.files.len() implies may_be_judged(
            b.files[i].path,
            valid[i],
        ) && (valid[i] ==> is_pruned_at(b.files, valid, a.files, i)) by {
            assert(may_be_judged(b.files[i].path, valid[i]));
        }
    }
}

/// A quotient is rounded to the nearest number; halfway between two, to the even one.
pub proof fn law_rounded_to_nearest(n: nat, d: nat)
    requires
        d > 0,
    ensures
        2 * (rounded_quotient(n, d) * d - n) <= d,
        2 * (n - rounded_quotient(n, d) * d) <= d,
        2 * (n % d) == d ==> rounded_quotient(n, d) % 2 == 0,
{
    let q = n / d;
    let r = n % d;
    assert(q * d + r == n && 0 <= r < d) by (nonlinear_arith)
        requires
            d > 0,
            q == n / d,
            r == n % d,
    ;
    assert((q + 1) * d == q * d + d) by (nonlinear_arith);
}

/// How many bytes a unit is.
pub open spec fn unit_size(bytes: u64) -> nat {
    if bytes >= 1_073_741_824 {
        1_073_741_824
    } else if bytes >= 1_048_576 {
        1_048_576
    } else {
        1024
    }
}

/// A size of less than a kilobyte is shown exactly, in bytes. A larger one is shown in hundredths
/// of the largest unit that fits, with the nearest number of them, as long as it has no more than
/// 53 bits. The unit stands behind the number.
pub proof fn law_shown_size_is_near(bytes: u64)
    requires
        0 < bytes < 0x20_0000_0000_0000,
    ensures
        bytes < 1024 ==> size_text(bytes) == decimal(bytes as nat) + " bytes"@,
        bytes >= 1024 ==> exists|h: nat|
            size_text(bytes) == #[trigger] hundredths_text(h) + (if bytes >= 1_073_741_824 {
                " GB"@
            } else if bytes >= 1_048_576 {
                " MB"@
            } else {
                " KB"@
            }) && 2 * (h * unit_size(bytes) - 100 * bytes) <= unit_size(bytes) && 2 * (100 * bytes
                - h * unit_size(bytes)) <= unit_size(bytes),
{
    let n = bytes as nat;
    if bytes >= 1024 {
        assert(precision_step(n) == 1);
        assert(n / 1 == n && n % 1 == 0);
        assert(with_53_bits(n) == n);
        let h = rounded_quotient(n * 100, unit_size(bytes));
        law_rounded_to_nearest(n * 100, unit_size(bytes));
        assert(size_text(bytes) == hundredths_text(h) + (if bytes >= 1_073_741_824 {
            " GB"@
        } else if bytes >= 1_048_576 {
            " MB"@
        } else {
            " KB"@
        }));
    }
}

proof fn lemma_listing_from(files: Seq<FileView>, spacer: Seq<char>, from: int, i: int)
    requires
        0 <= from <= i < files.len(),
    ensures
        has_part(listing_from(files, spacer, from), listing(files[i], spacer)),
    decreases i - from,
{
    let first = listing(files[from], spacer);
    let rest = listing_from(files, spacer, from + 1);
    let all = listing_from(files, spacer, from);
    if from < i {
        lemma_listing_from(files, spacer, from + 1, i);
        let part = listing(files[i], spacer);
        let at = choose|at: int| occurs_at(rest, part, at);
        assert(all.subrange(first.len() + at, first.len() + at + part.len()) =~= rest.subrange(
            at,
            at + part.len(),
        ));
        assert(occurs_at(all, part, first.len() + at));
    } else {
        assert(all.subrange(0, first.len() as int) =~= first);
        assert(occurs_at(all, first, 0));
    }
}

/// Every file of a directory is listed under it, four spaces further in, with its path behind the
/// spaces; a file that is no directory has one line.
pub proof fn law_all_files_are_listed(f: FileView, spacer: Seq<char>, i: int)
    ensures
        has_prefix(listing(f, spacer), spacer + f.path),
        has_part(listing(f, spacer), f.size_string),
        f.is_directory && 0 <= i < f.files.len() ==> has_part(
            listing(f, spacer),
            listing(f.files[i], spacer + "    "@),
        ),
{
    let all = listing(f, spacer);
    let front = spacer + f.path;
    assert(all.take(front.len() as int) =~= front);
    let at = (front + " | ("@).len() as int;
    assert(all.subrange(at, at + f.size_string.len()) =~= f.size_string);
    assert(occurs_at(all, f.size_string, at));
    if f.is_directory && 0 <= i < f.files.len() {
        let rest = listing_from(f.files, spacer + "    "@, 0);
        let part = listing(f.files[i], spacer + "    "@);
        lemma_listing_from(f.files, spacer + "    "@, 0, i);
        let k = choose|k: int| occurs_at(rest, part, k);
        let n = all.len() - rest.len();
        assert(all.subrange(n + k, n + k + part.len()) =~= rest.subrange(k, k + part.len()));
        assert(occurs_at(all, part, n + k));
    }
}

/// Less than a kilobyte is shown in bytes, and nothing at all as one of them.
pub proof fn law_few_bytes_are_shown(bytes: u64)
    requires
        bytes < 1024,
    ensures
        size_text(bytes) == decimal(
            if bytes == 0 {
                1
            } else {
                bytes as nat
            },
        ) + " bytes"@,
{
}

/// A number is held with 53 binary digits: one that has no more is held as it is, and a larger one
/// is off by at most half of the least digit that is held.
pub proof fn law_held_with_53_bits(n: nat)
    ensures
        n < 0x20_0000_0000_0000 ==> with_53_bits(n) == n,
        2 * (with_53_bits(n) - n) <= precision_step(n),
        2 * (n - with_53_bits(n)) <= precision_step(n),
        n >= 0x20_0000_0000_0000 ==> precision_step(n) * 0x10_0000_0000_0000 <= n
            < precision_step(n) * 0x20_0000_0000_0000,
    decreases n,
{
    if n >= 0x20_0000_0000_0000 {
        law_held_with_53_bits(n / 2);
    }
    lemma_step_is_positive(n);
    law_rounded_to_nearest(n, precision_step(n));
}

proof fn lemma_step_is_positive(n: nat)
    ensures
        precision_step(n) > 0,
    decreases n,
{
    if n >= 0x20_0000_0000_0000 {
        lemma_step_is_positive(n / 2);
    }
}

/// What is too large to be held exactly is shown in gigabytes, to the nearest hundredth of what is
/// held.
pub proof fn law_largest_sizes_are_shown(bytes: u64)
    requires
        bytes >= 0x20_0000_0000_0000,
    ensures
        exists|h: nat|
            size_text(bytes) == #[trigger] hundredths_text(h) + " GB"@ && 2 * (h * 1_073_741_824
                - 100 * with_53_bits(bytes as nat)) <= 1_073_741_824 && 2 * (100 * with_53_bits(
                bytes as nat,
            ) - h * 1_073_741_824) <= 1_073_741_824,
{
    let n = with_53_bits(bytes as nat);
    let h = rounded_quotient(n * 100, 1_073_741_824);
    law_rounded_to_nearest(n * 100, 1_073_741_824);
    assert(size_text(bytes) == hundredths_text(h) + " GB"@);
}

/// A number of hundredths is shown with two digits behind a point; without the point, the digits
/// are those of the number.
pub proof fn law_hundredths_are_shown(h: nat)
    ensures
        ({
            let t = hundredths_text(h);
            let n = t.len() as int - 3;
            &&& n >= 1
            &&& t[n] == '.'
            &&& t.take(n) == decimal(h / 100)
            &&& is_digits(t.take(n) + t.skip(n + 1))
            &&& digits_value(t.take(n) + t.skip(n + 1)) == h
        }),
{
    reveal_strlit(".");
    let t = hundredths_text(h);
    let n = t.len() as int - 3;
    let a = decimal(h / 100);
    let b = two_digits(h % 100);
    law_digits_value_of_decimal(h / 100);
    assert(t.take(n) =~= a);
    assert(t.skip(n + 1) =~= b);
    let all = a + b;
    assert(all.drop_last().drop_last() =~= a);
    assert(all.drop_last().last() == b[0]);
    assert(all.last() == b[1]);
    assert(digits_value(all) == digits_value(all.drop_last()) * 10 + (b[1] as nat - 48) as nat);
    assert(digits_value(all.drop_last()) == digits_value(a) * 10 + (b[0] as nat - 48) as nat);
    assert forall|i: int| 0 <= i < all.len() implies is_digit(#[trigger] all[i]) by {
        if i < a.len() {
            assert(all[i] == a[i]);
        }
    }
}

/// A file is listed in one line, which says where it is, how large it is, and whether it is a
/// directory; what is below a directory follows in order, indented.
#[verifier::rlimit(40)]
pub proof fn law_line_of_file(f: FileView, spacer: Seq<char>, files: Seq<FileView>, i: int)
    ensures
        ({
            let line = spacer + f.path + " | ("@ + f.size_string + ") ("@ + (if f.is_directory {
                "dir"@
            } else {
                "file"@
            }) + ")\n"@;
            &&& has_prefix(listing(f, spacer), line)
            &&& !f.is_directory || f.files.len() == 0 ==> listing(f, spacer) == line
            &&& f.is_directory ==> listing(f, spacer).skip(line.len() as int) == listing_from(
                f.files,
                spacer + "    "@,
                0,
            )
        }),
        0 <= i < files.len() ==> has_prefix(
            listing_from(files, spacer, i),
            listing(files[i], spacer),
        ) && listing_from(files, spacer, i).skip(listing(files[i], spacer).len() as int)
            == listing_from(files, spacer, i + 1),
        listing_from(files, spacer, files.len() as int).len() == 0,
{
    let line = spacer + f.path + " | ("@ + f.size_string + ") ("@ + (if f.is_directory {
        "dir"@
    } else {
        "file"@
    }) + ")\n"@;
    let all = listing(f, spacer);
    assert(all.take(line.len() as int) =~= line);
    if f.is_directory {
        let rest = listing_from(f.files, spacer + "    "@, 0);
        assert(all.skip(line.len() as int) =~= rest);
        if f.files.len() == 0 {
            assert(all =~= line);
        }
    }
    if 0 <= i < files.len() {
        let first = listing(files[i], spacer);
        let rest = listing_from(files, spacer, i);
        assert(rest.take(first.len() as int) =~= first);
        assert(rest.skip(first.len() as int) =~= listing_from(files, spacer, i + 1));
    }
}

} // verus!
