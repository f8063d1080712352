//! The size of a saved site and its biggest files.
use crate::numbers;
use crate::order;
use crate::path;
use crate::text;
use path::LocalPath;
use vstd::prelude::*;

verus! {

/// A file and its size.
#[derive(Debug, Clone, PartialEq, Eq)]
pub struct FileSummary {
    pub path: LocalPath,
    pub bytes: u64,
}

/// The mathematical form of a file and its size.
#[verifier::ext_equal]
pub struct FileView {
    pub path: path::PathView,
    pub bytes: u64,
}

impl View for FileSummary {
    type V = FileView;

    open spec fn view(&self) -> FileView {
        FileView { path: self.path@, bytes: self.bytes }
    }
}

/// The size of a saved site and its biggest files.
#[derive(Debug, Clone, PartialEq, Eq)]
pub struct OutputSummary {
    pub total_bytes: u64,
    pub biggest_files: Vec<FileSummary>,
}

/// The order of files by size, the biggest first; files of one size by path.
pub struct BiggestFirst;

/// Whether a file comes before another, or is its equal.
pub open spec fn bigger_or_before(a: FileView, b: FileView) -> bool {
    a.bytes > b.bytes || (a.bytes == b.bytes && path::path_le(a.path, b.path))
}

impl order::Preorder<FileView> for BiggestFirst {
    open spec fn le(a: FileView, b: FileView) -> bool {
        bigger_or_before(a, b)
    }

    proof fn total(a: FileView, b: FileView) {
        path::lemma_path_le_total(a.path, b.path);
    }

    proof fn transitive(a: FileView, b: FileView, c: FileView) {
        if a.bytes == b.bytes && b.bytes == c.bytes {
            path::lemma_path_le_transitive(a.path, b.path, c.path);
        }
    }
}

impl order::Arranges<FileSummary> for BiggestFirst {
    fn precedes(a: &FileSummary, b: &FileSummary) -> (r: bool) {
        a.bytes > b.bytes || (a.bytes == b.bytes && a.path.at_most(&b.path))
    }
}

/// The size of files, as far as it fits.
pub open spec fn total_size(files: Seq<FileView>) -> nat
    decreases files.len(),
{
    if files.len() == 0 {
        0
    } else {
        let sum = total_size(files.drop_last()) + files.last().bytes;
        if sum <= u64::MAX {
            sum as nat
        } else {
            u64::MAX as nat
        }
    }
}

/// The files as they are named in the summary: seen from the root.
pub open spec fn relative_files(root: path::PathView, files: Seq<FileView>) -> Seq<FileView> {
    Seq::new(
        files.len(),
        |i: int|
            FileView {
                path: match files[i].path.strip_prefix(root) {
                    Some(p) => p,
                    None => files[i].path,
                },
                bytes: files[i].bytes,
            },
    )
}

/// Considers a file for the list of the biggest ones.
pub fn consider_file(
    root: &LocalPath,
    path: &LocalPath,
    bytes: u64,
    limit: usize,
    biggest_files: &mut Vec<FileSummary>,
)
    requires
        order::sorted::<FileView, BiggestFirst>(order::keys(old(biggest_files)@)),
    ensures
        order::keys(final(biggest_files)@) == {
            let listed = order::keys(old(biggest_files)@);
            let file = FileView {
                path: match path@.strip_prefix(root@) {
                    Some(p) => p,
                    None => path@,
                },
                bytes,
            };
            order::first(
                listed.insert(order::slot::<FileView, BiggestFirst>(listed, file), file),
                limit as nat,
            )
        },
{
    let relative = match path.strip_prefix(root) {
        Some(p) => p,
        None => path.duplicate(),
    };
    order::keep_least::<FileSummary, BiggestFirst>(
        biggest_files,
        FileSummary { path: relative, bytes },
        limit,
    );
}

/// The size of the files of a saved site, and the biggest of them: at most `limit`, the biggest
/// first, those of one size by path.
pub fn summarize_output_dir(root: &LocalPath, files: &Vec<FileSummary>, limit: usize) -> (r:
    OutputSummary)
    ensures
        r.total_bytes == total_size(order::keys(files@)),
        order::keys(r.biggest_files@) == order::first(
            order::sort_of::<FileView, BiggestFirst>(
                relative_files(root@, order::keys(files@)),
            ),
            limit as nat,
        ),
{
    let ghost all = order::keys(files@);
    let ghost named = relative_files(root@, all);
    let mut total_bytes: u64 = 0;
    let mut biggest_files: Vec<FileSummary> = Vec::new();
    let mut i: usize = 0;
    proof {
        assert(named.take(0).len() == 0);
        assert(order::keys(biggest_files@) == Seq::<FileView>::empty());
        assert(all.take(0).len() == 0);
    }
    while i < files.len()
        invariant
            i <= files@.len(),
            all == order::keys(files@),
            named == relative_files(root@, all),
            total_bytes == total_size(all.take(i as int)),
            order::keys(biggest_files@) == order::first(
                order::sort_of::<FileView, BiggestFirst>(named.take(i as int)),
                limit as nat,
            ),
        decreases files@.len() - i,
    {
        proof {
            assert(all.take(i + 1).drop_last() == all.take(i as int));
            assert(all.take(i + 1).last() == files@[i as int]@);
            assert(named.take(i + 1).drop_last() == named.take(i as int));
            assert(named.take(i + 1).last() == named[i as int]);
            order::lemma_first_of_sort::<FileView, BiggestFirst>(
                named.take(i + 1),
                limit as nat,
            );
        }
        let bytes = files[i].bytes;
        total_bytes = total_bytes.saturating_add(bytes);
        consider_file(root, &files[i].path, bytes, limit, &mut biggest_files);
        i += 1;
    }
    proof {
        assert(all.take(all.len() as int) == all);
        assert(named.take(named.len() as int) == named);
    }
    OutputSummary { total_bytes, biggest_files }
}

/// The list of the biggest files is no longer than asked for, and each file in it comes before the
/// later ones in the order of sizes.
pub proof fn law_biggest_files_are_sorted(files: Seq<FileView>, limit: nat)
    ensures
        order::first(order::sort_of::<FileView, BiggestFirst>(files), limit).len() <= limit,
        forall|i: int, j: int|
            0 <= i < j < order::first(order::sort_of::<FileView, BiggestFirst>(files), limit).len()
                ==> bigger_or_before(
                #[trigger] order::first(
                    order::sort_of::<FileView, BiggestFirst>(files),
                    limit,
                )[i],
                #[trigger] order::first(
                    order::sort_of::<FileView, BiggestFirst>(files),
                    limit,
                )[j],
            ),
{
    order::lemma_sort_of::<FileView, BiggestFirst>(files);
    let s = order::sort_of::<FileView, BiggestFirst>(files);
    let f = order::first(s, limit);
    assert forall|i: int, j: int| 0 <= i < j < f.len() implies bigger_or_before(
        #[trigger] f[i],
        #[trigger] f[j],
    ) by {
        assert(f[i] == s[i] && f[j] == s[j]);
    }
}

/// The quotient, rounded to the nearest integer, to the even one of two.
pub open spec fn rounded(n: nat, unit: nat) -> nat {
    let q = n / unit;
    let twice = 2 * (n % unit);
    if twice > unit || (twice == unit && q % 2 == 1) {
        q + 1
    } else {
        q
    }
}

/// The least power of two, from `unit` on, of which fewer than 2^53 fit in `n`.
pub open spec fn precision(n: nat, unit: nat) -> nat
    decreases n / unit,
{
    if unit > 0 && n / unit >= 0x20_0000_0000_0000 && n / (2 * unit) < n / unit {
        precision(n, 2 * unit)
    } else {
        unit
    }
}

/// A number with 53 significant binary digits.
pub open spec fn significant(n: nat) -> nat {
    rounded(n, precision(n, 1)) * precision(n, 1)
}

/// The binary unit in which a size is given, and its name.
pub open spec fn size_unit(n: nat) -> (nat, Seq<char>) {
    if n < 0x10_0000 {
        (0x400, "KiB"@)
    } else if n < 0x4000_0000 {
        (0x10_0000, "MiB"@)
    } else if n < 0x100_0000_0000 {
        (0x4000_0000, "GiB"@)
    } else {
        (0x100_0000_0000, "TiB"@)
    }
}

/// A size as people read it: in bytes, or in the largest unit of which it is one or more, with two
/// digits behind the point below ten and one from there on. Sizes above 2^53 bytes are first
/// rounded to as many binary digits.
pub open spec fn size_text(bytes: u64) -> Seq<char> {
    if bytes < 1024 {
        numbers::decimal(bytes as nat) + " B"@
    } else {
        let n = significant(bytes as nat);
        let (unit, name) = size_unit(n);
        if n >= 10 * unit {
            let tenths = rounded(10 * n, unit);
            numbers::decimal(tenths / 10) + "."@ + numbers::decimal(tenths % 10) + " "@ + name
        } else {
            let hundredths = rounded(100 * n, unit);
            numbers::decimal(hundredths / 100) + "."@ + numbers::decimal(hundredths % 100 / 10)
                + numbers::decimal(hundredths % 10) + " "@ + name
        }
    }
}

/// The quotient, rounded to the nearest integer, to the even one of two.
fn divide_rounded(n: u128, unit: u128) -> (r: u128)
    requires
        unit > 0,
        unit <= 0x100_0000_0000,
        n < 0x100_0000_0000_0000_0000_0000_0000,
    ensures
        r == rounded(n as nat, unit as nat),
{
    let q: u128 = n / unit;
    let twice: u128 = 2 * (n % unit);
    proof {
        assert(q <= n) by (nonlinear_arith)
            requires
                q == n / unit,
                unit > 0,
        ;
    }
    if twice > unit || (twice == unit && q % 2 == 1) {
        q + 1
    } else {
        q
    }
}

/// A number with 53 significant binary digits.
fn to_significant(bytes: u64) -> (r: u128)
    ensures
        r == significant(bytes as nat),
        r <= 0x1_0000_0000_0000_0000,
        bytes >= 1024 ==> r >= 1024,
{
    let n: u128 = bytes as u128;
    let mut unit: u128 = 1;
    let mut rounds: u32 = 0;
    while n / unit >= 0x20_0000_0000_0000
        invariant
            n == bytes,
            1 <= unit,
            unit <= 2048,
            rounds <= 11,
            unit == (if rounds == 0 {
                1u128
            } else if rounds == 1 {
                2
            } else if rounds == 2 {
                4
            } else if rounds == 3 {
                8
            } else if rounds == 4 {
                16
            } else if rounds == 5 {
                32
            } else if rounds == 6 {
                64
            } else if rounds == 7 {
                128
            } else if rounds == 8 {
                256
            } else if rounds == 9 {
                512
            } else if rounds == 10 {
                1024
            } else {
                2048
            }),
            precision(n as nat, 1) == precision(n as nat, unit as nat),
        decreases 12 - rounds,
    {
        proof {
            let u = unit as nat;
            let m = n as nat;
            assert(m / (2 * u) < m / u) by (nonlinear_arith)
                requires
                    m / u >= 0x20_0000_0000_0000,
                    u > 0,
            ;
            assert(rounds < 11);
        }
        unit = 2 * unit;
        rounds += 1;
    }
    let q = divide_rounded(n, unit);
    proof {
        let m = n as nat;
        let u = unit as nat;
        assert(q <= 0x20_0000_0000_0000);
        assert(q * u <= 0x20_0000_0000_0000 * 2048) by (nonlinear_arith)
            requires
                q <= 0x20_0000_0000_0000,
                u <= 2048,
        ;
        if bytes >= 1024 {
            if rounds == 0 {
                assert(m / 1 == m);
                assert(m % 1 == 0);
            } else {
                assert(q * u >= 1024) by (nonlinear_arith)
                    requires
                        q >= m / u,
                        m >= 0x20_0000_0000_0000,
                        1 <= u,
                        u <= 2048,
                ;
            }
        }
    }
    q * unit
}

/// A size as people read it.
pub fn format_bytes(bytes: u64) -> (r: String)
    ensures
        r@ == size_text(bytes),
{
    let mut out: Vec<char> = Vec::new();
    if bytes < 1024 {
        text::push_chars(&mut out, &numbers::decimal_chars(bytes));
        text::push_text(&mut out, " B");
        proof {
            assert(out@ == numbers::decimal(bytes as nat) + " B"@);
        }
        return text::string_of(&out);
    }
    let n = to_significant(bytes);
    let (unit, name): (u128, &str) = if n < 0x10_0000 {
        (0x400, "KiB")
    } else if n < 0x4000_0000 {
        (0x10_0000, "MiB")
    } else if n < 0x100_0000_0000 {
        (0x4000_0000, "GiB")
    } else {
        (0x100_0000_0000, "TiB")
    };
    if n >= 10 * unit {
        let tenths = divide_rounded(10 * n, unit);
        let whole: u64 = (tenths / 10) as u64;
        let part: u64 = (tenths % 10) as u64;
        text::push_chars(&mut out, &numbers::decimal_chars(whole));
        text::push_text(&mut out, ".");
        text::push_chars(&mut out, &numbers::decimal_chars(part));
    } else {
        let hundredths = divide_rounded(100 * n, unit);
        let whole: u64 = (hundredths / 100) as u64;
        let first: u64 = (hundredths % 100 / 10) as u64;
        let second: u64 = (hundredths % 10) as u64;
        text::push_chars(&mut out, &numbers::decimal_chars(whole));
        text::push_text(&mut out, ".");
        text::push_chars(&mut out, &numbers::decimal_chars(first));
        text::push_chars(&mut out, &numbers::decimal_chars(second));
    }
    text::push_text(&mut out, " ");
    text::push_text(&mut out, name);
    proof {
        assert(out@ == size_text(bytes));
    }
    text::string_of(&out)
}

/// No file that is left out of the list of the biggest is bigger than one in it; each file in the list
/// is one of the files, and of two of one size that with the smaller path comes first. The list is
/// full where there are enough files.
pub proof fn law_no_bigger_file_is_left_out(
    root: path::PathView,
    files: Seq<FileView>,
    limit: nat,
    at: int,
)
    requires
        0 <= at < files.len(),
    ensures
        ({
            let named = relative_files(root, files);
            let list = order::first(order::sort_of::<FileView, BiggestFirst>(named), limit);
            &&& list.len() == if limit < files.len() {
                limit
            } else {
                files.len()
            }
            &&& named[at].bytes == files[at].bytes
            &&& list.contains(named[at]) || forall|i: int|
                0 <= i < list.len() ==> (#[trigger] list[i]).bytes > files[at].bytes || (list[i].bytes
                    == files[at].bytes && path::path_le(list[i].path, named[at].path))
            &&& forall|i: int| 0 <= i < list.len() ==> named.contains(#[trigger] list[i])
            &&& forall|i: int, j: int|
                0 <= i < j < list.len() ==> (#[trigger] list[i]).bytes > (#[trigger] list[j]).bytes
                    || (list[i].bytes == list[j].bytes && path::path_le(list[i].path, list[j].path))
        }),
{
    let named = relative_files(root, files);
    order::lemma_sort_of::<FileView, BiggestFirst>(named);
    let s = order::sort_of::<FileView, BiggestFirst>(named);
    let list = order::first(s, limit);
    let file = named[at];
    assert(named.contains(file));
    assert(s.contains(file));
    let k = choose|k: int| 0 <= k < s.len() && s[k] == file;
    if k < list.len() {
        assert(list[k] == file);
        assert(list.contains(list[k]));
    } else {
        assert forall|i: int| 0 <= i < list.len() implies bigger_or_before(#[trigger] list[i], file) by {
            assert(list[i] == s[i]);
            assert(i < k);
            assert(bigger_or_before(s[i], s[k]));
        }
    }
    assert forall|i: int| 0 <= i < list.len() implies named.contains(#[trigger] list[i]) by {
        assert(list[i] == s[i]);
        assert(s.contains(s[i]));
    }
    law_biggest_files_are_sorted(named, limit);
    assert forall|i: int, j: int| 0 <= i < j < list.len() implies bigger_or_before(
        #[trigger] list[i],
        #[trigger] list[j],
    ) by {}
}

/// Files are named as they are seen from the root of the saved site.
pub proof fn law_files_are_named_from_the_root(
    root: path::PathView,
    inner: Seq<Seq<char>>,
    bytes: u64,
)
    ensures
        relative_files(
            root,
            seq![
                FileView {
                    path: path::PathView { absolute: root.absolute, parts: root.parts + inner },
                    bytes,
                },
            ],
        ) == seq![FileView { path: path::PathView { absolute: false, parts: inner }, bytes }],
{
    let whole = path::PathView { absolute: root.absolute, parts: root.parts + inner };
    assert(whole.parts.take(root.parts.len() as int) == root.parts);
    assert(whole.parts.skip(root.parts.len() as int) == inner);
    assert(whole.parts.subrange(0, root.parts.len() as int) == root.parts);
}

/// The size of the saved site is the sum of the sizes of its files, up to the largest number.
pub proof fn law_sizes_are_added(files: Seq<FileView>, file: FileView)
    ensures
        total_size(Seq::empty()) == 0,
        total_size(files.push(file)) == if total_size(files) + file.bytes <= 0xffff_ffff_ffff_ffff {
            total_size(files) + file.bytes
        } else {
            0xffff_ffff_ffff_ffff
        },
{
    assert(files.push(file).drop_last() == files);
}

/// A size below 1024 is told in bytes.
pub proof fn law_small_sizes_are_told_in_bytes(bytes: u64)
    requires
        bytes < 1024,
    ensures
        size_text(bytes) == numbers::decimal(bytes as nat) + " B"@,
{
}

/// A size is told in the largest unit of which it is one or more: in tenths from ten units on, in
/// hundredths below, and no other number of them is closer to the size.
pub proof fn law_sizes_are_told_in_units(bytes: u64, unit: nat, name: Seq<char>) -> (parts: nat)
    requires
        unit == 0x400 && name == "KiB"@ || unit == 0x10_0000 && name == "MiB"@ || unit
            == 0x4000_0000 && name == "GiB"@ || unit == 0x100_0000_0000 && name == "TiB"@,
        unit <= bytes,
        bytes < 1024 * unit || unit == 0x100_0000_0000,
        bytes < 0x20_0000_0000_0000,
    ensures
        bytes >= 10 * unit ==> size_text(bytes) == numbers::decimal(parts / 10) + "."@
            + numbers::decimal(parts % 10) + " "@ + name && 2 * (parts * unit) <= 20 * bytes + unit
            && 20 * bytes <= 2 * (parts * unit) + unit,
        bytes < 10 * unit ==> size_text(bytes) == numbers::decimal(parts / 100) + "."@
            + numbers::decimal(parts % 100 / 10) + numbers::decimal(parts % 10) + " "@ + name && 2 * (
        parts * unit) <= 200 * bytes + unit && 200 * bytes <= 2 * (parts * unit) + unit,
{
    let n = bytes as nat;
    assert(n / 1 == n && n % 1 == 0);
    assert(precision(n, 1) == 1);
    assert(significant(n) == n);
    assert(size_unit(n) == (unit, name));
    let many = if n >= 10 * unit {
        10 * n
    } else {
        100 * n
    };
    lemma_rounded(many, unit);
    rounded(many, unit)
}

/// A rounded quotient is nearest.
proof fn lemma_rounded(n: nat, unit: nat)
    requires
        unit > 0,
    ensures
        2 * (rounded(n, unit) * unit) <= 2 * n + unit,
        2 * n <= 2 * (rounded(n, unit) * unit) + unit,
{
    let q = n / unit;
    let m = n % unit;
    assert(n == q * unit + m && m < unit) by (nonlinear_arith)
        requires
            q == n / unit,
            m == n % unit,
            unit > 0,
    ;
    assert((q + 1) * unit == q * unit + unit) by (nonlinear_arith);
}

/// A size in the middle of two numbers of tenths or hundredths is told by the even one.
pub proof fn law_middles_are_told_by_the_even_number(n: nat, unit: nat)
    requires
        unit > 0,
        2 * (n % unit) == unit,
    ensures
        rounded(n, unit) % 2 == 0,
        rounded(n, unit) == n / unit || rounded(n, unit) == n / unit + 1,
{
}

} // verus!
