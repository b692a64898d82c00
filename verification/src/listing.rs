//! Which files a job works on, and where its output goes.

use crate::naming::{is_video_ext, is_video_extension};
use crate::text::{all_ascii, ascii_lowered, lower_cased};
use vstd::prelude::*;

verus! {

/// One entry of a folder. The name is in the bytes that the system orders it by.
pub struct FolderEntry {
    pub is_file: bool,
    pub extension: Option<String>,
    pub name: Vec<u8>,
}

/// From place `i` on, `a` comes before `b` or is the same, byte by byte.
pub open spec fn in_order_from(a: Seq<u8>, b: Seq<u8>, i: int) -> bool
    decreases a.len() - i,
{
    if i >= a.len() {
        true
    } else if i >= b.len() {
        false
    } else if a[i] != b[i] {
        a[i] < b[i]
    } else {
        in_order_from(a, b, i + 1)
    }
}

/// `a` comes before `b` in the order of their bytes, or is the same.
pub open spec fn in_order(a: Seq<u8>, b: Seq<u8>) -> bool {
    in_order_from(a, b, 0)
}

/// Whether `a` comes before `b` in the order of their bytes, or is the same.
fn ordered(a: &Vec<u8>, b: &Vec<u8>) -> (yes: bool)
    ensures
        yes == in_order(a@, b@),
{
    let mut i: usize = 0;
    while i < a.len()
        invariant
            i <= a@.len(),
            in_order(a@, b@) == in_order_from(a@, b@, i as int),
        decreases a@.len() - i,
    {
        if i >= b.len() {
            return false;
        }
        if a[i] != b[i] {
            return a[i] < b[i];
        }
        i += 1;
    }
    true
}

proof fn lemma_order_transitive(a: Seq<u8>, b: Seq<u8>, c: Seq<u8>, i: int)
    requires
        0 <= i,
        in_order_from(a, b, i),
        in_order_from(b, c, i),
    ensures
        in_order_from(a, c, i),
    decreases a.len() - i,
{
    if i < a.len() && i < b.len() && i < c.len() && a[i] == b[i] && b[i] == c[i] {
        lemma_order_transitive(a, b, c, i + 1);
    }
}

proof fn lemma_order_total(a: Seq<u8>, b: Seq<u8>, i: int)
    requires
        0 <= i,
    ensures
        in_order_from(a, b, i) || in_order_from(b, a, i),
    decreases a.len() - i,
{
    if i < a.len() && i < b.len() && a[i] == b[i] {
        lemma_order_total(a, b, i + 1);
    }
}

proof fn lemma_order_antisymmetric(a: Seq<u8>, b: Seq<u8>, i: int)
    requires
        0 <= i <= a.len(),
        i <= b.len(),
        forall|j: int| 0 <= j < i ==> a[j] == b[j],
        in_order_from(a, b, i),
        in_order_from(b, a, i),
    ensures
        a == b,
    decreases a.len() - i,
{
    if i < a.len() && i < b.len() {
        lemma_order_antisymmetric(a, b, i + 1);
    } else {
        assert(a =~= b);
    }
}

/// The entry is a video file.
pub open spec fn is_video(entry: FolderEntry) -> bool {
    entry.is_file && (entry.extension matches Some(ext) && is_video_ext(lower_cased(ext@)))
}

/// The extension of the entry, if it has one, is ASCII text.
pub open spec fn has_ascii_extension(entry: FolderEntry) -> bool {
    entry.extension matches Some(ext) ==> all_ascii(ext@)
}

/// The entry is a video file, where its extension is ASCII text.
pub open spec fn is_ascii_video(entry: FolderEntry) -> bool {
    entry.is_file && (entry.extension matches Some(ext) && is_video_ext(ascii_lowered(ext@)))
}

/// Whether an entry is a video file.
fn is_video_entry(entry: &FolderEntry) -> (video: bool)
    ensures
        video == is_video(*entry),
        has_ascii_extension(*entry) ==> video == is_ascii_video(*entry),
{
    if !entry.is_file {
        return false;
    }
    match &entry.extension {
        Some(ext) => is_video_extension(ext.as_str()),
        None => false,
    }
}

/// Entry `i` is listed before entry `j`: by name, and where the names are the
/// same in the order given.
pub open spec fn precedes(entries: Seq<FolderEntry>, i: usize, j: usize) -> bool {
    if entries[i as int].name@ == entries[j as int].name@ {
        i < j
    } else {
        in_order(entries[i as int].name@, entries[j as int].name@)
    }
}

/// `order` lists the video files among the first `n` entries, each once, in the
/// order of their names.
pub open spec fn lists_videos(entries: Seq<FolderEntry>, order: Seq<usize>, n: int) -> bool {
    &&& forall|p: int|
        0 <= p < order.len() ==> (#[trigger] order[p]) < n && is_video(entries[order[p] as int])
    &&& forall|i: usize|
        i < n && is_video(entries[i as int]) ==> #[trigger] order.contains(i)
    &&& forall|p: int, q: int|
        0 <= p < q < order.len() ==> precedes(entries, #[trigger] order[p], #[trigger] order[q])
}

proof fn lemma_insert(entries: Seq<FolderEntry>, order: Seq<usize>, k: usize, at: int)
    requires
        k < entries.len(),
        lists_videos(entries, order, k as int),
        is_video(entries[k as int]),
        0 <= at <= order.len(),
        forall|p: int|
            0 <= p < at ==> in_order(
                entries[(#[trigger] order[p]) as int].name@,
                entries[k as int].name@,
            ),
        at < order.len() ==> !in_order(entries[order[at] as int].name@, entries[k as int].name@),
    ensures
        lists_videos(entries, order.insert(at, k), k + 1),
{
    let out = order.insert(at, k);
    let name = entries[k as int].name@;
    assert forall|p: int| at <= p < order.len() implies precedes(
        entries,
        k,
        #[trigger] order[p],
    ) by {
        let first = entries[order[at] as int].name@;
        let here = entries[order[p] as int].name@;
        lemma_order_total(first, name, 0);
        if p > at {
            assert(precedes(entries, order[at], order[p]));
            if first != here {
                lemma_order_transitive(name, first, here, 0);
            }
        }
    }
    assert forall|p: int, q: int| 0 <= p < q < out.len() implies precedes(
        entries,
        #[trigger] out[p],
        #[trigger] out[q],
    ) by {
        let i = if p <= at {
            p
        } else {
            p - 1
        };
        let j = if q <= at {
            q
        } else {
            q - 1
        };
        if p == at {
            assert(out[q] == order[q - 1]);
        } else if q == at {
            assert(out[p] == order[p]);
        } else {
            assert(out[p] == order[i] && out[q] == order[j]);
        }
    }
    assert forall|i: usize| i < k + 1 && is_video(entries[i as int]) implies #[trigger] out.contains(
        i,
    ) by {
        if i == k {
            assert(out[at] == i);
        } else {
            assert(order.contains(i));
            let p = choose|p: int| 0 <= p < order.len() && order[p] == i;
            if p < at {
                assert(out[p] == i);
            } else {
                assert(out[p + 1] == i);
            }
        }
    }
}

/// Lists the video files of a folder, by their place among its entries, in the
/// order of their names.
pub fn find_video_files(entries: &[FolderEntry]) -> (order: Vec<usize>)
    ensures
        lists_videos(entries@, order@, entries@.len() as int),
        forall|i: usize|
            i < entries@.len() && has_ascii_extension(entries@[i as int]) ==> (
            #[trigger] order@.contains(i) <==> is_ascii_video(entries@[i as int])),
{
    let mut order: Vec<usize> = Vec::new();
    let n: usize = entries.len();
    let mut k: usize = 0;
    while k < n
        invariant
            k <= n,
            n == entries@.len(),
            lists_videos(entries@, order@, k as int),
            forall|i: int|
                0 <= i < k && has_ascii_extension(entries@[i]) ==> is_ascii_video(
                    #[trigger] entries@[i],
                ) == is_video(entries@[i]),
        decreases n - k,
    {
        if is_video_entry(&entries[k]) {
            let mut at: usize = 0;
            while at < order.len() && ordered(&entries[order[at]].name, &entries[k].name)
                invariant
                    k < n,
                    n == entries@.len(),
                    lists_videos(entries@, order@, k as int),
                    at <= order@.len(),
                    forall|p: int|
                        0 <= p < at ==> in_order(
                            entries@[(#[trigger] order@[p]) as int].name@,
                            entries@[k as int].name@,
                        ),
                decreases order@.len() - at,
            {
                at += 1;
            }
            proof {
                lemma_insert(entries@, order@, k, at as int);
            }
            order.insert(at, k);
        }
        k += 1;
    }
    order
}

/// A folder's video files can be listed in one way only.
pub proof fn law_listing_is_unique(
    entries: Seq<FolderEntry>,
    a: Seq<usize>,
    b: Seq<usize>,
)
    requires
        lists_videos(entries, a, entries.len() as int),
        lists_videos(entries, b, entries.len() as int),
    ensures
        a == b,
{
    assert forall|i: usize| a.contains(i) <==> b.contains(i) by {
    }
    lemma_same_order(entries, a, b);
}

proof fn lemma_precedes_one_way(entries: Seq<FolderEntry>, i: usize, j: usize)
    requires
        precedes(entries, i, j),
    ensures
        !precedes(entries, j, i),
{
    let x = entries[i as int].name@;
    let y = entries[j as int].name@;
    if x != y && in_order(y, x) {
        lemma_order_antisymmetric(x, y, 0);
    }
}

proof fn lemma_same_order(entries: Seq<FolderEntry>, a: Seq<usize>, b: Seq<usize>)
    requires
        forall|p: int, q: int|
            0 <= p < q < a.len() ==> precedes(entries, #[trigger] a[p], #[trigger] a[q]),
        forall|p: int, q: int|
            0 <= p < q < b.len() ==> precedes(entries, #[trigger] b[p], #[trigger] b[q]),
        forall|i: usize| a.contains(i) <==> b.contains(i),
    ensures
        a == b,
    decreases a.len(),
{
    if a.len() == 0 {
        if b.len() > 0 {
            assert(b.contains(b[0]));
        }
        assert(a =~= b);
    } else {
        let x = a.last();
        assert(a.contains(x));
        let q = choose|q: int| 0 <= q < b.len() && b[q] == x;
        let y = b.last();
        assert(b.contains(y));
        let p = choose|p: int| 0 <= p < a.len() && a[p] == y;
        if x != y {
            assert(precedes(entries, a[p], a[a.len() - 1]));
            assert(precedes(entries, b[q], b[b.len() - 1]));
            lemma_precedes_one_way(entries, x, y);
        }
        let c = a.drop_last();
        let d = b.drop_last();
        assert forall|i: usize| c.contains(i) <==> d.contains(i) by {
            if c.contains(i) {
                let k = choose|k: int| 0 <= k < c.len() && c[k] == i;
                assert(precedes(entries, a[k], a[a.len() - 1]));
                assert(a.contains(i));
                let m = choose|m: int| 0 <= m < b.len() && b[m] == i;
                if i == x {
                    lemma_precedes_one_way(entries, i, x);
                }
                assert(d[m] == i);
            }
            if d.contains(i) {
                let k = choose|k: int| 0 <= k < d.len() && d[k] == i;
                assert(precedes(entries, b[k], b[b.len() - 1]));
                assert(b.contains(i));
                let m = choose|m: int| 0 <= m < a.len() && a[m] == i;
                if i == y {
                    lemma_precedes_one_way(entries, i, y);
                }
                assert(c[m] == i);
            }
        }
        lemma_same_order(entries, c, d);
        assert(a =~= c.push(x));
        assert(b =~= d.push(y));
    }
}

/// What is known of the path that a job is given.
#[derive(Clone, Copy, PartialEq, Eq, Structural)]
pub struct InputFacts {
    pub exists: bool,
    pub is_file: bool,
    pub has_parent: bool,
}

/// Where the output of a job goes.
#[derive(Clone, Copy, PartialEq, Eq, Structural)]
pub enum OutputRoot {
    /// The folder that the user chose.
    Chosen,
    /// The folder that holds the input file.
    InputParent,
    /// The current folder.
    CurrentDir,
    /// The input folder itself.
    InputFolder,
}

/// Which files a job works on.
#[derive(Clone, Copy, PartialEq, Eq, Structural)]
pub enum InputFiles {
    /// The input file alone.
    Single,
    /// The video files of the input folder.
    Folder,
}

/// What a job works on, and where its output goes.
#[derive(Clone, Copy, PartialEq, Eq, Structural)]
pub struct InputPlan {
    pub root: OutputRoot,
    pub files: InputFiles,
}

/// Why a job cannot start.
#[derive(Clone, Copy, PartialEq, Eq, Structural)]
pub enum InputError {
    Missing,
    NoVideoFiles,
}

impl InputError {
    /// The text of the error.
    pub open spec fn text(self) -> Seq<char> {
        match self {
            InputError::Missing => "Input path does not exist"@,
            InputError::NoVideoFiles => "No video files found"@,
        }
    }

    /// The error in words.
    pub fn message(&self) -> (message: String)
        ensures
            message@ == self.text(),
    {
        match self {
            InputError::Missing => "Input path does not exist".to_owned(),
            InputError::NoVideoFiles => "No video files found".to_owned(),
        }
    }
}

/// Decides what a job works on and where its output goes. Without a chosen output
/// folder the output of a file goes beside it, that of a folder into it.
pub fn resolve_input_and_output(input: InputFacts, output_chosen: bool) -> (plan: Result<
    InputPlan,
    InputError,
>)
    ensures
        plan == (if !input.exists {
            Err(InputError::Missing)
        } else {
            Ok::<InputPlan, InputError>(
                InputPlan {
                    root: if output_chosen {
                        OutputRoot::Chosen
                    } else if !input.is_file {
                        OutputRoot::InputFolder
                    } else if input.has_parent {
                        OutputRoot::InputParent
                    } else {
                        OutputRoot::CurrentDir
                    },
                    files: if input.is_file {
                        InputFiles::Single
                    } else {
                        InputFiles::Folder
                    },
                },
            )
        }),
{
    if !input.exists {
        return Err(InputError::Missing);
    }
    let root: OutputRoot = if output_chosen {
        OutputRoot::Chosen
    } else if input.is_file {
        if input.has_parent {
            OutputRoot::InputParent
        } else {
            OutputRoot::CurrentDir
        }
    } else {
        OutputRoot::InputFolder
    };
    let files: InputFiles = if input.is_file {
        InputFiles::Single
    } else {
        InputFiles::Folder
    };
    Ok(InputPlan { root, files })
}

/// A job needs at least one file.
pub fn check_file_count(count: usize) -> (checked: Result<(), InputError>)
    ensures
        checked == (if count == 0 {
            Err(InputError::NoVideoFiles)
        } else {
            Ok::<(), InputError>(())
        }),
{
    if count == 0 {
        Err(InputError::NoVideoFiles)
    } else {
        Ok(())
    }
}

proof fn lemma_order_witness(a: Seq<u8>, b: Seq<u8>, i: int)
    requires
        0 <= i <= a.len(),
        i <= b.len(),
        a.take(i) == b.take(i),
        in_order_from(a, b, i),
    ensures
        exists|k: int|
            0 <= k <= a.len() && k <= b.len() && #[trigger] a.take(k) == b.take(k) && (k == a.len()
                || (k < b.len() && a[k] < b[k])),
    decreases a.len() - i,
{
    if i < a.len() && i < b.len() && a[i] == b[i] {
        assert(a.take(i + 1) =~= a.take(i).push(a[i]));
        assert(b.take(i + 1) =~= b.take(i).push(b[i]));
        lemma_order_witness(a, b, i + 1);
    } else {
        assert(a.take(i) == b.take(i));
    }
}

proof fn lemma_order_from_witness(a: Seq<u8>, b: Seq<u8>, k: int, i: int)
    requires
        0 <= i <= k <= a.len(),
        k <= b.len(),
        a.take(k) == b.take(k),
        k == a.len() || (k < b.len() && a[k] < b[k]),
    ensures
        in_order_from(a, b, i),
    decreases k - i,
{
    if i < k {
        assert(a.take(k)[i] == a[i] && b.take(k)[i] == b[i]);
        lemma_order_from_witness(a, b, k, i + 1);
    }
}

/// The order of names, on the bytes themselves: one comes first if it is the start of
/// the other, or if it has the smaller byte at the first place where they differ.
pub proof fn law_order_is_bytewise(a: Seq<u8>, b: Seq<u8>)
    ensures
        in_order(a, b) <==> exists|k: int|
            0 <= k <= a.len() && k <= b.len() && #[trigger] a.take(k) == b.take(k) && (k == a.len()
                || (k < b.len() && a[k] < b[k])),
        in_order(a, b) || in_order(b, a),
        in_order(a, b) && in_order(b, a) ==> a == b,
{
    if in_order(a, b) {
        assert(a.take(0) =~= b.take(0));
        lemma_order_witness(a, b, 0);
    }
    if exists|k: int|
        0 <= k <= a.len() && k <= b.len() && #[trigger] a.take(k) == b.take(k) && (k == a.len() || (
        k < b.len() && a[k] < b[k])) {
        let k = choose|k: int|
            0 <= k <= a.len() && k <= b.len() && #[trigger] a.take(k) == b.take(k) && (k == a.len()
                || (k < b.len() && a[k] < b[k]));
        lemma_order_from_witness(a, b, k, 0);
    }
    lemma_order_total(a, b, 0);
    if in_order(a, b) && in_order(b, a) {
        lemma_order_antisymmetric(a, b, 0);
    }
}

/// What a listing holds, on the entries themselves: only files, each with one of the
/// known extensions, none twice, all that there are, by their names, and those
/// with the same name in the order given.
pub proof fn law_listing_is_complete_and_sorted(entries: Seq<FolderEntry>, order: Seq<usize>)
    requires
        lists_videos(entries, order, entries.len() as int),
        entries.len() <= usize::MAX,
    ensures
        forall|p: int|
            0 <= p < order.len() ==> ({
                let e = entries[(#[trigger] order[p]) as int];
                &&& order[p] < entries.len()
                &&& e.is_file
                &&& e.extension matches Some(ext) && is_video_ext(lower_cased(ext@))
            }),
        forall|i: usize|
            i < entries.len() && entries[i as int].is_file && (
            entries[i as int].extension matches Some(ext) && is_video_ext(lower_cased(ext@)))
                ==> #[trigger] order.contains(i),
        forall|p: int, q: int|
            0 <= p < q < order.len() ==> ({
                let a = entries[(#[trigger] order[p]) as int].name@;
                let b = entries[(#[trigger] order[q]) as int].name@;
                &&& order[p] != order[q]
                &&& in_order(a, b)
                &&& a == b ==> order[p] < order[q]
            }),
{
    assert forall|p: int, q: int| 0 <= p < q < order.len() implies ({
        let a = entries[(#[trigger] order[p]) as int].name@;
        let b = entries[(#[trigger] order[q]) as int].name@;
        &&& order[p] != order[q]
        &&& in_order(a, b)
        &&& a == b ==> order[p] < order[q]
    }) by {
        assert(precedes(entries, order[p], order[q]));
        let a = entries[order[p] as int].name@;
        lemma_order_total(a, a, 0);
    }
    assert forall|i: usize|
        i < entries.len() && entries[i as int].is_file && (
        entries[i as int].extension matches Some(ext) && is_video_ext(lower_cased(ext@)))
            implies #[trigger] order.contains(i) by {
        assert(is_video(entries[i as int]));
    }
}

/// Where an extension is ASCII text, an entry counts exactly if it is a file whose
/// extension, in lower case, is a known one.
pub proof fn law_plain_extensions_count(entry: FolderEntry)
    ensures
        entry.extension is None ==> has_ascii_extension(entry) && !is_ascii_video(entry)
            && !is_video(entry),
        entry.extension matches Some(ext) ==> {
            &&& has_ascii_extension(entry) <==> forall|i: int|
                0 <= i < ext@.len() ==> (#[trigger] ext@[i]) as u32 <= 127
            &&& is_ascii_video(entry) <==> entry.is_file && is_video_ext(ascii_lowered(ext@))
            &&& is_video(entry) <==> entry.is_file && is_video_ext(lower_cased(ext@))
        },
{
}

/// The errors of a job that cannot start, word by word.
pub proof fn law_input_errors_say_why()
    ensures
        InputError::Missing.text() == "Input path does not exist"@,
        InputError::NoVideoFiles.text() == "No video files found"@,
{
}

} // verus!
