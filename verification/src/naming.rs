//! Names of output files and the extensions that count as video.

use crate::text::{
    all_ascii, append_decimal_padded, ascii_lowered, decimal, decimal_padded,
    law_decimal_padded_digits, law_decimal_padded_reads_back, lower_case, lower_cased, same_text,
};
use vstd::prelude::*;
use vstd::string::*;

verus! {

/// The file extension that a chosen output format stands for. Anything but
/// `mp4`, `mov` and `mkv` keeps the container of the source.
pub open spec fn resolved_ext(source_ext: Seq<char>, output_format: Seq<char>) -> Seq<char> {
    if output_format == "mp4"@ || output_format == "mov"@ || output_format == "mkv"@ {
        output_format
    } else {
        source_ext
    }
}

/// Turns the chosen output format into a concrete file extension.
pub fn resolve_ext(source_ext: &str, output_format: &str) -> (ext: String)
    ensures
        ext@ == resolved_ext(source_ext@, output_format@),
{
    if same_text(output_format, "mp4") {
        "mp4".to_owned()
    } else if same_text(output_format, "mov") {
        "mov".to_owned()
    } else if same_text(output_format, "mkv") {
        "mkv".to_owned()
    } else {
        source_ext.to_owned()
    }
}

/// The lower-case extensions of the files that a folder job picks up.
pub open spec fn is_video_ext(lower: Seq<char>) -> bool {
    ||| lower == "mp4"@
    ||| lower == "mkv"@
    ||| lower == "mov"@
    ||| lower == "avi"@
    ||| lower == "webm"@
    ||| lower == "m4v"@
    ||| lower == "ts"@
    ||| lower == "flv"@
}

/// Whether an extension, already in lower case, is one of a video file.
pub fn is_lower_video_extension(lower: &str) -> (video: bool)
    ensures
        video == is_video_ext(lower@),
{
    same_text(lower, "mp4") || same_text(lower, "mkv") || same_text(lower, "mov") || same_text(
        lower,
        "avi",
    ) || same_text(lower, "webm") || same_text(lower, "m4v") || same_text(lower, "ts")
        || same_text(lower, "flv")
}

/// Whether a file extension is one of a video file, in any case.
pub fn is_video_extension(ext: &str) -> (video: bool)
    ensures
        video == is_video_ext(lower_cased(ext@)),
        all_ascii(ext@) ==> video == is_video_ext(ascii_lowered(ext@)),
{
    let lower: String = lower_case(ext);
    is_lower_video_extension(lower.as_str())
}

/// The containers of the MP4 family, by lower-case extension.
pub open spec fn is_mp4_family_ext(lower: Seq<char>) -> bool {
    lower == "mp4"@ || lower == "mov"@ || lower == "m4v"@
}

/// Whether an extension, already in lower case, is one of the MP4 family.
pub fn is_lower_mp4_family(lower: &str) -> (family: bool)
    ensures
        family == is_mp4_family_ext(lower@),
{
    same_text(lower, "mp4") || same_text(lower, "mov") || same_text(lower, "m4v")
}

/// Whether an output extension, in any case, is one of the MP4 family.
pub fn is_mp4_family(ext: &str) -> (family: bool)
    ensures
        family == is_mp4_family_ext(lower_cased(ext@)),
        all_ascii(ext@) ==> family == is_mp4_family_ext(ascii_lowered(ext@)),
{
    let lower: String = lower_case(ext);
    is_lower_mp4_family(lower.as_str())
}

/// The name of the chunk with index `index` (counted from zero): the stem, the
/// chunk's number counted from one and padded to three places, the extension.
pub open spec fn chunk_name(stem: Seq<char>, index: nat, ext: Seq<char>) -> Seq<char> {
    stem + "_"@ + decimal_padded(index + 1) + "."@ + ext
}

/// Names the output file of one chunk.
pub fn chunk_file_name(stem: &str, index: usize, ext: &str) -> (name: String)
    requires
        index < usize::MAX,
    ensures
        name@ == chunk_name(stem@, index as nat, ext@),
{
    let mut name: String = stem.to_owned();
    name.append("_");
    append_decimal_padded(&mut name, (index + 1) as u64);
    name.append(".");
    name.append(ext);
    name
}

/// Two different chunks of one file never get the same name.
pub proof fn law_chunk_names_differ(stem: Seq<char>, a: nat, b: nat, ext: Seq<char>)
    requires
        a != b,
    ensures
        chunk_name(stem, a, ext) != chunk_name(stem, b, ext),
{
    law_decimal_padded_reads_back(a + 1);
    law_decimal_padded_reads_back(b + 1);
    let x = chunk_name(stem, a, ext);
    let y = chunk_name(stem, b, ext);
    if x == y {
        let from = (stem + "_"@).len() as int;
        let p = decimal_padded(a + 1);
        let q = decimal_padded(b + 1);
        assert(x.len() == from + p.len() + "."@.len() + ext.len());
        assert(y.len() == from + q.len() + "."@.len() + ext.len());
        assert(x.subrange(from, from + p.len()) =~= p);
        assert(y.subrange(from, from + q.len()) =~= q);
        assert(false);
    }
}

/// The name of a converted file. Where the plain name would be that of the
/// source itself, it gets a suffix, so that the source is never overwritten.
pub open spec fn converted_name(
    stem: Seq<char>,
    ext: Seq<char>,
    same_as_source: bool,
) -> Seq<char> {
    if same_as_source {
        stem + "_converted."@ + ext
    } else {
        stem + "."@ + ext
    }
}

/// Names the output file of a conversion. `same_as_source` says that the plain
/// name, in the output folder, is the path of the source file.
pub fn converted_file_name(stem: &str, ext: &str, same_as_source: bool) -> (name: String)
    ensures
        name@ == converted_name(stem@, ext@, same_as_source),
{
    let mut name: String = stem.to_owned();
    if same_as_source {
        name.append("_converted.");
    } else {
        name.append(".");
    }
    name.append(ext);
    name
}

/// The name taken when the plain one is the source's differs from the plain one.
pub proof fn law_conversion_spares_source(stem: Seq<char>, ext: Seq<char>)
    ensures
        converted_name(stem, ext, true) != converted_name(stem, ext, false),
{
    reveal_strlit("_converted.");
    reveal_strlit(".");
    assert(converted_name(stem, ext, true).len() != converted_name(stem, ext, false).len());
}

/// The chosen format decides the extension if it is one of the three known ones;
/// otherwise the source keeps its own. Resolving twice changes nothing.
pub proof fn law_format_or_source(source_ext: Seq<char>, output_format: Seq<char>)
    ensures
        ({
            let ext = resolved_ext(source_ext, output_format);
            let known = output_format == "mp4"@ || output_format == "mov"@ || output_format
                == "mkv"@;
            &&& known ==> ext == output_format
            &&& !known ==> ext == source_ext
            &&& resolved_ext(ext, output_format) == ext
        }),
{
}

/// The extensions that count, one by one.
pub proof fn law_known_extensions(lower: Seq<char>)
    ensures
        is_video_ext(lower) <==> seq![
            "mp4"@,
            "mkv"@,
            "mov"@,
            "avi"@,
            "webm"@,
            "m4v"@,
            "ts"@,
            "flv"@,
        ].contains(lower),
        is_mp4_family_ext(lower) <==> lower == "mp4"@ || lower == "mov"@ || lower == "m4v"@,
        is_mp4_family_ext(lower) ==> is_video_ext(lower),
{
    let all = seq!["mp4"@, "mkv"@, "mov"@, "avi"@, "webm"@, "m4v"@, "ts"@, "flv"@];
    assert(all[0] == "mp4"@ && all[1] == "mkv"@ && all[2] == "mov"@ && all[3] == "avi"@);
    assert(all[4] == "webm"@ && all[5] == "m4v"@ && all[6] == "ts"@ && all[7] == "flv"@);
}

/// What stands in the name of a chunk: the stem, an underscore, the number of the
/// chunk counted from one in at least three digits, a dot, the extension.
pub proof fn law_chunk_name_parts(stem: Seq<char>, index: nat, ext: Seq<char>)
    ensures
        ({
            let n = index + 1;
            let digits = if n < 1000 {
                seq![
                    (48 + n / 100) as char,
                    (48 + n / 10 % 10) as char,
                    (48 + n % 10) as char,
                ]
            } else {
                decimal(n)
            };
            chunk_name(stem, index, ext) == stem + seq!['_'] + digits + seq!['.'] + ext
        }),
{
    law_decimal_padded_digits(index + 1);
    reveal_strlit("_");
    reveal_strlit(".");
    assert("_"@ =~= seq!['_']);
    assert("."@ =~= seq!['.']);
}

/// A converted file keeps stem and extension; only where that is the source itself
/// is the stem marked.
pub proof fn law_converted_name_parts(stem: Seq<char>, ext: Seq<char>)
    ensures
        converted_name(stem, ext, false) == stem + seq!['.'] + ext,
        converted_name(stem, ext, true) == stem + "_converted"@ + seq!['.'] + ext,
{
    reveal_strlit("_converted.");
    reveal_strlit("_converted");
    reveal_strlit(".");
    assert("."@ =~= seq!['.']);
    assert("_converted."@ =~= "_converted"@ + seq!['.']);
    assert(stem + "_converted."@ + ext =~= stem + "_converted"@ + seq!['.'] + ext);
}

} // verus!
