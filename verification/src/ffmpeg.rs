//! Arguments for `ffmpeg` and `ffprobe`.

use crate::crop::{CropRect, DynamicDims};
use crate::naming::{is_mp4_family, is_mp4_family_ext};
use crate::segments::{
    law_planned_inside_frame, law_segments_capped, pan_room, planned, GridStep,
    MAX_SEGMENTS_PER_CHUNK,
};
use crate::text::{
    all_ascii, append_decimal, ascii_lowered, decimal, lemma_decimal_length, lower_cased,
};
use crate::tracking::MODEL_SIZE;
use vstd::prelude::*;
use vstd::string::*;

verus! {

/// A crop segment with its times written out in seconds.
pub struct TimedSegment {
    pub start: String,
    pub end: String,
    pub duration: String,
    pub x: u32,
}

/// How the picture of a chunk is cropped.
pub enum CropMode {
    /// Not at all.
    Uncropped,
    /// With one window for the whole chunk.
    Static(CropRect),
    /// With a window that follows the subject.
    Dynamic { dims: DynamicDims, segments: Vec<TimedSegment> },
}

/// One cut: where from, where to, and which part. Times are in seconds.
/// `output_ext` is the extension of the output file, empty where it has none.
pub struct CutRequest {
    pub input: String,
    pub output: String,
    pub output_ext: String,
    pub start: String,
    pub len: String,
}

/// The texts of a list of arguments.
pub open spec fn texts(args: Seq<String>) -> Seq<Seq<char>> {
    args.map_values(|s: String| s@)
}

/// Appends one argument.
fn push_arg(args: &mut Vec<String>, arg: &str)
    ensures
        texts(final(args)@) == texts(old(args)@).push(arg@),
{
    args.push(arg.to_owned());
    assert(texts(args@) =~= texts(old(args)@).push(arg@));
}

/// The horizontal position of a segment's window over time: it moves evenly from
/// `x` at the segment's start to `next_x` at its end.
pub open spec fn ramp(x: u32, next_x: u32, duration: Seq<char>) -> Seq<char> {
    if next_x == x {
        decimal(x as nat)
    } else {
        decimal(x as nat) + "+("@ + decimal(next_x as nat) + "-"@ + decimal(x as nat) + ")*t/"@
            + duration
    }
}

/// Where a window on such a ramp stands after `t` of `duration` seconds: the value
/// of the ramp's text at that time.
pub open spec fn ramp_value(x: u32, next_x: u32, t: real, duration: real) -> real {
    if next_x == x {
        x as real
    } else {
        x as real + (next_x - x) as real * t / duration
    }
}

/// Where the window of segment `i` moves to: the position of the next segment,
/// or, for the last one, its own.
pub open spec fn ramp_target(segments: Seq<TimedSegment>, i: int) -> u32 {
    if i + 1 < segments.len() {
        segments[i + 1].x
    } else {
        segments[i].x
    }
}

/// The part of the filter graph that cuts and crops segment `i`.
pub open spec fn segment_filter(dims: DynamicDims, segments: Seq<TimedSegment>, i: int) -> Seq<
    char,
> {
    "[0:v]trim=start="@ + segments[i].start@ + ":end="@ + segments[i].end@
        + ",setpts=PTS-STARTPTS,crop="@ + decimal(dims.w as nat) + ":"@ + decimal(dims.h as nat)
        + ":"@ + ramp(segments[i].x, ramp_target(segments, i), segments[i].duration@) + ":"@
        + decimal(dims.y_offset as nat) + "[v"@ + decimal(i as nat) + "];"@
}

/// The parts of the filter graph for the first `n` segments.
pub open spec fn segment_filters(dims: DynamicDims, segments: Seq<TimedSegment>, n: nat) -> Seq<
    char,
>
    decreases n,
{
    if n == 0 {
        Seq::empty()
    } else {
        segment_filters(dims, segments, (n - 1) as nat) + segment_filter(dims, segments, n - 1)
    }
}

/// The labels of the first `n` segments.
pub open spec fn labels(n: nat) -> Seq<char>
    decreases n,
{
    if n == 0 {
        Seq::empty()
    } else {
        labels((n - 1) as nat) + ("[v"@ + decimal((n - 1) as nat) + "]"@)
    }
}

/// The filter graph that crops each segment and joins them again.
pub open spec fn graph(dims: DynamicDims, segments: Seq<TimedSegment>) -> Seq<char> {
    segment_filters(dims, segments, segments.len()) + labels(segments.len()) + "concat=n="@
        + decimal(segments.len()) + ":v=1:a=0[vout]"@
}

/// Appends the position of a window over time.
fn append_ramp(out: &mut String, x: u32, next_x: u32, duration: &str)
    ensures
        final(out)@ == old(out)@ + ramp(x, next_x, duration@),
{
    let ghost before = out@;
    append_decimal(out, x as u64);
    if next_x != x {
        out.append("+(");
        append_decimal(out, next_x as u64);
        out.append("-");
        append_decimal(out, x as u64);
        out.append(")*t/");
        out.append(duration);
    }
    assert(out@ =~= before + ramp(x, next_x, duration@));
}

/// Writes the part of the filter graph that cuts and crops segment `i`.
fn segment_text(dims: DynamicDims, segments: &Vec<TimedSegment>, i: usize) -> (part: String)
    requires
        i < segments@.len(),
    ensures
        part@ == segment_filter(dims, segments@, i as int),
{
    let next_x: u32 = if segments.len() - i > 1 {
        segments[i + 1].x
    } else {
        segments[i].x
    };
    let mut part: String = "[0:v]trim=start=".to_owned();
    part.append(segments[i].start.as_str());
    part.append(":end=");
    part.append(segments[i].end.as_str());
    part.append(",setpts=PTS-STARTPTS,crop=");
    append_decimal(&mut part, dims.w as u64);
    part.append(":");
    append_decimal(&mut part, dims.h as u64);
    part.append(":");
    append_ramp(&mut part, segments[i].x, next_x, segments[i].duration.as_str());
    part.append(":");
    append_decimal(&mut part, dims.y_offset as u64);
    part.append("[v");
    append_decimal(&mut part, i as u64);
    part.append("];");
    part
}

/// Writes the filter graph that crops each segment and joins them again.
pub fn filter_graph(dims: DynamicDims, segments: &Vec<TimedSegment>) -> (text: String)
    ensures
        text@ == graph(dims, segments@),
{
    let n: usize = segments.len();
    let mut text: String = String::new();
    let mut i: usize = 0;
    while i < n
        invariant
            i <= n,
            n == segments@.len(),
            text@ == segment_filters(dims, segments@, i as nat),
        decreases n - i,
    {
        let part: String = segment_text(dims, segments, i);
        text.append(part.as_str());
        i += 1;
    }
    let mut names: String = String::new();
    let mut j: usize = 0;
    while j < n
        invariant
            j <= n,
            names@ == labels(j as nat),
        decreases n - j,
    {
        let mut name: String = "[v".to_owned();
        append_decimal(&mut name, j as u64);
        name.append("]");
        names.append(name.as_str());
        j += 1;
    }
    text.append(names.as_str());
    text.append("concat=n=");
    append_decimal(&mut text, n as u64);
    text.append(":v=1:a=0[vout]");
    text
}

/// Where the window of segment `i` stands `t` seconds into the segment, which lasts
/// `duration` seconds.
pub open spec fn window_at(segments: Seq<TimedSegment>, i: int, t: real, duration: real) -> real {
    ramp_value(segments[i].x, ramp_target(segments, i), t, duration)
}

/// A ramp starts at the one position and ends at the other, and in between it
/// stays between the two.
pub proof fn law_ramp_runs_from_end_to_end(x: u32, next_x: u32, t: real, duration: real)
    requires
        0 as real <= t <= duration,
        duration > 0 as real,
    ensures
        ramp_value(x, next_x, 0 as real, duration) == x as real,
        ramp_value(x, next_x, duration, duration) == next_x as real,
        x <= next_x ==> x as real <= ramp_value(x, next_x, t, duration) <= next_x as real,
        next_x <= x ==> next_x as real <= ramp_value(x, next_x, t, duration) <= x as real,
{
    let b = (next_x - x) as real;
    assert(b * (0 as real) / duration == 0 as real) by (nonlinear_arith)
        requires
            duration > 0 as real,
    ;
    assert(b * duration / duration == b) by (nonlinear_arith)
        requires
            duration > 0 as real,
    ;
    assert(b >= 0 as real ==> 0 as real <= b * t / duration <= b) by (nonlinear_arith)
        requires
            duration > 0 as real,
            0 as real <= t <= duration,
    ;
    assert(b <= 0 as real ==> b <= b * t / duration <= 0 as real) by (nonlinear_arith)
        requires
            duration > 0 as real,
            0 as real <= t <= duration,
    ;
}

/// At the end of a segment its window stands exactly where the window of the next
/// segment starts, so that the motion has no jump at the seam. The last window
/// does not move.
pub proof fn law_ramps_connect(
    segments: Seq<TimedSegment>,
    i: int,
    t: real,
    duration: real,
    next_duration: real,
)
    requires
        0 <= i < segments.len(),
        duration > 0 as real,
        next_duration > 0 as real,
    ensures
        window_at(segments, i, 0 as real, duration) == segments[i].x as real,
        i + 1 < segments.len() ==> {
            &&& window_at(segments, i, duration, duration) == segments[i + 1].x as real
            &&& window_at(segments, i, duration, duration) == window_at(
                segments,
                i + 1,
                0 as real,
                next_duration,
            )
        },
        i + 1 == segments.len() ==> window_at(segments, i, t, duration) == segments[i].x as real,
{
    law_ramp_runs_from_end_to_end(
        segments[i].x,
        ramp_target(segments, i),
        0 as real,
        duration,
    );
    if i + 1 < segments.len() {
        law_ramp_runs_from_end_to_end(
            segments[i + 1].x,
            ramp_target(segments, i + 1),
            0 as real,
            next_duration,
        );
    }
}

/// Times written with at most ten characters.
pub open spec fn short_times(s: TimedSegment) -> bool {
    s.start@.len() <= 10 && s.end@.len() <= 10 && s.duration@.len() <= 10
}

proof fn lemma_filter_length(dims: DynamicDims, segments: Seq<TimedSegment>, i: int)
    requires
        0 <= i < segments.len() <= MAX_SEGMENTS_PER_CHUNK,
        dims.w < 100_000,
        dims.h < 100_000,
        dims.y_offset < 100_000,
        forall|k: int| 0 <= k < segments.len() ==> short_times(#[trigger] segments[k]),
        forall|k: int| 0 <= k < segments.len() ==> (#[trigger] segments[k]).x < 100_000,
    ensures
        segment_filter(dims, segments, i).len() <= 124,
{
    reveal_strlit("[0:v]trim=start=");
    reveal_strlit(":end=");
    reveal_strlit(",setpts=PTS-STARTPTS,crop=");
    reveal_strlit(":");
    reveal_strlit("[v");
    reveal_strlit("];");
    reveal_strlit("+(");
    reveal_strlit("-");
    reveal_strlit(")*t/");
    lemma_decimal_length(dims.w as nat);
    lemma_decimal_length(dims.h as nat);
    lemma_decimal_length(dims.y_offset as nat);
    lemma_decimal_length(i as nat);
    assert(short_times(segments[i]));
    assert(ramp_target(segments, i) < 100_000);
    lemma_decimal_length(segments[i].x as nat);
    lemma_decimal_length(ramp_target(segments, i) as nat);
}

proof fn lemma_filters_length(dims: DynamicDims, segments: Seq<TimedSegment>, n: nat)
    requires
        n <= segments.len() <= MAX_SEGMENTS_PER_CHUNK,
        dims.w < 100_000,
        dims.h < 100_000,
        dims.y_offset < 100_000,
        forall|k: int| 0 <= k < segments.len() ==> short_times(#[trigger] segments[k]),
        forall|k: int| 0 <= k < segments.len() ==> (#[trigger] segments[k]).x < 100_000,
    ensures
        segment_filters(dims, segments, n).len() <= 124 * n,
        labels(n).len() <= 6 * n,
    decreases n,
{
    if n > 0 {
        lemma_filters_length(dims, segments, (n - 1) as nat);
        lemma_filter_length(dims, segments, n - 1);
        reveal_strlit("[v");
        reveal_strlit("]");
        lemma_decimal_length((n - 1) as nat);
    }
}

/// The filter graph of a chunk has a bounded length, however much the subject
/// moves: with no more segments than a chunk may have, dimensions of up to five
/// places and times of up to ten characters, it stays below 29,000 characters.
pub proof fn law_graph_is_bounded(dims: DynamicDims, segments: Seq<TimedSegment>)
    requires
        segments.len() <= MAX_SEGMENTS_PER_CHUNK,
        dims.w < 100_000,
        dims.h < 100_000,
        dims.y_offset < 100_000,
        forall|k: int| 0 <= k < segments.len() ==> short_times(#[trigger] segments[k]),
        forall|k: int| 0 <= k < segments.len() ==> (#[trigger] segments[k]).x < 100_000,
    ensures
        graph(dims, segments).len() <= 130 * segments.len() + 26,
        graph(dims, segments).len() < 29_000,
{
    lemma_filters_length(dims, segments, segments.len());
    reveal_strlit("concat=n=");
    reveal_strlit(":v=1:a=0[vout]");
    lemma_decimal_length(segments.len());
}

/// However long a chunk is and however much its subject moves, the filter graph
/// of its segments stays below 29,000 characters, given dimensions of up to five
/// places and times of up to ten characters.
pub proof fn law_planned_graph_is_bounded(
    grid: Seq<GridStep>,
    src_w: u32,
    dims: DynamicDims,
    segments: Seq<TimedSegment>,
)
    requires
        0 < grid.len() <= usize::MAX,
        dims.w < 100_000,
        src_w < 100_000,
        dims.h < 100_000,
        dims.y_offset < 100_000,
        segments.len() == planned(grid, pan_room(src_w as nat, dims.w as nat) as u32).len(),
        forall|k: int| 0 <= k < segments.len() ==> short_times(#[trigger] segments[k]),
        forall|k: int|
            0 <= k < segments.len() ==> (#[trigger] segments[k]).x == planned(
                grid,
                pan_room(src_w as nat, dims.w as nat) as u32,
            )[k].x,
    ensures
        graph(dims, segments).len() < 29_000,
{
    let room = pan_room(src_w as nat, dims.w as nat) as u32;
    law_segments_capped(grid, room);
    law_planned_inside_frame(grid, src_w, dims.w);
    assert forall|k: int| 0 <= k < segments.len() implies (#[trigger] segments[k]).x < 100_000 by {
        assert(planned(grid, room)[k].x <= room);
    }
    law_graph_is_bounded(dims, segments);
}

/// The video is encoded anew, the sound is copied.
pub open spec fn encoder_arguments() -> Seq<Seq<char>> {
    seq![
        "-c:v"@,
        "libx264"@,
        "-preset"@,
        "veryfast"@,
        "-crf"@,
        "20"@,
        "-pix_fmt"@,
        "yuv420p"@,
        "-c:a"@,
        "copy"@,
    ]
}

/// The description of a fixed crop window.
pub open spec fn static_filter(rect: CropRect) -> Seq<char> {
    "crop="@ + decimal(rect.w as nat) + ":"@ + decimal(rect.h as nat) + ":"@ + decimal(
        rect.x as nat,
    ) + ":"@ + decimal(rect.y as nat)
}

/// The arguments that say which filters are used.
pub open spec fn filter_arguments(crop: CropMode) -> Seq<Seq<char>> {
    match crop {
        CropMode::Uncropped => Seq::empty(),
        CropMode::Static(rect) => seq!["-vf"@, static_filter(rect)],
        CropMode::Dynamic { dims, segments } => seq!["-filter_complex"@, graph(dims, segments@)],
    }
}

/// The arguments that say how the streams are written. Without a crop all streams
/// are copied; a container of the MP4 family takes only picture and sound, and
/// has its index moved to the front.
pub open spec fn codec_arguments(crop: CropMode, mp4_family: bool) -> Seq<Seq<char>> {
    let streams = match crop {
        CropMode::Uncropped => if mp4_family {
            seq!["-c"@, "copy"@, "-map"@, "0:v:0"@, "-map"@, "0:a:0?"@]
        } else {
            seq!["-c"@, "copy"@, "-map"@, "0"@]
        },
        CropMode::Static(_) => encoder_arguments() + seq!["-map"@, "0:v:0"@, "-map"@, "0:a:0?"@],
        CropMode::Dynamic { .. } => encoder_arguments() + seq![
            "-map"@,
            "[vout]"@,
            "-map"@,
            "0:a:0?"@,
        ],
    };
    if mp4_family {
        streams + seq!["-movflags"@, "+faststart"@]
    } else {
        streams
    }
}

/// The arguments of one cut.
pub open spec fn cut_arguments(job: CutRequest, crop: CropMode, mp4_family: bool) -> Seq<
    Seq<char>,
> {
    seq!["-y"@, "-ss"@, job.start@, "-i"@, job.input@, "-t"@, job.len@] + filter_arguments(crop)
        + codec_arguments(crop, mp4_family) + seq![job.output@]
}

/// Appends the arguments for encoding the video anew.
fn push_encoder(args: &mut Vec<String>)
    ensures
        texts(final(args)@) == texts(old(args)@) + encoder_arguments(),
{
    let ghost before = texts(args@);
    push_arg(args, "-c:v");
    push_arg(args, "libx264");
    push_arg(args, "-preset");
    push_arg(args, "veryfast");
    push_arg(args, "-crf");
    push_arg(args, "20");
    push_arg(args, "-pix_fmt");
    push_arg(args, "yuv420p");
    push_arg(args, "-c:a");
    push_arg(args, "copy");
    assert(texts(args@) =~= before + encoder_arguments());
}

/// Appends the arguments that say which filters are used.
fn push_filters(args: &mut Vec<String>, crop: &CropMode)
    ensures
        texts(final(args)@) == texts(old(args)@) + filter_arguments(*crop),
{
    let ghost before = texts(args@);
    match crop {
        CropMode::Uncropped => {},
        CropMode::Static(rect) => {
            let mut filter: String = "crop=".to_owned();
            append_decimal(&mut filter, rect.w as u64);
            filter.append(":");
            append_decimal(&mut filter, rect.h as u64);
            filter.append(":");
            append_decimal(&mut filter, rect.x as u64);
            filter.append(":");
            append_decimal(&mut filter, rect.y as u64);
            push_arg(args, "-vf");
            push_arg(args, filter.as_str());
        },
        CropMode::Dynamic { dims, segments } => {
            let text: String = filter_graph(*dims, segments);
            push_arg(args, "-filter_complex");
            push_arg(args, text.as_str());
        },
    }
    assert(texts(args@) =~= before + filter_arguments(*crop));
}

/// Appends the arguments that say how the streams are written.
fn push_codecs(args: &mut Vec<String>, crop: &CropMode, mp4_family: bool)
    ensures
        texts(final(args)@) == texts(old(args)@) + codec_arguments(*crop, mp4_family),
{
    let ghost before = texts(args@);
    match crop {
        CropMode::Uncropped => {
            push_arg(args, "-c");
            push_arg(args, "copy");
            push_arg(args, "-map");
            if mp4_family {
                push_arg(args, "0:v:0");
                push_arg(args, "-map");
                push_arg(args, "0:a:0?");
            } else {
                push_arg(args, "0");
            }
        },
        CropMode::Static(_) => {
            push_encoder(args);
            push_arg(args, "-map");
            push_arg(args, "0:v:0");
            push_arg(args, "-map");
            push_arg(args, "0:a:0?");
        },
        CropMode::Dynamic { .. } => {
            push_encoder(args);
            push_arg(args, "-map");
            push_arg(args, "[vout]");
            push_arg(args, "-map");
            push_arg(args, "0:a:0?");
        },
    }
    if mp4_family {
        push_arg(args, "-movflags");
        push_arg(args, "+faststart");
    }
    assert(texts(args@) =~= before + codec_arguments(*crop, mp4_family));
}

/// Writes the arguments of one cut into a container that is or is not of the MP4
/// family.
pub fn cut_args_for(job: &CutRequest, crop: &CropMode, mp4_family: bool) -> (args: Vec<String>)
    ensures
        texts(args@) == cut_arguments(*job, *crop, mp4_family),
        args@.len() >= 12,
        args@[1]@ == "-ss"@ && args@[2]@ == job.start@,
        args@[3]@ == "-i"@ && args@[4]@ == job.input@,
        args@[5]@ == "-t"@ && args@[6]@ == job.len@,
        args@.last()@ == job.output@,
        mp4_family || *crop !is Uncropped ==> exists|k: int|
            7 <= k < args@.len() - 2 && (#[trigger] args@[k])@ == "-map"@ && args@[k + 1]@
                == "0:a:0?"@,
        !mp4_family && *crop is Uncropped ==> args@[args@.len() - 3]@ == "-map"@
            && args@[args@.len() - 2]@ == "0"@,
        mp4_family ==> args@[args@.len() - 3]@ == "-movflags"@ && args@[args@.len() - 2]@
            == "+faststart"@,
{
    let mut args: Vec<String> = Vec::new();
    assert(texts(args@) =~= Seq::empty());
    push_arg(&mut args, "-y");
    push_arg(&mut args, "-ss");
    push_arg(&mut args, job.start.as_str());
    push_arg(&mut args, "-i");
    push_arg(&mut args, job.input.as_str());
    push_arg(&mut args, "-t");
    push_arg(&mut args, job.len.as_str());
    assert(texts(args@) =~= seq![
        "-y"@,
        "-ss"@,
        job.start@,
        "-i"@,
        job.input@,
        "-t"@,
        job.len@,
    ]);
    push_filters(&mut args, crop);
    push_codecs(&mut args, crop, mp4_family);
    push_arg(&mut args, job.output.as_str());
    assert(texts(args@) =~= cut_arguments(*job, *crop, mp4_family));
    proof {
        law_cut_names_its_part(*job, *crop, mp4_family);
        law_streams_of_a_cut(*crop, mp4_family);
        assert forall|k: int| 0 <= k < args@.len() implies (#[trigger] args@[k])@ == cut_arguments(
            *job,
            *crop,
            mp4_family,
        )[k] by {
            assert(texts(args@)[k] == args@[k]@);
        }
        let codec = codec_arguments(*crop, mp4_family);
        let from = 7 + filter_arguments(*crop).len();
        assert forall|k: int| 0 <= k < codec.len() implies #[trigger] cut_arguments(
            *job,
            *crop,
            mp4_family,
        )[from + k] == codec[k] by {}
        if mp4_family || *crop !is Uncropped {
            let k = choose|k: int|
                0 <= k < codec.len() - 1 && #[trigger] codec[k] == "-map"@ && codec[k + 1]
                    == "0:a:0?"@;
            assert(args@[from + k]@ == "-map"@);
            assert(args@[from + k + 1]@ == "0:a:0?"@);
        }
    }
    args
}

/// Writes the arguments of one cut. The container is told by the extension of the
/// output file.
pub fn cut_args(job: &CutRequest, crop: &CropMode) -> (args: Vec<String>)
    ensures
        texts(args@) == cut_arguments(
            *job,
            *crop,
            is_mp4_family_ext(lower_cased(job.output_ext@)),
        ),
        all_ascii(job.output_ext@) ==> texts(args@) == cut_arguments(
            *job,
            *crop,
            is_mp4_family_ext(ascii_lowered(job.output_ext@)),
        ),
{
    let mp4_family: bool = is_mp4_family(job.output_ext.as_str());
    cut_args_for(job, crop, mp4_family)
}

/// Without a crop nothing is encoded anew: all streams are copied.
pub proof fn law_plain_cut_copies_streams(mp4_family: bool)
    ensures
        codec_arguments(CropMode::Uncropped, mp4_family)[0] == "-c"@,
        codec_arguments(CropMode::Uncropped, mp4_family)[1] == "copy"@,
        filter_arguments(CropMode::Uncropped).len() == 0,
        !codec_arguments(CropMode::Uncropped, mp4_family).contains("libx264"@),
{
    reveal_strlit("libx264");
    reveal_strlit("-c");
    reveal_strlit("copy");
    reveal_strlit("-map");
    reveal_strlit("0:v:0");
    reveal_strlit("0:a:0?");
    reveal_strlit("0");
    reveal_strlit("-movflags");
    reveal_strlit("+faststart");
    let args = codec_arguments(CropMode::Uncropped, mp4_family);
    assert forall|i: int| 0 <= i < args.len() implies args[i] != "libx264"@ by {
        if args[i].len() == 7 {
            assert(args[i] == "libx264"@ ==> args[i][0] == 'l');
        }
    }
}

/// With a crop the sound is still copied, never encoded anew.
pub proof fn law_crop_copies_sound(crop: CropMode, mp4_family: bool)
    requires
        crop !is Uncropped,
    ensures
        codec_arguments(crop, mp4_family)[8] == "-c:a"@,
        codec_arguments(crop, mp4_family)[9] == "copy"@,
{
}

/// The filters that sample a video: one frame a second, in the size that the
/// detector wants.
pub open spec fn sample_filter() -> Seq<char> {
    "fps=1,scale="@ + decimal(MODEL_SIZE as nat) + ":"@ + decimal(MODEL_SIZE as nat)
}

/// The arguments that have a video sampled, as raw bytes on the standard output.
pub open spec fn sample_arguments(input: Seq<char>) -> Seq<Seq<char>> {
    seq![
        "-i"@,
        input,
        "-vf"@,
        sample_filter(),
        "-f"@,
        "rawvideo"@,
        "-pix_fmt"@,
        "rgb24"@,
        "-"@,
    ]
}

/// Writes the arguments that have a video sampled for the detector.
pub fn sample_args(input: &str) -> (args: Vec<String>)
    ensures
        texts(args@) == sample_arguments(input@),
{
    let mut filter: String = "fps=1,scale=".to_owned();
    append_decimal(&mut filter, MODEL_SIZE as u64);
    filter.append(":");
    append_decimal(&mut filter, MODEL_SIZE as u64);
    let mut args: Vec<String> = Vec::new();
    assert(texts(args@) =~= Seq::empty());
    push_arg(&mut args, "-i");
    push_arg(&mut args, input);
    push_arg(&mut args, "-vf");
    push_arg(&mut args, filter.as_str());
    push_arg(&mut args, "-f");
    push_arg(&mut args, "rawvideo");
    push_arg(&mut args, "-pix_fmt");
    push_arg(&mut args, "rgb24");
    push_arg(&mut args, "-");
    assert(texts(args@) =~= sample_arguments(input@));
    args
}

/// The arguments that ask for the length of a video in seconds.
pub open spec fn duration_arguments(path: Seq<char>) -> Seq<Seq<char>> {
    seq![
        "-v"@,
        "error"@,
        "-show_entries"@,
        "format=duration"@,
        "-of"@,
        "default=noprint_wrappers=1:nokey=1"@,
        path,
    ]
}

/// Writes the arguments that ask for the length of a video.
pub fn duration_args(path: &str) -> (args: Vec<String>)
    ensures
        texts(args@) == duration_arguments(path@),
{
    let mut args: Vec<String> = Vec::new();
    assert(texts(args@) =~= Seq::empty());
    push_arg(&mut args, "-v");
    push_arg(&mut args, "error");
    push_arg(&mut args, "-show_entries");
    push_arg(&mut args, "format=duration");
    push_arg(&mut args, "-of");
    push_arg(&mut args, "default=noprint_wrappers=1:nokey=1");
    push_arg(&mut args, path);
    assert(texts(args@) =~= duration_arguments(path@));
    args
}

/// The arguments that ask for the size of a video's picture.
pub open spec fn dimension_arguments(path: Seq<char>) -> Seq<Seq<char>> {
    seq![
        "-v"@,
        "error"@,
        "-select_streams"@,
        "v:0"@,
        "-show_entries"@,
        "stream=width,height"@,
        "-of"@,
        "json"@,
        path,
    ]
}

/// Writes the arguments that ask for the size of a video's picture.
pub fn dimension_args(path: &str) -> (args: Vec<String>)
    ensures
        texts(args@) == dimension_arguments(path@),
{
    let mut args: Vec<String> = Vec::new();
    assert(texts(args@) =~= Seq::empty());
    push_arg(&mut args, "-v");
    push_arg(&mut args, "error");
    push_arg(&mut args, "-select_streams");
    push_arg(&mut args, "v:0");
    push_arg(&mut args, "-show_entries");
    push_arg(&mut args, "stream=width,height");
    push_arg(&mut args, "-of");
    push_arg(&mut args, "json");
    push_arg(&mut args, path);
    assert(texts(args@) =~= dimension_arguments(path@));
    args
}

/// The texts of a list of arguments are those of its members, one for one.
pub proof fn law_texts_are_those_of_the_arguments(args: Seq<String>, k: int)
    requires
        0 <= k < args.len(),
    ensures
        texts(args).len() == args.len(),
        texts(args)[k] == args[k]@,
{
}

/// A cut seeks in its input, reads as long as it is to, and writes its output: the
/// seven first arguments and the last one, with filters and streams in between.
/// Without a crop there is no filter; with one there is exactly one.
pub proof fn law_cut_names_its_part(job: CutRequest, crop: CropMode, mp4_family: bool)
    ensures
        ({
            let a = cut_arguments(job, crop, mp4_family);
            let n = a.len() as int;
            let f: int = if crop is Uncropped {
                0
            } else {
                2
            };
            &&& n == 8 + f + codec_arguments(crop, mp4_family).len()
            &&& a[0] == "-y"@
            &&& a[1] == "-ss"@
            &&& a[2] == job.start@
            &&& a[3] == "-i"@
            &&& a[4] == job.input@
            &&& a[5] == "-t"@
            &&& a[6] == job.len@
            &&& a[n - 1] == job.output@
            &&& a.subrange(7 + f, n - 1) == codec_arguments(crop, mp4_family)
            &&& crop matches CropMode::Static(r) ==> {
                &&& a[7] == "-vf"@
                &&& a[8] == "crop="@ + decimal(r.w as nat) + ":"@ + decimal(r.h as nat) + ":"@
                    + decimal(r.x as nat) + ":"@ + decimal(r.y as nat)
            }
            &&& crop matches CropMode::Dynamic { dims, segments } ==> {
                &&& a[7] == "-filter_complex"@
                &&& a[8] == graph(dims, segments@)
            }
        }),
{
    let a = cut_arguments(job, crop, mp4_family);
    let f: int = if crop is Uncropped {
        0
    } else {
        2
    };
    assert(a.subrange(7 + f, a.len() - 1) =~= codec_arguments(crop, mp4_family));
}

/// All the texts that say how streams are written differ.
proof fn lemma_stream_texts_differ()
    ensures
        "-map"@ != "-c"@,
        "-map"@ != "copy"@,
        "-map"@ != "0:v:0"@,
        "-map"@ != "0:a:0?"@,
        "-map"@ != "0"@,
        "-map"@ != "[vout]"@,
        "-map"@ != "-c:v"@,
        "-map"@ != "libx264"@,
        "-map"@ != "-preset"@,
        "-map"@ != "veryfast"@,
        "-map"@ != "-crf"@,
        "-map"@ != "20"@,
        "-map"@ != "-pix_fmt"@,
        "-map"@ != "yuv420p"@,
        "-map"@ != "-c:a"@,
        "-map"@ != "-movflags"@,
        "-map"@ != "+faststart"@,
        "0:a:0?"@ != "0:v:0"@,
        "0:a:0?"@ != "[vout]"@,
{
    reveal_strlit("-map");
    reveal_strlit("-c");
    reveal_strlit("copy");
    reveal_strlit("0:v:0");
    reveal_strlit("0:a:0?");
    reveal_strlit("0");
    reveal_strlit("[vout]");
    reveal_strlit("-c:v");
    reveal_strlit("libx264");
    reveal_strlit("-preset");
    reveal_strlit("veryfast");
    reveal_strlit("-crf");
    reveal_strlit("20");
    reveal_strlit("-pix_fmt");
    reveal_strlit("yuv420p");
    reveal_strlit("-c:a");
    reveal_strlit("-movflags");
    reveal_strlit("+faststart");
    assert("-map"@.len() == 4 && "0"@.len() == 1 && "-movflags"@.len() == 9);
    assert("0:a:0?"@.len() == 6 && "0:v:0"@.len() == 5);
    assert("-map"@[1] == 'm');
    assert("copy"@[1] == 'o');
    assert("-crf"@[1] == 'c');
    assert("-c:v"@[1] == 'c');
    assert("-c:a"@[1] == 'c');
    assert("0:a:0?"@[0] == '0');
    assert("[vout]"@[0] == '[');
}

/// Picture and sound of the source reach the output of every cut. Each `-map` is
/// followed by a stream; exactly one of them is the picture, the cropped one where
/// the crop follows the subject, and exactly one is the sound. Only a plain cut into a
/// container outside the MP4 family has a single `-map`, which takes everything.
pub proof fn law_streams_of_a_cut(crop: CropMode, mp4_family: bool)
    ensures
        ({
            let c = codec_arguments(crop, mp4_family);
            let picture = if crop is Dynamic {
                "[vout]"@
            } else {
                "0:v:0"@
            };
            if crop is Uncropped && !mp4_family {
                &&& c.len() == 4
                &&& c[2] == "-map"@
                &&& c[3] == "0"@
                &&& forall|k: int| 0 <= k < c.len() && #[trigger] c[k] == "-map"@ ==> k == 2
            } else {
                &&& c.len() > 4
                &&& exists|k: int|
                    0 <= k < c.len() - 1 && #[trigger] c[k] == "-map"@ && c[k + 1] == picture
                &&& exists|k: int|
                    0 <= k < c.len() - 1 && #[trigger] c[k] == "-map"@ && c[k + 1] == "0:a:0?"@
                &&& forall|k: int|
                    0 <= k < c.len() && #[trigger] c[k] == "-map"@ ==> k + 1 < c.len() && (c[k + 1]
                        == picture || c[k + 1] == "0:a:0?"@)
                &&& forall|j: int, k: int|
                    0 <= j < c.len() && 0 <= k < c.len() && #[trigger] c[j] == "-map"@
                        && #[trigger] c[k] == "-map"@ && c[j + 1] == c[k + 1] ==> j == k
            }
        }),
{
    lemma_stream_texts_differ();
    let c = codec_arguments(crop, mp4_family);
    if crop is Uncropped {
        assert(c[0] == "-c"@ && c[1] == "copy"@ && c[2] == "-map"@);
        if mp4_family {
            assert(c[3] == "0:v:0"@ && c[4] == "-map"@ && c[5] == "0:a:0?"@);
            assert(c[6] == "-movflags"@ && c[7] == "+faststart"@);
        }
    } else {
        assert(c[0] == "-c:v"@ && c[1] == "libx264"@ && c[2] == "-preset"@);
        assert(c[3] == "veryfast"@ && c[4] == "-crf"@ && c[5] == "20"@);
        assert(c[6] == "-pix_fmt"@ && c[7] == "yuv420p"@);
        assert(c[8] == "-c:a"@ && c[9] == "copy"@);
        assert(c[10] == "-map"@ && c[12] == "-map"@ && c[13] == "0:a:0?"@);
        if mp4_family {
            assert(c[14] == "-movflags"@ && c[15] == "+faststart"@);
        }
    }
}

/// What is done to the streams depends on the container only where it must: with a
/// crop, a container of the MP4 family adds nothing but having its index moved to the
/// front. That is asked for in that family and in no other.
pub proof fn law_container_adds_only_faststart(crop: CropMode)
    ensures
        ({
            let inside = codec_arguments(crop, true);
            let outside = codec_arguments(crop, false);
            &&& crop !is Uncropped ==> inside == outside + seq!["-movflags"@, "+faststart"@]
            &&& inside.len() >= 2
            &&& inside.skip(inside.len() - 2) == seq!["-movflags"@, "+faststart"@]
            &&& !outside.contains("-movflags"@)
        }),
{
    lemma_stream_texts_differ();
    let inside = codec_arguments(crop, true);
    let outside = codec_arguments(crop, false);
    assert(inside.skip(inside.len() - 2) =~= seq!["-movflags"@, "+faststart"@]);
    reveal_strlit("-movflags");
    reveal_strlit("-c");
    reveal_strlit("copy");
    reveal_strlit("-map");
    reveal_strlit("0");
    reveal_strlit("0:v:0");
    reveal_strlit("0:a:0?");
    reveal_strlit("[vout]");
    reveal_strlit("-c:v");
    reveal_strlit("libx264");
    reveal_strlit("-preset");
    reveal_strlit("veryfast");
    reveal_strlit("-crf");
    reveal_strlit("20");
    reveal_strlit("-pix_fmt");
    reveal_strlit("yuv420p");
    reveal_strlit("-c:a");
    assert forall|k: int| 0 <= k < outside.len() implies #[trigger] outside[k]
        != "-movflags"@ by {
        assert(outside[k].len() == "-movflags"@.len() ==> false);
    }
}

/// How the picture and the sound are written: a plain cut copies both; a crop encodes
/// the picture with the same settings whatever the window, and copies the sound.
pub proof fn law_crop_encodes_picture_only(crop: CropMode, mp4_family: bool)
    ensures
        ({
            let c = codec_arguments(crop, mp4_family);
            &&& crop is Uncropped ==> c.take(2) == seq!["-c"@, "copy"@]
            &&& crop !is Uncropped ==> c.len() >= 14 && c.take(8) == seq![
                "-c:v"@,
                "libx264"@,
                "-preset"@,
                "veryfast"@,
                "-crf"@,
                "20"@,
                "-pix_fmt"@,
                "yuv420p"@,
            ] && c[8] == "-c:a"@ && c[9] == "copy"@
        }),
{
    let c = codec_arguments(crop, mp4_family);
    if crop is Uncropped {
        assert(c.take(2) =~= seq!["-c"@, "copy"@]);
    } else {
        assert(c.take(8) =~= seq![
            "-c:v"@,
            "libx264"@,
            "-preset"@,
            "veryfast"@,
            "-crf"@,
            "20"@,
            "-pix_fmt"@,
            "yuv420p"@,
        ]);
    }
}

/// The part of a filter graph for one segment, on the segment itself: its own times,
/// its clock set to zero, the size and the top edge of the window, and as left edge
/// its own position, moving evenly to that of the segment after it if that is
/// another one.
pub proof fn law_segment_is_cut_and_cropped(
    dims: DynamicDims,
    segments: Seq<TimedSegment>,
    i: int,
)
    requires
        0 <= i < segments.len(),
    ensures
        ({
            let seg = segments[i];
            let still = i + 1 == segments.len() || segments[i + 1].x == seg.x;
            let left = if still {
                decimal(seg.x as nat)
            } else {
                decimal(seg.x as nat) + "+("@ + decimal(segments[i + 1].x as nat) + "-"@ + decimal(
                    seg.x as nat,
                ) + ")*t/"@ + seg.duration@
            };
            segment_filter(dims, segments, i) == "[0:v]trim=start="@ + seg.start@ + ":end="@
                + seg.end@ + ",setpts=PTS-STARTPTS,crop="@ + decimal(dims.w as nat) + ":"@
                + decimal(dims.h as nat) + ":"@ + left + ":"@ + decimal(dims.y_offset as nat)
                + "[v"@ + decimal(i as nat) + "];"@
        }),
{
}

/// A filter graph holds the parts of all its segments in order, and then joins them in
/// the same order: each label that a part gives is taken up once, and their number
/// is said.
pub proof fn law_graph_joins_all_segments(dims: DynamicDims, segments: Seq<TimedSegment>, n: nat)
    ensures
        segment_filters(dims, segments, 0) == Seq::<char>::empty(),
        segment_filters(dims, segments, n + 1) == segment_filters(dims, segments, n)
            + segment_filter(dims, segments, n as int),
        labels(0) == Seq::<char>::empty(),
        labels(n + 1) == labels(n) + "[v"@ + decimal(n) + "]"@,
        graph(dims, segments) == segment_filters(dims, segments, segments.len()) + labels(
            segments.len(),
        ) + "concat=n="@ + decimal(segments.len()) + ":v=1:a=0[vout]"@,
{
    assert(labels(n + 1) =~= labels(n) + "[v"@ + decimal(n) + "]"@);
}

/// What the other processes are asked for, word by word, whatever the file is
/// called.
pub proof fn law_questions_name_their_file(path: Seq<char>)
    ensures
        duration_arguments(path) == seq![
            "-v"@,
            "error"@,
            "-show_entries"@,
            "format=duration"@,
            "-of"@,
            "default=noprint_wrappers=1:nokey=1"@,
            path,
        ],
        dimension_arguments(path) == seq![
            "-v"@,
            "error"@,
            "-select_streams"@,
            "v:0"@,
            "-show_entries"@,
            "stream=width,height"@,
            "-of"@,
            "json"@,
            path,
        ],
        sample_arguments(path) == seq![
            "-i"@,
            path,
            "-vf"@,
            "fps=1,scale="@ + decimal(384) + ":"@ + decimal(384),
            "-f"@,
            "rawvideo"@,
            "-pix_fmt"@,
            "rgb24"@,
            "-"@,
        ],
{
}

} // verus!
