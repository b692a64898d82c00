use video_splitter::crop::{CropRect, DynamicDims};
use video_splitter::ffmpeg::{
    cut_args, cut_args_for, dimension_args, duration_args, filter_graph, sample_args, CropMode,
    CutRequest, TimedSegment,
};

fn request(ext: &str) -> CutRequest {
    CutRequest {
        input: "in.mkv".to_string(),
        output: "out/a_001.x".to_string(),
        output_ext: ext.to_string(),
        start: "900".to_string(),
        len: "450.5".to_string(),
    }
}

fn timed(start: &str, end: &str, duration: &str, x: u32) -> TimedSegment {
    TimedSegment {
        start: start.to_string(),
        end: end.to_string(),
        duration: duration.to_string(),
        x,
    }
}

const DIMS: DynamicDims = DynamicDims { w: 608, h: 980, y_offset: 100 };

#[test]
fn plain_cut_copies_all_streams() {
    assert_eq!(
        cut_args(&request("mkv"), &CropMode::Uncropped),
        vec!["-y", "-ss", "900", "-i", "in.mkv", "-t", "450.5", "-c", "copy", "-map", "0", "out/a_001.x"]
    );
}

#[test]
fn plain_cut_into_mp4_takes_picture_and_sound() {
    let expected = vec![
        "-y", "-ss", "900", "-i", "in.mkv", "-t", "450.5", "-c", "copy", "-map", "0:v:0", "-map",
        "0:a:0?", "-movflags", "+faststart", "out/a_001.x",
    ];
    assert_eq!(cut_args(&request("MP4"), &CropMode::Uncropped), expected);
    assert_eq!(cut_args(&request("mov"), &CropMode::Uncropped), expected);
    assert_eq!(cut_args(&request("M4v"), &CropMode::Uncropped), expected);
    assert_eq!(cut_args_for(&request(""), &CropMode::Uncropped, true), expected);
}

#[test]
fn static_crop_encodes_the_video() {
    let crop = CropMode::Static(CropRect { w: 608, h: 1080, x: 656, y: 0 });
    assert_eq!(
        cut_args(&request(""), &crop),
        vec![
            "-y", "-ss", "900", "-i", "in.mkv", "-t", "450.5", "-vf", "crop=608:1080:656:0", "-c:v",
            "libx264", "-preset", "veryfast", "-crf", "20", "-pix_fmt", "yuv420p", "-c:a", "copy",
            "-map", "0:v:0", "-map", "0:a:0?", "out/a_001.x",
        ]
    );
}

#[test]
fn dynamic_crop_joins_segments() {
    let segments = vec![timed("0.000", "2.000", "2.000", 600), timed("2.000", "3.500", "1.500", 610)];
    let graph = filter_graph(DIMS, &segments);
    assert_eq!(
        graph,
        "[0:v]trim=start=0.000:end=2.000,setpts=PTS-STARTPTS,crop=608:980:600+(610-600)*t/2.000:100[v0];\
         [0:v]trim=start=2.000:end=3.500,setpts=PTS-STARTPTS,crop=608:980:610:100[v1];\
         [v0][v1]concat=n=2:v=1:a=0[vout]"
    );
    let crop = CropMode::Dynamic { dims: DIMS, segments };
    assert_eq!(
        cut_args(&request("mp4"), &crop),
        vec![
            "-y", "-ss", "900", "-i", "in.mkv", "-t", "450.5", "-filter_complex", graph.as_str(),
            "-c:v", "libx264", "-preset", "veryfast", "-crf", "20", "-pix_fmt", "yuv420p", "-c:a",
            "copy", "-map", "[vout]", "-map", "0:a:0?", "-movflags", "+faststart", "out/a_001.x",
        ]
    );
}

/// The value of a window's position `x` or `x+(y-z)*t/d` at a time.
fn position(text: &str, t: f64) -> f64 {
    let number = |s: &str| s.parse::<f64>().unwrap();
    match text.split_once("+(") {
        None => number(text),
        Some((x, rest)) => {
            let (gap, duration) = rest.split_once(")*t/").unwrap();
            let (to, from) = gap.split_once('-').unwrap();
            number(x) + (number(to) - number(from)) * t / number(duration)
        }
    }
}

#[test]
fn windows_do_not_jump_at_the_seams() {
    let segments = vec![
        timed("0.000", "2.000", "2.000", 600),
        timed("2.000", "3.500", "1.500", 610),
        timed("3.500", "7.500", "4.000", 90),
        timed("7.500", "7.600", "0.100", 90),
    ];
    let graph = filter_graph(DIMS, &segments);
    let texts: Vec<&str> = graph
        .split(";")
        .filter_map(|part| part.split_once("crop=608:980:"))
        .map(|(_, rest)| rest.split_once(":100[v").unwrap().0)
        .collect();
    assert_eq!(texts, vec!["600+(610-600)*t/2.000", "610+(90-610)*t/1.500", "90", "90"]);
    for i in 0..segments.len() {
        let duration: f64 = segments[i].duration.parse().unwrap();
        assert_eq!(position(texts[i], 0.0), segments[i].x as f64);
        let last = i + 1 == segments.len();
        let target = if last { segments[i].x } else { segments[i + 1].x };
        assert_eq!(position(texts[i], duration), target as f64);
        if !last {
            assert_eq!(position(texts[i], duration), position(texts[i + 1], 0.0));
        }
    }
    assert_eq!(position(texts[0], 1.0), 605.0);
}

#[test]
fn segments_at_one_position_stand_still() {
    let segments = vec![timed("0.000", "2.000", "2.000", 7), timed("2.000", "2.100", "0.100", 7)];
    assert_eq!(
        filter_graph(DIMS, &segments),
        "[0:v]trim=start=0.000:end=2.000,setpts=PTS-STARTPTS,crop=608:980:7:100[v0];\
         [0:v]trim=start=2.000:end=2.100,setpts=PTS-STARTPTS,crop=608:980:7:100[v1];\
         [v0][v1]concat=n=2:v=1:a=0[vout]"
    );
    assert_eq!(filter_graph(DIMS, &Vec::new()), "concat=n=0:v=1:a=0[vout]");
}

#[test]
fn graph_of_a_full_chunk_is_bounded() {
    let dims = DynamicDims { w: 99999, h: 99999, y_offset: 99999 };
    let segments: Vec<TimedSegment> = (0..220)
        .map(|i| timed("999999.999", "999999.999", "999999.999", 99998 + i % 2))
        .collect();
    let len = filter_graph(dims, &segments).len();
    assert!(len <= 130 * 220 + 26);
    assert!(len < 29_000);
}

#[test]
fn sampling_is_one_small_frame_a_second() {
    assert_eq!(
        sample_args("talk.mp4"),
        vec!["-i", "talk.mp4", "-vf", "fps=1,scale=384:384", "-f", "rawvideo", "-pix_fmt", "rgb24", "-"]
    );
}

#[test]
fn probe_arguments() {
    assert_eq!(
        duration_args("talk.mp4"),
        vec![
            "-v", "error", "-show_entries", "format=duration", "-of",
            "default=noprint_wrappers=1:nokey=1", "talk.mp4",
        ]
    );
    assert_eq!(
        dimension_args("talk.mp4"),
        vec![
            "-v", "error", "-select_streams", "v:0", "-show_entries", "stream=width,height", "-of",
            "json", "talk.mp4",
        ]
    );
}
