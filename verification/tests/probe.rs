use video_splitter::probe::{
    first_stream, get_video_dimensions, read_dimensions, ProbeError, StreamSize,
};

fn message(report: &str) -> String {
    match get_video_dimensions(report) {
        Ok(_) => panic!("a size was read"),
        Err(error) => error.message(),
    }
}

#[test]
fn dimensions_of_a_report() {
    let report = "{\"programs\": [], \"streams\": [{\"width\": 1920, \"height\": 1080}]}";
    assert!(matches!(get_video_dimensions(report), Ok((1920, 1080))));
}

#[test]
fn first_stream_counts() {
    let report = "{\"streams\": [{\"width\": 3, \"height\": 4}, {\"width\": 5, \"height\": 6}]}";
    assert!(matches!(get_video_dimensions(report), Ok((3, 4))));
}

#[test]
fn report_without_stream() {
    assert_eq!(message("{\"streams\": []}"), "No video stream found");
    assert_eq!(message("{}"), "No video stream found");
    assert_eq!(message("[1, 2]"), "No video stream found");
    assert_eq!(message("{\"streams\": {\"0\": 1}}"), "No video stream found");
}

#[test]
fn report_without_size() {
    assert_eq!(message("{\"streams\": [{\"height\": 4}]}"), "Could not read width");
    assert_eq!(message("{\"streams\": [{\"width\": \"3\", \"height\": 4}]}"), "Could not read width");
    assert_eq!(message("{\"streams\": [{\"width\": -3, \"height\": 4}]}"), "Could not read width");
    assert_eq!(message("{\"streams\": [{\"width\": 3.0, \"height\": 4}]}"), "Could not read width");
    assert_eq!(message("{\"streams\": [null]}"), "Could not read width");
    assert_eq!(message("{\"streams\": [{\"width\": 3}]}"), "Could not read height");
}

#[test]
fn report_that_is_no_json() {
    assert_eq!(message(""), "EOF while parsing a value at line 1 column 0");
    assert_eq!(message("{\"streams\": [}"), "expected value at line 1 column 14");
    assert!(matches!(get_video_dimensions("no"), Err(ProbeError::Json(_))));
}

#[test]
fn sizes_keep_their_lower_bits() {
    let size = StreamSize { width: Some(0x1_0000_0005), height: Some(u64::MAX) };
    assert!(matches!(read_dimensions(Some(size)), Ok((5, u32::MAX))));
    assert!(matches!(read_dimensions(None), Err(ProbeError::NoVideoStream)));
    let no_width = StreamSize { width: None, height: None };
    assert!(matches!(read_dimensions(Some(no_width)), Err(ProbeError::NoWidth)));
    let no_height = StreamSize { width: Some(1), height: None };
    assert!(matches!(read_dimensions(Some(no_height)), Err(ProbeError::NoHeight)));
}

#[test]
fn stream_of_a_parsed_report() {
    let report: serde_json::Value =
        serde_json::from_str("{\"streams\": [{\"width\": 640, \"height\": null}]}").unwrap();
    assert!(first_stream(&report) == Some(StreamSize { width: Some(640), height: None }));
    assert!(first_stream(&serde_json::Value::Null) == None);
}
