use video_splitter::naming::{
    chunk_file_name, converted_file_name, is_lower_mp4_family, is_lower_video_extension,
    is_mp4_family, is_video_extension, resolve_ext,
};
use video_splitter::text::{append_decimal, append_decimal_padded, same_text};

#[test]
fn known_formats_replace_the_extension() {
    assert_eq!(resolve_ext("avi", "mp4"), "mp4");
    assert_eq!(resolve_ext("avi", "mov"), "mov");
    assert_eq!(resolve_ext("avi", "mkv"), "mkv");
}

#[test]
fn other_formats_keep_the_extension() {
    assert_eq!(resolve_ext("avi", "source"), "avi");
    assert_eq!(resolve_ext("WebM", ""), "WebM");
    assert_eq!(resolve_ext("ts", "MP4"), "ts");
    assert_eq!(resolve_ext("", "flv"), "");
}

#[test]
fn video_extensions_in_any_case() {
    for ext in ["mp4", "mkv", "mov", "avi", "webm", "m4v", "ts", "flv"] {
        assert!(is_video_extension(ext));
        assert!(is_video_extension(&ext.to_uppercase()));
        assert!(is_lower_video_extension(ext));
        assert!(!is_lower_video_extension(&ext.to_uppercase()));
    }
    assert!(is_video_extension("WebM"));
    assert!(!is_video_extension("mp3"));
    assert!(!is_video_extension(""));
    assert!(!is_video_extension("mp4 "));
}

#[test]
fn unicode_lower_case_counts() {
    // The Kelvin sign has the lower-case form `k`.
    assert!(is_video_extension("M\u{212a}V"));
}

#[test]
fn mp4_family_in_any_case() {
    assert!(is_mp4_family("MP4"));
    assert!(is_mp4_family("Mov"));
    assert!(is_mp4_family("m4v"));
    assert!(!is_mp4_family("mkv"));
    assert!(!is_mp4_family(""));
    assert!(is_lower_mp4_family("mov"));
    assert!(!is_lower_mp4_family("MOV"));
}

#[test]
fn chunk_names_are_numbered_from_one() {
    assert_eq!(chunk_file_name("talk", 0, "mp4"), "talk_001.mp4");
    assert_eq!(chunk_file_name("talk", 8, "mkv"), "talk_009.mkv");
    assert_eq!(chunk_file_name("talk", 9, "mkv"), "talk_010.mkv");
    assert_eq!(chunk_file_name("talk", 98, "mkv"), "talk_099.mkv");
    assert_eq!(chunk_file_name("talk", 99, "mov"), "talk_100.mov");
    assert_eq!(chunk_file_name("talk", 999, "mov"), "talk_1000.mov");
    assert_eq!(chunk_file_name("", 1233, ""), "_1234.");
}

#[test]
fn chunk_names_differ() {
    let names: Vec<String> = (0..1200).map(|i| chunk_file_name("a_1", i, "ts")).collect();
    for i in 1..names.len() {
        assert_ne!(names[i - 1], names[i]);
    }
    assert_ne!(chunk_file_name("a", 0, "ts"), chunk_file_name("a", 1000, "ts"));
}

#[test]
fn conversion_never_takes_the_name_of_the_source() {
    assert_eq!(converted_file_name("talk", "mp4", false), "talk.mp4");
    assert_eq!(converted_file_name("talk", "mp4", true), "talk_converted.mp4");
}

#[test]
fn decimal_text() {
    for n in [0u64, 7, 10, 99, 100, 12345, 4294967295, u64::MAX] {
        let mut out = String::from("x");
        append_decimal(&mut out, n);
        assert_eq!(out, format!("x{n}"));
        let mut padded = String::new();
        append_decimal_padded(&mut padded, n);
        assert_eq!(padded, format!("{n:03}"));
        assert_eq!(padded.parse::<u64>(), Ok(n));
    }
}

#[test]
fn texts_are_compared_whole() {
    assert!(same_text("", ""));
    assert!(same_text("héllo", "héllo"));
    assert!(!same_text("héllo", "hello"));
    assert!(!same_text("mp4", "mp"));
    assert!(!same_text("mp", "mp4"));
}
