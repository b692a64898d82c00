use video_splitter::listing::{
    check_file_count, find_video_files, resolve_input_and_output, FolderEntry, InputError,
    InputFacts, InputFiles, InputPlan, OutputRoot,
};

fn entry(is_file: bool, name: &str) -> FolderEntry {
    let extension = name.rsplit_once('.').map(|(_, ext)| ext.to_string());
    FolderEntry { is_file, extension, name: name.as_bytes().to_vec() }
}

#[test]
fn videos_are_listed_by_name() {
    let entries = [
        entry(true, "b.MP4"),
        entry(true, "notes.txt"),
        entry(false, "folder.mp4"),
        entry(true, "a.webm"),
        entry(true, "plain"),
        entry(true, "B.mkv"),
        entry(true, "a.mov"),
    ];
    assert_eq!(find_video_files(&entries), vec![5, 6, 3, 0]);
}

#[test]
fn empty_folder_has_no_videos() {
    assert_eq!(find_video_files(&[]), Vec::<usize>::new());
    assert_eq!(find_video_files(&[entry(true, "x.mp3")]), Vec::<usize>::new());
}

#[test]
fn listing_agrees_with_sorting() {
    let names = ["z.ts", "aa.ts", "a.ts", "ab.ts", "é.ts", "10.ts", "9.ts", "a.flv"];
    let entries: Vec<FolderEntry> = names.iter().map(|n| entry(true, n)).collect();
    let listed: Vec<&str> = find_video_files(&entries).iter().map(|&i| names[i]).collect();
    let mut sorted = names.to_vec();
    sorted.sort();
    assert_eq!(listed, sorted);
}

#[test]
fn equal_names_keep_their_order() {
    let entries = [entry(true, "a.ts"), entry(true, "a.ts"), entry(true, "a.ts")];
    assert_eq!(find_video_files(&entries), vec![0, 1, 2]);
}

fn plan(exists: bool, is_file: bool, has_parent: bool, chosen: bool) -> Result<InputPlan, InputError> {
    resolve_input_and_output(InputFacts { exists, is_file, has_parent }, chosen)
}

#[test]
fn missing_input_is_refused() {
    assert!(plan(false, false, true, true) == Err(InputError::Missing));
    assert_eq!(InputError::Missing.message(), "Input path does not exist");
}

#[test]
fn output_goes_beside_a_file_and_into_a_folder() {
    let single = InputFiles::Single;
    let folder = InputFiles::Folder;
    assert!(plan(true, true, true, false) == Ok(InputPlan { root: OutputRoot::InputParent, files: single }));
    assert!(plan(true, true, false, false) == Ok(InputPlan { root: OutputRoot::CurrentDir, files: single }));
    assert!(plan(true, false, true, false) == Ok(InputPlan { root: OutputRoot::InputFolder, files: folder }));
    assert!(plan(true, true, true, true) == Ok(InputPlan { root: OutputRoot::Chosen, files: single }));
    assert!(plan(true, false, true, true) == Ok(InputPlan { root: OutputRoot::Chosen, files: folder }));
}

#[test]
fn job_needs_a_file() {
    assert!(check_file_count(0) == Err(InputError::NoVideoFiles));
    assert!(check_file_count(1) == Ok(()));
    assert_eq!(InputError::NoVideoFiles.message(), "No video files found");
}
