use video_splitter::job::{
    analyzing_message, choose_crop, chunk_total, converting_message, cutting_message, decide,
    error_report, goes_on, next_file, Control, CropKind, FileJob, JobStatus, Phase, Seen, Step,
};
use video_splitter::process::{
    settle_cut, tail_of, CutEnd, Outcome, ProcessEvent, ProcessWatch, TAIL_BYTES,
};

const QUIET: Control = Control { pause: false, stop: false };
const PAUSE: Control = Control { pause: true, stop: false };
const STOP: Control = Control { pause: false, stop: true };

fn run(count: usize, controls: &[Control]) -> Vec<Step> {
    let mut phase = Phase::Ready(0);
    let mut steps = Vec::new();
    for &control in controls {
        let (next, step) = decide(phase, Seen { control, cut_failed: false }, count);
        phase = next;
        steps.push(step);
    }
    steps
}

fn same(a: &[Step], b: &[Step]) -> bool {
    a.len() == b.len() && a.iter().zip(b).all(|(x, y)| x == y)
}

#[test]
fn quiet_job_cuts_all_chunks() {
    let steps = run(2, &[QUIET; 5]);
    assert!(same(
        &steps,
        &[Step::CutChunk(0), Step::Advance, Step::CutChunk(1), Step::ReportDone, Step::Leave],
    ));
}

#[test]
fn pause_holds_before_the_next_chunk() {
    let steps = run(2, &[QUIET, PAUSE, PAUSE, PAUSE, QUIET, QUIET]);
    assert!(same(
        &steps,
        &[
            Step::CutChunk(0),
            Step::Advance,
            Step::Wait(1),
            Step::Wait(1),
            Step::CutChunk(1),
            Step::ReportDone,
        ],
    ));
}

#[test]
fn stop_is_reported_unless_paused() {
    assert!(same(&run(2, &[STOP, QUIET]), &[Step::ReportStopped(0), Step::Leave]));
    assert!(same(&run(2, &[QUIET, STOP]), &[Step::CutChunk(0), Step::ReportStopped(0)]));
    assert!(same(&run(2, &[PAUSE, STOP, QUIET]), &[Step::Wait(0), Step::Leave, Step::Leave]));
    assert!(same(
        &run(3, &[QUIET, QUIET, STOP]),
        &[Step::CutChunk(0), Step::Advance, Step::ReportStopped(1)],
    ));
}

#[test]
fn failed_chunk_ends_the_job() {
    let (phase, step) = decide(Phase::Cut(0), Seen { control: STOP, cut_failed: true }, 4);
    assert!(phase == Phase::Finished && step == Step::Fail);
    let (phase, step) = decide(phase, Seen { control: QUIET, cut_failed: false }, 4);
    assert!(phase == Phase::Finished && step == Step::Leave);
}

#[test]
fn pauses_change_nothing_but_the_time() {
    let chunks = |steps: &[Step]| -> Vec<usize> {
        steps.iter().filter_map(|s| if let Step::CutChunk(i) = s { Some(*i) } else { None }).collect()
    };
    let end = |steps: &[Step]| steps.iter().copied().find(|s| !goes_on(*s));
    let plain = run(3, &[QUIET; 6]);
    let paused = run(3, &[PAUSE, PAUSE, QUIET, PAUSE, PAUSE, QUIET, PAUSE, QUIET, QUIET]);
    assert_eq!(chunks(&plain), vec![0, 1, 2]);
    assert_eq!(chunks(&paused), vec![0, 1, 2]);
    assert!(end(&plain) == Some(Step::ReportDone) && end(&paused) == Some(Step::ReportDone));
    // The cut of the second chunk fails, with and without a pause before it.
    for pauses in [0, 1, 5] {
        let mut phase = Phase::Ready(0);
        let mut steps = Vec::new();
        let mut left = pauses;
        for _ in 0..12 {
            let control = if phase == Phase::Ready(1) || phase == Phase::Paused(1) {
                if left > 0 {
                    left -= 1;
                    PAUSE
                } else {
                    QUIET
                }
            } else {
                QUIET
            };
            let (next, step) = decide(phase, Seen { control, cut_failed: phase == Phase::Cut(1) }, 3);
            phase = next;
            steps.push(step);
        }
        assert_eq!(chunks(&steps), vec![0, 1]);
        assert!(end(&steps) == Some(Step::Fail));
    }
}

#[test]
fn job_goes_on_until_it_is_over() {
    for phase in [Phase::Ready(1), Phase::Paused(1), Phase::Cut(1), Phase::Cut(3), Phase::Finished] {
        for control in [QUIET, PAUSE, STOP] {
            for cut_failed in [false, true] {
                let (next, step) = decide(phase, Seen { control, cut_failed }, 4);
                assert_eq!(goes_on(step), next != Phase::Finished);
            }
        }
    }
    assert!(goes_on(Step::Wait(0)) && goes_on(Step::CutChunk(0)) && goes_on(Step::Advance));
    assert!(!goes_on(Step::ReportStopped(0)) && !goes_on(Step::ReportDone));
    assert!(!goes_on(Step::Fail) && !goes_on(Step::Leave));
}

#[test]
fn controls() {
    assert!(Control::start() == QUIET);
    assert!(QUIET.pause() == PAUSE);
    assert!(PAUSE.resume() == QUIET);
    assert!(PAUSE.stop() == STOP);
    assert!(STOP.pause() == Control { pause: true, stop: true });
    assert!(STOP.resume() == STOP);
}

#[test]
fn counts_of_chunks_and_files() {
    assert_eq!(chunk_total(0), 1);
    assert_eq!(chunk_total(7), 7);
    assert_eq!(next_file(0, 2, QUIET), Some(0));
    assert_eq!(next_file(1, 2, PAUSE), Some(1));
    assert_eq!(next_file(2, 2, QUIET), None);
    assert_eq!(next_file(0, 2, STOP), None);
}

#[test]
fn reports_of_steps() {
    let job = FileJob { file_name: "a.mp4".to_string(), file_index: 1, file_count: 3, chunk_count: 5 };
    let paused = job.report(Step::Wait(2)).unwrap();
    assert_eq!(
        (paused.file_name.as_str(), paused.file_index, paused.file_count),
        ("a.mp4", 1, 3)
    );
    assert_eq!((paused.chunk_index, paused.chunk_count), (2, 5));
    assert_eq!((paused.status.text().as_str(), paused.message.as_str()), ("paused", "Paused"));
    let stopped = job.report(Step::ReportStopped(4)).unwrap();
    assert_eq!(stopped.chunk_index, 4);
    assert_eq!(
        (stopped.status.text().as_str(), stopped.message.as_str()),
        ("stopped", "Stopped by user")
    );
    let done = job.report(Step::ReportDone).unwrap();
    assert_eq!((done.chunk_index, done.chunk_count), (5, 5));
    assert_eq!((done.status.text().as_str(), done.message.as_str()), ("done", "File complete"));
    assert!(job.report(Step::Advance).is_none());
    assert!(job.report(Step::CutChunk(0)).is_none());
    assert!(job.report(Step::Leave).is_none());
    assert!(job.report(Step::Fail).is_none());
    let cut = job.report_cut(Step::CutChunk(2), "cutting".to_string()).unwrap();
    assert_eq!((cut.chunk_index, cut.chunk_count), (2, 5));
    assert_eq!((cut.status.text().as_str(), cut.message.as_str()), ("running", "cutting"));
    assert!(job.report_cut(Step::Advance, "cutting".to_string()).is_none());
    assert!(job.report_cut(Step::ReportDone, "cutting".to_string()).is_none());
    let running = job.running(3, "going".to_string());
    assert_eq!((running.chunk_index, running.status.text().as_str()), (3, "running"));
    assert_eq!(running.message, "going");
}

#[test]
fn report_of_an_error() {
    let report = error_report("a.mp4".to_string(), 1, 3, "broken".to_string());
    assert_eq!((report.file_index, report.file_count), (1, 3));
    assert_eq!((report.chunk_index, report.chunk_count), (0, 0));
    assert!(report.status == JobStatus::Error);
    assert_eq!((report.status.text().as_str(), report.message.as_str()), ("error", "broken"));
}

#[test]
fn crop_kinds_and_messages() {
    assert!(choose_crop(false, true) == CropKind::Uncropped);
    assert!(choose_crop(true, false) == CropKind::Static);
    assert!(choose_crop(true, true) == CropKind::Dynamic);
    assert_eq!(cutting_message(CropKind::Uncropped, 0, 4), "Cutting chunk 1/4");
    assert_eq!(cutting_message(CropKind::Static, 1, 4), "Cropping + cutting chunk 2/4");
    assert_eq!(cutting_message(CropKind::Dynamic, 9, 10), "Tracking + cutting chunk 10/10");
    assert_eq!(converting_message("mkv"), "Converting to .mkv");
    assert_eq!(analyzing_message(0), "Analyzing subject movement… 0%");
    assert_eq!(analyzing_message(100), "Analyzing subject movement… 100%");
}

fn stderr(text: &str) -> ProcessEvent {
    ProcessEvent::Stderr(text.to_string())
}

#[test]
fn process_that_ends_well() {
    let mut watch = ProcessWatch::new();
    assert!(watch.observe(stderr("frame 1")).is_none());
    assert!(watch.observe(ProcessEvent::Other).is_none());
    assert!(matches!(watch.observe(ProcessEvent::Terminated(Some(0))), Some(Outcome::Success)));
}

#[test]
fn process_that_fails_says_why() {
    let mut watch = ProcessWatch::new();
    assert!(watch.observe(stderr("no such ")).is_none());
    assert!(watch.observe(stderr("filter")).is_none());
    match watch.observe(ProcessEvent::Terminated(Some(1))) {
        Some(Outcome::Failure(message)) => assert_eq!(message, "ffmpeg exited with error: no such filter"),
        _ => panic!("no failure"),
    }
    match watch.observe(ProcessEvent::Terminated(None)) {
        Some(Outcome::Failure(message)) => assert_eq!(message, "ffmpeg exited with error: no such filter"),
        _ => panic!("no failure"),
    }
    match watch.observe(ProcessEvent::Error("pipe".to_string())) {
        Some(Outcome::Failure(message)) => assert_eq!(message, "pipe"),
        _ => panic!("no failure"),
    }
}

#[test]
fn long_messages_keep_their_end() {
    let text: String = (0..TAIL_BYTES + 10).map(|i| if i < 10 { 'a' } else { 'b' }).collect();
    assert_eq!(tail_of(&text), "b".repeat(TAIL_BYTES));
    assert_eq!(tail_of("short"), "short");
    let exact = "c".repeat(TAIL_BYTES);
    assert_eq!(tail_of(&exact), exact);
    let mut watch = ProcessWatch::new();
    assert!(watch.observe(stderr(&text)).is_none());
    match watch.observe(ProcessEvent::Terminated(Some(3))) {
        Some(Outcome::Failure(message)) => assert_eq!(message.len(), 26 + TAIL_BYTES),
        _ => panic!("no failure"),
    }
}

#[test]
fn tail_starts_at_a_whole_character() {
    let rest = "x".repeat(TAIL_BYTES - 1);
    assert_eq!(tail_of(&format!("é{rest}")), rest);
    assert_eq!(tail_of(&format!("aé{rest}")), rest);
    let full = "x".repeat(TAIL_BYTES);
    assert_eq!(tail_of(&format!("é{full}")), full);
    // Four bytes each: three thousand of them hold 750 characters.
    assert_eq!(tail_of(&"😀".repeat(751)), "😀".repeat(750));
    assert_eq!(tail_of(&format!("{}ab", "😀".repeat(751))), format!("{}ab", "😀".repeat(749)));
    assert_eq!(tail_of(&format!("{}abcd", "😀".repeat(751))), format!("{}abcd", "😀".repeat(749)));
}

#[test]
fn failure_with_foreign_characters_is_told() {
    for shift in 0..4 {
        let text = format!("{}{}", "€".repeat(2000), "y".repeat(shift));
        let mut watch = ProcessWatch::new();
        assert!(watch.observe(stderr(&text)).is_none());
        match watch.observe(ProcessEvent::Terminated(Some(1))) {
            Some(Outcome::Failure(message)) => {
                let tail = message.strip_prefix("ffmpeg exited with error: ").unwrap();
                assert!(text.ends_with(tail));
                assert!(tail.len() <= TAIL_BYTES && tail.len() + 3 >= TAIL_BYTES);
                assert_eq!(shift == 0 || shift == 3, tail.len() == TAIL_BYTES);
            }
            _ => panic!("no failure"),
        }
    }
}

#[test]
fn stopped_cut_is_no_failure() {
    assert!(matches!(settle_cut(Outcome::Success, true), CutEnd::Keep));
    assert!(matches!(settle_cut(Outcome::Success, false), CutEnd::Keep));
    assert!(matches!(settle_cut(Outcome::Failure("x".to_string()), true), CutEnd::Discard));
    match settle_cut(Outcome::Failure("x".to_string()), false) {
        CutEnd::Fail(message) => assert_eq!(message, "x"),
        _ => panic!("no failure"),
    }
}
