use video_splitter::frames::FrameFeed;
use video_splitter::tracking::{
    below, is_person, main_person, read_detections, to_planes, Detection, CENTER, FRAME_BYTES, HALF,
    MODEL_SIZE, PLANE_SIZE,
};
use video_splitter::trajectory::{
    fill_gaps, find_neighbours, smooth_trajectory, Neighbours, TrackPoint,
};

#[test]
fn frame_sizes_agree() {
    assert_eq!(PLANE_SIZE, MODEL_SIZE * MODEL_SIZE);
    assert_eq!(FRAME_BYTES, 3 * PLANE_SIZE);
    assert_eq!(f32::from_bits(HALF), 0.5);
    assert_eq!(f64::from_bits(CENTER), 0.5);
}

#[test]
fn colours_are_sorted_into_planes() {
    let rgb: Vec<u8> = (0..FRAME_BYTES).map(|i| ((i / 3) % 83 + 83 * (i % 3)) as u8).collect();
    let planes = to_planes(&rgb);
    assert_eq!(planes.len(), FRAME_BYTES);
    for i in 0..PLANE_SIZE {
        assert_eq!(planes[i], rgb[3 * i]);
        assert_eq!(planes[PLANE_SIZE + i], rgb[3 * i + 1]);
        assert_eq!(planes[2 * PLANE_SIZE + i], rgb[3 * i + 2]);
    }
}

#[test]
fn patterns_compare_like_numbers() {
    let numbers = [
        f32::NEG_INFINITY, -2.5, -1e-40, -0.0, 0.0, 1e-40, 0.25, 0.5, 0.75, 384.0, f32::INFINITY,
        f32::NAN,
    ];
    for a in numbers {
        for b in numbers {
            assert_eq!(below(a.to_bits(), b.to_bits()), a < b);
        }
    }
    assert!(!below((-f32::NAN).to_bits(), HALF));
}

fn detection(confidence: f32, class_id: f32) -> Detection {
    Detection {
        x1: 0,
        y1: 0,
        x2: 0,
        y2: 0,
        confidence: confidence.to_bits(),
        class_id: class_id.to_bits(),
    }
}

#[test]
fn only_sure_persons_count() {
    assert!(is_person(&detection(0.5, 0.0)));
    assert!(is_person(&detection(0.9, 0.5)));
    assert!(is_person(&detection(0.9, -0.5)));
    assert!(!is_person(&detection(0.49, 0.0)));
    assert!(!is_person(&detection(0.9, 1.0)));
    assert!(!is_person(&detection(0.9, -1.0)));
    assert!(is_person(&detection(f32::NAN, f32::NAN)));
}

#[test]
fn rows_hold_six_numbers() {
    let data: Vec<u32> = (0..13).collect();
    let read = read_detections(&data, 2);
    assert_eq!(read.len(), 2);
    assert!(read[0] == Detection { x1: 0, y1: 1, x2: 2, y2: 3, confidence: 4, class_id: 5 });
    assert!(read[1] == Detection { x1: 6, y1: 7, x2: 8, y2: 9, confidence: 10, class_id: 11 });
    assert_eq!(read_detections(&[], 0).len(), 0);
}

#[test]
fn largest_person_is_the_main_one() {
    let sure = detection(0.9, 0.0);
    let other = detection(0.9, 7.0);
    let unsure = detection(0.1, 0.0);
    let bits = |a: &[f32]| -> Vec<u32> { a.iter().map(|x| x.to_bits()).collect() };
    assert_eq!(main_person(&[], &[]), None);
    assert_eq!(main_person(&[other, unsure], &bits(&[9.0, 9.0])), None);
    assert_eq!(main_person(&[sure, sure, sure], &bits(&[1.0, 3.0, 2.0])), Some(1));
    assert_eq!(main_person(&[other, sure, unsure], &bits(&[9.0, 1.0, 9.0])), Some(1));
    assert_eq!(main_person(&[sure, sure], &bits(&[2.0, 2.0])), Some(0));
    assert_eq!(main_person(&[sure, sure], &bits(&[f32::NAN, 2.0])), Some(0));
}

#[test]
fn frames_come_out_whole_and_in_order() {
    let mut feed = FrameFeed::new(10);
    let stream: Vec<u8> = (0..2 * FRAME_BYTES + 5).map(|i| (i % 251) as u8).collect();
    assert_eq!(feed.accept(&stream[..FRAME_BYTES - 1]).len(), 0);
    let first = feed.accept(&stream[FRAME_BYTES - 1..FRAME_BYTES + 3]);
    assert_eq!(first, vec![stream[..FRAME_BYTES].to_vec()]);
    assert_eq!(feed.frame_count(), 1);
    let second = feed.accept(&stream[FRAME_BYTES + 3..]);
    assert_eq!(second, vec![stream[FRAME_BYTES..2 * FRAME_BYTES].to_vec()]);
    assert_eq!(feed.frame_count(), 2);
    assert_eq!(feed.accept(&[]).len(), 0);
}

#[test]
fn frames_do_not_depend_on_the_chunks() {
    let stream: Vec<u8> = (0..3 * FRAME_BYTES).map(|i| (i % 249) as u8).collect();
    let mut at_once = FrameFeed::new(usize::MAX);
    let whole = at_once.accept(&stream);
    assert_eq!(whole.len(), 3);
    let mut bit_by_bit = FrameFeed::new(usize::MAX);
    let mut pieces: Vec<Vec<u8>> = Vec::new();
    for chunk in stream.chunks(65536) {
        pieces.extend(bit_by_bit.accept(chunk));
    }
    assert_eq!(pieces, whole);
}

#[test]
fn frames_past_the_end_are_dropped() {
    let mut feed = FrameFeed::new(1);
    let stream = vec![7u8; 3 * FRAME_BYTES];
    assert_eq!(feed.accept(&stream).len(), 1);
    assert_eq!(feed.accept(&stream).len(), 0);
    assert_eq!(feed.frame_count(), 1);
    let mut none = FrameFeed::new(0);
    assert_eq!(none.accept(&stream).len(), 0);
}

fn point(t: f64, x: Option<f64>, y1: Option<f64>) -> TrackPoint {
    TrackPoint {
        t: t.to_bits(),
        x_norm: x.map(|v| v.to_bits()),
        y1_norm: y1.map(|v| v.to_bits()),
    }
}

#[test]
fn gaps_hold_the_last_position() {
    let raw = [
        point(0.0, None, None),
        point(1.0, Some(0.3), None),
        point(2.0, None, None),
        point(3.0, Some(0.4), None),
    ];
    let filled: Vec<f64> = fill_gaps(&raw).iter().map(|&b| f64::from_bits(b)).collect();
    assert_eq!(filled, vec![0.5, 0.3, 0.3, 0.4]);
    assert_eq!(fill_gaps(&[]).len(), 0);
}

#[test]
fn smoothing_runs_forward_and_backward() {
    let raw: Vec<TrackPoint> = [0u64, 100, 0, 40]
        .iter()
        .enumerate()
        .map(|(i, &x)| TrackPoint { t: i as u64, x_norm: Some(x), y1_norm: None })
        .collect();
    // Limited to 20 a step: 0, 20, 0, 20. Halved forward: 0, 10, 5, 12; backward from there.
    let out = smooth_trajectory(
        &raw,
        |v, prev, _, _| if v > prev { v.min(prev + 20) } else { v.max(prev.saturating_sub(20)) },
        |v, ema| (v + ema) / 2,
    );
    let xs: Vec<Option<u64>> = out.iter().map(|p| p.x_norm).collect();
    assert_eq!(xs, vec![Some(4), Some(9), Some(8), Some(12)]);
}

#[test]
fn smoothing_keeps_times_and_top_edges() {
    let raw = [point(0.0, None, Some(0.25)), point(1.0, Some(0.75), None)];
    let out = smooth_trajectory(&raw, |v, _, _, _| v, |v, _| v);
    assert_eq!(out.len(), 2);
    assert!(out[0] == point(0.0, Some(0.5), Some(0.25)));
    assert!(out[1] == point(1.0, Some(0.75), None));
    assert_eq!(smooth_trajectory(&[], |v, _, _, _| v, |v, _| v).len(), 0);
}

#[test]
fn gaps_filled_beforehand_change_nothing() {
    let raw = [
        point(0.0, None, None),
        point(1.0, Some(0.3), Some(0.1)),
        point(2.0, None, None),
        point(4.0, Some(0.9), None),
        point(5.0, None, None),
    ];
    let mut full = raw;
    for (p, x) in full.iter_mut().zip(fill_gaps(&raw)) {
        p.x_norm = Some(x);
    }
    assert!(full[0] == point(0.0, Some(0.5), None) && full[4] == point(5.0, Some(0.9), None));
    let limit = |v: u64, prev: u64, s: u64, t: u64| {
        let step = 0.1 * (f64::from_bits(t) - f64::from_bits(s));
        let (v, prev) = (f64::from_bits(v), f64::from_bits(prev));
        (prev + (v - prev).clamp(-step, step)).to_bits()
    };
    let blend = |v: u64, e: u64| (0.35 * f64::from_bits(v) + 0.65 * f64::from_bits(e)).to_bits();
    let smooth = smooth_trajectory(&raw, limit, blend);
    let smooth_full = smooth_trajectory(&full, limit, blend);
    assert_eq!(smooth.len(), 5);
    for (a, b) in smooth.iter().zip(&smooth_full) {
        assert!(a.x_norm.is_some() && a.x_norm == b.x_norm && a.t == b.t);
    }
}

#[test]
fn limits_see_the_times_of_both_points() {
    let raw = [point(2.0, Some(0.1), None), point(5.0, Some(0.2), None)];
    let seen = smooth_trajectory(&raw, |_, _, s, t| (f64::from_bits(t) - f64::from_bits(s)).to_bits(), |v, _| v);
    assert_eq!(seen[0].x_norm, Some(0f64.to_bits()));
    assert_eq!(seen[1].x_norm, Some(3f64.to_bits()));
}

#[test]
fn neighbours_stay_inside_the_trajectory() {
    let t = [
        TrackPoint { t: 0, x_norm: Some(10), y1_norm: None },
        TrackPoint { t: 1, x_norm: None, y1_norm: None },
        TrackPoint { t: 2, x_norm: Some(30), y1_norm: None },
    ];
    assert!(find_neighbours(&[], 0) == None);
    assert!(find_neighbours(&t, -4) == Some(Neighbours { index: 0, x0: 10, x1: 10 }));
    assert!(find_neighbours(&t, 1) == Some(Neighbours { index: 1, x0: CENTER, x1: 30 }));
    assert!(find_neighbours(&t, 2) == Some(Neighbours { index: 2, x0: 30, x1: 30 }));
    assert!(find_neighbours(&t, i64::MAX) == Some(Neighbours { index: 2, x0: 30, x1: 30 }));
}
