use video_splitter::crop::{compute_crop_rect, compute_safe_top_crop, dynamic_dims, CropRect};
use video_splitter::segments::{
    build_crop_segments, clamp_left, make_grid, room_to_pan, segment_with_threshold, CropSegment, GridStep,
    MAX_SEGMENTS_PER_CHUNK,
};

fn grid(lefts: &[i64], lasting: usize) -> Vec<GridStep> {
    lefts.iter().enumerate().map(|(i, &left)| GridStep { left, expires: i + lasting }).collect()
}

fn parts(segments: &[CropSegment]) -> Vec<(usize, usize, u32)> {
    segments.iter().map(|s| (s.start, s.end, s.x)).collect()
}

#[test]
fn still_subject_splits_by_time_only() {
    let g = grid(&[100; 50], 20);
    let plan = build_crop_segments(&g, 1920, 608);
    assert_eq!(parts(&plan.segments), vec![(0, 20, 100), (20, 40, 100), (40, 50, 100)]);
    assert_eq!(plan.attempts, 0);
}

#[test]
fn drift_of_four_pixels_starts_a_segment() {
    let g = grid(&[100, 103, 104, 107, 100, 99], 1000);
    let plan = build_crop_segments(&g, 1920, 608);
    assert_eq!(parts(&plan.segments), vec![(0, 2, 100), (2, 4, 104), (4, 6, 100)]);
}

#[test]
fn positions_stay_inside_the_frame() {
    let g = grid(&[-50, -46, 5000, 5], 1000);
    let plan = build_crop_segments(&g, 1000, 400);
    assert_eq!(parts(&plan.segments), vec![(0, 2, 0), (2, 3, 600), (3, 4, 5)]);
    for s in &plan.segments {
        assert!(s.x + 400 <= 1000);
    }
}

#[test]
fn window_wider_than_the_frame_cannot_pan() {
    let g = grid(&[10, 900, 20], 1000);
    let plan = build_crop_segments(&g, 300, 400);
    assert_eq!(parts(&plan.segments), vec![(0, 3, 0)]);
    assert_eq!(room_to_pan(300, 400), 0);
    assert_eq!(room_to_pan(400, 300), 100);
    let restless: Vec<i64> = (0..300).map(|i| 500 * (i % 3) - 400).collect();
    let plan = build_crop_segments(&grid(&restless, 1), 300, 400);
    assert!(plan.segments.iter().all(|s| s.x == 0));
}

#[test]
fn single_step_is_one_segment() {
    let plan = build_crop_segments(&grid(&[42], 20), 1000, 400);
    assert_eq!(parts(&plan.segments), vec![(0, 1, 42)]);
}

#[test]
fn expired_start_ends_at_the_next_step() {
    let g: Vec<GridStep> = (0..4).map(|_| GridStep { left: 7, expires: 0 }).collect();
    let plan = build_crop_segments(&g, 1000, 400);
    assert_eq!(parts(&plan.segments), vec![(0, 1, 7), (1, 2, 7), (2, 3, 7), (3, 4, 7)]);
}

#[test]
fn thresholds_are_exact_fractions() {
    let g = grid(&[0, 5, 6, 11, 12], 1000);
    assert_eq!(parts(&segment_with_threshold(&g, 600, 12, 2)), vec![(0, 2, 0), (2, 4, 6), (4, 5, 12)]);
    assert_eq!(parts(&segment_with_threshold(&g, 600, 13, 2)), vec![(0, 3, 0), (3, 5, 11)]);
    assert_eq!(parts(&segment_with_threshold(&g, 600, 0, 1)).len(), 5);
}

#[test]
fn restless_subject_is_coarsened_until_it_fits() {
    // Five pixels a step: every step drifts by four, every second by six, nine takes two.
    let lefts: Vec<i64> = (0..400).map(|i| 5 * i).collect();
    let plan = build_crop_segments(&grid(&lefts, 1000), 10000, 400);
    assert_eq!(plan.attempts, 1);
    assert_eq!(plan.segments.len(), 200);
    assert_eq!(parts(&plan.segments)[1], (2, 4, 10));
}

#[test]
fn long_chunk_never_has_more_than_the_cap() {
    // Fifteen minutes at ten steps a second, a new segment at least every four seconds.
    let g = grid(&[100; 9000], 40);
    let plan = build_crop_segments(&g, 1920, 608);
    assert_eq!(plan.attempts, 20);
    assert_eq!(plan.segments.len(), 113);
    assert_eq!(parts(&plan.segments)[0], (0, 80, 100));
    assert_eq!(parts(&plan.segments)[112], (8960, 9000, 100));
    // Every two seconds, three of them go into one.
    let g = grid(&[100; 9000], 20);
    let plan = build_crop_segments(&g, 1920, 608);
    assert_eq!(plan.attempts, 20);
    assert_eq!(plan.segments.len(), 150);
    assert_eq!(parts(&plan.segments)[0], (0, 60, 100));
    assert_eq!(parts(&plan.segments)[149], (8940, 9000, 100));
}

#[test]
fn segments_end_when_they_have_lasted_long_enough() {
    for steps in [40usize, 41, 8799, 8800] {
        // At most 220 segments of 40 steps: none is merged.
        let plan = build_crop_segments(&grid(&vec![100; steps], 40), 1920, 608);
        assert_eq!(plan.segments.len(), (steps + 39) / 40);
        assert!(plan.segments.iter().all(|s| s.end <= s.start + 40));
    }
    // One more, and two neighbours go into one.
    let plan = build_crop_segments(&grid(&[100; 8801], 40), 1920, 608);
    assert_eq!(plan.segments.len(), 111);
    assert!(plan.segments.iter().all(|s| s.end <= s.start + 80));
}

#[test]
fn grid_asks_only_about_its_own_steps() {
    let lefts = [5i64; 30];
    let g = make_grid(&lefts, |i, k| {
        assert!(i < k && k < 30);
        k - i >= 4
    });
    assert_eq!(g[0].expires, 4);
    assert_eq!(g[26].expires, 30);
}

#[test]
fn segments_tile_the_chunk() {
    for n in [1usize, 2, 219, 220, 221, 439, 441, 700] {
        let lefts: Vec<i64> = (0..n).map(|i| if i % 2 == 0 { 0 } else { 90000 }).collect();
        let plan = build_crop_segments(&grid(&lefts, 1000), 100000, 400);
        assert!(plan.segments.len() <= MAX_SEGMENTS_PER_CHUNK);
        assert_eq!(plan.segments[0].start, 0);
        assert_eq!(plan.segments[plan.segments.len() - 1].end, n);
        for i in 1..plan.segments.len() {
            assert_eq!(plan.segments[i - 1].end, plan.segments[i].start);
            assert!(plan.segments[i].start < plan.segments[i].end);
        }
        if n <= 220 {
            assert_eq!(plan.attempts, 0);
            assert_eq!(plan.segments.len(), n);
        }
    }
}

#[test]
fn merged_segments_keep_the_first_position() {
    let lefts: Vec<i64> = (0..440).map(|i| if i % 2 == 0 { 10 } else { 90000 }).collect();
    let plan = build_crop_segments(&grid(&lefts, 1000), 100000, 400);
    assert_eq!(plan.attempts, 20);
    assert_eq!(plan.segments.len(), 220);
    assert!(parts(&plan.segments).iter().all(|p| p.2 == 10 && p.1 - p.0 == 2));
}

#[test]
fn grid_finds_where_segments_expire() {
    let times: Vec<f64> = (0..50).scan(0.0, |t, _| { let now = *t; *t += 0.1; Some(now) }).collect();
    let lefts: Vec<i64> = (0..50).collect();
    let g = make_grid(&lefts, |i, k| times[k] - times[i] >= 2.0);
    assert_eq!(g.len(), 50);
    assert_eq!(g[0].expires, 20);
    assert_eq!(g[7].left, 7);
    for (i, step) in g.iter().enumerate() {
        for k in i + 1..50 {
            assert_eq!(k >= step.expires, times[k] - times[i] >= 2.0);
        }
    }
    assert_eq!(g[45].expires, 50);
    assert_eq!(make_grid(&[], |_, _| true).len(), 0);
}

#[test]
fn left_edges_are_clamped() {
    assert_eq!(clamp_left(-1, 10), 0);
    assert_eq!(clamp_left(4, 10), 4);
    assert_eq!(clamp_left(11, 10), 10);
    assert_eq!(clamp_left(i64::MAX, u32::MAX), u32::MAX);
    assert_eq!(clamp_left(i64::MIN, u32::MAX), 0);
}

fn centered(room: u32) -> i64 {
    (room as f64 / 2.0).round() as i64
}

#[test]
fn reel_crop_of_full_hd() {
    let rect = compute_crop_rect(1920, 1080, 608, centered);
    assert!(rect == CropRect { w: 608, h: 1080, x: 656, y: 0 });
}

#[test]
fn crop_dimensions_are_even_and_fit() {
    let odd = compute_crop_rect(1921, 1081, 607, centered);
    assert!(odd == CropRect { w: 606, h: 1080, x: 658, y: 0 });
    let wide = compute_crop_rect(641, 480, 5000, centered);
    assert!(wide == CropRect { w: 640, h: 480, x: 1, y: 0 });
    let none = compute_crop_rect(640, 480, 0, |_| 0);
    assert!(none == CropRect { w: 2, h: 480, x: 0, y: 0 });
    let tiny = compute_crop_rect(1, 1, 9, |_| 5);
    assert!(tiny == CropRect { w: 2, h: 2, x: 0, y: 0 });
}

#[test]
fn crop_window_stays_inside_the_frame() {
    assert_eq!(compute_crop_rect(1920, 1080, 608, |_| -7).x, 0);
    assert_eq!(compute_crop_rect(1920, 1080, 608, |_| 99999).x, 1312);
    assert_eq!(compute_crop_rect(1920, 1080, 608, |room| room as i64).x, 1312);
}

#[test]
fn top_trim_is_taken_off_the_height() {
    let rect = CropRect { w: 608, h: 1080, x: 656, y: 0 };
    let dims = dynamic_dims(rect, 100);
    assert_eq!((dims.w, dims.h, dims.y_offset), (608, 980, 100));
    let gone = dynamic_dims(rect, 2000);
    assert_eq!((gone.w, gone.h, gone.y_offset), (608, 0, 2000));
}

#[test]
fn top_trim_keeps_clear_of_the_highest_head() {
    assert_eq!(compute_safe_top_crop(&[Some(150), None, Some(90), Some(200)], 194), 90);
    assert_eq!(compute_safe_top_crop(&[Some(150), Some(-3)], 194), 0);
    assert_eq!(compute_safe_top_crop(&[Some(500)], 194), 194);
    assert_eq!(compute_safe_top_crop(&[Some(i64::MIN)], 194), 0);
}

#[test]
fn without_a_subject_nothing_is_trimmed() {
    assert_eq!(compute_safe_top_crop(&[], 194), 0);
    assert_eq!(compute_safe_top_crop(&[None, None], 194), 0);
}
