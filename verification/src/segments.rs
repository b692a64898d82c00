//! Turning a tracked position into crop segments.
//!
//! A chunk is walked on a fine time grid. Step 0 is the start of the chunk;
//! the number of steps is the length of the grid and stands for the chunk's
//! end. At every step the tracking says where the left edge of the crop window
//! should be. Steps are grouped into segments, each with one crop position.

use vstd::arithmetic::power::pow;
use vstd::prelude::*;

verus! {

/// Most segments that one chunk may have. Every segment adds to the length of
/// the filter graph, which has to fit on a command line.
pub const MAX_SEGMENTS_PER_CHUNK: usize = 220;

/// How often the drift threshold is raised before segments are merged.
pub const MAX_COARSENINGS: u32 = 20;

/// The drift, in pixels, that starts a new segment before any coarsening.
pub const SEGMENT_PIXEL_THRESHOLD: u64 = 4;

/// One step of a chunk's time grid.
#[derive(Clone, Copy)]
pub struct GridStep {
    /// Where the left edge of the crop window should be, in pixels. May lie
    /// outside the frame.
    pub left: i64,
    /// The first step at which a segment that starts here has lasted as long
    /// as a segment may.
    pub expires: usize,
}

/// One piece of a chunk: the steps from `start` up to, not including, `end`,
/// with a fixed crop position.
#[derive(Clone, Copy)]
pub struct CropSegment {
    pub start: usize,
    pub end: usize,
    pub x: u32,
}

/// The segments of one chunk, and how often the threshold had to be raised.
pub struct CropPlan {
    pub segments: Vec<CropSegment>,
    pub attempts: u32,
}

/// A position kept between 0 and `room`.
pub open spec fn clamped(left: int, room: nat) -> int {
    if left < 0 {
        0
    } else if left > room {
        room as int
    } else {
        left
    }
}

/// How far a window of width `out_w` can move inside a frame of width `src_w`.
pub open spec fn pan_room(src_w: nat, out_w: nat) -> nat {
    if out_w <= src_w {
        (src_w - out_w) as nat
    } else {
        0
    }
}

/// How far a window of width `out_w` can move inside a frame of width `src_w`.
pub fn room_to_pan(src_w: u32, out_w: u32) -> (room: u32)
    ensures
        room == pan_room(src_w as nat, out_w as nat),
        out_w <= src_w ==> room + out_w == src_w,
        out_w > src_w ==> room == 0,
{
    if out_w <= src_w {
        src_w - out_w
    } else {
        0
    }
}

/// Keeps the left edge of a crop window inside the frame.
pub fn clamp_left(left: i64, room: u32) -> (x: u32)
    ensures
        x == clamped(left as int, room as nat),
        left <= 0 ==> x == 0,
        0 <= left <= room ==> x == left,
        left >= room ==> x == room,
{
    if left < 0 {
        0
    } else if left > room as i64 {
        room
    } else {
        left as u32
    }
}

/// The crop position at step `k`.
pub open spec fn x_at(grid: Seq<GridStep>, room: u32, k: int) -> u32 {
    clamped(grid[k].left as int, room as nat) as u32
}

/// `k` is the first step after `i` at which `lasted` says that a segment from step
/// `i` on has lasted as long as it may, or the end of the chunk where there is none.
pub open spec fn first_lasted<F: Fn(usize, usize) -> bool>(
    lasted: F,
    n: nat,
    i: usize,
    k: usize,
) -> bool {
    &&& i < k <= n
    &&& forall|j: usize| i < j < k ==> #[trigger] call_ensures(lasted, (i, j), false)
    &&& k < n ==> call_ensures(lasted, (i, k), true)
}

/// Makes the time grid of a chunk from the wanted left edges. `lasted` says, of two
/// steps, whether a segment from the first to the second has lasted as long as a
/// segment may. It is asked only of steps of the chunk, the earlier one first.
pub fn make_grid<F: Fn(usize, usize) -> bool>(lefts: &[i64], lasted: F) -> (grid: Vec<GridStep>)
    requires
        forall|i: usize, k: usize| i < k < lefts@.len() ==> call_requires(lasted, (i, k)),
    ensures
        grid@.len() == lefts@.len(),
        forall|i: int|
            0 <= i < grid@.len() ==> (#[trigger] grid@[i]).left == lefts@[i] && first_lasted(
                lasted,
                lefts@.len(),
                i as usize,
                grid@[i].expires,
            ),
        forall|i: int|
            0 <= i < lefts@.len() ==> i < (#[trigger] grid@[i]).expires <= lefts@.len(),
        forall|i: usize, j: usize|
            i < j < lefts@.len() && j < grid@[i as int].expires ==> #[trigger] call_ensures(
                lasted,
                (i, j),
                false,
            ),
        forall|i: usize|
            i < lefts@.len() && (#[trigger] grid@[i as int]).expires < lefts@.len()
                ==> call_ensures(lasted, (i, grid@[i as int].expires), true),
{
    let n: usize = lefts.len();
    let mut grid: Vec<GridStep> = Vec::new();
    let mut i: usize = 0;
    while i < n
        invariant
            forall|a: usize, b: usize| a < b < n ==> call_requires(lasted, (a, b)),
            n == lefts@.len(),
            i <= n,
            grid@.len() == i,
            forall|j: int|
                0 <= j < i ==> (#[trigger] grid@[j]).left == lefts@[j] && first_lasted(
                    lasted,
                    n as nat,
                    j as usize,
                    grid@[j].expires,
                ),
        decreases n - i,
    {
        let mut k: usize = i + 1;
        let mut over: bool = false;
        while k < n && !over
            invariant
                forall|a: usize, b: usize| a < b < n ==> call_requires(lasted, (a, b)),
                i < k <= n,
                forall|j: usize| i < j < k ==> #[trigger] call_ensures(lasted, (i, j), false),
                over ==> k < n && call_ensures(lasted, (i, k), true),
            decreases
                n - k + (if over {
                    0int
                } else {
                    1
                }),
        {
            if lasted(i, k) {
                over = true;
            } else {
                k += 1;
            }
        }
        grid.push(GridStep { left: lefts[i], expires: k });
        i += 1;
    }
    grid
}

/// Two positions are at least `num / den` pixels apart.
pub open spec fn drifted(a: u32, b: u32, num: nat, den: nat) -> bool {
    let gap: int = if a <= b {
        b - a
    } else {
        a - b
    };
    gap * den >= num
}

/// A segment that started at step `start` ends at step `k`, if it lasts until
/// then: the position has drifted, or the segment has lasted long enough.
pub open spec fn ends_at(
    grid: Seq<GridStep>,
    room: u32,
    num: nat,
    den: nat,
    start: int,
    k: int,
) -> bool {
    ||| drifted(x_at(grid, room, start), x_at(grid, room, k), num, den)
    ||| k >= grid[start].expires
}

/// The segments from step `start` on, where steps before `k` have not ended the
/// segment that starts there.
pub open spec fn segments_from(
    grid: Seq<GridStep>,
    room: u32,
    num: nat,
    den: nat,
    start: int,
    k: int,
) -> Seq<CropSegment>
    decreases grid.len() - k,
{
    if k >= grid.len() {
        seq![
            CropSegment {
                start: start as usize,
                end: grid.len() as usize,
                x: x_at(grid, room, start),
            },
        ]
    } else if ends_at(grid, room, num, den, start, k) {
        seq![CropSegment { start: start as usize, end: k as usize, x: x_at(grid, room, start) }]
            + segments_from(grid, room, num, den, k, k + 1)
    } else {
        segments_from(grid, room, num, den, start, k + 1)
    }
}

/// The segments of a whole chunk at a drift threshold of `num / den` pixels.
pub open spec fn segmentation(
    grid: Seq<GridStep>,
    room: u32,
    num: nat,
    den: nat,
) -> Seq<CropSegment> {
    segments_from(grid, room, num, den, 0, 1)
}

/// Walks the grid and starts a new segment wherever the position has drifted by
/// at least `num / den` pixels or the current segment has lasted long enough.
pub fn segment_with_threshold(grid: &[GridStep], room: u32, num: u64, den: u64) -> (segments: Vec<
    CropSegment,
>)
    requires
        grid@.len() > 0,
        den <= 0xffff_ffff,
    ensures
        segments@ == segmentation(grid@, room, num as nat, den as nat),
        segments@.len() > 0,
        segments@[0].start == 0,
        segments@.last().end == grid@.len(),
        forall|i: int|
            0 <= i < segments@.len() ==> (#[trigger] segments@[i]).start < segments@[i].end
                <= grid@.len(),
        forall|i: int, j: int|
            0 <= i && j == i + 1 && j < segments@.len() ==> (#[trigger] segments@[i]).end == (
            #[trigger] segments@[j]).start,
        forall|i: int|
            0 <= i < segments@.len() ==> ({
                let left = grid@[(#[trigger] segments@[i]).start as int].left;
                &&& left <= 0 ==> segments@[i].x == 0
                &&& 0 <= left <= room ==> segments@[i].x == left
                &&& left >= room ==> segments@[i].x == room
            }),
{
    let mut segments: Vec<CropSegment> = Vec::new();
    let mut start: usize = 0;
    let mut seg_x: u32 = clamp_left(grid[0].left, room);
    let mut k: usize = 1;
    while k < grid.len()
        invariant
            start < k <= grid@.len(),
            den <= 0xffff_ffff,
            seg_x == x_at(grid@, room, start as int),
            segments@ + segments_from(
                grid@,
                room,
                num as nat,
                den as nat,
                start as int,
                k as int,
            ) == segmentation(grid@, room, num as nat, den as nat),
        decreases grid@.len() - k,
    {
        let x: u32 = clamp_left(grid[k].left, room);
        let gap: u64 = if seg_x <= x {
            (x - seg_x) as u64
        } else {
            (seg_x - x) as u64
        };
        assert(gap * den <= 0xffff_ffff * 0xffff_ffff) by (nonlinear_arith)
            requires
                gap <= 0xffff_ffff,
                den <= 0xffff_ffff,
        ;
        let ends: bool = gap * den >= num || k >= grid[start].expires;
        assert(ends == ends_at(grid@, room, num as nat, den as nat, start as int, k as int));
        if ends {
            let ghost before = segments@;
            let piece: CropSegment = CropSegment { start, end: k, x: seg_x };
            segments.push(piece);
            let ghost rest = segments_from(
                grid@,
                room,
                num as nat,
                den as nat,
                k as int,
                k + 1,
            );
            assert(segments@ + rest =~= before + (seq![piece] + rest));
            start = k;
            seg_x = x;
        }
        k += 1;
    }
    let ghost before = segments@;
    let piece: CropSegment = CropSegment { start, end: grid.len(), x: seg_x };
    segments.push(piece);
    assert(segments@ =~= before + seq![piece]);
    proof {
        let n: usize = grid.len();
        assert(grid@.len() == n);
        law_segmentation_is_greedy(grid@, room, num as nat, den as nat);
    }
    segments
}

/// The drift threshold after a number of coarsenings, as a fraction of pixels:
/// each coarsening makes it one and a half times as large.
pub open spec fn threshold(attempts: nat) -> (nat, nat)
    decreases attempts,
{
    if attempts == 0 {
        (SEGMENT_PIXEL_THRESHOLD as nat, 1)
    } else {
        let t = threshold((attempts - 1) as nat);
        (t.0 * 3, t.1 * 2)
    }
}

/// The segments of a chunk after a number of coarsenings.
pub open spec fn coarsened(grid: Seq<GridStep>, room: u32, attempts: nat) -> Seq<CropSegment> {
    segmentation(grid, room, threshold(attempts).0, threshold(attempts).1)
}

/// How often the threshold is raised: until the segments fit, and no more often
/// than is allowed.
pub open spec fn coarsenings_from(grid: Seq<GridStep>, room: u32, attempts: nat) -> nat
    decreases MAX_COARSENINGS - attempts,
{
    if attempts < MAX_COARSENINGS && coarsened(grid, room, attempts).len()
        > MAX_SEGMENTS_PER_CHUNK {
        coarsenings_from(grid, room, attempts + 1)
    } else {
        attempts
    }
}

/// How many neighbouring segments are merged into one so that `n` of them fit.
pub open spec fn group_size(n: nat) -> nat {
    ((n - 1) / (MAX_SEGMENTS_PER_CHUNK as int) + 1) as nat
}

/// How many groups of `size` segments `n` of them make.
pub open spec fn group_count(n: nat, size: nat) -> nat {
    ((n - 1) / (size as int) + 1) as nat
}

/// The segments from `from` up to, not including, `to` as one segment. It keeps
/// the crop position of the first.
pub open spec fn merged(s: Seq<CropSegment>, from: int, to: int) -> CropSegment {
    CropSegment { start: s[from].start, end: s[to - 1].end, x: s[from].x }
}

/// The smaller of two numbers.
pub open spec fn smaller(a: int, b: int) -> int {
    if a <= b {
        a
    } else {
        b
    }
}

/// Segments with neighbours merged, so that no more than
/// `MAX_SEGMENTS_PER_CHUNK` are left. Segments that fit stay as they are.
pub open spec fn capped(s: Seq<CropSegment>) -> Seq<CropSegment> {
    if s.len() <= MAX_SEGMENTS_PER_CHUNK {
        s
    } else {
        let size = group_size(s.len());
        Seq::new(
            group_count(s.len(), size),
            |i: int| merged(s, i * size, smaller((i + 1) * size, s.len() as int)),
        )
    }
}

/// Merging leaves at least one segment and no more than the cap.
proof fn lemma_group_count(n: nat)
    requires
        n > 0,
    ensures
        group_size(n) >= 1,
        1 <= group_count(n, group_size(n)) <= MAX_SEGMENTS_PER_CHUNK,
{
    let size = group_size(n) as int;
    let cap: int = MAX_SEGMENTS_PER_CHUNK as int;
    assert(cap * size >= n) by {
        assert(cap == 220);
        assert(size == (n - 1) / 220 + 1);
    }
    let q = (n - 1) / size;
    assert(0 <= q < cap) by (nonlinear_arith)
        requires
            q == (n - 1) / size,
            size >= 1,
            n >= 1,
            cap * size >= n,
    ;
}

/// Merges neighbouring segments until no more than the cap are left.
fn cap_segments(segments: Vec<CropSegment>) -> (out: Vec<CropSegment>)
    requires
        segments@.len() > 0,
    ensures
        out@ == capped(segments@),
{
    let n: usize = segments.len();
    if n <= MAX_SEGMENTS_PER_CHUNK {
        return segments;
    }
    let size: usize = (n - 1) / MAX_SEGMENTS_PER_CHUNK + 1;
    let count: usize = (n - 1) / size + 1;
    proof {
        lemma_group_count(n as nat);
    }
    let ghost s = segments@;
    let mut out: Vec<CropSegment> = Vec::new();
    let mut i: usize = 0;
    let mut from: usize = 0;
    while i < count
        invariant
            n == s.len(),
            s == segments@,
            n > MAX_SEGMENTS_PER_CHUNK,
            size == group_size(n as nat),
            size >= 1,
            count == group_count(n as nat, size as nat),
            i <= count,
            out@.len() == i,
            i < count ==> from == i * size,
            forall|j: int|
                0 <= j < i ==> #[trigger] out@[j] == merged(
                    s,
                    j * size,
                    smaller((j + 1) * size, n as int),
                ),
        decreases count - i,
    {
        assert(i * size <= n - 1) by (nonlinear_arith)
            requires
                i <= (n - 1) / (size as int),
                size >= 1,
                n >= 1,
        ;
        assert((i + 1) * size == i * size + size) by (nonlinear_arith);
        let to: usize = if n - from > size {
            from + size
        } else {
            n
        };
        out.push(CropSegment {
            start: segments[from].start,
            end: segments[to - 1].end,
            x: segments[from].x,
        });
        assert(i + 1 < count ==> n - from > size) by (nonlinear_arith)
            requires
                from == i * size,
                count == (n - 1) / (size as int) + 1,
                size >= 1,
                n >= 1,
        ;
        from = to;
        i += 1;
    }
    assert(out@ =~= capped(s));
    out
}

/// Coarsening never makes the two parts of the threshold smaller.
proof fn lemma_threshold_grows(a: nat, b: nat)
    requires
        a <= b,
    ensures
        threshold(a).0 <= threshold(b).0,
        threshold(a).1 <= threshold(b).1,
    decreases b,
{
    if a < b {
        lemma_threshold_grows(a, (b - 1) as nat);
    }
}

/// The thresholds stay small enough for 64-bit arithmetic.
proof fn lemma_threshold_small(attempts: nat)
    requires
        attempts <= MAX_COARSENINGS,
    ensures
        threshold(attempts).0 <= 13947137604,
        threshold(attempts).1 <= 1048576,
{
    lemma_threshold_grows(attempts, MAX_COARSENINGS as nat);
    assert(threshold(20) == (13947137604nat, 1048576nat)) by {
        reveal_with_fuel(threshold, 21);
    }
}

/// The segments that a chunk gets.
pub open spec fn planned(grid: Seq<GridStep>, room: u32) -> Seq<CropSegment> {
    capped(coarsened(grid, room, coarsenings_from(grid, room, 0)))
}

/// Cuts one chunk into crop segments. A new segment starts where the position
/// drifts or the current segment has lasted long enough. Where that makes more
/// than `MAX_SEGMENTS_PER_CHUNK` segments, the drift threshold is raised step by
/// step; where no threshold helps, because the chunk is so long that the time
/// limit alone makes too many, neighbouring segments are merged.
pub fn build_crop_segments(grid: &[GridStep], src_w: u32, out_w: u32) -> (plan: CropPlan)
    requires
        grid@.len() > 0,
    ensures
        plan.attempts == coarsenings_from(
            grid@,
            pan_room(src_w as nat, out_w as nat) as u32,
            0,
        ),
        plan.segments@ == planned(grid@, pan_room(src_w as nat, out_w as nat) as u32),
        1 <= plan.segments@.len() <= 220,
        plan.attempts <= 20,
        plan.segments@[0].start == 0,
        plan.segments@.last().end == grid@.len(),
        forall|i: int|
            0 <= i < plan.segments@.len() ==> (#[trigger] plan.segments@[i]).start
                < plan.segments@[i].end <= grid@.len(),
        forall|i: int, j: int|
            0 <= i && j == i + 1 && j < plan.segments@.len() ==> (
            #[trigger] plan.segments@[i]).end == (#[trigger] plan.segments@[j]).start,
        forall|i: int|
            0 <= i < plan.segments@.len() ==> ({
                let seg = #[trigger] plan.segments@[i];
                let left = grid@[seg.start as int].left;
                &&& left <= 0 ==> seg.x == 0
                &&& 0 <= left && left + out_w <= src_w ==> seg.x == left
                &&& 0 <= left && out_w <= src_w <= left + out_w ==> seg.x + out_w == src_w
                &&& out_w >= src_w ==> seg.x == 0
            }),
{
    let room: u32 = room_to_pan(src_w, out_w);
    let mut num: u64 = SEGMENT_PIXEL_THRESHOLD;
    let mut den: u64 = 1;
    let mut attempts: u32 = 0;
    let mut segments: Vec<CropSegment> = segment_with_threshold(grid, room, num, den);
    while segments.len() > MAX_SEGMENTS_PER_CHUNK && attempts < MAX_COARSENINGS
        invariant
            grid@.len() > 0,
            attempts <= MAX_COARSENINGS,
            (num as nat, den as nat) == threshold(attempts as nat),
            segments@ == coarsened(grid@, room, attempts as nat),
            coarsenings_from(grid@, room, 0) == coarsenings_from(grid@, room, attempts as nat),
        decreases MAX_COARSENINGS - attempts,
    {
        proof {
            lemma_threshold_small(attempts as nat);
            lemma_threshold_small((attempts + 1) as nat);
        }
        num = num * 3;
        den = den * 2;
        attempts += 1;
        assert((num as nat, den as nat) == threshold(attempts as nat));
        segments = segment_with_threshold(grid, room, num, den);
    }
    proof {
        lemma_segments_nonempty(
            grid@,
            room,
            threshold(attempts as nat).0,
            threshold(attempts as nat).1,
            0,
            1,
        );
        let n: usize = grid.len();
        assert(grid@.len() == n);
        law_plan_follows_subject(grid@, src_w, out_w);
        lemma_coarsenings(grid@, room, 0);
    }
    CropPlan { segments: cap_segments(segments), attempts }
}

/// There is always at least one segment.
proof fn lemma_segments_nonempty(
    grid: Seq<GridStep>,
    room: u32,
    num: nat,
    den: nat,
    start: int,
    k: int,
)
    ensures
        segments_from(grid, room, num, den, start, k).len() > 0,
    decreases grid.len() - k,
{
    if k >= grid.len() {
    } else if ends_at(grid, room, num, den, start, k) {
        lemma_segments_nonempty(grid, room, num, den, k, k + 1);
    } else {
        lemma_segments_nonempty(grid, room, num, den, start, k + 1);
    }
}

/// A chunk never gets more than `MAX_SEGMENTS_PER_CHUNK` segments, however long
/// it is and however much the subject moves, and it gets at least one.
pub proof fn law_segments_capped(grid: Seq<GridStep>, room: u32)
    ensures
        1 <= planned(grid, room).len() <= MAX_SEGMENTS_PER_CHUNK,
{
    let attempts = coarsenings_from(grid, room, 0);
    lemma_segments_nonempty(grid, room, threshold(attempts).0, threshold(attempts).1, 0, 1);
    lemma_group_count(coarsened(grid, room, attempts).len());
}

/// Segment `i` ends where the next one starts.
pub open spec fn meets_next(s: Seq<CropSegment>, i: int) -> bool {
    s[i].end == s[i + 1].start
}

/// The segments cover the steps from `from` to `to` without gap or overlap, and
/// none is empty.
pub open spec fn tiles(s: Seq<CropSegment>, from: int, to: int) -> bool {
    &&& s.len() > 0
    &&& s[0].start == from
    &&& s.last().end == to
    &&& forall|i: int| 0 <= i < s.len() ==> (#[trigger] s[i]).start < s[i].end
    &&& forall|i: int| 0 <= i < s.len() - 1 ==> #[trigger] meets_next(s, i)
}

/// What every segment keeps: it has the position of its first step, no step
/// inside it ends it, and, unless it is the last, the step after it does.
pub open spec fn segment_ok(
    grid: Seq<GridStep>,
    room: u32,
    num: nat,
    den: nat,
    seg: CropSegment,
) -> bool {
    &&& seg.x == x_at(grid, room, seg.start as int)
    &&& forall|k: int|
        seg.start < k < seg.end ==> !#[trigger] ends_at(
            grid,
            room,
            num,
            den,
            seg.start as int,
            k,
        )
    &&& seg.end < grid.len() ==> ends_at(
        grid,
        room,
        num,
        den,
        seg.start as int,
        seg.end as int,
    )
}

proof fn lemma_segments_from(
    grid: Seq<GridStep>,
    room: u32,
    num: nat,
    den: nat,
    start: int,
    k: int,
)
    requires
        0 <= start < k <= grid.len() <= usize::MAX,
        forall|j: int| start < j < k ==> !#[trigger] ends_at(grid, room, num, den, start, j),
    ensures
        tiles(segments_from(grid, room, num, den, start, k), start, grid.len() as int),
        forall|i: int|
            0 <= i < segments_from(grid, room, num, den, start, k).len() ==> segment_ok(
                grid,
                room,
                num,
                den,
                #[trigger] segments_from(grid, room, num, den, start, k)[i],
            ),
    decreases grid.len() - k,
{
    let s = segments_from(grid, room, num, den, start, k);
    if k >= grid.len() {
    } else if ends_at(grid, room, num, den, start, k) {
        lemma_segments_from(grid, room, num, den, k, k + 1);
        let rest = segments_from(grid, room, num, den, k, k + 1);
        assert(s.len() == rest.len() + 1);
        assert forall|i: int| 0 <= i < s.len() implies (#[trigger] s[i]).start < s[i].end
            && segment_ok(grid, room, num, den, s[i]) by {
            if i > 0 {
                assert(s[i] == rest[i - 1]);
            }
        }
        assert forall|i: int| 0 <= i < s.len() - 1 implies #[trigger] meets_next(s, i) by {
            assert(s[i + 1] == rest[i]);
            if i > 0 {
                assert(s[i] == rest[i - 1]);
                assert(meets_next(rest, i - 1));
            }
        }
        assert(s.last() == rest.last());
    } else {
        lemma_segments_from(grid, room, num, den, start, k + 1);
    }
}

/// At any threshold, the segments cover the chunk without gap or overlap, and
/// each ends exactly at the first step that has drifted or at which it has
/// lasted long enough.
pub proof fn law_segmentation(grid: Seq<GridStep>, room: u32, num: nat, den: nat)
    requires
        0 < grid.len() <= usize::MAX,
    ensures
        tiles(segmentation(grid, room, num, den), 0, grid.len() as int),
        forall|i: int|
            0 <= i < segmentation(grid, room, num, den).len() ==> segment_ok(
                grid,
                room,
                num,
                den,
                #[trigger] segmentation(grid, room, num, den)[i],
            ),
{
    lemma_segments_from(grid, room, num, den, 0, 1);
}

/// In a tiling, segments further along start no earlier than those before end.
proof fn lemma_tiles_ordered(s: Seq<CropSegment>, from: int, to: int, i: int, j: int)
    requires
        tiles(s, from, to),
        0 <= i <= j < s.len(),
    ensures
        s[i].start < s[j].end,
        i < j ==> s[i].end <= s[j].start,
    decreases j - i,
{
    if i < j {
        lemma_tiles_ordered(s, from, to, i, j - 1);
        assert(meets_next(s, j - 1));
    }
}

/// Merging keeps a tiling whole.
proof fn lemma_merged_tiles(s: Seq<CropSegment>, from: int, to: int)
    requires
        tiles(s, from, to),
        s.len() > MAX_SEGMENTS_PER_CHUNK,
    ensures
        tiles(capped(s), from, to),
{
    let n = s.len() as int;
    let size = group_size(s.len()) as int;
    let last = (n - 1) / size;
    let out = capped(s);
    lemma_group_count(s.len());
    assert forall|i: int| 0 <= i < out.len() implies (#[trigger] out[i]).start < out[i].end by {
        lemma_group_bounds(n, size, i);
        lemma_tiles_ordered(s, from, to, i * size, smaller((i + 1) * size, n) - 1);
    }
    assert forall|i: int| 0 <= i < out.len() - 1 implies #[trigger] meets_next(out, i) by {
        lemma_group_bounds(n, size, i);
        assert(meets_next(s, (i + 1) * size - 1));
    }
    lemma_group_bounds(n, size, 0);
    lemma_group_bounds(n, size, last);
    assert(out[last] == merged(s, last * size, smaller((last + 1) * size, n)));
}

/// The segments that a chunk gets cover it without gap or overlap: each begins
/// where the one before it ends, the first at the chunk's start, the last at
/// the chunk's end.
pub proof fn law_planned_tiles(grid: Seq<GridStep>, room: u32)
    requires
        0 < grid.len() <= usize::MAX,
    ensures
        tiles(planned(grid, room), 0, grid.len() as int),
{
    let attempts = coarsenings_from(grid, room, 0);
    let s = coarsened(grid, room, attempts);
    law_segmentation(grid, room, threshold(attempts).0, threshold(attempts).1);
    if s.len() > MAX_SEGMENTS_PER_CHUNK {
        lemma_merged_tiles(s, 0, grid.len() as int);
    }
}

/// A segment lasts no longer than it may: it ends at the latest at the step at
/// which its first step expires, where that step is a later one.
pub open spec fn ends_in_time(grid: Seq<GridStep>, seg: CropSegment) -> bool {
    let expires = grid[seg.start as int].expires;
    seg.start < expires ==> seg.end <= expires
}

/// A segment is made of neighbouring segments of `s`, at least one and at most
/// `size` of them.
pub open spec fn spans(s: Seq<CropSegment>, size: nat, seg: CropSegment) -> bool {
    exists|from: int, to: int|
        {
            &&& 0 <= from < to <= s.len()
            &&& to - from <= size
            &&& seg == #[trigger] merged(s, from, to)
        }
}

/// A still stretch does not end up in one segment that lasts too long: every
/// segment of a chunk spans at most `group_size` segments of the coarsest
/// segmentation that was tried, none of which lasts longer than it may. Where that
/// segmentation fits, no segment of the chunk lasts longer than it may.
pub proof fn law_planned_lasts(grid: Seq<GridStep>, room: u32)
    requires
        0 < grid.len() <= usize::MAX,
    ensures
        ({
            let s = coarsened(grid, room, coarsenings_from(grid, room, 0));
            let plan = planned(grid, room);
            &&& forall|i: int|
                0 <= i < plan.len() ==> spans(s, group_size(s.len()), #[trigger] plan[i])
            &&& forall|j: int| 0 <= j < s.len() ==> ends_in_time(grid, #[trigger] s[j])
            &&& s.len() <= MAX_SEGMENTS_PER_CHUNK ==> forall|i: int|
                0 <= i < plan.len() ==> ends_in_time(grid, #[trigger] plan[i])
        }),
{
    let attempts = coarsenings_from(grid, room, 0);
    let (num, den) = threshold(attempts);
    let s = coarsened(grid, room, attempts);
    let plan = planned(grid, room);
    law_segmentation(grid, room, num, den);
    assert forall|j: int| 0 <= j < s.len() implies ends_in_time(grid, #[trigger] s[j]) by {
        let seg = s[j];
        assert(segment_ok(grid, room, num, den, seg));
        let expires = grid[seg.start as int].expires as int;
        if seg.start < expires < seg.end {
            assert(ends_at(grid, room, num, den, seg.start as int, expires));
        }
    }
    lemma_group_count(s.len());
    assert forall|i: int| 0 <= i < plan.len() implies spans(
        s,
        group_size(s.len()),
        #[trigger] plan[i],
    ) by {
        if s.len() <= MAX_SEGMENTS_PER_CHUNK {
            assert(plan[i] == merged(s, i, i + 1));
        } else {
            let n = s.len() as int;
            let size = group_size(s.len()) as int;
            lemma_group_bounds(n, size, i);
            assert(plan[i] == merged(s, i * size, smaller((i + 1) * size, n)));
        }
    }
}

/// Every segment of a chunk takes the position of its first step and moves no
/// further than there is room, and its crop window lies inside the frame if it fits
/// into it at all.
pub proof fn law_planned_inside_frame(grid: Seq<GridStep>, src_w: u32, out_w: u32)
    requires
        0 < grid.len() <= usize::MAX,
    ensures
        forall|i: int|
            0 <= i < planned(grid, pan_room(src_w as nat, out_w as nat) as u32).len() ==> {
                let seg = #[trigger] planned(grid, pan_room(src_w as nat, out_w as nat) as u32)[i];
                &&& seg.x == x_at(
                    grid,
                    pan_room(src_w as nat, out_w as nat) as u32,
                    seg.start as int,
                )
                &&& seg.x <= pan_room(src_w as nat, out_w as nat)
                &&& out_w <= src_w ==> seg.x + out_w <= src_w
            },
{
    let room = pan_room(src_w as nat, out_w as nat) as u32;
    let attempts = coarsenings_from(grid, room, 0);
    let s = coarsened(grid, room, attempts);
    law_segmentation(grid, room, threshold(attempts).0, threshold(attempts).1);
    let out = planned(grid, room);
    assert forall|i: int| 0 <= i < out.len() implies (#[trigger] out[i]).x == x_at(
        grid,
        room,
        out[i].start as int,
    ) && out[i].x <= room by {
        if s.len() > MAX_SEGMENTS_PER_CHUNK {
            lemma_group_count(s.len());
            lemma_group_bounds(s.len() as int, group_size(s.len()) as int, i);
            let first = s[i * group_size(s.len())];
            assert(segment_ok(
                grid,
                room,
                threshold(attempts).0,
                threshold(attempts).1,
                first,
            ));
        } else {
            assert(segment_ok(grid, room, threshold(attempts).0, threshold(attempts).1, s[i]));
        }
    }
}

proof fn lemma_coarsenings(grid: Seq<GridStep>, room: u32, attempts: nat)
    requires
        attempts <= MAX_COARSENINGS,
    ensures
        attempts <= coarsenings_from(grid, room, attempts) <= MAX_COARSENINGS,
        coarsenings_from(grid, room, attempts) < MAX_COARSENINGS ==> coarsened(
            grid,
            room,
            coarsenings_from(grid, room, attempts),
        ).len() <= MAX_SEGMENTS_PER_CHUNK,
        forall|a: nat|
            attempts <= a < coarsenings_from(grid, room, attempts) ==> (#[trigger] coarsened(
                grid,
                room,
                a,
            )).len() > MAX_SEGMENTS_PER_CHUNK,
    decreases MAX_COARSENINGS - attempts,
{
    if attempts < MAX_COARSENINGS && coarsened(grid, room, attempts).len()
        > MAX_SEGMENTS_PER_CHUNK {
        lemma_coarsenings(grid, room, attempts + 1);
    }
}

/// The threshold is raised no further than needed: every finer threshold makes
/// too many segments, and the finest one that does not is taken unchanged.
pub proof fn law_coarsening_is_least(grid: Seq<GridStep>, room: u32)
    ensures
        forall|a: nat|
            a < coarsenings_from(grid, room, 0) ==> (#[trigger] coarsened(grid, room, a)).len()
                > MAX_SEGMENTS_PER_CHUNK,
        forall|a: nat|
            a <= MAX_COARSENINGS && (#[trigger] coarsened(grid, room, a)).len()
                <= MAX_SEGMENTS_PER_CHUNK ==> planned(grid, room) == coarsened(
                grid,
                room,
                coarsenings_from(grid, room, 0),
            ) && coarsenings_from(grid, room, 0) <= a,
{
    lemma_coarsenings(grid, room, 0);
    let c = coarsenings_from(grid, room, 0);
    assert forall|a: nat|
        a <= MAX_COARSENINGS && (#[trigger] coarsened(grid, room, a)).len()
            <= MAX_SEGMENTS_PER_CHUNK implies planned(grid, room) == coarsened(grid, room, c) && c
        <= a by {
        if a < c {
            assert(coarsened(grid, room, a).len() > MAX_SEGMENTS_PER_CHUNK);
        }
    }
}

proof fn lemma_group_bounds(n: int, size: int, i: int)
    requires
        n >= 1,
        size >= 1,
        0 <= i <= (n - 1) / size,
    ensures
        0 <= i * size < n,
        i < (n - 1) / size ==> (i + 1) * size < n,
        i == (n - 1) / size ==> (i + 1) * size >= n,
        (i + 1) * size == i * size + size,
{
    assert(0 <= i * size < n && (i < (n - 1) / size ==> (i + 1) * size < n) && (i == (n - 1) / size
        ==> (i + 1) * size >= n) && (i + 1) * size == i * size + size) by (nonlinear_arith)
        requires
            n >= 1,
            size >= 1,
            0 <= i <= (n - 1) / size,
    ;
}

/// How the steps of a chunk are grouped at a drift threshold of `num / den` pixels,
/// on the wanted left edges themselves. The segments cover the chunk without gap or
/// overlap. Each stands where its first step wants it, as far as there is room. A
/// segment goes on as long as the wanted edge, kept inside the room, is less than
/// the threshold away and the segment has not lasted as long as it may; it ends at
/// the first step at which one of the two no longer holds.
pub proof fn law_segmentation_is_greedy(grid: Seq<GridStep>, room: u32, num: nat, den: nat)
    requires
        0 < grid.len() <= usize::MAX,
    ensures
        ({
            let s = segmentation(grid, room, num, den);
            let wanted = |k: int|
                if grid[k].left < 0 {
                    0int
                } else if grid[k].left > room {
                    room as int
                } else {
                    grid[k].left as int
                };
            &&& s.len() > 0
            &&& s[0].start == 0
            &&& s.last().end == grid.len()
            &&& forall|i: int|
                0 <= i < s.len() ==> (#[trigger] s[i]).start < s[i].end <= grid.len()
            &&& forall|i: int, j: int|
                0 <= i && j == i + 1 && j < s.len() ==> (#[trigger] s[i]).end == (
                #[trigger] s[j]).start
            &&& forall|i: int|
                0 <= i < s.len() ==> ({
                    let left = grid[(#[trigger] s[i]).start as int].left;
                    &&& left <= 0 ==> s[i].x == 0
                    &&& 0 <= left <= room ==> s[i].x == left
                    &&& left >= room ==> s[i].x == room
                })
            &&& forall|i: int, k: int|
                #![trigger s[i], grid[k]]
                0 <= i < s.len() && s[i].start < k < s[i].end ==> ({
                    let x = s[i].x;
                    &&& (wanted(k) - x) * den < num
                    &&& (x - wanted(k)) * den < num
                    &&& k < grid[s[i].start as int].expires
                })
            &&& forall|i: int|
                0 <= i < s.len() - 1 ==> ({
                    let seg = #[trigger] s[i];
                    ||| (wanted(seg.end as int) - seg.x) * den >= num
                    ||| (seg.x - wanted(seg.end as int)) * den >= num
                    ||| seg.end >= grid[seg.start as int].expires
                })
        }),
{
    let s = segmentation(grid, room, num, den);
    law_segmentation(grid, room, num, den);
    assert forall|i: int| 0 <= i < s.len() implies (#[trigger] s[i]).start < s[i].end
        <= grid.len() by {
        lemma_tiles_ordered(s, 0, grid.len() as int, i, s.len() - 1);
    }
    assert forall|i: int, j: int| 0 <= i && j == i + 1 && j < s.len() implies (
    #[trigger] s[i]).end == (#[trigger] s[j]).start by {
        assert(meets_next(s, i));
    }
    assert forall|i: int, k: int|
        #![trigger s[i], grid[k]]
        0 <= i < s.len() && s[i].start < k < s[i].end implies !ends_at(
        grid,
        room,
        num,
        den,
        s[i].start as int,
        k,
    ) && ({
        let p = clamped(grid[k].left as int, room as nat);
        &&& (p - s[i].x) * den < num
        &&& (s[i].x - p) * den < num
    }) by {
        assert(segment_ok(grid, room, num, den, s[i]));
        assert(!ends_at(grid, room, num, den, s[i].start as int, k));
        lemma_gap(s[i].x, x_at(grid, room, k), num, den);
    }
    assert forall|i: int| 0 <= i < s.len() - 1 implies ({
        let seg = #[trigger] s[i];
        let p = clamped(grid[seg.end as int].left as int, room as nat);
        ||| (p - seg.x) * den >= num
        ||| (seg.x - p) * den >= num
        ||| seg.end >= grid[seg.start as int].expires
    }) by {
        assert(segment_ok(grid, room, num, den, s[i]));
        assert(meets_next(s, i));
        assert(s[i + 1].start < s[i + 1].end);
        lemma_gap(s[i].x, x_at(grid, room, s[i].end as int), num, den);
    }
}

/// Two positions are apart by the threshold if one of their differences reaches it.
proof fn lemma_gap(a: u32, b: u32, num: nat, den: nat)
    ensures
        drifted(a, b, num, den) ==> (b - a) * den >= num || (a - b) * den >= num,
        !drifted(a, b, num, den) ==> (b - a) * den < num && (a - b) * den < num,
{
    assert(a <= b ==> (a - b) * den <= 0 <= (b - a) * den) by (nonlinear_arith);
    assert(b <= a ==> (b - a) * den <= 0 <= (a - b) * den) by (nonlinear_arith);
    assert(a <= b ==> (a - b) * den <= (b - a) * den);
}

/// The crop window follows the subject. Every segment of a chunk stands exactly
/// where its first step wants the window, where the window lies inside the frame
/// there; otherwise it stands at the edge of the frame on that side. The segments
/// cover the chunk without gap or overlap, and there are at most 220 of them.
pub proof fn law_plan_follows_subject(grid: Seq<GridStep>, src_w: u32, out_w: u32)
    requires
        0 < grid.len() <= usize::MAX,
    ensures
        ({
            let plan = planned(grid, pan_room(src_w as nat, out_w as nat) as u32);
            &&& 1 <= plan.len() <= 220
            &&& plan[0].start == 0
            &&& plan.last().end == grid.len()
            &&& forall|i: int|
                0 <= i < plan.len() ==> (#[trigger] plan[i]).start < plan[i].end <= grid.len()
            &&& forall|i: int, j: int|
                0 <= i && j == i + 1 && j < plan.len() ==> (#[trigger] plan[i]).end == (
                #[trigger] plan[j]).start
            &&& forall|i: int|
                0 <= i < plan.len() ==> ({
                    let seg = #[trigger] plan[i];
                    let left = grid[seg.start as int].left;
                    &&& left <= 0 ==> seg.x == 0
                    &&& 0 <= left && left + out_w <= src_w ==> seg.x == left
                    &&& 0 <= left && out_w <= src_w <= left + out_w ==> seg.x + out_w == src_w
                    &&& out_w >= src_w ==> seg.x == 0
                })
        }),
{
    let room = pan_room(src_w as nat, out_w as nat) as u32;
    let plan = planned(grid, room);
    law_segments_capped(grid, room);
    law_planned_tiles(grid, room);
    law_planned_inside_frame(grid, src_w, out_w);
    assert forall|i: int| 0 <= i < plan.len() implies (#[trigger] plan[i]).start < plan[i].end
        <= grid.len() by {
        lemma_tiles_ordered(plan, 0, grid.len() as int, i, plan.len() - 1);
    }
    assert forall|i: int, j: int| 0 <= i && j == i + 1 && j < plan.len() implies (
    #[trigger] plan[i]).end == (#[trigger] plan[j]).start by {
        assert(meets_next(plan, i));
    }
    assert forall|i: int| 0 <= i < plan.len() implies (#[trigger] plan[i]).x == clamped(
        grid[plan[i].start as int].left as int,
        room as nat,
    ) by {
        assert(plan[i].x == x_at(grid, room, plan[i].start as int));
    }
}

/// The drift threshold starts at four pixels and is half as large again after each
/// coarsening.
pub proof fn law_threshold_grows_by_half(attempts: nat)
    ensures
        threshold(attempts).0 == 4 * pow(3, attempts),
        threshold(attempts).1 == pow(2, attempts),
        threshold(attempts).1 > 0,
    decreases attempts,
{
    reveal(pow);
    if attempts > 0 {
        law_threshold_grows_by_half((attempts - 1) as nat);
    }
}

/// How far a chunk is coarsened, and what it gets then, on the thresholds and the
/// numbers themselves. The threshold is raised, at most 20 times, only while there
/// are more than 220 segments. Where they fit they are taken unchanged. Where they
/// never fit, as many neighbours as needed, and no more, are joined into each
/// segment, which keeps the position of the first of them.
pub proof fn law_plan_is_least_coarse(grid: Seq<GridStep>, room: u32)
    requires
        0 < grid.len() <= usize::MAX,
    ensures
        ({
            let c = coarsenings_from(grid, room, 0);
            let s = segmentation(grid, room, (4 * pow(3, c)) as nat, pow(2, c) as nat);
            let m = s.len();
            let plan = planned(grid, room);
            let size = (m + 219) / 220;
            &&& c <= 20
            &&& forall|a: nat|
                #![trigger pow(2, a)]
                a < c ==> segmentation(
                    grid,
                    room,
                    (4 * pow(3, a)) as nat,
                    pow(2, a) as nat,
                ).len() > 220
            &&& c < 20 ==> m <= 220
            &&& m <= 220 ==> plan == s
            &&& m > 220 ==> {
                &&& (plan.len() - 1) * size < m <= plan.len() * size
                &&& forall|i: int|
                    0 <= i < plan.len() ==> (#[trigger] plan[i]).start == s[i * size].start
                        && plan[i].x == s[i * size].x
                &&& forall|i: int|
                    0 <= i < plan.len() - 1 ==> (#[trigger] plan[i]).end == s[(i + 1) * size
                        - 1].end
                &&& plan.last().end == s.last().end
            }
        }),
{
    let c = coarsenings_from(grid, room, 0);
    let s = coarsened(grid, room, c);
    let plan = planned(grid, room);
    lemma_coarsenings(grid, room, 0);
    assert forall|a: nat| true implies #[trigger] coarsened(grid, room, a) == segmentation(
        grid,
        room,
        (4 * pow(3, a)) as nat,
        pow(2, a) as nat,
    ) by {
        law_threshold_grows_by_half(a);
    }
    assert forall|a: nat| #![trigger pow(2, a)] a < c implies segmentation(
        grid,
        room,
        (4 * pow(3, a)) as nat,
        pow(2, a) as nat,
    ).len() > 220 by {
        assert(coarsened(grid, room, a).len() > 220);
    }
    assert(s == segmentation(grid, room, (4 * pow(3, c)) as nat, pow(2, c) as nat));
    if s.len() > 220 {
        let m = s.len() as int;
        let size = group_size(s.len()) as int;
        assert(size == (m + 219) / 220);
        lemma_group_count(s.len());
        let last = (m - 1) / size;
        assert(plan.len() == last + 1);
        lemma_group_bounds(m, size, last);
        assert forall|i: int| 0 <= i < plan.len() implies (#[trigger] plan[i]).start == s[i
            * size].start && plan[i].x == s[i * size].x by {
            lemma_group_bounds(m, size, i);
        }
        assert forall|i: int| 0 <= i < plan.len() - 1 implies (#[trigger] plan[i]).end == s[(i + 1)
            * size - 1].end by {
            lemma_group_bounds(m, size, i);
        }
        assert(plan[last] == merged(s, last * size, smaller((last + 1) * size, m)));
    }
}

} // verus!
