//! The path of the subject over time.
//!
//! Times and positions are 64-bit floating-point numbers, held as bit patterns.

use crate::tracking::CENTER;
use vstd::prelude::*;

verus! {

/// One sampled point: seconds into the video, the horizontal centre of the
/// subject as a fraction of the width, and the top edge of its box as a fraction
/// of the height. There is no position where nobody was found.
#[derive(Clone, Copy, PartialEq, Eq)]
pub struct TrackPoint {
    pub t: u64,
    pub x_norm: Option<u64>,
    pub y1_norm: Option<u64>,
}

/// The last known position among the first `n` points, or the centre of the
/// frame where none is known yet.
pub open spec fn held(raw: Seq<TrackPoint>, n: nat) -> u64
    decreases n,
{
    if n == 0 {
        CENTER
    } else {
        match raw[n - 1].x_norm {
            Some(x) => x,
            None => held(raw, (n - 1) as nat),
        }
    }
}

/// The positions with gaps filled by the last known one.
pub open spec fn filled(raw: Seq<TrackPoint>) -> Seq<u64> {
    Seq::new(raw.len(), |i: int| held(raw, (i + 1) as nat))
}

/// Fills the gaps of a trajectory by holding the last known position.
pub fn fill_gaps(raw: &[TrackPoint]) -> (positions: Vec<u64>)
    ensures
        positions@ == filled(raw@),
        positions@.len() == raw@.len(),
        forall|i: int|
            0 <= i < raw@.len() ==> ((#[trigger] raw@[i]).x_norm matches Some(x) ==> positions@[i]
                == x),
        forall|h: int, i: int|
            0 <= h && i == h + 1 && i < raw@.len() && raw@[i].x_norm is None ==> (
            #[trigger] positions@[i]) == (#[trigger] positions@[h]),
        raw@.len() > 0 && raw@[0].x_norm is None ==> positions@[0] == 0x3fe0_0000_0000_0000,
{
    let mut positions: Vec<u64> = Vec::new();
    let mut last: u64 = CENTER;
    let mut i: usize = 0;
    while i < raw.len()
        invariant
            i <= raw@.len(),
            last == held(raw@, i as nat),
            positions@.len() == i,
            forall|j: int| 0 <= j < i ==> positions@[j] == #[trigger] held(raw@, (j + 1) as nat),
        decreases raw@.len() - i,
    {
        last = match raw[i].x_norm {
            Some(x) => x,
            None => last,
        };
        positions.push(last);
        i += 1;
    }
    assert(positions@ =~= filled(raw@));
    proof {
        assert forall|i: int| 0 <= i < raw@.len() implies ((
        #[trigger] raw@[i]).x_norm matches Some(x) ==> positions@[i] == x) by {
            law_gaps_hold_last_position(raw@, i);
        }
        assert forall|h: int, i: int|
            0 <= h && i == h + 1 && i < raw@.len() && raw@[i].x_norm is None implies (
        #[trigger] positions@[i]) == (#[trigger] positions@[h]) by {
            law_gaps_hold_last_position(raw@, i);
        }
        if raw@.len() > 0 {
            law_gaps_hold_last_position(raw@, 0);
        }
    }
    positions
}

/// A point where somebody was found keeps its position; a point where nobody was
/// found takes that of the point before it, the first one the frame's centre.
pub proof fn law_gaps_hold_last_position(raw: Seq<TrackPoint>, i: int)
    requires
        0 <= i < raw.len(),
    ensures
        raw[i].x_norm matches Some(x) ==> filled(raw)[i] == x,
        raw[i].x_norm is None && i > 0 ==> filled(raw)[i] == filled(raw)[i - 1],
        raw[i].x_norm is None && i == 0 ==> filled(raw)[i] == 0x3fe0_0000_0000_0000,
        filled(raw).len() == raw.len(),
{
    reveal_with_fuel(held, 2);
}

/// Step `i` of `out` is what `limit` gives for position `i`, the limited position
/// before it, and the times of the two points. The first step starts from its own
/// position.
pub open spec fn limited_at<L: Fn(u64, u64, u64, u64) -> u64>(
    limit: L,
    raw: Seq<TrackPoint>,
    positions: Seq<u64>,
    out: Seq<u64>,
    i: int,
) -> bool {
    if i == 0 {
        call_ensures(limit, (positions[0], positions[0], raw[0].t, raw[0].t), out[0])
    } else {
        call_ensures(limit, (positions[i], out[i - 1], raw[i - 1].t, raw[i].t), out[i])
    }
}

/// `out` follows `positions`, each step limited by `limit`.
pub open spec fn limited_by<L: Fn(u64, u64, u64, u64) -> u64>(
    limit: L,
    raw: Seq<TrackPoint>,
    positions: Seq<u64>,
    out: Seq<u64>,
) -> bool {
    &&& out.len() == positions.len()
    &&& forall|i: int|
        0 <= i < out.len() ==> #[trigger] limited_at(limit, raw, positions, out, i)
}

/// Value `i` is blended with what came out before it, the first with itself.
pub open spec fn blended_after<B: Fn(u64, u64) -> u64>(
    blend: B,
    values: Seq<u64>,
    out: Seq<u64>,
    i: int,
) -> bool {
    if i == 0 {
        call_ensures(blend, (values[0], values[0]), out[0])
    } else {
        call_ensures(blend, (values[i], out[i - 1]), out[i])
    }
}

/// `out` is `values` run through `blend` from the front.
pub open spec fn blended_forward<B: Fn(u64, u64) -> u64>(
    blend: B,
    values: Seq<u64>,
    out: Seq<u64>,
) -> bool {
    &&& out.len() == values.len()
    &&& forall|i: int| 0 <= i < out.len() ==> #[trigger] blended_after(blend, values, out, i)
}

/// Value `i` is blended with what came out after it, the last with itself.
pub open spec fn blended_before<B: Fn(u64, u64) -> u64>(
    blend: B,
    values: Seq<u64>,
    out: Seq<u64>,
    i: int,
) -> bool {
    if i == values.len() - 1 {
        call_ensures(blend, (values[i], values[i]), out[i])
    } else {
        call_ensures(blend, (values[i], out[i + 1]), out[i])
    }
}

/// `out` is `values` run through `blend` from the back.
pub open spec fn blended_backward<B: Fn(u64, u64) -> u64>(
    blend: B,
    values: Seq<u64>,
    out: Seq<u64>,
) -> bool {
    &&& out.len() == values.len()
    &&& forall|i: int| 0 <= i < out.len() ==> #[trigger] blended_before(blend, values, out, i)
}

/// The points of `raw` with the positions `xs`.
pub open spec fn placed(raw: Seq<TrackPoint>, xs: Seq<u64>) -> Seq<TrackPoint> {
    Seq::new(
        raw.len(),
        |i: int| TrackPoint { t: raw[i].t, x_norm: Some(xs[i]), y1_norm: raw[i].y1_norm },
    )
}

/// The steps of smoothing: `steady` is the filled trajectory with jumps limited,
/// `ahead` is that blended from the front, `smooth` is that blended from the back.
pub open spec fn smoothing<L: Fn(u64, u64, u64, u64) -> u64, B: Fn(u64, u64) -> u64>(
    limit: L,
    blend: B,
    raw: Seq<TrackPoint>,
    steady: Seq<u64>,
    ahead: Seq<u64>,
    smooth: Seq<u64>,
) -> bool {
    &&& limited_by(limit, raw, filled(raw), steady)
    &&& blended_forward(blend, steady, ahead)
    &&& blended_backward(blend, ahead, smooth)
}

fn limit_jumps<L: Fn(u64, u64, u64, u64) -> u64>(
    raw: &[TrackPoint],
    positions: &Vec<u64>,
    limit: &L,
) -> (out: Vec<u64>)
    requires
        raw@.len() == positions@.len(),
        forall|a: u64, b: u64, s: u64, t: u64| call_requires(*limit, (a, b, s, t)),
    ensures
        limited_by(*limit, raw@, positions@, out@),
{
    let mut out: Vec<u64> = Vec::new();
    let mut i: usize = 0;
    while i < positions.len()
        invariant
            raw@.len() == positions@.len(),
            forall|a: u64, b: u64, s: u64, t: u64| call_requires(*limit, (a, b, s, t)),
            i <= positions@.len(),
            out@.len() == i,
            forall|j: int|
                0 <= j < i ==> #[trigger] limited_at(*limit, raw@, positions@, out@, j),
        decreases positions@.len() - i,
    {
        let next: u64 = if i == 0 {
            limit(positions[0], positions[0], raw[0].t, raw[0].t)
        } else {
            limit(positions[i], out[i - 1], raw[i - 1].t, raw[i].t)
        };
        let ghost before = out@;
        out.push(next);
        assert forall|j: int| 0 <= j < i + 1 implies #[trigger] limited_at(
            *limit,
            raw@,
            positions@,
            out@,
            j,
        ) by {
            if j < i {
                assert(limited_at(*limit, raw@, positions@, before, j));
            }
        }
        i += 1;
    }
    out
}

fn blend_forward<B: Fn(u64, u64) -> u64>(values: &Vec<u64>, blend: &B) -> (out: Vec<u64>)
    requires
        forall|a: u64, b: u64| call_requires(*blend, (a, b)),
    ensures
        blended_forward(*blend, values@, out@),
{
    let mut out: Vec<u64> = Vec::new();
    let mut i: usize = 0;
    while i < values.len()
        invariant
            forall|a: u64, b: u64| call_requires(*blend, (a, b)),
            i <= values@.len(),
            out@.len() == i,
            forall|j: int| 0 <= j < i ==> #[trigger] blended_after(*blend, values@, out@, j),
        decreases values@.len() - i,
    {
        let next: u64 = if i == 0 {
            blend(values[0], values[0])
        } else {
            blend(values[i], out[i - 1])
        };
        let ghost before = out@;
        out.push(next);
        assert forall|j: int| 0 <= j < i + 1 implies #[trigger] blended_after(
            *blend,
            values@,
            out@,
            j,
        ) by {
            if j < i {
                assert(blended_after(*blend, values@, before, j));
            }
        }
        i += 1;
    }
    out
}

/// Blends from the back; what comes out is in reverse order.
fn blend_backward<B: Fn(u64, u64) -> u64>(values: &Vec<u64>, blend: &B) -> (out: Vec<u64>)
    requires
        forall|a: u64, b: u64| call_requires(*blend, (a, b)),
    ensures
        blended_backward(*blend, values@, out@.reverse()),
{
    let n: usize = values.len();
    let mut out: Vec<u64> = Vec::new();
    while out.len() < n
        invariant
            forall|a: u64, b: u64| call_requires(*blend, (a, b)),
            n == values@.len(),
            out@.len() <= n,
            forall|j: int|
                0 <= j < out@.len() ==> #[trigger] blended_after(
                    *blend,
                    values@.reverse(),
                    out@,
                    j,
                ),
        decreases n - out@.len(),
    {
        let j: usize = out.len();
        let next: u64 = if j == 0 {
            blend(values[n - 1], values[n - 1])
        } else {
            blend(values[n - 1 - j], out[j - 1])
        };
        let ghost before = out@;
        out.push(next);
        assert forall|i: int| 0 <= i < out@.len() implies #[trigger] blended_after(
            *blend,
            values@.reverse(),
            out@,
            i,
        ) by {
            if i < j {
                assert(blended_after(*blend, values@.reverse(), before, i));
            }
        }
    }
    proof {
        let s = out@.reverse();
        assert forall|i: int| 0 <= i < s.len() implies #[trigger] blended_before(
            *blend,
            values@,
            s,
            i,
        ) by {
            assert(blended_after(*blend, values@.reverse(), out@, n - 1 - i));
        }
    }
    out
}

/// Smooths a trajectory: gaps are filled with the last known position, sudden
/// jumps are limited, and the result is blended from the front and then from the
/// back, so that it does not lag behind the subject. Times and top edges stay.
pub fn smooth_trajectory<L: Fn(u64, u64, u64, u64) -> u64, B: Fn(u64, u64) -> u64>(
    raw: &[TrackPoint],
    limit: L,
    blend: B,
) -> (out: Vec<TrackPoint>)
    requires
        forall|a: u64, b: u64, s: u64, t: u64| call_requires(limit, (a, b, s, t)),
        forall|a: u64, b: u64| call_requires(blend, (a, b)),
    ensures
        exists|steady: Seq<u64>, ahead: Seq<u64>, smooth: Seq<u64>|
            {
                &&& #[trigger] smoothing(limit, blend, raw@, steady, ahead, smooth)
                &&& out@ == placed(raw@, smooth)
            },
        out@.len() == raw@.len(),
        forall|i: int|
            0 <= i < raw@.len() ==> ({
                let p = #[trigger] out@[i];
                &&& p.t == raw@[i].t
                &&& p.y1_norm == raw@[i].y1_norm
                &&& p.x_norm is Some
            }),
{
    let positions: Vec<u64> = fill_gaps(raw);
    let steady: Vec<u64> = limit_jumps(raw, &positions, &limit);
    let ahead: Vec<u64> = blend_forward(&steady, &blend);
    let back: Vec<u64> = blend_backward(&ahead, &blend);
    let ghost smooth = back@.reverse();
    let n: usize = raw.len();
    let mut out: Vec<TrackPoint> = Vec::new();
    let mut i: usize = 0;
    while i < n
        invariant
            i <= n,
            n == raw@.len(),
            n == back@.len(),
            smooth == back@.reverse(),
            out@.len() == i,
            forall|j: int| 0 <= j < i ==> #[trigger] out@[j] == placed(raw@, smooth)[j],
        decreases n - i,
    {
        out.push(
            TrackPoint { t: raw[i].t, x_norm: Some(back[n - 1 - i]), y1_norm: raw[i].y1_norm },
        );
        i += 1;
    }
    proof {
        assert(out@ =~= placed(raw@, smooth));
        assert(smoothing(limit, blend, raw@, steady@, ahead@, smooth));
    }
    out
}

/// Smoothing keeps the number of points, their times and their top edges, and
/// leaves no point without a position.
pub proof fn law_smoothing_keeps_points(raw: Seq<TrackPoint>, xs: Seq<u64>, i: int)
    requires
        0 <= i < raw.len(),
        xs.len() == raw.len(),
    ensures
        placed(raw, xs).len() == raw.len(),
        placed(raw, xs)[i].t == raw[i].t,
        placed(raw, xs)[i].y1_norm == raw[i].y1_norm,
        placed(raw, xs)[i].x_norm == Some(xs[i]),
{
}

/// Position `i` of a trajectory whose steps are limited by the function `f`.
pub open spec fn limited_value(
    f: spec_fn(u64, u64, u64, u64) -> u64,
    raw: Seq<TrackPoint>,
    positions: Seq<u64>,
    i: int,
) -> u64
    decreases i,
{
    if i <= 0 {
        f(positions[0], positions[0], raw[0].t, raw[0].t)
    } else {
        f(positions[i], limited_value(f, raw, positions, i - 1), raw[i - 1].t, raw[i].t)
    }
}

/// Value `i` of a run through the function `g` from the front.
pub open spec fn forward_value(g: spec_fn(u64, u64) -> u64, values: Seq<u64>, i: int) -> u64
    decreases i,
{
    if i <= 0 {
        g(values[0], values[0])
    } else {
        g(values[i], forward_value(g, values, i - 1))
    }
}

/// Value `i` of a run through the function `g` from the back.
pub open spec fn backward_value(g: spec_fn(u64, u64) -> u64, values: Seq<u64>, i: int) -> u64
    decreases values.len() - i,
{
    if i >= values.len() - 1 {
        g(values[i], values[i])
    } else {
        g(values[i], backward_value(g, values, i + 1))
    }
}

/// The smoothed positions of a trajectory under the functions `f` and `g`.
pub open spec fn smoothed(
    f: spec_fn(u64, u64, u64, u64) -> u64,
    g: spec_fn(u64, u64) -> u64,
    raw: Seq<TrackPoint>,
) -> Seq<u64> {
    let steady = Seq::new(raw.len(), |i: int| limited_value(f, raw, filled(raw), i));
    let ahead = Seq::new(raw.len(), |i: int| forward_value(g, steady, i));
    Seq::new(raw.len(), |i: int| backward_value(g, ahead, i))
}

proof fn lemma_limited<L: Fn(u64, u64, u64, u64) -> u64>(
    limit: L,
    f: spec_fn(u64, u64, u64, u64) -> u64,
    raw: Seq<TrackPoint>,
    positions: Seq<u64>,
    out: Seq<u64>,
    i: int,
)
    requires
        limited_by(limit, raw, positions, out),
        forall|a: u64, b: u64, s: u64, t: u64, r: u64| #[trigger]
            call_ensures(limit, (a, b, s, t), r) ==> r == f(a, b, s, t),
        0 <= i < out.len(),
    ensures
        out[i] == limited_value(f, raw, positions, i),
    decreases i,
{
    assert(limited_at(limit, raw, positions, out, i));
    if i > 0 {
        lemma_limited(limit, f, raw, positions, out, i - 1);
    }
}

proof fn lemma_forward<B: Fn(u64, u64) -> u64>(
    blend: B,
    g: spec_fn(u64, u64) -> u64,
    values: Seq<u64>,
    out: Seq<u64>,
    i: int,
)
    requires
        blended_forward(blend, values, out),
        forall|a: u64, b: u64, r: u64| #[trigger]
            call_ensures(blend, (a, b), r) ==> r == g(a, b),
        0 <= i < out.len(),
    ensures
        out[i] == forward_value(g, values, i),
    decreases i,
{
    assert(blended_after(blend, values, out, i));
    if i > 0 {
        lemma_forward(blend, g, values, out, i - 1);
    }
}

proof fn lemma_backward<B: Fn(u64, u64) -> u64>(
    blend: B,
    g: spec_fn(u64, u64) -> u64,
    values: Seq<u64>,
    out: Seq<u64>,
    i: int,
)
    requires
        blended_backward(blend, values, out),
        forall|a: u64, b: u64, r: u64| #[trigger]
            call_ensures(blend, (a, b), r) ==> r == g(a, b),
        0 <= i < out.len(),
    ensures
        out[i] == backward_value(g, values, i),
    decreases out.len() - i,
{
    assert(blended_before(blend, values, out, i));
    if i < out.len() - 1 {
        lemma_backward(blend, g, values, out, i + 1);
    }
}

/// Where limiting and blending are functions, smoothing has one result.
pub proof fn law_smoothing_is_determined<
    L: Fn(u64, u64, u64, u64) -> u64,
    B: Fn(u64, u64) -> u64,
>(
    limit: L,
    blend: B,
    f: spec_fn(u64, u64, u64, u64) -> u64,
    g: spec_fn(u64, u64) -> u64,
    raw: Seq<TrackPoint>,
    steady: Seq<u64>,
    ahead: Seq<u64>,
    smooth: Seq<u64>,
)
    requires
        smoothing(limit, blend, raw, steady, ahead, smooth),
        forall|a: u64, b: u64, s: u64, t: u64, r: u64| #[trigger]
            call_ensures(limit, (a, b, s, t), r) ==> r == f(a, b, s, t),
        forall|a: u64, b: u64, r: u64| #[trigger]
            call_ensures(blend, (a, b), r) ==> r == g(a, b),
    ensures
        smooth == smoothed(f, g, raw),
{
    assert forall|i: int| 0 <= i < raw.len() implies #[trigger] steady[i] == limited_value(
        f,
        raw,
        filled(raw),
        i,
    ) by {
        lemma_limited(limit, f, raw, filled(raw), steady, i);
    }
    assert(steady =~= Seq::new(raw.len(), |i: int| limited_value(f, raw, filled(raw), i)));
    assert forall|i: int| 0 <= i < raw.len() implies #[trigger] ahead[i] == forward_value(
        g,
        steady,
        i,
    ) by {
        lemma_forward(blend, g, steady, ahead, i);
    }
    assert(ahead =~= Seq::new(raw.len(), |i: int| forward_value(g, steady, i)));
    assert forall|i: int| 0 <= i < raw.len() implies #[trigger] smooth[i] == backward_value(
        g,
        ahead,
        i,
    ) by {
        lemma_backward(blend, g, ahead, smooth, i);
    }
    assert(smooth =~= smoothed(f, g, raw));
}

/// `full` is `raw` with its gaps filled beforehand: the times are the same, and each
/// point has its own position or, where it has none, the last known one.
pub open spec fn fills(raw: Seq<TrackPoint>, full: Seq<TrackPoint>) -> bool {
    &&& full.len() == raw.len()
    &&& forall|i: int|
        0 <= i < raw.len() ==> (#[trigger] full[i]).t == raw[i].t && full[i].x_norm == Some(
            held(raw, (i + 1) as nat),
        )
}

/// What is filled already stays as it is.
proof fn lemma_filled_stays(raw: Seq<TrackPoint>, full: Seq<TrackPoint>)
    requires
        fills(raw, full),
    ensures
        filled(full) == filled(raw),
{
    assert forall|i: int| 0 <= i < raw.len() implies #[trigger] filled(full)[i] == filled(
        raw,
    )[i] by {
        assert(full[i].x_norm == Some(held(raw, (i + 1) as nat)));
    }
    assert(filled(full) =~= filled(raw));
}

/// A gap counts as the last known position held, a gap at the start as the centre of
/// the frame: a trajectory whose gaps are filled beforehand is smoothed exactly as
/// the trajectory itself, whatever limiting and blending do.
pub proof fn law_gaps_may_be_filled_first<
    L: Fn(u64, u64, u64, u64) -> u64,
    B: Fn(u64, u64) -> u64,
>(
    limit: L,
    blend: B,
    raw: Seq<TrackPoint>,
    full: Seq<TrackPoint>,
    steady: Seq<u64>,
    ahead: Seq<u64>,
    smooth: Seq<u64>,
)
    requires
        fills(raw, full),
    ensures
        smoothing(limit, blend, full, steady, ahead, smooth) <==> smoothing(
            limit,
            blend,
            raw,
            steady,
            ahead,
            smooth,
        ),
{
    lemma_filled_stays(raw, full);
    let positions = filled(raw);
    assert forall|i: int| 0 <= i < raw.len() implies limited_at(
        limit,
        full,
        positions,
        steady,
        i,
    ) == #[trigger] limited_at(limit, raw, positions, steady, i) by {
        assert(full[i].t == raw[i].t);
        if i > 0 {
            assert(full[i - 1].t == raw[i - 1].t);
        }
    }
    if limited_by(limit, full, positions, steady) {
        assert forall|i: int| 0 <= i < steady.len() implies #[trigger] limited_at(
            limit,
            raw,
            positions,
            steady,
            i,
        ) by {
            assert(limited_at(limit, full, positions, steady, i));
        }
    }
    if limited_by(limit, raw, positions, steady) {
        assert forall|i: int| 0 <= i < steady.len() implies #[trigger] limited_at(
            limit,
            full,
            positions,
            steady,
            i,
        ) by {
            assert(limited_at(limit, raw, positions, steady, i));
        }
    }
}

proof fn lemma_limited_alike(
    f: spec_fn(u64, u64, u64, u64) -> u64,
    raw: Seq<TrackPoint>,
    full: Seq<TrackPoint>,
    positions: Seq<u64>,
    i: int,
)
    requires
        fills(raw, full),
        0 <= i < raw.len(),
    ensures
        limited_value(f, full, positions, i) == limited_value(f, raw, positions, i),
    decreases i,
{
    assert(full[i].t == raw[i].t);
    if i > 0 {
        assert(full[i - 1].t == raw[i - 1].t);
        lemma_limited_alike(f, raw, full, positions, i - 1);
    }
}

/// Where limiting and blending are functions, a trajectory and the same one with
/// its gaps filled beforehand have the same smoothed positions.
pub proof fn law_filled_gaps_change_nothing(
    f: spec_fn(u64, u64, u64, u64) -> u64,
    g: spec_fn(u64, u64) -> u64,
    raw: Seq<TrackPoint>,
    full: Seq<TrackPoint>,
)
    requires
        fills(raw, full),
    ensures
        smoothed(f, g, full) == smoothed(f, g, raw),
{
    lemma_filled_stays(raw, full);
    let positions = filled(raw);
    let steady = Seq::new(raw.len(), |i: int| limited_value(f, raw, positions, i));
    let steady_full = Seq::new(full.len(), |i: int| limited_value(f, full, positions, i));
    assert forall|i: int| 0 <= i < raw.len() implies #[trigger] steady_full[i] == steady[i] by {
        lemma_limited_alike(f, raw, full, positions, i);
    }
    assert(steady_full =~= steady);
    let ahead = Seq::new(raw.len(), |i: int| forward_value(g, steady, i));
    assert(ahead =~= Seq::new(full.len(), |i: int| forward_value(g, steady_full, i)));
    assert(smoothed(f, g, full) =~= smoothed(f, g, raw));
}

/// The two points of a trajectory around a moment, with their positions.
#[derive(Clone, Copy, PartialEq, Eq, Structural)]
pub struct Neighbours {
    pub index: usize,
    pub x0: u64,
    pub x1: u64,
}

/// The index nearest to `whole` among `len` points.
pub open spec fn nearest_index(whole: int, len: nat) -> int {
    if whole < 0 {
        0
    } else if whole >= len {
        len - 1
    } else {
        whole
    }
}

/// The points around the moment whose whole number of sampling steps is `whole`.
/// Points without a position count as the frame's centre, or as the point before.
pub open spec fn neighbours(trajectory: Seq<TrackPoint>, whole: int) -> Option<Neighbours> {
    if trajectory.len() == 0 {
        None
    } else {
        let i0 = nearest_index(whole, trajectory.len());
        let i1 = nearest_index(i0 + 1, trajectory.len());
        let x0 = match trajectory[i0].x_norm {
            Some(x) => x,
            None => CENTER,
        };
        let x1 = match trajectory[i1].x_norm {
            Some(x) => x,
            None => x0,
        };
        Some(Neighbours { index: i0 as usize, x0, x1 })
    }
}

/// Finds the points of a trajectory between which a moment lies. There are none
/// where the trajectory is empty.
pub fn find_neighbours(trajectory: &[TrackPoint], whole: i64) -> (found: Option<Neighbours>)
    ensures
        found == neighbours(trajectory@, whole as int),
        found is None <==> trajectory@.len() == 0,
        found matches Some(around) ==> {
            &&& around.index < trajectory@.len()
            &&& whole <= 0 ==> around.index == 0
            &&& 0 <= whole < trajectory@.len() ==> around.index == whole
            &&& whole >= trajectory@.len() ==> around.index == trajectory@.len() - 1
            &&& trajectory@[around.index as int].x_norm matches Some(x) ==> around.x0 == x
            &&& around.index + 1 == trajectory@.len() ==> around.x1 == around.x0
            &&& around.index + 1 < trajectory@.len() ==> (trajectory@[around.index
                + 1].x_norm matches Some(x) ==> around.x1 == x)
        },
{
    let len: usize = trajectory.len();
    if len == 0 {
        return None;
    }
    let i0: usize = if whole < 0 {
        0
    } else if whole as u64 >= len as u64 {
        len - 1
    } else {
        whole as usize
    };
    let i1: usize = if i0 + 1 >= len {
        len - 1
    } else {
        i0 + 1
    };
    let x0: u64 = match trajectory[i0].x_norm {
        Some(x) => x,
        None => CENTER,
    };
    let x1: u64 = match trajectory[i1].x_norm {
        Some(x) => x,
        None => x0,
    };
    Some(Neighbours { index: i0, x0, x1 })
}

/// The points around a moment, on the trajectory itself: the point whose number is
/// the whole number of sampling steps, or the nearest there is, and the one after
/// it, or the same where there is none. A point without a position counts as the
/// centre of the frame if it is the first of the two, and as the first otherwise.
pub proof fn law_neighbours_are_adjacent(trajectory: Seq<TrackPoint>, whole: int)
    requires
        trajectory.len() <= usize::MAX,
    ensures
        neighbours(trajectory, whole) is None <==> trajectory.len() == 0,
        neighbours(trajectory, whole) matches Some(around) ==> {
            let i = around.index as int;
            &&& 0 <= i < trajectory.len()
            &&& whole <= 0 ==> i == 0
            &&& 0 <= whole < trajectory.len() ==> i == whole
            &&& whole >= trajectory.len() ==> i == trajectory.len() - 1
            &&& trajectory[i].x_norm matches Some(x) ==> around.x0 == x
            &&& trajectory[i].x_norm is None ==> around.x0 == 0x3fe0_0000_0000_0000
            &&& i + 1 < trajectory.len() ==> (match trajectory[i + 1].x_norm {
                Some(x) => around.x1 == x,
                None => around.x1 == around.x0,
            })
            &&& i + 1 == trajectory.len() ==> around.x1 == around.x0
        },
{
}

/// Each limited position is what the limit gives for the filled position there, the
/// limited position directly before it and the times of these two points; the
/// first starts from its own position.
pub proof fn law_limit_is_taken_against_last_step<L: Fn(u64, u64, u64, u64) -> u64>(
    limit: L,
    raw: Seq<TrackPoint>,
    positions: Seq<u64>,
    out: Seq<u64>,
)
    ensures
        limited_by(limit, raw, positions, out) <==> {
            &&& out.len() == positions.len()
            &&& out.len() > 0 ==> call_ensures(
                limit,
                (positions[0], positions[0], raw[0].t, raw[0].t),
                out[0],
            )
            &&& forall|h: int, i: int|
                #![trigger out[h], out[i]]
                0 <= h && i == h + 1 && i < out.len() ==> call_ensures(
                    limit,
                    (positions[i], out[h], raw[h].t, raw[i].t),
                    out[i],
                )
        },
{
    if limited_by(limit, raw, positions, out) {
        if out.len() > 0 {
            assert(limited_at(limit, raw, positions, out, 0));
        }
        assert forall|h: int, i: int|
            #![trigger out[h], out[i]]
            0 <= h && i == h + 1 && i < out.len() implies call_ensures(
            limit,
            (positions[i], out[h], raw[h].t, raw[i].t),
            out[i],
        ) by {
            assert(limited_at(limit, raw, positions, out, i));
        }
    } else if out.len() == positions.len() {
        let i = choose|i: int|
            0 <= i < out.len() && !#[trigger] limited_at(limit, raw, positions, out, i);
        if i > 0 {
            assert(out[i - 1] == out[i - 1] && out[i] == out[i]);
        }
    }
}

/// Slow movement passes through unchanged, however far it goes in all: where no
/// position is further from the one before it than the limit allows, limiting
/// changes nothing.
pub proof fn law_slow_movement_passes<L: Fn(u64, u64, u64, u64) -> u64>(
    limit: L,
    raw: Seq<TrackPoint>,
    positions: Seq<u64>,
    out: Seq<u64>,
)
    requires
        limited_by(limit, raw, positions, out),
        positions.len() > 0 ==> forall|r: u64| #[trigger]
            call_ensures(limit, (positions[0], positions[0], raw[0].t, raw[0].t), r) ==> r
                == positions[0],
        forall|h: int, i: int, r: u64|
            0 <= h && i == h + 1 && i < positions.len() && #[trigger] call_ensures(
                limit,
                (positions[i], positions[h], raw[h].t, raw[i].t),
                r,
            ) ==> r == positions[i],
    ensures
        out == positions,
{
    law_limit_is_taken_against_last_step(limit, raw, positions, out);
    assert forall|i: int| 0 <= i < out.len() implies out[i] == positions[i] by {
        lemma_slow_step(limit, raw, positions, out, i);
    }
    assert(out =~= positions);
}

proof fn lemma_slow_step<L: Fn(u64, u64, u64, u64) -> u64>(
    limit: L,
    raw: Seq<TrackPoint>,
    positions: Seq<u64>,
    out: Seq<u64>,
    i: int,
)
    requires
        limited_by(limit, raw, positions, out),
        positions.len() > 0 ==> forall|r: u64| #[trigger]
            call_ensures(limit, (positions[0], positions[0], raw[0].t, raw[0].t), r) ==> r
                == positions[0],
        forall|h: int, i: int, r: u64|
            0 <= h && i == h + 1 && i < positions.len() && #[trigger] call_ensures(
                limit,
                (positions[i], positions[h], raw[h].t, raw[i].t),
                r,
            ) ==> r == positions[i],
        0 <= i < out.len(),
    ensures
        out[i] == positions[i],
    decreases i,
{
    law_limit_is_taken_against_last_step(limit, raw, positions, out);
    if i > 0 {
        lemma_slow_step(limit, raw, positions, out, i - 1);
        let h = i - 1;
        assert(call_ensures(limit, (positions[i], out[h], raw[h].t, raw[i].t), out[i]));
        assert(call_ensures(limit, (positions[i], positions[h], raw[h].t, raw[i].t), out[i]));
    }
}

/// Blending from the front takes each value together with what came out directly
/// before it, the first with itself.
pub proof fn law_blend_is_taken_against_last_step<B: Fn(u64, u64) -> u64>(
    blend: B,
    values: Seq<u64>,
    out: Seq<u64>,
)
    ensures
        blended_forward(blend, values, out) <==> {
            &&& out.len() == values.len()
            &&& out.len() > 0 ==> call_ensures(blend, (values[0], values[0]), out[0])
            &&& forall|h: int, i: int|
                #![trigger out[h], out[i]]
                0 <= h && i == h + 1 && i < out.len() ==> call_ensures(
                    blend,
                    (values[i], out[h]),
                    out[i],
                )
        },
{
    if blended_forward(blend, values, out) {
        if out.len() > 0 {
            assert(blended_after(blend, values, out, 0));
        }
        assert forall|h: int, i: int|
            #![trigger out[h], out[i]]
            0 <= h && i == h + 1 && i < out.len() implies call_ensures(
            blend,
            (values[i], out[h]),
            out[i],
        ) by {
            assert(blended_after(blend, values, out, i));
        }
    } else if out.len() == values.len() {
        let i = choose|i: int|
            0 <= i < out.len() && !#[trigger] blended_after(blend, values, out, i);
        if i > 0 {
            assert(out[i - 1] == out[i - 1] && out[i] == out[i]);
        }
    }
}

/// Blending from the back is blending from the front of the same values in reverse
/// order, so that the one makes up for the lag of the other.
pub proof fn law_backward_mirrors_forward<B: Fn(u64, u64) -> u64>(
    blend: B,
    values: Seq<u64>,
    out: Seq<u64>,
)
    ensures
        blended_backward(blend, values, out) <==> blended_forward(
            blend,
            values.reverse(),
            out.reverse(),
        ),
{
    let n = out.len() as int;
    if blended_backward(blend, values, out) {
        assert forall|i: int| 0 <= i < n implies #[trigger] blended_after(
            blend,
            values.reverse(),
            out.reverse(),
            i,
        ) by {
            assert(blended_before(blend, values, out, n - 1 - i));
        }
    }
    if blended_forward(blend, values.reverse(), out.reverse()) {
        assert(out.len() == out.reverse().len() && values.len() == values.reverse().len());
        assert forall|i: int| 0 <= i < n implies #[trigger] blended_before(
            blend,
            values,
            out,
            i,
        ) by {
            assert(blended_after(blend, values.reverse(), out.reverse(), n - 1 - i));
        }
    }
}

/// Smoothing limits the filled positions, blends the result from the front, and
/// blends what comes out from the back; each stage has the length of the
/// trajectory.
pub proof fn law_smoothing_has_three_stages<
    L: Fn(u64, u64, u64, u64) -> u64,
    B: Fn(u64, u64) -> u64,
>(
    limit: L,
    blend: B,
    raw: Seq<TrackPoint>,
    steady: Seq<u64>,
    ahead: Seq<u64>,
    smooth: Seq<u64>,
)
    requires
        smoothing(limit, blend, raw, steady, ahead, smooth),
    ensures
        steady.len() == raw.len(),
        ahead.len() == raw.len(),
        smooth.len() == raw.len(),
        limited_by(limit, raw, filled(raw), steady),
        blended_forward(blend, steady, ahead),
        blended_forward(blend, ahead.reverse(), smooth.reverse()),
{
    law_backward_mirrors_forward(blend, ahead, smooth);
}

proof fn lemma_blend_between<B: Fn(u64, u64) -> u64>(
    blend: B,
    values: Seq<u64>,
    out: Seq<u64>,
    low: u64,
    high: u64,
    i: int,
)
    requires
        blended_forward(blend, values, out),
        forall|k: int| 0 <= k < values.len() ==> low <= #[trigger] values[k] <= high,
        forall|a: u64, b: u64, r: u64|
            low <= a <= high && low <= b <= high && #[trigger] call_ensures(blend, (a, b), r)
                ==> low <= r <= high,
        0 <= i < out.len(),
    ensures
        low <= out[i] <= high,
    decreases i,
{
    law_blend_is_taken_against_last_step(blend, values, out);
    assert(low <= values[i] <= high);
    if i > 0 {
        lemma_blend_between(blend, values, out, low, high, i - 1);
        let h = i - 1;
        assert(call_ensures(blend, (values[i], out[h]), out[i]));
    }
}

proof fn lemma_limit_between<L: Fn(u64, u64, u64, u64) -> u64>(
    limit: L,
    raw: Seq<TrackPoint>,
    positions: Seq<u64>,
    out: Seq<u64>,
    low: u64,
    high: u64,
    i: int,
)
    requires
        limited_by(limit, raw, positions, out),
        forall|k: int| 0 <= k < positions.len() ==> low <= #[trigger] positions[k] <= high,
        forall|a: u64, b: u64, s: u64, t: u64, r: u64|
            low <= a <= high && low <= b <= high && #[trigger] call_ensures(
                limit,
                (a, b, s, t),
                r,
            ) ==> low <= r <= high,
        0 <= i < out.len(),
    ensures
        low <= out[i] <= high,
    decreases i,
{
    law_limit_is_taken_against_last_step(limit, raw, positions, out);
    assert(low <= positions[i] <= high);
    if i > 0 {
        lemma_limit_between(limit, raw, positions, out, low, high, i - 1);
        let h = i - 1;
        assert(call_ensures(limit, (positions[i], out[h], raw[h].t, raw[i].t), out[i]));
    }
}

/// The smoothed path never leaves the range in which the subject was seen: where
/// all filled positions lie in a range that limiting and blending do not leave, so
/// do all smoothed positions. A range of one position is a subject that stands
/// still: the path stands still with it.
pub proof fn law_smoothing_stays_in_range<
    L: Fn(u64, u64, u64, u64) -> u64,
    B: Fn(u64, u64) -> u64,
>(
    limit: L,
    blend: B,
    raw: Seq<TrackPoint>,
    steady: Seq<u64>,
    ahead: Seq<u64>,
    smooth: Seq<u64>,
    low: u64,
    high: u64,
)
    requires
        smoothing(limit, blend, raw, steady, ahead, smooth),
        forall|k: int| 0 <= k < raw.len() ==> low <= #[trigger] filled(raw)[k] <= high,
        forall|a: u64, b: u64, s: u64, t: u64, r: u64|
            low <= a <= high && low <= b <= high && #[trigger] call_ensures(
                limit,
                (a, b, s, t),
                r,
            ) ==> low <= r <= high,
        forall|a: u64, b: u64, r: u64|
            low <= a <= high && low <= b <= high && #[trigger] call_ensures(blend, (a, b), r)
                ==> low <= r <= high,
    ensures
        smooth.len() == raw.len(),
        forall|i: int| 0 <= i < raw.len() ==> low <= #[trigger] smooth[i] <= high,
{
    law_smoothing_has_three_stages(limit, blend, raw, steady, ahead, smooth);
    assert forall|i: int| 0 <= i < raw.len() implies low <= #[trigger] steady[i] <= high by {
        lemma_limit_between(limit, raw, filled(raw), steady, low, high, i);
    }
    assert forall|i: int| 0 <= i < raw.len() implies low <= #[trigger] ahead[i] <= high by {
        lemma_blend_between(blend, steady, ahead, low, high, i);
    }
    let back = ahead.reverse();
    assert forall|i: int| 0 <= i < back.len() implies low <= #[trigger] back[i] <= high by {
        assert(back[i] == ahead[raw.len() - 1 - i]);
    }
    assert forall|i: int| 0 <= i < raw.len() implies low <= #[trigger] smooth[i] <= high by {
        lemma_blend_between(blend, back, smooth.reverse(), low, high, raw.len() - 1 - i);
        assert(smooth.reverse()[raw.len() - 1 - i] == smooth[i]);
    }
}

/// Where blending keeps each value as it is and no movement is too fast, the
/// smoothed path is the path of the subject itself, with its gaps filled.
pub proof fn law_plain_smoothing_keeps_path<
    L: Fn(u64, u64, u64, u64) -> u64,
    B: Fn(u64, u64) -> u64,
>(
    limit: L,
    blend: B,
    raw: Seq<TrackPoint>,
    steady: Seq<u64>,
    ahead: Seq<u64>,
    smooth: Seq<u64>,
)
    requires
        smoothing(limit, blend, raw, steady, ahead, smooth),
        forall|a: u64, b: u64, r: u64| #[trigger] call_ensures(blend, (a, b), r) ==> r == a,
        raw.len() > 0 ==> forall|r: u64| #[trigger]
            call_ensures(
                limit,
                (filled(raw)[0], filled(raw)[0], raw[0].t, raw[0].t),
                r,
            ) ==> r == filled(raw)[0],
        forall|h: int, i: int, r: u64|
            0 <= h && i == h + 1 && i < raw.len() && #[trigger] call_ensures(
                limit,
                (filled(raw)[i], filled(raw)[h], raw[h].t, raw[i].t),
                r,
            ) ==> r == filled(raw)[i],
    ensures
        smooth == filled(raw),
{
    law_smoothing_has_three_stages(limit, blend, raw, steady, ahead, smooth);
    law_slow_movement_passes(limit, raw, filled(raw), steady);
    let n = raw.len() as int;
    assert forall|i: int| 0 <= i < n implies ahead[i] == steady[i] by {
        assert(blended_after(blend, steady, ahead, i));
    }
    assert forall|i: int| 0 <= i < n implies smooth[i] == ahead[i] by {
        assert(blended_after(blend, ahead.reverse(), smooth.reverse(), n - 1 - i));
        assert(smooth.reverse()[n - 1 - i] == smooth[i]);
        assert(ahead.reverse()[n - 1 - i] == ahead[i]);
    }
    assert(smooth =~= filled(raw));
}

} // verus!
