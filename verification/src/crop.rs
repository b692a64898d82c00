//! The crop window of a video.

use crate::segments::{clamp_left, clamped, pan_room, room_to_pan};
use vstd::prelude::*;

verus! {

/// A crop window in pixels of the source frame.
#[derive(Clone, Copy, PartialEq, Eq, Structural)]
pub struct CropRect {
    pub w: u32,
    pub h: u32,
    pub x: u32,
    pub y: u32,
}

/// The largest even number that is not above `n`, but at least 2. Encoders want
/// even dimensions.
pub open spec fn even_size(n: nat) -> nat {
    if n < 2 {
        2
    } else {
        (n - n % 2) as nat
    }
}

/// Rounds a dimension down to an even number of at least 2.
fn make_even(n: u32) -> (even: u32)
    ensures
        even == even_size(n as nat),
{
    if n < 2 {
        2
    } else {
        n - n % 2
    }
}

/// The width of the crop window: the wanted one, no wider than the frame, even.
pub open spec fn crop_width(src_w: nat, wanted_w: nat) -> nat {
    even_size(
        if wanted_w <= src_w {
            wanted_w
        } else {
            src_w
        },
    )
}

/// Works out the crop window of a frame. `wanted_w` is the width that the chosen
/// aspect ratio gives at the full height, rounded to pixels. `place` says, for
/// the number of pixels that the window can move by, where its left edge should
/// be. The window has the full height of the frame, rounded down to an even
/// number; only its width is ever narrowed.
pub fn compute_crop_rect<P: Fn(u32) -> i64>(
    src_w: u32,
    src_h: u32,
    wanted_w: u32,
    place: P,
) -> (rect: CropRect)
    requires
        call_requires(
            place,
            (pan_room(src_w as nat, crop_width(src_w as nat, wanted_w as nat)) as u32,),
        ),
    ensures
        rect.w == crop_width(src_w as nat, wanted_w as nat),
        rect.h == even_size(src_h as nat),
        rect.y == 0,
        exists|left: i64|
            {
                &&& #[trigger] call_ensures(
                    place,
                    (pan_room(src_w as nat, rect.w as nat) as u32,),
                    left,
                )
                &&& rect.x == clamped(left as int, pan_room(src_w as nat, rect.w as nat))
            },
        rect.w % 2 == 0,
        rect.h % 2 == 0,
        2 <= wanted_w <= src_w ==> wanted_w - 1 <= rect.w <= wanted_w,
        2 <= src_w < wanted_w ==> src_w - 1 <= rect.w <= src_w,
        wanted_w < 2 || src_w < 2 ==> rect.w == 2,
        src_h >= 2 ==> src_h - 1 <= rect.h <= src_h,
        src_h < 2 ==> rect.h == 2,
        exists|room: u32, left: i64|
            {
                &&& room == (if rect.w <= src_w {
                    src_w - rect.w
                } else {
                    0
                })
                &&& #[trigger] call_ensures(place, (room,), left)
                &&& left <= 0 ==> rect.x == 0
                &&& 0 <= left <= room ==> rect.x == left
                &&& left >= room ==> rect.x == room
            },
{
    let narrowed: u32 = if wanted_w <= src_w {
        wanted_w
    } else {
        src_w
    };
    let w: u32 = make_even(narrowed);
    let h: u32 = make_even(src_h);
    let room: u32 = room_to_pan(src_w, w);
    let left: i64 = place(room);
    assert(room == pan_room(src_w as nat, w as nat) as u32);
    assert(call_ensures(place, (room,), left));
    proof {
        law_crop_rect_keeps_size(src_w, src_h, wanted_w);
        law_clamping_moves_only_outsiders(left as int, room as nat);
    }
    CropRect { w, h, x: clamp_left(left, room), y: 0 }
}

/// A frame of at least 2 by 2 pixels holds its crop window, whose dimensions are
/// even, wherever the window is wanted.
pub proof fn law_crop_rect_fits(src_w: u32, src_h: u32, wanted_w: u32, left: int)
    requires
        src_w >= 2,
        src_h >= 2,
    ensures
        crop_width(src_w as nat, wanted_w as nat) % 2 == 0,
        even_size(src_h as nat) % 2 == 0,
        clamped(left, pan_room(src_w as nat, crop_width(src_w as nat, wanted_w as nat)))
            + crop_width(src_w as nat, wanted_w as nat) <= src_w,
        src_h - 1 <= even_size(src_h as nat) <= src_h,
{
}

/// The crop window has the size that is asked for: as wide as wanted, or as the
/// frame where that is narrower, and as high as the frame, each made even by at
/// most one pixel. No window is smaller than 2 by 2.
pub proof fn law_crop_rect_keeps_size(src_w: u32, src_h: u32, wanted_w: u32)
    ensures
        ({
            let w = crop_width(src_w as nat, wanted_w as nat);
            let h = even_size(src_h as nat);
            &&& w % 2 == 0
            &&& h % 2 == 0
            &&& 2 <= wanted_w <= src_w ==> wanted_w - 1 <= w <= wanted_w
            &&& 2 <= src_w < wanted_w ==> src_w - 1 <= w <= src_w
            &&& wanted_w < 2 || src_w < 2 ==> w == 2
            &&& src_h >= 2 ==> src_h - 1 <= h <= src_h
            &&& src_h < 2 ==> h == 2
        }),
{
}

/// A wanted position that lies inside the room is taken as it is; one outside goes
/// to the nearer end. The room is what the window leaves of the frame.
pub proof fn law_clamping_moves_only_outsiders(left: int, room: nat)
    ensures
        0 <= left <= room ==> clamped(left, room) == left,
        left <= 0 ==> clamped(left, room) == 0,
        left >= room ==> clamped(left, room) == room,
        forall|src_w: nat, out_w: nat|
            #![trigger pan_room(src_w, out_w)]
            (out_w <= src_w ==> pan_room(src_w, out_w) + out_w == src_w) && (out_w > src_w
                ==> pan_room(src_w, out_w) == 0),
{
}

/// What is cut off the frame when the subject is followed: the window's size and
/// the number of rows trimmed off the top.
#[derive(Clone, Copy, PartialEq, Eq, Structural)]
pub struct DynamicDims {
    pub w: u32,
    pub h: u32,
    pub y_offset: u32,
}

/// The window that follows the subject: as wide as the static one, and as high,
/// less the rows trimmed off the top.
pub fn dynamic_dims(rect: CropRect, y_offset: u32) -> (dims: DynamicDims)
    ensures
        dims.w == rect.w,
        dims.h == (if y_offset <= rect.h {
            rect.h - y_offset
        } else {
            0
        }),
        dims.y_offset == y_offset,
        y_offset <= rect.h ==> dims.y_offset + dims.h == rect.h,
{
    let h: u32 = if y_offset <= rect.h {
        rect.h - y_offset
    } else {
        0
    };
    DynamicDims { w: rect.w, h, y_offset }
}

/// The lowest value among those that are there.
pub open spec fn lowest(rows: Seq<Option<i64>>) -> Option<i64>
    decreases rows.len(),
{
    if rows.len() == 0 {
        None
    } else {
        match (lowest(rows.drop_last()), rows.last()) {
            (Some(a), Some(b)) => Some(
                if a <= b {
                    a
                } else {
                    b
                },
            ),
            (Some(a), None) => Some(a),
            (None, b) => b,
        }
    }
}

/// The lowest value is one of those that are there, and no other is lower.
pub proof fn law_lowest_is_a_minimum(rows: Seq<Option<i64>>)
    ensures
        lowest(rows) is None <==> forall|k: int|
            0 <= k < rows.len() ==> (#[trigger] rows[k]) is None,
        lowest(rows) matches Some(low) ==> {
            &&& exists|k: int| 0 <= k < rows.len() && #[trigger] rows[k] == Some(low)
            &&& forall|k: int|
                0 <= k < rows.len() ==> ((#[trigger] rows[k]) matches Some(row) ==> low <= row)
        },
    decreases rows.len(),
{
    if rows.len() > 0 {
        let front = rows.drop_last();
        let n = front.len() as int;
        law_lowest_is_a_minimum(front);
        assert(forall|k: int| 0 <= k < n ==> #[trigger] front[k] == rows[k]);
        assert(rows.last() == rows[n]);
        if lowest(rows) is None {
            assert forall|k: int| 0 <= k < rows.len() implies (#[trigger] rows[k]) is None by {
                if k < n {
                    assert(front[k] is None);
                }
            }
        } else {
            let low = lowest(rows)->0;
            assert forall|k: int| 0 <= k < rows.len() implies ((
            #[trigger] rows[k]) matches Some(row) ==> low <= row) by {
                if k < n {
                    assert(front[k] == rows[k]);
                }
            }
            if rows[n] != Some(low) {
                let k = choose|k: int| 0 <= k < n && #[trigger] front[k] == Some(low);
                assert(rows[k] == Some(low));
            }
        }
    }
}

/// Works out how many rows can be trimmed off the top of the frame without ever
/// cutting into the subject's head. `rows` holds, for each sampled frame, the
/// last row that still keeps its distance above the head, or nothing where
/// nobody was found. `limit` is the most that may ever be trimmed. Where nobody
/// was ever found, nothing is trimmed.
pub fn compute_safe_top_crop(rows: &[Option<i64>], limit: u32) -> (trimmed: u32)
    ensures
        trimmed == (match lowest(rows@) {
            Some(row) => clamped(row as int, limit as nat),
            None => 0,
        }),
        trimmed <= limit,
        forall|k: int|
            0 <= k < rows@.len() ==> ((#[trigger] rows@[k]) matches Some(row) ==> trimmed <= row
                || trimmed == 0),
        (forall|k: int| 0 <= k < rows@.len() ==> (#[trigger] rows@[k]) is None) ==> trimmed == 0,
        trimmed < limit ==> (forall|k: int|
            0 <= k < rows@.len() ==> (#[trigger] rows@[k]) is None) || (exists|k: int|
            0 <= k < rows@.len() && ((#[trigger] rows@[k]) matches Some(row) && row <= trimmed)),
{
    let mut best: Option<i64> = None;
    let mut i: usize = 0;
    while i < rows.len()
        invariant
            i <= rows@.len(),
            best == lowest(rows@.take(i as int)),
        decreases rows@.len() - i,
    {
        proof {
            assert(rows@.take(i + 1).drop_last() =~= rows@.take(i as int));
            assert(rows@.take(i + 1).last() == rows@[i as int]);
        }
        best = match (best, rows[i]) {
            (Some(a), Some(b)) => Some(
                if a <= b {
                    a
                } else {
                    b
                },
            ),
            (Some(a), None) => Some(a),
            (None, b) => b,
        };
        i += 1;
    }
    assert(rows@.take(i as int) =~= rows@);
    proof {
        law_lowest_is_a_minimum(rows@);
        law_clamping_moves_only_outsiders(
            match best {
                Some(row) => row as int,
                None => 0,
            },
            limit as nat,
        );
    }
    match best {
        Some(row) => clamp_left(row, limit),
        None => 0,
    }
}

/// The trim never reaches closer to a head than its distance, in any frame, and
/// never exceeds the limit.
pub proof fn law_top_crop_is_safe(rows: Seq<Option<i64>>, limit: u32, k: int)
    requires
        0 <= k < rows.len(),
        rows[k] is Some,
    ensures
        lowest(rows) is Some,
        lowest(rows)->0 <= rows[k]->0,
        clamped(lowest(rows)->0 as int, limit as nat) <= limit,
        rows[k]->0 >= 0 ==> clamped(lowest(rows)->0 as int, limit as nat) <= rows[k]->0,
        rows[k]->0 < 0 ==> clamped(lowest(rows)->0 as int, limit as nat) == 0,
    decreases rows.len(),
{
    if k < rows.len() - 1 {
        law_top_crop_is_safe(rows.drop_last(), limit, k);
    }
}

/// As much is trimmed as is safe: where less than the limit is trimmed, some head
/// allows no more.
pub proof fn law_top_crop_is_as_large_as_safe(rows: Seq<Option<i64>>, limit: u32)
    requires
        lowest(rows) is Some,
        clamped(lowest(rows)->0 as int, limit as nat) < limit,
    ensures
        exists|k: int|
            0 <= k < rows.len() && ((#[trigger] rows[k]) matches Some(row) && row <= clamped(
                lowest(rows)->0 as int,
                limit as nat,
            )),
{
    law_lowest_is_a_minimum(rows);
    let k = choose|k: int| 0 <= k < rows.len() && #[trigger] rows[k] == Some(lowest(rows)->0);
    assert(rows[k] == Some(lowest(rows)->0));
}

/// Where nobody was ever found there is no row to keep clear of.
pub proof fn law_top_crop_without_subject(rows: Seq<Option<i64>>)
    requires
        forall|k: int| 0 <= k < rows.len() ==> (#[trigger] rows[k]) is None,
    ensures
        lowest(rows) is None,
    decreases rows.len(),
{
    if rows.len() > 0 {
        assert forall|k: int| 0 <= k < rows.drop_last().len() implies (
        #[trigger] rows.drop_last()[k]) is None by {
            assert(rows[k] is None);
        }
        law_top_crop_without_subject(rows.drop_last());
        assert(rows[rows.len() - 1] is None);
    }
}

} // verus!
