//! Following the main subject of a video.
//!
//! Frames are sampled as raw RGB bytes and handed to a person detector, which
//! answers in floating-point numbers. Here such a number is held as its IEEE 754
//! bit pattern: 32 bits for what the detector says, 64 bits for times and
//! positions. Patterns are compared and passed on; the arithmetic on them is
//! handed in as functions.

use vstd::prelude::*;

verus! {

/// Width and height, in pixels, of the frames that the detector gets.
pub const MODEL_SIZE: usize = 384;

/// Pixels of such a frame.
pub const PLANE_SIZE: usize = 147456;

/// Bytes of such a frame: three colour values for each pixel.
pub const FRAME_BYTES: usize = 442368;

/// The bit pattern of one half in 32 bits: the score that a detection needs, and
/// how far a class number may be off.
pub const HALF: u32 = 0x3f00_0000;

/// The bit pattern of one half in 64 bits: the centre of the frame.
pub const CENTER: u64 = 0x3fe0_0000_0000_0000;

/// Sorts the colour values of a frame by colour: all red ones, then all green
/// ones, then all blue ones, each in the order of the pixels.
pub fn to_planes(rgb: &[u8]) -> (planes: Vec<u8>)
    requires
        rgb@.len() >= FRAME_BYTES,
    ensures
        planes@.len() == FRAME_BYTES,
        forall|c: int, i: int|
            #![trigger planes@[c * PLANE_SIZE + i]]
            0 <= c < 3 && 0 <= i < PLANE_SIZE ==> planes@[c * PLANE_SIZE + i] == rgb@[i * 3 + c],
{
    let mut planes: Vec<u8> = Vec::new();
    let mut c: usize = 0;
    while c < 3
        invariant
            rgb@.len() >= FRAME_BYTES,
            c <= 3,
            planes@.len() == c * PLANE_SIZE,
            forall|d: int, i: int|
                #![trigger planes@[d * PLANE_SIZE + i]]
                0 <= d < c && 0 <= i < PLANE_SIZE ==> planes@[d * PLANE_SIZE + i] == rgb@[i * 3
                    + d],
        decreases 3 - c,
    {
        let mut i: usize = 0;
        while i < PLANE_SIZE
            invariant
                rgb@.len() >= FRAME_BYTES,
                c < 3,
                i <= PLANE_SIZE,
                planes@.len() == c * PLANE_SIZE + i,
                forall|d: int, j: int|
                    #![trigger planes@[d * PLANE_SIZE + j]]
                    0 <= d < c && 0 <= j < PLANE_SIZE ==> planes@[d * PLANE_SIZE + j] == rgb@[j * 3
                        + d],
                forall|j: int|
                    #![trigger planes@[c * PLANE_SIZE + j]]
                    0 <= j < i ==> planes@[c * PLANE_SIZE + j] == rgb@[j * 3 + c],
            decreases PLANE_SIZE - i,
        {
            planes.push(rgb[i * 3 + c]);
            i += 1;
        }
        c += 1;
    }
    planes
}

/// The pattern stands for no number.
pub open spec fn is_nan(bits: u32) -> bool {
    bits % 0x8000_0000 > 0x7f80_0000
}

/// Where the number of a pattern stands in the order of numbers. Both zeros
/// stand at 0.
pub open spec fn rank(bits: u32) -> int {
    if bits < 0x8000_0000 {
        bits as int
    } else {
        0x8000_0000 - bits
    }
}

/// The number of `a` is less than that of `b`. Nothing is less than, or greater
/// than, what is no number.
pub open spec fn is_below(a: u32, b: u32) -> bool {
    !is_nan(a) && !is_nan(b) && rank(a) < rank(b)
}

/// The pattern of the number without its sign.
pub open spec fn magnitude(bits: u32) -> u32 {
    bits % 0x8000_0000
}

fn number_rank(bits: u32) -> (r: i64)
    ensures
        r == rank(bits),
{
    if bits < 0x8000_0000 {
        bits as i64
    } else {
        0x8000_0000 - bits as i64
    }
}

/// Whether the number of `a` is less than that of `b`.
pub fn below(a: u32, b: u32) -> (less: bool)
    ensures
        less == is_below(a, b),
        a <= 0x7f80_0000 && b <= 0x7f80_0000 ==> less == (a < b),
{
    let a_nan: bool = a % 0x8000_0000 > 0x7f80_0000;
    let b_nan: bool = b % 0x8000_0000 > 0x7f80_0000;
    !a_nan && !b_nan && number_rank(a) < number_rank(b)
}

/// One detection, in bit patterns: the corners of the box in pixels of the
/// detector's frame, the score and the class number.
#[derive(Clone, Copy, PartialEq, Eq, Structural)]
pub struct Detection {
    pub x1: u32,
    pub y1: u32,
    pub x2: u32,
    pub y2: u32,
    pub confidence: u32,
    pub class_id: u32,
}

/// The detection in row `i` of the detector's answer, six numbers a row.
pub open spec fn detection_at(data: Seq<u32>, i: int) -> Detection {
    Detection {
        x1: data[i * 6],
        y1: data[i * 6 + 1],
        x2: data[i * 6 + 2],
        y2: data[i * 6 + 3],
        confidence: data[i * 6 + 4],
        class_id: data[i * 6 + 5],
    }
}

/// Reads the rows of the detector's answer.
pub fn read_detections(data: &[u32], count: usize) -> (detections: Vec<Detection>)
    requires
        count * 6 <= data@.len(),
    ensures
        detections@ == Seq::new(count as nat, |i: int| detection_at(data@, i)),
        forall|i: int|
            0 <= i < count ==> ({
                let d = #[trigger] detections@[i];
                &&& d.x1 == data@[6 * i]
                &&& d.y1 == data@[6 * i + 1]
                &&& d.x2 == data@[6 * i + 2]
                &&& d.y2 == data@[6 * i + 3]
                &&& d.confidence == data@[6 * i + 4]
                &&& d.class_id == data@[6 * i + 5]
            }),
{
    let mut detections: Vec<Detection> = Vec::new();
    let total: usize = data.len();
    let mut i: usize = 0;
    while i < count
        invariant
            i <= count,
            total == data@.len(),
            count * 6 <= total,
            detections@.len() == i,
            forall|j: int| 0 <= j < i ==> #[trigger] detections@[j] == detection_at(data@, j),
        decreases count - i,
    {
        let base: usize = i * 6;
        detections.push(
            Detection {
                x1: data[base],
                y1: data[base + 1],
                x2: data[base + 2],
                y2: data[base + 3],
                confidence: data[base + 4],
                class_id: data[base + 5],
            },
        );
        i += 1;
    }
    assert(detections@ =~= Seq::new(count as nat, |i: int| detection_at(data@, i)));
    detections
}

/// The detection is a person, and sure enough to count.
pub open spec fn counts(d: Detection) -> bool {
    !is_below(d.confidence, HALF) && !is_below(HALF, magnitude(d.class_id))
}

/// Whether a detection is a person, and sure enough to count.
pub fn is_person(d: &Detection) -> (person: bool)
    ensures
        person == counts(*d),
        person == ((0x3f00_0000 <= d.confidence < 0x8000_0000 || d.confidence > 0xff80_0000) && (
        d.class_id <= 0x3f00_0000 || 0x7f80_0000 < d.class_id <= 0xbf00_0000 || d.class_id
            > 0xff80_0000)),
{
    !below(d.confidence, HALF) && !below(HALF, d.class_id % 0x8000_0000)
}

/// The main subject among the first `n` detections: the person with the largest
/// area, the first such.
pub open spec fn main_person_of(ds: Seq<Detection>, areas: Seq<u32>, n: nat) -> Option<usize>
    decreases n,
{
    if n == 0 {
        None
    } else {
        let k = n - 1;
        let best = main_person_of(ds, areas, k as nat);
        if !counts(ds[k]) {
            best
        } else {
            match best {
                None => Some(k as usize),
                Some(b) => if is_below(areas[b as int], areas[k]) {
                    Some(k as usize)
                } else {
                    best
                },
            }
        }
    }
}

/// Picks the main subject: the person with the largest box. `areas` holds the
/// area of each detection's box.
pub fn main_person(detections: &[Detection], areas: &[u32]) -> (best: Option<usize>)
    requires
        detections@.len() == areas@.len(),
    ensures
        best == main_person_of(detections@, areas@, detections@.len()),
        best is Some ==> best->0 < detections@.len(),
        (forall|k: int| 0 <= k < areas@.len() ==> (#[trigger] areas@[k]) <= 0x7f80_0000) ==> (
        match best {
            None => forall|k: int| 0 <= k < detections@.len() ==> !counts(#[trigger] detections@[k]),
            Some(b) => {
                &&& counts(detections@[b as int])
                &&& forall|k: int|
                    0 <= k < detections@.len() && counts(#[trigger] detections@[k]) ==> areas@[k]
                        <= areas@[b as int]
                &&& forall|k: int|
                    0 <= k < b && counts(#[trigger] detections@[k]) ==> areas@[k]
                        < areas@[b as int]
            },
        }),
{
    let mut best: Option<usize> = None;
    let mut i: usize = 0;
    while i < detections.len()
        invariant
            detections@.len() == areas@.len(),
            i <= detections@.len(),
            best == main_person_of(detections@, areas@, i as nat),
            best is Some ==> best->0 < i,
        decreases detections@.len() - i,
    {
        if is_person(&detections[i]) {
            best = match best {
                None => Some(i),
                Some(b) => if below(areas[b], areas[i]) {
                    Some(i)
                } else {
                    Some(b)
                },
            };
        }
        i += 1;
    }
    proof {
        let n: usize = detections.len();
        assert(detections@.len() == n);
        if forall|k: int| 0 <= k < areas@.len() ==> (#[trigger] areas@[k]) <= 0x7f80_0000 {
            law_main_person_has_greatest_area(detections@, areas@);
        }
    }
    best
}

/// Where every area is a number: a subject is picked exactly when there is a
/// person, it is a person, no person has a larger area, and no earlier one has
/// the same.
pub proof fn law_main_person_is_largest(ds: Seq<Detection>, areas: Seq<u32>, n: nat)
    requires
        n <= ds.len() <= usize::MAX,
        ds.len() == areas.len(),
        forall|k: int| 0 <= k < n ==> !is_nan(#[trigger] areas[k]),
    ensures
        main_person_of(ds, areas, n) is Some <==> exists|k: int|
            0 <= k < n && counts(#[trigger] ds[k]),
        main_person_of(ds, areas, n) matches Some(b) ==> {
            &&& b < n
            &&& counts(ds[b as int])
            &&& forall|k: int|
                0 <= k < n && counts(#[trigger] ds[k]) ==> rank(areas[k]) <= rank(areas[b as int])
            &&& forall|k: int|
                0 <= k < b && counts(#[trigger] ds[k]) ==> rank(areas[k]) < rank(areas[b as int])
        },
    decreases n,
{
    if n > 0 {
        law_main_person_is_largest(ds, areas, (n - 1) as nat);
        assert(!is_nan(areas[n - 1]));
        if counts(ds[n - 1]) {
            if let Some(b) = main_person_of(ds, areas, (n - 1) as nat) {
                assert(!is_nan(areas[b as int]));
            }
        }
    }
}

/// How patterns compare as numbers, on the patterns themselves. Of two numbers
/// without the sign bit, the one with the greater pattern is greater; with the sign
/// bit on both it is the other way round. What has the sign bit is below what does
/// not, unless both are zero. What is no number is below nothing, and nothing is
/// below it.
pub proof fn law_patterns_order_numbers(a: u32, b: u32)
    ensures
        a <= 0x7f80_0000 && b <= 0x7f80_0000 ==> (is_below(a, b) <==> a < b),
        0x8000_0000 <= a <= 0xff80_0000 && 0x8000_0000 <= b <= 0xff80_0000 ==> (is_below(a, b)
            <==> b < a),
        0x8000_0000 <= a <= 0xff80_0000 && b <= 0x7f80_0000 ==> (is_below(a, b) <==> a
            != 0x8000_0000 || b != 0) && !is_below(b, a),
        0x7f80_0000 < a < 0x8000_0000 || a > 0xff80_0000 ==> is_nan(a) && !is_below(a, b)
            && !is_below(b, a),
        is_nan(a) ==> 0x7f80_0000 < a < 0x8000_0000 || a > 0xff80_0000,
{
}

/// Which detections count, on the patterns themselves: the score is one half or
/// more, or no number, and the class number is at most one half away from zero, or
/// no number.
pub proof fn law_counted_detections(d: Detection)
    ensures
        counts(d) <==> {
            &&& 0x3f00_0000 <= d.confidence < 0x8000_0000 || d.confidence > 0xff80_0000
            &&& {
                ||| d.class_id <= 0x3f00_0000
                ||| 0x7f80_0000 < d.class_id < 0x8000_0000
                ||| 0x8000_0000 <= d.class_id <= 0xbf00_0000
                ||| d.class_id > 0xff80_0000
            }
        },
{
}

/// The main subject is the person with the largest box, on the patterns of the
/// areas themselves: where all areas are numbers from zero on, no person that
/// counts has a greater one than the one picked, and none before it has the same.
/// Somebody is picked exactly if somebody counts.
pub proof fn law_main_person_has_greatest_area(ds: Seq<Detection>, areas: Seq<u32>)
    requires
        ds.len() == areas.len(),
        ds.len() <= usize::MAX,
        forall|k: int| 0 <= k < ds.len() ==> (#[trigger] areas[k]) <= 0x7f80_0000,
    ensures
        main_person_of(ds, areas, ds.len()) is None <==> forall|k: int|
            0 <= k < ds.len() ==> !counts(#[trigger] ds[k]),
        main_person_of(ds, areas, ds.len()) matches Some(b) ==> {
            &&& b < ds.len()
            &&& counts(ds[b as int])
            &&& forall|k: int|
                0 <= k < ds.len() && counts(#[trigger] ds[k]) ==> areas[k] <= areas[b as int]
            &&& forall|k: int|
                0 <= k < b && counts(#[trigger] ds[k]) ==> areas[k] < areas[b as int]
        },
{
    assert forall|k: int| 0 <= k < ds.len() implies !is_nan(#[trigger] areas[k]) by {
        law_patterns_order_numbers(areas[k], areas[k]);
    }
    law_main_person_is_largest(ds, areas, ds.len());
    if let Some(b) = main_person_of(ds, areas, ds.len()) {
        assert(areas[b as int] <= 0x7f80_0000);
    }
}

/// One detection more changes the pick only if it counts and nobody was picked yet,
/// or if both areas are numbers and its own is the greater one.
pub proof fn law_one_detection_more(ds: Seq<Detection>, areas: Seq<u32>, n: nat)
    requires
        n < ds.len() <= usize::MAX,
        ds.len() == areas.len(),
    ensures
        ({
            let before = main_person_of(ds, areas, n);
            let after = main_person_of(ds, areas, n + 1);
            let number = |p: u32| p <= 0x7f80_0000 || 0x8000_0000 <= p <= 0xff80_0000;
            &&& after == before || after == Some(n as usize)
            &&& !counts(ds[n as int]) ==> after == before
            &&& counts(ds[n as int]) && before is None ==> after == Some(n as usize)
            &&& before matches Some(b) ==> (!number(areas[b as int]) || !number(areas[n as int])
                || areas[n as int] == areas[b as int] ==> after == before)
        }),
{
}

/// A detection is made of six numbers in a row, in the order of its fields, and the
/// next one starts where it ends.
pub proof fn law_detections_lie_in_rows(data: Seq<u32>, i: int)
    ensures
        ({
            let d = detection_at(data, i);
            data.len() >= 6 * i + 6 && i >= 0 ==> seq![
                d.x1,
                d.y1,
                d.x2,
                d.y2,
                d.confidence,
                d.class_id,
            ] == data.subrange(6 * i, 6 * i + 6)
        }),
{
    let d = detection_at(data, i);
    if data.len() >= 6 * i + 6 && i >= 0 {
        assert(seq![d.x1, d.y1, d.x2, d.y2, d.confidence, d.class_id] =~= data.subrange(
            6 * i,
            6 * i + 6,
        ));
    }
}

/// The sizes of a frame agree with each other, and the patterns of one half are
/// those of the two formats.
pub proof fn law_frame_sizes_agree()
    ensures
        MODEL_SIZE == 384,
        PLANE_SIZE == 384 * 384,
        FRAME_BYTES == 3 * 384 * 384,
        HALF == 126u32 << 23,
        CENTER == 1022u64 << 52,
{
    assert(0x3f00_0000u32 == 126u32 << 23) by (bit_vector);
    assert(0x3fe0_0000_0000_0000u64 == 1022u64 << 52) by (bit_vector);
}

} // verus!
