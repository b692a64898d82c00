//! Cutting a stream of raw video into frames.

use crate::tracking::FRAME_BYTES;
use vstd::prelude::*;

verus! {

/// What a frame feed holds: the bytes that wait for a frame to be complete, how
/// many frames it has handed out, and how many it may hand out.
pub struct FeedState {
    pub pending: Seq<u8>,
    pub index: nat,
    pub max: nat,
}

impl FeedState {
    /// No more frames are out than may be.
    pub open spec fn wf(self) -> bool {
        self.index <= self.max
    }

    /// All bytes at hand once `chunk` has come in.
    pub open spec fn joined(self, chunk: Seq<u8>) -> Seq<u8> {
        self.pending + chunk
    }

    /// How many frames `chunk` completes.
    pub open spec fn complete(self, chunk: Seq<u8>) -> nat {
        self.joined(chunk).len() / FRAME_BYTES as nat
    }

    /// How many frames are handed out when `chunk` comes in.
    pub open spec fn count(self, chunk: Seq<u8>) -> nat {
        if self.complete(chunk) <= self.max - self.index {
            self.complete(chunk)
        } else {
            (self.max - self.index) as nat
        }
    }

    /// The frames that are handed out when `chunk` comes in.
    pub open spec fn frames(self, chunk: Seq<u8>) -> Seq<Seq<u8>> {
        Seq::new(
            self.count(chunk),
            |k: int|
                self.joined(chunk).subrange(k * FRAME_BYTES, k * FRAME_BYTES + FRAME_BYTES),
        )
    }

    /// How many frames are taken off the bytes at hand: those handed out and,
    /// where there are more than may be, the one after them.
    pub open spec fn taken(self, chunk: Seq<u8>) -> nat {
        if self.count(chunk) < self.complete(chunk) {
            self.count(chunk) + 1
        } else {
            self.count(chunk)
        }
    }

    /// The feed after `chunk`.
    pub open spec fn next(self, chunk: Seq<u8>) -> FeedState {
        FeedState {
            pending: self.joined(chunk).skip(self.taken(chunk) * FRAME_BYTES),
            index: self.index + self.count(chunk),
            max: self.max,
        }
    }
}

/// Collects the bytes of a stream and hands out its frames.
pub struct FrameFeed {
    buffer: Vec<u8>,
    frame_index: usize,
    max_frames: usize,
}

impl View for FrameFeed {
    type V = FeedState;

    closed spec fn view(&self) -> FeedState {
        FeedState {
            pending: self.buffer@,
            index: self.frame_index as nat,
            max: self.max_frames as nat,
        }
    }
}

impl FrameFeed {
    /// No more frames are out than may be.
    #[verifier::type_invariant]
    spec fn inv(self) -> bool {
        self.frame_index <= self.max_frames
    }

    /// An empty feed that hands out at most `max_frames` frames.
    pub fn new(max_frames: usize) -> (feed: FrameFeed)
        ensures
            feed@ == (FeedState { pending: Seq::empty(), index: 0, max: max_frames as nat }),
    {
        let feed: FrameFeed = FrameFeed { buffer: Vec::new(), frame_index: 0, max_frames };
        assert(feed.buffer@ =~= Seq::empty());
        feed
    }

    /// How many frames have been handed out.
    pub fn frame_count(&self) -> (count: usize)
        ensures
            count == self@.index,
    {
        self.frame_index
    }

    /// Takes the next bytes of the stream and hands out the frames that they
    /// complete, in order. Once as many frames are out as may be, the next
    /// complete one is dropped.
    pub fn accept(&mut self, chunk: &[u8]) -> (frames: Vec<Vec<u8>>)
        ensures
            old(self)@.wf(),
            final(self)@ == old(self)@.next(chunk@),
            final(self)@.wf(),
            frames@.map_values(|f: Vec<u8>| f@) == old(self)@.frames(chunk@),
    {
        proof {
            use_type_invariant(&*self);
        }
        let ghost state = self@;
        let ghost all = state.joined(chunk@);
        let mut frames: Vec<Vec<u8>> = Vec::new();
        let mut buffer: Vec<u8> = Vec::new();
        std::mem::swap(&mut buffer, &mut self.buffer);
        buffer.extend_from_slice(chunk);
        let mut index: usize = self.frame_index;
        let max: usize = self.max_frames;
        let mut over: bool = false;
        assert(buffer@ =~= all);
        assert(all.skip(0) =~= all);
        while !over && buffer.len() >= FRAME_BYTES
            invariant
                state.wf(),
                state.max == max,
                index == state.index + frames@.len(),
                index <= max,
                all == state.joined(chunk@),
                over ==> index == max,
                frames@.len() + (if over {
                    1int
                } else {
                    0
                }) <= state.complete(chunk@),
                buffer@ == all.skip(
                    (frames@.len() + (if over {
                        1int
                    } else {
                        0
                    })) * FRAME_BYTES,
                ),
                forall|k: int|
                    0 <= k < frames@.len() ==> (#[trigger] frames@[k])@ == all.subrange(
                        k * FRAME_BYTES,
                        k * FRAME_BYTES + FRAME_BYTES,
                    ),
            decreases buffer@.len(),
        {
            let ghost n = frames@.len() as int;
            let mut rest: Vec<u8> = buffer.split_off(FRAME_BYTES);
            std::mem::swap(&mut buffer, &mut rest);
            assert(rest@ =~= all.subrange(n * FRAME_BYTES, n * FRAME_BYTES + FRAME_BYTES));
            assert(buffer@ =~= all.skip((n + 1) * FRAME_BYTES));
            if index >= max {
                over = true;
            } else {
                frames.push(rest);
                index += 1;
            }
        }
        self.buffer = buffer;
        self.frame_index = index;
        proof {
            let n = frames@.len();
            let left = all.len() - (n + (if over {
                1int
            } else {
                0
            })) * FRAME_BYTES;
            assert(buffer@.len() == left);
            assert(n == state.count(chunk@));
            assert(frames@.map_values(|f: Vec<u8>| f@) =~= state.frames(chunk@));
            assert(n + (if over {
                1int
            } else {
                0
            }) == state.taken(chunk@));
        }
        frames
    }
}

/// All frames that a feed hands out for a run of chunks.
pub open spec fn frames_of_all(state: FeedState, chunks: Seq<Seq<u8>>) -> Seq<Seq<u8>>
    decreases chunks.len(),
{
    if chunks.len() == 0 {
        Seq::empty()
    } else {
        state.frames(chunks[0]) + frames_of_all(state.next(chunks[0]), chunks.drop_first())
    }
}

/// The bytes of a run of chunks in a row.
pub open spec fn stream_of(chunks: Seq<Seq<u8>>) -> Seq<u8>
    decreases chunks.len(),
{
    if chunks.len() == 0 {
        Seq::empty()
    } else {
        chunks[0] + stream_of(chunks.drop_first())
    }
}

/// Every frame that is handed out is whole.
pub proof fn law_frames_are_whole(state: FeedState, chunk: Seq<u8>, k: int)
    requires
        state.wf(),
        0 <= k < state.frames(chunk).len(),
    ensures
        state.frames(chunk)[k].len() == FRAME_BYTES,
{
}

/// Bytes that come in two parts give the same frames as bytes that come at once.
pub proof fn law_frames_of_two_chunks(state: FeedState, a: Seq<u8>, b: Seq<u8>)
    requires
        state.wf(),
    ensures
        state.frames(a) + state.next(a).frames(b) == state.frames(a + b),
        state.next(a).wf(),
{
    let mid = state.next(a);
    let n = state.count(a);
    let m = mid.count(b);
    assert(state.joined(a + b) =~= state.joined(a) + b);
    let whole = state.joined(a + b);
    assert(state.frames(a).len() == n);
    assert(state.count(a + b) == n + m);
    assert forall|k: int| 0 <= k < n + m implies #[trigger] state.frames(a + b)[k] == (
    state.frames(a) + mid.frames(b))[k] by {
        if k < n {
            assert(whole.subrange(k * FRAME_BYTES, k * FRAME_BYTES + FRAME_BYTES)
                =~= state.joined(a).subrange(k * FRAME_BYTES, k * FRAME_BYTES + FRAME_BYTES));
        } else {
            let j = k - n;
            assert(whole.subrange(k * FRAME_BYTES, k * FRAME_BYTES + FRAME_BYTES)
                =~= mid.joined(b).subrange(j * FRAME_BYTES, j * FRAME_BYTES + FRAME_BYTES));
        }
    }
    assert(state.frames(a) + mid.frames(b) =~= state.frames(a + b));
}

/// However a stream is cut into chunks, a feed hands out the same frames: the
/// stream's, from its start, as many as it holds and as may be handed out.
pub proof fn law_frames_of_stream(max: nat, chunks: Seq<Seq<u8>>)
    ensures
        ({
            let fresh = FeedState { pending: Seq::empty(), index: 0, max };
            frames_of_all(fresh, chunks) == fresh.frames(stream_of(chunks))
        }),
{
    let fresh = FeedState { pending: Seq::empty(), index: 0, max };
    lemma_frames_of_all(fresh, chunks);
}

proof fn lemma_frames_of_all(state: FeedState, chunks: Seq<Seq<u8>>)
    requires
        state.wf(),
        state.pending.len() < FRAME_BYTES || state.index == state.max,
    ensures
        frames_of_all(state, chunks) == state.frames(stream_of(chunks)),
    decreases chunks.len(),
{
    if chunks.len() == 0 {
        assert(state.frames(stream_of(chunks)) =~= Seq::empty());
    } else {
        law_frames_of_two_chunks(state, chunks[0], stream_of(chunks.drop_first()));
        lemma_frames_of_all(state.next(chunks[0]), chunks.drop_first());
    }
}

/// What a feed does with its bytes, on the bytes themselves. It hands out the whole
/// frames of 442368 bytes that those waiting and those coming in make together, from
/// the front on, until as many are out as may be. What is left waits; where there was
/// one whole frame too many, that one is gone.
pub proof fn law_feed_cuts_whole_frames(state: FeedState, chunk: Seq<u8>)
    requires
        state.wf(),
    ensures
        ({
            let all = state.pending + chunk;
            let whole = all.len() / 442368;
            let open = state.max - state.index;
            let out = state.frames(chunk);
            let after = state.next(chunk);
            &&& out.len() == (if whole <= open {
                whole as int
            } else {
                open
            })
            &&& forall|k: int|
                0 <= k < out.len() ==> #[trigger] out[k] == all.subrange(
                    442368 * k,
                    442368 * k + 442368,
                )
            &&& after.index == state.index + out.len()
            &&& after.max == state.max
            &&& whole <= open ==> after.pending == all.skip(442368 * whole as int)
            &&& whole > open ==> after.pending == all.skip(442368 * (open + 1))
        }),
{
    let all = state.pending + chunk;
    let out = state.frames(chunk);
    assert(FRAME_BYTES == 442368);
    assert forall|k: int| 0 <= k < out.len() implies #[trigger] out[k] == all.subrange(
        442368 * k,
        442368 * k + 442368,
    ) by {
        assert(k * FRAME_BYTES == 442368 * k);
    }
}

} // verus!
