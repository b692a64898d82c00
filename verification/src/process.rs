//! What the run of one `ffmpeg` process comes to.

use vstd::prelude::*;
use vstd::string::*;
use vstd::utf8::*;

verus! {

/// How many bytes of a process's messages an error keeps at most: the end of them,
/// where the cause usually stands.
pub const TAIL_BYTES: usize = 3000;

/// What a running process reports.
pub enum ProcessEvent {
    /// Text on its error stream.
    Stderr(String),
    /// It could not be run on.
    Error(String),
    /// It has ended, with this exit code if it has one.
    Terminated(Option<i32>),
    /// Anything else.
    Other,
}

/// The end of a text: as many of its last characters as fit into the bytes that
/// are kept.
pub open spec fn tail_text(text: Seq<char>) -> Seq<char>
    decreases text.len(),
{
    if text.len() == 0 || encode_utf8(text).len() <= TAIL_BYTES {
        text
    } else {
        tail_text(text.drop_first())
    }
}

/// Where a text can be parted, its bytes can be.
proof fn lemma_boundary(a: Seq<char>, b: Seq<char>)
    ensures
        encode_utf8(a + b) == encode_utf8(a) + encode_utf8(b),
        is_char_boundary(encode_utf8(a + b), encode_utf8(a).len() as int),
    decreases a.len(),
{
    let text = a + b;
    let bytes = encode_utf8(text);
    encode_utf8_valid_utf8(text);
    if a.len() == 0 {
        assert(text =~= b);
        assert(bytes =~= encode_utf8(a) + encode_utf8(b));
    } else {
        lemma_boundary(a.drop_first(), b);
        assert(text.drop_first() =~= a.drop_first() + b);
        assert(text[0] == a[0]);
        assert(bytes =~= encode_utf8(a) + encode_utf8(b));
        encode_utf8_first_scalar(text);
        assert(pop_first_scalar(bytes) =~= encode_utf8(text.drop_first()));
    }
}

/// The last characters that fit are those before which no further one fits.
proof fn lemma_tail(head: Seq<char>, tail: Seq<char>)
    requires
        encode_utf8(tail).len() <= TAIL_BYTES,
        head.len() > 0 ==> encode_utf8(seq![head.last()] + tail).len() > TAIL_BYTES,
    ensures
        tail_text(head + tail) == tail,
    decreases head.len(),
{
    let text = head + tail;
    if head.len() == 0 {
        assert(text =~= tail);
    } else {
        assert(text =~= head.drop_last() + (seq![head.last()] + tail));
        lemma_boundary(head.drop_last(), seq![head.last()] + tail);
        assert(text.drop_first() =~= head.drop_first() + tail);
        if head.len() > 1 {
            assert(head.drop_first().last() == head.last());
        }
        lemma_tail(head.drop_first(), tail);
    }
}

/// The end of a text. It starts at a whole character.
pub fn tail_of(text: &str) -> (tail: &str)
    ensures
        tail@ == tail_text(text@),
{
    let len: usize = text.as_bytes().len();
    if len <= TAIL_BYTES {
        return text;
    }
    let ghost bytes = encode_utf8(text@);
    proof {
        encode_utf8_valid_utf8(text@);
        is_char_boundary_start_end_of_seq(bytes);
    }
    let mut from: usize = len - TAIL_BYTES;
    while !text.is_char_boundary(from)
        invariant
            bytes == encode_utf8(text@),
            len == bytes.len(),
            len > TAIL_BYTES,
            len - TAIL_BYTES <= from <= len,
            is_char_boundary(bytes, len as int),
            forall|j: int| len - TAIL_BYTES <= j < from ==> !#[trigger] is_char_boundary(bytes, j),
        decreases len - from,
    {
        from += 1;
    }
    let (before, tail) = text.split_at(from);
    proof {
        let head = before@;
        decode_utf8_split(bytes, from as int);
        encode_utf8_decode_utf8(text@);
        encode_utf8_decode_utf8(head);
        encode_utf8_decode_utf8(tail@);
        assert(text@ == head + tail@);
        if head.len() > 0 {
            let longer = seq![head.last()] + tail@;
            assert(text@ =~= head.drop_last() + longer);
            lemma_boundary(head.drop_last(), longer);
            lemma_boundary(seq![head.last()], tail@);
            encode_utf8_first_scalar(seq![head.last()]);
            assert(encode_utf8(seq![head.last()]).len() > 0);
            assert(is_char_boundary(bytes, len - encode_utf8(longer).len()));
        }
        lemma_tail(head, tail@);
    }
    tail
}

/// The end of a text is its last part, no longer than may be kept. A text that fits
/// is kept whole; of one that does not, no more is lost than the part of a character
/// that does not fit: one character more would be too much.
pub proof fn law_tail_is_suffix(text: Seq<char>)
    ensures
        tail_text(text).len() <= text.len(),
        tail_text(text) == text.skip(text.len() - tail_text(text).len()),
        encode_utf8(tail_text(text)).len() <= 3000,
        encode_utf8(text).len() <= 3000 ==> tail_text(text) == text,
        encode_utf8(text).len() > 3000 ==> encode_utf8(tail_text(text)).len() >= 2997,
        tail_text(text).len() < text.len() ==> encode_utf8(
            text.skip(text.len() - tail_text(text).len() - 1),
        ).len() > 3000,
    decreases text.len(),
{
    if text.len() == 0 || encode_utf8(text).len() <= TAIL_BYTES {
        assert(text.skip(0) =~= text);
    } else {
        let rest = text.drop_first();
        law_tail_is_suffix(rest);
        let n = tail_text(text).len() as int;
        assert(rest.skip(rest.len() - n) =~= text.skip(text.len() - n));
        if n < rest.len() {
            assert(rest.skip(rest.len() - n - 1) =~= text.skip(text.len() - n - 1));
        } else {
            assert(text.skip(0) =~= text);
        }
    }
}

/// Where a character starts at the first byte that may be kept, exactly as many bytes
/// are kept as may be: the last ones of the text.
pub proof fn law_tail_is_full(text: Seq<char>)
    requires
        encode_utf8(text).len() > 3000,
        is_char_boundary(encode_utf8(text), encode_utf8(text).len() - 3000),
    ensures
        encode_utf8(tail_text(text)) == encode_utf8(text).skip(encode_utf8(text).len() - 3000),
{
    let bytes = encode_utf8(text);
    let from = bytes.len() - TAIL_BYTES;
    let first = bytes.subrange(0, from);
    let second = bytes.subrange(from, bytes.len() as int);
    encode_utf8_valid_utf8(text);
    encode_utf8_decode_utf8(text);
    valid_utf8_split(bytes, from);
    decode_utf8_split(bytes, from);
    decode_utf8_encode_utf8(first);
    decode_utf8_encode_utf8(second);
    let head = decode_utf8(first);
    let tail = decode_utf8(second);
    if head.len() > 0 {
        lemma_boundary(seq![head.last()], tail);
        encode_utf8_first_scalar(seq![head.last()]);
    }
    lemma_tail(head, tail);
    assert(second =~= bytes.skip(from));
}

/// Of an ASCII text the last characters are kept, as many as bytes may be.
pub proof fn law_ascii_tail(text: Seq<char>)
    requires
        is_ascii_chars(text),
        text.len() > 3000,
    ensures
        tail_text(text) == text.skip(text.len() - 3000),
    decreases text.len(),
{
    let rest = text.drop_first();
    is_ascii_chars_encode_utf8(text);
    assert(is_ascii_chars(rest));
    is_ascii_chars_encode_utf8(rest);
    if rest.len() > TAIL_BYTES {
        law_ascii_tail(rest);
        assert(rest.skip(rest.len() - TAIL_BYTES) =~= text.skip(text.len() - TAIL_BYTES));
    } else {
        assert(tail_text(rest) == rest);
        assert(rest =~= text.skip(1));
    }
}

/// What the run of a process came to.
pub enum Outcome {
    Success,
    Failure(String),
}

/// The process has not ended well.
pub open spec fn failed(code: Option<i32>) -> bool {
    code != Some(0i32)
}

/// Follows the reports of one process.
pub struct ProcessWatch {
    stderr: String,
}

impl ProcessWatch {
    /// The messages of the process so far.
    pub closed spec fn messages(&self) -> Seq<char> {
        self.stderr@
    }

    /// A watch on a process that has just started.
    pub fn new() -> (watch: ProcessWatch)
        ensures
            watch.messages() == Seq::<char>::empty(),
    {
        ProcessWatch { stderr: String::new() }
    }

    /// Takes note of a report. Once it says what the run came to, that is
    /// returned, and no further report counts. A process whose reports end without
    /// such a one has succeeded.
    pub fn observe(&mut self, event: ProcessEvent) -> (outcome: Option<Outcome>)
        ensures
            final(self).messages() == (match event {
                ProcessEvent::Stderr(text) => old(self).messages() + text@,
                _ => old(self).messages(),
            }),
            match event {
                ProcessEvent::Stderr(_) | ProcessEvent::Other => outcome is None,
                ProcessEvent::Error(message) => outcome == Some(Outcome::Failure(message)),
                ProcessEvent::Terminated(code) => if failed(code) {
                    &&& outcome matches Some(Outcome::Failure(message))
                    &&& message@ == "ffmpeg exited with error: "@ + tail_text(
                        old(self).messages(),
                    )
                } else {
                    outcome == Some(Outcome::Success)
                },
            },
            event matches ProcessEvent::Terminated(code) ==> (outcome == Some(Outcome::Success)
                <==> code == Some(0i32)),
            outcome is Some <==> event is Error || event is Terminated,
    {
        match event {
            ProcessEvent::Stderr(text) => {
                self.stderr.append(text.as_str());
                None
            },
            ProcessEvent::Error(message) => Some(Outcome::Failure(message)),
            ProcessEvent::Terminated(code) => {
                let good: bool = match code {
                    Some(c) => c == 0,
                    None => false,
                };
                if good {
                    return Some(Outcome::Success);
                }
                let tail: &str = tail_of(self.stderr.as_str());
                let mut message: String = "ffmpeg exited with error: ".to_owned();
                message.append(tail);
                Some(Outcome::Failure(message))
            },
            ProcessEvent::Other => None,
        }
    }
}

/// What is done once a cut is over.
pub enum CutEnd {
    /// The output stands.
    Keep,
    /// The cut was broken off on request: what there is of the output is removed.
    Discard,
    /// The cut failed.
    Fail(String),
}

/// Decides what is done once a cut is over. A failure after a stop was asked for
/// is no failure: the process was killed.
pub fn settle_cut(outcome: Outcome, stop_requested: bool) -> (end: CutEnd)
    ensures
        end == (match outcome {
            Outcome::Success => CutEnd::Keep,
            Outcome::Failure(message) => if stop_requested {
                CutEnd::Discard
            } else {
                CutEnd::Fail(message)
            },
        }),
{
    match outcome {
        Outcome::Success => CutEnd::Keep,
        Outcome::Failure(message) => if stop_requested {
            CutEnd::Discard
        } else {
            CutEnd::Fail(message)
        },
    }
}

/// A process has succeeded only if it ended with the exit code zero.
pub proof fn law_only_zero_is_success(code: Option<i32>)
    ensures
        failed(code) <==> code is None || code->0 != 0,
{
}

} // verus!
