//! The course of a job: pausing, stopping, and what is reported.

use crate::text::{append_decimal, decimal};
use vstd::prelude::*;
use vstd::string::*;

verus! {

/// How long a paused job waits before it looks again, in milliseconds.
pub const PAUSE_POLL_MILLIS: u64 = 300;

/// What the user has asked of the running job.
#[derive(Clone, Copy, PartialEq, Eq, Structural)]
pub struct Control {
    pub pause: bool,
    pub stop: bool,
}

impl Control {
    /// Nothing is asked of a job that starts.
    pub fn start() -> (control: Control)
        ensures
            control == (Control { pause: false, stop: false }),
    {
        Control { pause: false, stop: false }
    }

    /// The user asks the job to pause.
    pub fn pause(self) -> (control: Control)
        ensures
            control == (Control { pause: true, stop: self.stop }),
    {
        Control { pause: true, stop: self.stop }
    }

    /// The user asks the job to go on.
    pub fn resume(self) -> (control: Control)
        ensures
            control == (Control { pause: false, stop: self.stop }),
    {
        Control { pause: false, stop: self.stop }
    }

    /// The user asks the job to stop. That ends a pause.
    pub fn stop(self) -> (control: Control)
        ensures
            control == (Control { pause: false, stop: true }),
    {
        Control { pause: false, stop: true }
    }
}

/// Where the job on one file stands.
#[derive(Clone, Copy, PartialEq, Eq, Structural)]
pub enum Phase {
    /// This chunk is next.
    Ready(usize),
    /// The job waits before this chunk.
    Paused(usize),
    /// This chunk was the last to be cut.
    Cut(usize),
    /// The job is over.
    Finished,
}

/// What the job on one file does next.
#[derive(Clone, Copy, PartialEq, Eq, Structural)]
pub enum Step {
    /// Report that it is paused at this chunk, and wait.
    Wait(usize),
    /// Cut this chunk.
    CutChunk(usize),
    /// Look again, nothing else.
    Advance,
    /// Report that it was stopped at this chunk, and end.
    ReportStopped(usize),
    /// Report that the file is complete, and end.
    ReportDone,
    /// End with the error of the chunk that could not be cut.
    Fail,
    /// End without a report.
    Leave,
}

/// What the job on one file sees when it decides: what the user has asked, and
/// whether the chunk that it has just cut could not be cut after all.
#[derive(Clone, Copy, PartialEq, Eq, Structural)]
pub struct Seen {
    pub control: Control,
    pub cut_failed: bool,
}

/// Where a job on a file of `count` chunks stands next, and what it does.
pub open spec fn next_step(phase: Phase, seen: Seen, count: usize) -> (Phase, Step) {
    match phase {
        Phase::Ready(i) => if seen.control.stop {
            (Phase::Finished, Step::ReportStopped(i))
        } else if seen.control.pause {
            (Phase::Paused(i), Step::Wait(i))
        } else {
            (Phase::Cut(i), Step::CutChunk(i))
        },
        Phase::Paused(i) => if seen.control.stop {
            (Phase::Finished, Step::Leave)
        } else if seen.control.pause {
            (Phase::Paused(i), Step::Wait(i))
        } else {
            (Phase::Cut(i), Step::CutChunk(i))
        },
        Phase::Cut(i) => if seen.cut_failed {
            (Phase::Finished, Step::Fail)
        } else if seen.control.stop {
            (Phase::Finished, Step::ReportStopped(i))
        } else if i + 1 < count {
            (Phase::Ready((i + 1) as usize), Step::Advance)
        } else {
            (Phase::Finished, Step::ReportDone)
        },
        Phase::Finished => (Phase::Finished, Step::Leave),
    }
}

/// Decides what the job on one file does next. Pausing takes effect between
/// chunks; stopping takes effect at the next decision; a chunk that could not be
/// cut ends the job on its file.
pub fn decide(phase: Phase, seen: Seen, count: usize) -> (next: (Phase, Step))
    ensures
        next == next_step(phase, seen, count),
{
    match phase {
        Phase::Ready(i) => if seen.control.stop {
            (Phase::Finished, Step::ReportStopped(i))
        } else if seen.control.pause {
            (Phase::Paused(i), Step::Wait(i))
        } else {
            (Phase::Cut(i), Step::CutChunk(i))
        },
        Phase::Paused(i) => if seen.control.stop {
            (Phase::Finished, Step::Leave)
        } else if seen.control.pause {
            (Phase::Paused(i), Step::Wait(i))
        } else {
            (Phase::Cut(i), Step::CutChunk(i))
        },
        Phase::Cut(i) => if seen.cut_failed {
            (Phase::Finished, Step::Fail)
        } else if seen.control.stop {
            (Phase::Finished, Step::ReportStopped(i))
        } else if i < count && count - i > 1 {
            (Phase::Ready(i + 1), Step::Advance)
        } else {
            (Phase::Finished, Step::ReportDone)
        },
        Phase::Finished => (Phase::Finished, Step::Leave),
    }
}

/// A step after which the job on its file goes on.
pub open spec fn is_on_the_way(step: Step) -> bool {
    step is Wait || step is CutChunk || step is Advance
}

/// Whether the job on a file goes on after a step. Every other step ends it.
pub fn goes_on(step: Step) -> (on: bool)
    ensures
        on == is_on_the_way(step),
{
    match step {
        Step::Wait(_) | Step::CutChunk(_) | Step::Advance => true,
        Step::ReportStopped(_) | Step::ReportDone | Step::Fail | Step::Leave => false,
    }
}

/// A job goes on after a step exactly if it is not over then.
pub proof fn law_goes_on_until_finished(phase: Phase, seen: Seen, count: usize)
    ensures
        is_on_the_way(next_step(phase, seen, count).1) <==> next_step(phase, seen, count).0
            != Phase::Finished,
{
}

/// The steps of a job that sees a run of things.
pub open spec fn steps(phase: Phase, count: usize, run: Seq<Seen>) -> Seq<Step>
    decreases run.len(),
{
    if run.len() == 0 {
        Seq::empty()
    } else {
        let (after, step) = next_step(phase, run[0], count);
        seq![step] + steps(after, count, run.drop_first())
    }
}

/// The chunks that are cut, in order.
pub open spec fn chunks_cut(taken: Seq<Step>) -> Seq<usize>
    decreases taken.len(),
{
    if taken.len() == 0 {
        Seq::empty()
    } else {
        match taken[0] {
            Step::CutChunk(i) => seq![i] + chunks_cut(taken.drop_first()),
            _ => chunks_cut(taken.drop_first()),
        }
    }
}

/// The first chunk that is still to be cut.
pub open spec fn first_open(phase: Phase, count: usize) -> int {
    match phase {
        Phase::Ready(i) => i as int,
        Phase::Paused(i) => i as int,
        Phase::Cut(i) => i + 1,
        Phase::Finished => count as int,
    }
}

/// The numbers from `from` up to, not including, `to`.
pub open spec fn counting(from: int, to: int) -> Seq<usize> {
    Seq::new((to - from) as nat, |k: int| (from + k) as usize)
}

proof fn lemma_chunks_in_order(phase: Phase, count: usize, run: Seq<Seen>)
    requires
        first_open(phase, count) <= count,
        phase is Ready || phase is Paused ==> first_open(phase, count) < count,
    ensures
        ({
            let taken = steps(phase, count, run);
            let from = first_open(phase, count);
            let cut = chunks_cut(taken);
            &&& from + cut.len() <= count
            &&& cut == counting(from, from + cut.len())
            &&& taken.contains(Step::ReportDone) ==> phase !is Finished && from + cut.len()
                == count
        }),
    decreases run.len(),
{
    let taken = steps(phase, count, run);
    let from = first_open(phase, count);
    if run.len() == 0 {
        assert(chunks_cut(taken) =~= counting(from, from));
    } else {
        let (after, step) = next_step(phase, run[0], count);
        let rest = steps(after, count, run.drop_first());
        lemma_chunks_in_order(after, count, run.drop_first());
        assert(taken.drop_first() =~= rest);
        assert(taken[0] == step);
        if taken.contains(Step::ReportDone) && step != Step::ReportDone {
            let k = choose|k: int| 0 <= k < taken.len() && taken[k] == Step::ReportDone;
            assert(rest[k - 1] == Step::ReportDone);
            assert(rest.contains(Step::ReportDone));
        }
        if phase is Finished || after is Finished {
            lemma_finished(count, run.drop_first());
        }
        assert(chunks_cut(taken) =~= counting(from, from + chunks_cut(taken).len()));
    }
}

proof fn lemma_finished(count: usize, run: Seq<Seen>)
    ensures
        chunks_cut(steps(Phase::Finished, count, run)).len() == 0,
        !steps(Phase::Finished, count, run).contains(Step::ReportDone),
    decreases run.len(),
{
    let taken = steps(Phase::Finished, count, run);
    if run.len() > 0 {
        lemma_finished(count, run.drop_first());
        let rest = steps(Phase::Finished, count, run.drop_first());
        assert(taken.drop_first() =~= rest);
        assert forall|k: int| 0 <= k < taken.len() implies taken[k] != Step::ReportDone by {
            if k > 0 {
                assert(taken[k] == rest[k - 1]);
                assert(rest.contains(rest[k - 1]));
            }
        }
    }
}

/// However a job is paused, resumed and stopped, its chunks are cut one after the
/// other from the first on, none twice and none left out, and the file is
/// reported complete only when all of them have been cut.
pub proof fn law_chunks_in_order(count: usize, run: Seq<Seen>)
    requires
        count > 0,
    ensures
        ({
            let taken = steps(Phase::Ready(0), count, run);
            let cut = chunks_cut(taken);
            &&& cut.len() <= count
            &&& cut == counting(0, cut.len() as int)
            &&& taken.contains(Step::ReportDone) ==> cut == counting(0, count as int)
        }),
{
    lemma_chunks_in_order(Phase::Ready(0), count, run);
}

/// Nothing is asked, and nothing has failed.
pub open spec fn quiet() -> Seen {
    Seen { control: Control { pause: false, stop: false }, cut_failed: false }
}

proof fn lemma_quiet_run(i: usize, count: usize)
    requires
        i < count,
    ensures
        steps(
            Phase::Ready(i),
            count,
            Seq::new((2 * (count - i)) as nat, |k: int| quiet()),
        ).contains(Step::ReportDone),
    decreases count - i,
{
    let run = Seq::new((2 * (count - i)) as nat, |k: int| quiet());
    let taken = steps(Phase::Ready(i), count, run);
    let first = run.drop_first();
    let second = first.drop_first();
    assert(run[0] == quiet() && first[0] == quiet());
    let (after, last) = next_step(Phase::Cut(i), quiet(), count);
    assert(steps(Phase::Cut(i), count, first) == seq![last] + steps(after, count, second));
    assert(taken == seq![Step::CutChunk(i)] + steps(Phase::Cut(i), count, first));
    assert(taken[1] == last);
    if i + 1 < count {
        lemma_quiet_run((i + 1) as usize, count);
        assert(second =~= Seq::new((2 * (count - i - 1)) as nat, |k: int| quiet()));
        let rest = steps(after, count, second);
        let k = choose|k: int| 0 <= k < rest.len() && rest[k] == Step::ReportDone;
        assert(taken[k + 2] == Step::ReportDone);
    }
}

/// A job that is left alone cuts all its chunks and reports the file complete.
pub proof fn law_quiet_job_completes(count: usize)
    requires
        count > 0,
    ensures
        ({
            let taken = steps(
                Phase::Ready(0),
                count,
                Seq::new((2 * count) as nat, |k: int| quiet()),
            );
            &&& taken.contains(Step::ReportDone)
            &&& chunks_cut(taken) == counting(0, count as int)
        }),
{
    let run = Seq::new((2 * count) as nat, |k: int| quiet());
    lemma_quiet_run(0, count);
    assert(run =~= Seq::new((2 * (count - 0)) as nat, |k: int| quiet()));
    law_chunks_in_order(count, run);
}

/// A job that is asked to stop is over at its next decision, without another cut,
/// and stays so. It reports that, unless it was waiting in a pause or its chunk
/// has failed.
pub proof fn law_stop_ends_job(phase: Phase, seen: Seen, count: usize)
    requires
        seen.control.stop,
    ensures
        next_step(phase, seen, count).0 == Phase::Finished,
        next_step(phase, seen, count).1 == (match phase {
            Phase::Ready(i) => Step::ReportStopped(i),
            Phase::Cut(i) => if seen.cut_failed {
                Step::Fail
            } else {
                Step::ReportStopped(i)
            },
            _ => Step::Leave,
        }),
        forall|later: Seen|
            #[trigger] next_step(Phase::Finished, later, count) == (Phase::Finished, Step::Leave),
{
}

/// A chunk that could not be cut ends the job on its file, whatever the user has
/// asked.
pub proof fn law_failure_ends_job(i: usize, seen: Seen, count: usize)
    requires
        seen.cut_failed,
    ensures
        next_step(Phase::Cut(i), seen, count) == (Phase::Finished, Step::Fail),
{
}

/// A paused job cuts nothing, and goes on with the same chunk once it is resumed.
pub proof fn law_pause_holds_chunk(phase: Phase, i: usize, seen: Seen, count: usize)
    requires
        phase == Phase::Ready(i) || phase == Phase::Paused(i),
        !seen.control.stop,
    ensures
        seen.control.pause ==> next_step(phase, seen, count) == (Phase::Paused(i), Step::Wait(i)),
        !seen.control.pause ==> next_step(phase, seen, count) == (
            Phase::Cut(i),
            Step::CutChunk(i),
        ),
{
}

/// A paused job looks again after three tenths of a second.
pub proof fn law_pause_is_polled()
    ensures
        PAUSE_POLL_MILLIS == 300,
{
}

/// A pause that is asked for while a chunk is cut waits until the chunk is done.
pub proof fn law_pause_waits_for_chunk(i: usize, cut_failed: bool, stop: bool, count: usize)
    ensures
        next_step(
            Phase::Cut(i),
            Seen { control: Control { pause: true, stop }, cut_failed },
            count,
        ) == next_step(
            Phase::Cut(i),
            Seen { control: Control { pause: false, stop }, cut_failed },
            count,
        ),
{
}

/// The step that ends a job, if one of those taken does.
pub open spec fn ending(taken: Seq<Step>) -> Option<Step>
    decreases taken.len(),
{
    if taken.len() == 0 {
        None
    } else if is_on_the_way(taken[0]) {
        ending(taken.drop_first())
    } else {
        Some(taken[0])
    }
}

/// Which of the cuts that a job makes have failed, in order.
pub open spec fn failures(phase: Phase, count: usize, run: Seq<Seen>) -> Seq<bool>
    decreases run.len(),
{
    if run.len() == 0 {
        Seq::empty()
    } else {
        let rest = failures(next_step(phase, run[0], count).0, count, run.drop_first());
        if phase is Cut {
            seq![run[0].cut_failed] + rest
        } else {
            rest
        }
    }
}

/// Nobody asks the job to stop.
pub open spec fn unstopped(run: Seq<Seen>) -> bool {
    forall|k: int| 0 <= k < run.len() ==> !(#[trigger] run[k]).control.stop
}

proof fn lemma_unstopped_run(phase: Phase, count: usize, run: Seq<Seen>)
    requires
        phase !is Finished,
        unstopped(run),
        ending(steps(phase, count, run)) is Some,
    ensures
        ({
            let taken = steps(phase, count, run);
            let failed = failures(phase, count, run);
            &&& failed.len() > 0
            &&& chunks_cut(taken).len() + (if phase is Cut {
                1int
            } else {
                0
            }) == failed.len()
            &&& ending(taken) == Some(
                if failed.last() {
                    Step::Fail
                } else {
                    Step::ReportDone
                },
            )
        }),
    decreases run.len(),
{
    let taken = steps(phase, count, run);
    let (after, step) = next_step(phase, run[0], count);
    let later = run.drop_first();
    let rest = steps(after, count, later);
    assert(taken.drop_first() =~= rest);
    assert(taken[0] == step);
    assert(!run[0].control.stop);
    assert forall|k: int| 0 <= k < later.len() implies !(#[trigger] later[k]).control.stop by {
        assert(later[k] == run[k + 1]);
    }
    if is_on_the_way(step) {
        lemma_unstopped_run(after, count, later);
    } else {
        lemma_finished(count, later);
        assert(failures(after, count, later).len() == 0) by {
            lemma_finished_failures(count, later);
        }
    }
}

proof fn lemma_finished_failures(count: usize, run: Seq<Seen>)
    ensures
        failures(Phase::Finished, count, run).len() == 0,
    decreases run.len(),
{
    if run.len() > 0 {
        lemma_finished_failures(count, run.drop_first());
    }
}

/// Pauses change nothing but the time: two runs of a job that nobody stops, that
/// both end and in which the same cuts fail cut the same chunks and end alike,
/// whenever and for however long each of them is paused.
pub proof fn law_pauses_change_nothing(count: usize, a: Seq<Seen>, b: Seq<Seen>)
    requires
        count > 0,
        unstopped(a),
        unstopped(b),
        ending(steps(Phase::Ready(0), count, a)) is Some,
        ending(steps(Phase::Ready(0), count, b)) is Some,
        failures(Phase::Ready(0), count, a) == failures(Phase::Ready(0), count, b),
    ensures
        chunks_cut(steps(Phase::Ready(0), count, a)) == chunks_cut(
            steps(Phase::Ready(0), count, b),
        ),
        ending(steps(Phase::Ready(0), count, a)) == ending(steps(Phase::Ready(0), count, b)),
{
    lemma_unstopped_run(Phase::Ready(0), count, a);
    lemma_unstopped_run(Phase::Ready(0), count, b);
    law_chunks_in_order(count, a);
    law_chunks_in_order(count, b);
}

/// A job that nobody stops ends only once a cut has failed or all chunks are cut:
/// it fails after the first cut that fails, and otherwise reports the file
/// complete after the last chunk.
pub proof fn law_unstopped_job_ends(count: usize, run: Seq<Seen>)
    requires
        count > 0,
        unstopped(run),
        ending(steps(Phase::Ready(0), count, run)) is Some,
    ensures
        ({
            let taken = steps(Phase::Ready(0), count, run);
            let failed = failures(Phase::Ready(0), count, run);
            &&& 0 < failed.len() <= count
            &&& chunks_cut(taken) == counting(0, failed.len() as int)
            &&& forall|k: int| 0 <= k < failed.len() - 1 ==> !#[trigger] failed[k]
            &&& failed.last() ==> ending(taken) == Some(Step::Fail)
            &&& !failed.last() ==> ending(taken) == Some(Step::ReportDone) && failed.len() == count
        }),
{
    let taken = steps(Phase::Ready(0), count, run);
    lemma_unstopped_run(Phase::Ready(0), count, run);
    law_chunks_in_order(count, run);
    lemma_failure_is_last(Phase::Ready(0), count, run);
    lemma_ending_taken(taken);
    if !failures(Phase::Ready(0), count, run).last() {
        assert(chunks_cut(taken) == counting(0, count as int));
    }
}

proof fn lemma_ending_taken(taken: Seq<Step>)
    ensures
        ending(taken) matches Some(step) ==> taken.contains(step),
    decreases taken.len(),
{
    if taken.len() > 0 && is_on_the_way(taken[0]) {
        lemma_ending_taken(taken.drop_first());
        if let Some(step) = ending(taken) {
            let rest = taken.drop_first();
            let k = choose|k: int| 0 <= k < rest.len() && rest[k] == step;
            assert(taken[k + 1] == step);
        }
    } else if taken.len() > 0 {
        assert(taken.contains(taken[0]));
    }
}

proof fn lemma_failure_is_last(phase: Phase, count: usize, run: Seq<Seen>)
    ensures
        ({
            let failed = failures(phase, count, run);
            forall|k: int| 0 <= k < failed.len() - 1 ==> !#[trigger] failed[k]
        }),
    decreases run.len(),
{
    if run.len() > 0 {
        let after = next_step(phase, run[0], count).0;
        let rest = failures(after, count, run.drop_first());
        let failed = failures(phase, count, run);
        lemma_failure_is_last(after, count, run.drop_first());
        if phase is Cut {
            if run[0].cut_failed {
                lemma_finished_failures(count, run.drop_first());
            }
            assert forall|k: int| 0 <= k < failed.len() - 1 implies !#[trigger] failed[k] by {
                if k > 0 {
                    assert(failed[k] == rest[k - 1]);
                }
            }
        }
    }
}

/// The number of chunks of a file: what its length makes, and at least one.
pub fn chunk_total(needed: usize) -> (count: usize)
    ensures
        count == (if needed == 0 {
            1
        } else {
            needed
        }),
{
    if needed == 0 {
        1
    } else {
        needed
    }
}

/// The next file of a job on `count` files of which `done` are behind it. There is
/// none once all are, or a stop was asked for.
pub fn next_file(done: usize, count: usize, control: Control) -> (next: Option<usize>)
    ensures
        next == (if done < count && !control.stop {
            Some(done)
        } else {
            None
        }),
{
    if done < count && !control.stop {
        Some(done)
    } else {
        None
    }
}

/// The state of a file's job, as it is reported.
#[derive(Clone, Copy, PartialEq, Eq, Structural)]
pub enum JobStatus {
    Running,
    Paused,
    Done,
    Stopped,
    Error,
}

impl JobStatus {
    /// The word for the state.
    pub open spec fn word(self) -> Seq<char> {
        match self {
            JobStatus::Running => "running"@,
            JobStatus::Paused => "paused"@,
            JobStatus::Done => "done"@,
            JobStatus::Stopped => "stopped"@,
            JobStatus::Error => "error"@,
        }
    }

    /// The state in a word.
    pub fn text(&self) -> (text: String)
        ensures
            text@ == self.word(),
    {
        match self {
            JobStatus::Running => "running".to_owned(),
            JobStatus::Paused => "paused".to_owned(),
            JobStatus::Done => "done".to_owned(),
            JobStatus::Stopped => "stopped".to_owned(),
            JobStatus::Error => "error".to_owned(),
        }
    }
}

/// The file that a job works on.
pub struct FileJob {
    pub file_name: String,
    pub file_index: usize,
    pub file_count: usize,
    pub chunk_count: usize,
}

/// One report of a job's progress.
pub struct ProgressPayload {
    pub file_name: String,
    pub file_index: usize,
    pub file_count: usize,
    pub chunk_index: usize,
    pub chunk_count: usize,
    pub status: JobStatus,
    pub message: String,
}

impl FileJob {
    /// The report is about this file.
    pub open spec fn concerns(self, payload: ProgressPayload) -> bool {
        &&& payload.file_name@ == self.file_name@
        &&& payload.file_index == self.file_index
        &&& payload.file_count == self.file_count
        &&& payload.chunk_count == self.chunk_count
    }

    /// A report at some chunk.
    fn payload(&self, chunk_index: usize, status: JobStatus, message: String) -> (payload:
        ProgressPayload)
        ensures
            self.concerns(payload),
            payload.chunk_index == chunk_index,
            payload.status == status,
            payload.message == message,
    {
        ProgressPayload {
            file_name: self.file_name.clone(),
            file_index: self.file_index,
            file_count: self.file_count,
            chunk_index,
            chunk_count: self.chunk_count,
            status,
            message,
        }
    }

    /// The report that work on a chunk begins.
    pub fn running(&self, chunk_index: usize, message: String) -> (payload: ProgressPayload)
        ensures
            self.concerns(payload),
            payload.chunk_index == chunk_index,
            payload.status == JobStatus::Running,
            payload.message == message,
    {
        self.payload(chunk_index, JobStatus::Running, message)
    }

    /// The report that goes with the cut of a chunk, with what is to be said. No other
    /// step has one.
    pub fn report_cut(&self, step: Step, message: String) -> (payload: Option<ProgressPayload>)
        ensures
            match step {
                Step::CutChunk(i) => {
                    &&& payload matches Some(p)
                    &&& self.concerns(p)
                    &&& p.chunk_index == i
                    &&& p.status == JobStatus::Running
                    &&& p.message == message
                },
                _ => payload is None,
            },
    {
        match step {
            Step::CutChunk(i) => Some(self.running(i, message)),
            _ => None,
        }
    }

    /// The report that goes with any other step, if one does.
    pub fn report(&self, step: Step) -> (payload: Option<ProgressPayload>)
        ensures
            match step {
                Step::Wait(i) => {
                    &&& payload matches Some(p)
                    &&& self.concerns(p)
                    &&& p.chunk_index == i
                    &&& p.status == JobStatus::Paused
                    &&& p.message@ == "Paused"@
                },
                Step::ReportStopped(i) => {
                    &&& payload matches Some(p)
                    &&& self.concerns(p)
                    &&& p.chunk_index == i
                    &&& p.status == JobStatus::Stopped
                    &&& p.message@ == "Stopped by user"@
                },
                Step::ReportDone => {
                    &&& payload matches Some(p)
                    &&& self.concerns(p)
                    &&& p.chunk_index == self.chunk_count
                    &&& p.status == JobStatus::Done
                    &&& p.message@ == "File complete"@
                },
                _ => payload is None,
            },
    {
        match step {
            Step::Wait(i) => Some(self.payload(i, JobStatus::Paused, "Paused".to_owned())),
            Step::ReportStopped(i) => Some(
                self.payload(i, JobStatus::Stopped, "Stopped by user".to_owned()),
            ),
            Step::ReportDone => Some(
                self.payload(self.chunk_count, JobStatus::Done, "File complete".to_owned()),
            ),
            _ => None,
        }
    }
}

/// The report that a file failed. It says nothing of chunks.
pub fn error_report(file_name: String, file_index: usize, file_count: usize, message: String) -> (
    payload: ProgressPayload)
    ensures
        payload.file_name == file_name,
        payload.file_index == file_index,
        payload.file_count == file_count,
        payload.chunk_index == 0,
        payload.chunk_count == 0,
        payload.status == JobStatus::Error,
        payload.message == message,
{
    ProgressPayload {
        file_name,
        file_index,
        file_count,
        chunk_index: 0,
        chunk_count: 0,
        status: JobStatus::Error,
        message,
    }
}

/// How a job crops.
#[derive(Clone, Copy, PartialEq, Eq, Structural)]
pub enum CropKind {
    Uncropped,
    Static,
    Dynamic,
}

/// Decides how a job crops, by what the user has switched on.
pub fn choose_crop(crop_enabled: bool, dynamic_tracking: bool) -> (kind: CropKind)
    ensures
        kind == (if !crop_enabled {
            CropKind::Uncropped
        } else if dynamic_tracking {
            CropKind::Dynamic
        } else {
            CropKind::Static
        }),
{
    if !crop_enabled {
        CropKind::Uncropped
    } else if dynamic_tracking {
        CropKind::Dynamic
    } else {
        CropKind::Static
    }
}

/// What is said when a chunk is cut. Chunks are counted from one.
pub open spec fn cutting_text(kind: CropKind, index: nat, count: nat) -> Seq<char> {
    let verb = match kind {
        CropKind::Dynamic => "Tracking + cutting chunk "@,
        CropKind::Static => "Cropping + cutting chunk "@,
        CropKind::Uncropped => "Cutting chunk "@,
    };
    verb + decimal(index + 1) + "/"@ + decimal(count)
}

/// Says that a chunk is cut.
pub fn cutting_message(kind: CropKind, index: usize, count: usize) -> (message: String)
    requires
        index < usize::MAX,
    ensures
        message@ == cutting_text(kind, index as nat, count as nat),
{
    let mut message: String = match kind {
        CropKind::Dynamic => "Tracking + cutting chunk ".to_owned(),
        CropKind::Static => "Cropping + cutting chunk ".to_owned(),
        CropKind::Uncropped => "Cutting chunk ".to_owned(),
    };
    append_decimal(&mut message, (index + 1) as u64);
    message.append("/");
    append_decimal(&mut message, count as u64);
    message
}

/// Says that a file is converted to a format.
pub fn converting_message(ext: &str) -> (message: String)
    ensures
        message@ == "Converting to ."@ + ext@,
{
    let mut message: String = "Converting to .".to_owned();
    message.append(ext);
    message
}

/// Says how much of the video has been searched for the subject.
pub fn analyzing_message(percent: u32) -> (message: String)
    ensures
        message@ == "Analyzing subject movement… "@ + decimal(percent as nat) + "%"@,
{
    let mut message: String = "Analyzing subject movement… ".to_owned();
    append_decimal(&mut message, percent as u64);
    message.append("%");
    message
}

/// After a chunk that was cut well, a job that nobody stops goes on with the very next
/// one, and reports the file complete after the last.
pub proof fn law_next_chunk_follows(i: usize, seen: Seen, count: usize)
    requires
        !seen.control.stop,
        !seen.cut_failed,
    ensures
        i + 1 < count ==> next_step(Phase::Cut(i), seen, count) == (
            Phase::Ready((i + 1) as usize),
            Step::Advance,
        ),
        i + 1 >= count ==> next_step(Phase::Cut(i), seen, count) == (
            Phase::Finished,
            Step::ReportDone,
        ),
{
}

/// A report is about a file if it names it, its place and the number of its chunks.
pub proof fn law_reports_name_their_file(job: FileJob, payload: ProgressPayload)
    ensures
        job.concerns(payload) <==> {
            &&& payload.file_name@ == job.file_name@
            &&& payload.file_index == job.file_index
            &&& payload.file_count == job.file_count
            &&& payload.chunk_count == job.chunk_count
        },
{
}

/// The states of a job, word by word.
pub proof fn law_states_have_their_words()
    ensures
        JobStatus::Running.word() == "running"@,
        JobStatus::Paused.word() == "paused"@,
        JobStatus::Done.word() == "done"@,
        JobStatus::Stopped.word() == "stopped"@,
        JobStatus::Error.word() == "error"@,
{
}

/// What is said when a chunk is cut ends with the number of the chunk, counted from
/// one, and the number of all chunks; what comes before depends on the crop alone.
pub proof fn law_cutting_text_counts_from_one(kind: CropKind, index: nat, count: nat)
    ensures
        ({
            let end = decimal(index + 1) + "/"@ + decimal(count);
            let text = cutting_text(kind, index, count);
            &&& kind == CropKind::Uncropped ==> text == "Cutting chunk "@ + end
            &&& kind == CropKind::Static ==> text == "Cropping + cutting chunk "@ + end
            &&& kind == CropKind::Dynamic ==> text == "Tracking + cutting chunk "@ + end
        }),
{
    let end = decimal(index + 1) + "/"@ + decimal(count);
    assert(cutting_text(CropKind::Uncropped, index, count) =~= "Cutting chunk "@ + end);
    assert(cutting_text(CropKind::Static, index, count) =~= "Cropping + cutting chunk "@ + end);
    assert(cutting_text(CropKind::Dynamic, index, count) =~= "Tracking + cutting chunk "@ + end);
}

} // verus!
