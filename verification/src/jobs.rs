//! One job of a batch, from its input file to its audio: what is done next, given how the last
//! step went. The caller performs each step and reports back.

use crate::batch::{classified, classify_outcome, JobOutcome, Stage};
use crate::chunks::Chunk;
use crate::order::{law_picked, lemma_picked_same, ordered, picked};
use crate::records::{Boundary, Tally};
use vstd::prelude::*;

verus! {

/// What is done next.
#[derive(Debug, Clone, Copy, PartialEq, Eq, Structural)]
pub enum Step {
    MakeWorkDir,
    Rip,
    ReadRipped,
    ReadInput,
    MakeClient,
    StartLlm,
    CleanText,
    StopLlm,
    /// Keep the text, whatever becomes of the audio.
    SaveText,
    Harvest,
    StartTts,
    /// Speak the next chunk.
    Speak,
    StopTts,
    /// Leave a note that there is no audio.
    LeaveNote,
    Merge,
    Transcode,
    MoveAudio,
    WipeWorkDir,
    Done,
}

/// How a chunk came out.
#[derive(Debug, Clone, Copy, PartialEq, Eq, Structural)]
pub enum ChunkResult {
    Spoken,
    SynthesisFailed,
    WriteFailed,
    Quarantined,
}

/// How a step went.
#[derive(Debug, Clone)]
pub enum JobEvent {
    Success,
    Failure { detail: String },
    /// The text was split into `total` chunks.
    Harvested { total: usize },
    Chunk { result: ChunkResult },
}

/// A job in progress.
#[derive(Debug, Clone)]
pub struct Job {
    pub step: Step,
    pub from_pdf: bool,
    pub use_llm: bool,
    /// Number of chunks.
    pub total: usize,
    pub tally: Tally,
    pub outcome: Option<JobOutcome>,
}

/// The stage at which a failure of `step` ends the job, if it does.
pub open spec fn fatal_stage(step: Step) -> Option<Stage> {
    match step {
        Step::MakeWorkDir => Some(Stage::WorkDir),
        Step::Rip => Some(Stage::Rip),
        Step::ReadRipped => Some(Stage::ReadRipped),
        Step::ReadInput => Some(Stage::ReadInput),
        Step::MakeClient => Some(Stage::Client),
        Step::StartLlm => Some(Stage::StartLlm),
        Step::CleanText => Some(Stage::Cleanup),
        Step::StartTts => Some(Stage::StartTts),
        Step::Merge => Some(Stage::Merge),
        _ => None,
    }
}

/// Where a job goes on after a failure that ends it: what was started is stopped, and the work
/// directory is wiped if there is one.
pub open spec fn unwound(step: Step) -> Step {
    match step {
        Step::MakeWorkDir => Step::Done,
        Step::CleanText => Step::StopLlm,
        _ => Step::WipeWorkDir,
    }
}

/// The tally after one more chunk.
pub open spec fn counted(t: Tally, result: ChunkResult) -> Tally {
    match result {
        ChunkResult::Spoken => Tally { good: (t.good + 1) as usize, ..t },
        ChunkResult::Quarantined => Tally { quarantined: (t.quarantined + 1) as usize, ..t },
        _ => Tally { failed: (t.failed + 1) as usize, ..t },
    }
}

/// Number of chunks that have come out.
pub open spec fn come_out(t: Tally) -> int {
    t.good + t.failed + t.quarantined
}

/// The outcome by how the chunks came out.
pub open spec fn outcome_of(t: Tally) -> JobOutcome {
    classified(t.good as int, t.failed + t.quarantined)
}

impl Job {
    /// True if the tally, the step and the outcome agree.
    pub open spec fn wf(&self) -> bool {
        let sum = come_out(self.tally);
        &&& sum <= self.total
        &&& match self.step {
            Step::StartTts => sum == 0 && self.total > 0 && self.outcome is None,
            Step::Speak => sum < self.total && self.outcome is None,
            Step::StopTts => sum == self.total && self.total > 0 && self.outcome is None,
            Step::LeaveNote | Step::Merge | Step::Transcode | Step::MoveAudio => {
                &&& sum == self.total
                &&& self.outcome == Some(outcome_of(self.tally))
            },
            Step::WipeWorkDir | Step::Done => {
                &&& self.outcome matches Some(o)
                &&& o is HardFail || o == outcome_of(self.tally) && sum == self.total
            },
            Step::StopLlm => {
                &&& self.total == 0
                &&& self.outcome matches Some(o) ==> o is HardFail
            },
            _ => self.total == 0 && self.outcome is None,
        }
    }

    /// The job after `event`. An event that does not belong to its step changes nothing.
    pub open spec fn after(self, event: JobEvent) -> Job {
        match event {
            JobEvent::Failure { detail } if fatal_stage(self.step) is Some => Job {
                step: unwound(self.step),
                outcome: Some(
                    JobOutcome::HardFail { stage: fatal_stage(self.step)->0, detail },
                ),
                ..self
            },
            JobEvent::Harvested { total } if self.step == Step::Harvest => if total == 0 {
                Job { step: Step::WipeWorkDir, outcome: Some(JobOutcome::Picturebook), ..self }
            } else {
                Job { step: Step::StartTts, total, ..self }
            },
            JobEvent::Chunk { result } if self.step == Step::Speak => {
                let tally = counted(self.tally, result);
                Job {
                    step: if come_out(tally) < self.total {
                        Step::Speak
                    } else {
                        Step::StopTts
                    },
                    tally,
                    ..self
                }
            },
            JobEvent::Success => self.succeeded(),
            JobEvent::Failure { .. } => self.past_failure(),
            _ => self,
        }
    }

    /// The job after its step went well.
    pub open spec fn succeeded(self) -> Job {
        match self.step {
            Step::MakeWorkDir => Job {
                step: if self.from_pdf {
                    Step::Rip
                } else {
                    Step::ReadInput
                },
                ..self
            },
            Step::Rip => Job { step: Step::ReadRipped, ..self },
            Step::ReadRipped | Step::ReadInput => Job {
                step: if self.use_llm {
                    Step::MakeClient
                } else {
                    Step::SaveText
                },
                ..self
            },
            Step::MakeClient => Job { step: Step::StartLlm, ..self },
            Step::StartLlm => Job { step: Step::CleanText, ..self },
            Step::CleanText => Job { step: Step::StopLlm, ..self },
            Step::StopLlm => Job {
                step: if self.outcome is Some {
                    Step::WipeWorkDir
                } else {
                    Step::SaveText
                },
                ..self
            },
            Step::SaveText => Job { step: Step::Harvest, ..self },
            Step::StartTts => Job { step: Step::Speak, ..self },
            Step::StopTts => {
                let outcome = outcome_of(self.tally);
                Job {
                    step: if outcome is Picturebook {
                        Step::LeaveNote
                    } else {
                        Step::Merge
                    },
                    outcome: Some(outcome),
                    ..self
                }
            },
            Step::Merge => Job { step: Step::Transcode, ..self },
            Step::Transcode => Job { step: Step::MoveAudio, ..self },
            Step::LeaveNote | Step::MoveAudio => Job { step: Step::WipeWorkDir, ..self },
            Step::WipeWorkDir => Job { step: Step::Done, ..self },
            Step::Harvest | Step::Speak | Step::Done => self,
        }
    }

    /// The job after its step failed in a way that does not end it.
    pub open spec fn past_failure(self) -> Job {
        match self.step {
            Step::Transcode => Job { step: Step::WipeWorkDir, ..self },
            _ => self.succeeded(),
        }
    }

    /// A job at its beginning.
    pub fn new(from_pdf: bool, use_llm: bool) -> (r: Job)
        ensures
            r.wf(),
            r.step == Step::MakeWorkDir,
            r.from_pdf == from_pdf,
            r.use_llm == use_llm,
    {
        Job {
            step: Step::MakeWorkDir,
            from_pdf,
            use_llm,
            total: 0,
            tally: Tally { good: 0, failed: 0, quarantined: 0 },
            outcome: None,
        }
    }

    fn at(self, step: Step) -> (r: Job)
        ensures
            r == (Job { step, ..self }),
    {
        Job {
            step,
            from_pdf: self.from_pdf,
            use_llm: self.use_llm,
            total: self.total,
            tally: self.tally,
            outcome: self.outcome,
        }
    }

    fn ended(self, step: Step, outcome: JobOutcome) -> (r: Job)
        ensures
            r == (Job { step, outcome: Some(outcome), ..self }),
    {
        Job {
            step,
            from_pdf: self.from_pdf,
            use_llm: self.use_llm,
            total: self.total,
            tally: self.tally,
            outcome: Some(outcome),
        }
    }

    fn well(self) -> (r: Job)
        requires
            self.wf(),
        ensures
            r == self.succeeded(),
    {
        match self.step {
            Step::MakeWorkDir => {
                if self.from_pdf {
                    self.at(Step::Rip)
                } else {
                    self.at(Step::ReadInput)
                }
            },
            Step::Rip => self.at(Step::ReadRipped),
            Step::ReadRipped | Step::ReadInput => {
                if self.use_llm {
                    self.at(Step::MakeClient)
                } else {
                    self.at(Step::SaveText)
                }
            },
            Step::MakeClient => self.at(Step::StartLlm),
            Step::StartLlm => self.at(Step::CleanText),
            Step::CleanText => self.at(Step::StopLlm),
            Step::StopLlm => {
                if self.outcome.is_some() {
                    self.at(Step::WipeWorkDir)
                } else {
                    self.at(Step::SaveText)
                }
            },
            Step::SaveText => self.at(Step::Harvest),
            Step::StartTts => self.at(Step::Speak),
            Step::StopTts => {
                let bad: usize = self.tally.failed + self.tally.quarantined;
                let outcome = classify_outcome(self.tally.good, bad, self.total);
                if self.tally.good == 0 {
                    self.ended(Step::LeaveNote, outcome)
                } else {
                    self.ended(Step::Merge, outcome)
                }
            },
            Step::Merge => self.at(Step::Transcode),
            Step::Transcode => self.at(Step::MoveAudio),
            Step::LeaveNote | Step::MoveAudio => self.at(Step::WipeWorkDir),
            Step::WipeWorkDir => self.at(Step::Done),
            Step::Harvest | Step::Speak | Step::Done => self,
        }
    }

    /// The job after `event`.
    pub fn next(self, event: JobEvent) -> (r: Job)
        requires
            self.wf(),
        ensures
            r == self.after(event),
            r.wf(),
    {
        match event {
            JobEvent::Success => self.well(),
            JobEvent::Failure { detail } => {
                let (step, stage) = match self.step {
                    Step::MakeWorkDir => (Step::Done, Stage::WorkDir),
                    Step::Rip => (Step::WipeWorkDir, Stage::Rip),
                    Step::ReadRipped => (Step::WipeWorkDir, Stage::ReadRipped),
                    Step::ReadInput => (Step::WipeWorkDir, Stage::ReadInput),
                    Step::MakeClient => (Step::WipeWorkDir, Stage::Client),
                    Step::StartLlm => (Step::WipeWorkDir, Stage::StartLlm),
                    Step::CleanText => (Step::StopLlm, Stage::Cleanup),
                    Step::StartTts => (Step::WipeWorkDir, Stage::StartTts),
                    Step::Merge => (Step::WipeWorkDir, Stage::Merge),
                    Step::Transcode => {
                        return self.at(Step::WipeWorkDir);
                    },
                    _ => {
                        return self.well();
                    },
                };
                self.ended(step, JobOutcome::HardFail { stage, detail })
            },
            JobEvent::Harvested { total } => {
                if !matches!(self.step, Step::Harvest) {
                    self
                } else if total == 0 {
                    self.ended(Step::WipeWorkDir, JobOutcome::Picturebook)
                } else {
                    Job {
                        step: Step::StartTts,
                        from_pdf: self.from_pdf,
                        use_llm: self.use_llm,
                        total,
                        tally: self.tally,
                        outcome: self.outcome,
                    }
                }
            },
            JobEvent::Chunk { result } => {
                if !matches!(self.step, Step::Speak) {
                    return self;
                }
                let t = self.tally;
                let tally = match result {
                    ChunkResult::Spoken => Tally {
                        good: t.good + 1,
                        failed: t.failed,
                        quarantined: t.quarantined,
                    },
                    ChunkResult::Quarantined => Tally {
                        good: t.good,
                        failed: t.failed,
                        quarantined: t.quarantined + 1,
                    },
                    _ => Tally {
                        good: t.good,
                        failed: t.failed + 1,
                        quarantined: t.quarantined,
                    },
                };
                let sum: usize = tally.good + tally.failed + tally.quarantined;
                Job {
                    step: if sum < self.total {
                        Step::Speak
                    } else {
                        Step::StopTts
                    },
                    from_pdf: self.from_pdf,
                    use_llm: self.use_llm,
                    total: self.total,
                    tally,
                    outcome: self.outcome,
                }
            },
        }
    }
}

/// True while the job has a work directory.
pub open spec fn has_work_dir(step: Step) -> bool {
    step != Step::MakeWorkDir && step != Step::Done
}

/// True while the server that cleans up text runs for the job.
pub open spec fn has_llm(step: Step) -> bool {
    step == Step::CleanText || step == Step::StopLlm
}

/// True while the server that speaks runs for the job.
pub open spec fn has_tts(step: Step) -> bool {
    step == Step::Speak || step == Step::StopTts
}

/// The work directory goes only by being wiped, whatever the outcome, and a job that is over has
/// none.
pub proof fn law_work_dir_is_wiped(job: Job, event: JobEvent)
    requires
        job.wf(),
    ensures
        has_work_dir(job.step) && !has_work_dir(job.after(event).step) ==> job.step
            == Step::WipeWorkDir,
        !has_work_dir(job.step) && has_work_dir(job.after(event).step) ==> job.step
            == Step::MakeWorkDir && event is Success,
        !has_work_dir(Step::Done),
{
}

/// A server that a job started goes only by being stopped, and it is started only if its start
/// went well. The two never run at the same time, and none runs while the audio is merged.
pub proof fn law_servers_are_stopped(job: Job, event: JobEvent)
    requires
        job.wf(),
    ensures
        has_llm(job.step) && !has_llm(job.after(event).step) ==> job.step == Step::StopLlm,
        !has_llm(job.step) && has_llm(job.after(event).step) ==> job.step == Step::StartLlm
            && event is Success,
        has_tts(job.step) && !has_tts(job.after(event).step) ==> job.step == Step::StopTts,
        !has_tts(job.step) && has_tts(job.after(event).step) ==> job.step == Step::StartTts
            && event is Success,
        forall|s: Step| !(has_llm(s) && #[trigger] has_tts(s)),
        !has_llm(Step::Merge) && !has_tts(Step::Merge),
        !has_llm(Step::Done) && !has_tts(Step::Done),
{
}

/// A job fails hard only if one of its steps failed, at the stage of that step.
pub proof fn law_only_failures_fail(job: Job, event: JobEvent)
    requires
        job.wf(),
        job.after(event).outcome matches Some(o) && o is HardFail,
        !(job.outcome matches Some(o) && o is HardFail),
    ensures
        event is Failure,
        fatal_stage(job.step) is Some,
        job.after(event).outcome == Some(
            JobOutcome::HardFail { stage: fatal_stage(job.step)->0, detail: event->detail },
        ),
{
}

/// A job that is over without a hard failure has the outcome that its chunks give it, and all of
/// them have come out.
pub proof fn law_outcome_follows_chunks(job: Job)
    requires
        job.wf(),
        job.step == Step::Done,
    ensures
        job.outcome matches Some(o) && (o is HardFail || o == outcome_of(job.tally) && come_out(
            job.tally,
        ) == job.total),
{
}

/// How many steps may still lie before a job, apart from its chunks.
pub open spec fn steps_left(step: Step) -> nat {
    match step {
        Step::MakeWorkDir => 17,
        Step::Rip => 16,
        Step::ReadRipped => 15,
        Step::ReadInput => 15,
        Step::MakeClient => 14,
        Step::StartLlm => 13,
        Step::CleanText => 12,
        Step::StopLlm => 11,
        Step::SaveText => 10,
        Step::Harvest => 9,
        Step::StartTts => 8,
        Step::Speak => 7,
        Step::StopTts => 6,
        Step::LeaveNote => 5,
        Step::Merge => 5,
        Step::Transcode => 4,
        Step::MoveAudio => 3,
        Step::WipeWorkDir => 2,
        Step::Done => 0,
    }
}

/// True if `event` tells how `step` went.
pub open spec fn belongs(step: Step, event: JobEvent) -> bool {
    match step {
        Step::Harvest => event is Harvested,
        Step::Speak => event is Chunk,
        Step::Done => false,
        _ => event is Success || event is Failure,
    }
}

/// Each event that tells how a step went brings the job nearer to its end.
pub proof fn law_job_comes_to_an_end(job: Job, event: JobEvent)
    requires
        job.wf(),
        belongs(job.step, event),
    ensures
        ({
            let next = job.after(event);
            ||| steps_left(next.step) < steps_left(job.step)
            ||| {
                &&& next.step == Step::Speak && job.step == Step::Speak
                &&& next.total - come_out(next.tally) < job.total - come_out(job.tally)
            }
        }),
{
}

/// The positions of the chunks that were spoken, in order.
pub open spec fn spoken(results: Seq<ChunkResult>) -> Seq<usize> {
    picked(results.len() as int, |i: int| results[i] == ChunkResult::Spoken)
}

/// Which chunks are merged, and the silence that follows each: those that were spoken, in order.
pub fn merge_list(chunks: &[Chunk], results: &[ChunkResult]) -> (r: (
    Vec<usize>,
    Vec<Option<Boundary>>,
))
    requires
        chunks.len() == results.len(),
    ensures
        r.0@ == picked(results@.len() as int, |i: int| results@[i] == ChunkResult::Spoken),
        r.1@ == r.0@.map_values(|i: usize| chunks@[i as int].trailing_boundary),
{
    let ghost wanted = |i: int| results@[i] == ChunkResult::Spoken;
    let ghost follows = |i: usize| chunks@[i as int].trailing_boundary;
    let mut list: Vec<usize> = Vec::new();
    let mut boundaries: Vec<Option<Boundary>> = Vec::new();
    let mut i: usize = 0;
    while i < results.len()
        invariant
            i <= results.len(),
            chunks.len() == results.len(),
            wanted == (|i: int| results@[i] == ChunkResult::Spoken),
            follows == (|i: usize| chunks@[i as int].trailing_boundary),
            list@ == picked(i as int, wanted),
            boundaries@ == list@.map_values(follows),
        decreases results.len() - i,
    {
        if results[i] == ChunkResult::Spoken {
            let ghost before = list@;
            list.push(i);
            boundaries.push(chunks[i].trailing_boundary);
            assert(list@.map_values(follows) == before.map_values(follows).push(follows(i)));
        }
        i += 1;
    }
    (list, boundaries)
}

/// A chunk is merged exactly if it was spoken, and the chunks are merged in order: one that is
/// quarantined or failed has no part in the audio.
pub proof fn law_only_spoken_chunks_are_merged(results: Seq<ChunkResult>)
    requires
        results.len() <= usize::MAX,
    ensures
        forall|i: usize|
            #[trigger] spoken(results).contains(i) <==> i < results.len() && results[i as int]
                == ChunkResult::Spoken,
        ordered(spoken(results), |i: int, j: int| i < j),
{
    law_picked(results.len() as int, |i: int| results[i] == ChunkResult::Spoken);
}

/// The job after its chunks came out with `results`, one after the other.
pub open spec fn after_chunks(job: Job, results: Seq<ChunkResult>) -> Job
    decreases results.len(),
{
    if results.len() == 0 {
        job
    } else {
        after_chunks(job, results.drop_last()).after(JobEvent::Chunk { result: results.last() })
    }
}

proof fn lemma_after_chunks(job: Job, results: Seq<ChunkResult>)
    requires
        job.wf(),
        job.step == Step::Speak,
        come_out(job.tally) == 0,
        results.len() <= job.total,
    ensures
        ({
            let end = after_chunks(job, results);
            &&& end.wf()
            &&& end.total == job.total
            &&& end.step == if results.len() < job.total {
                Step::Speak
            } else {
                Step::StopTts
            }
            &&& come_out(end.tally) == results.len()
            &&& end.tally.good == spoken(results).len()
        }),
    decreases results.len(),
{
    if results.len() > 0 {
        let front = results.drop_last();
        lemma_after_chunks(job, front);
        lemma_picked_same(
            front.len() as int,
            |i: int| front[i] == ChunkResult::Spoken,
            |i: int| results[i] == ChunkResult::Spoken,
        );
    }
}

/// When all chunks of a job have come out, as many are merged as the job counted good, so that
/// there is audio to merge unless the job has no audio at all.
pub proof fn law_good_chunks_are_merged(job: Job, results: Seq<ChunkResult>)
    requires
        job.wf(),
        job.step == Step::Speak,
        come_out(job.tally) == 0,
        results.len() == job.total,
    ensures
        ({
            let end = after_chunks(job, results);
            &&& end.step == Step::StopTts
            &&& end.tally.good == spoken(results).len()
            &&& end.succeeded().step == Step::Merge <==> spoken(results).len() > 0
        }),
{
    lemma_after_chunks(job, results);
}

/// How long to rest after the request for chunk `ordinal`: not at all after the last one.
pub fn rest_after(ordinal: usize, total: usize, rest_ms: u64) -> (r: Option<u64>)
    ensures
        r == if ordinal < total && rest_ms > 0 {
            Some(rest_ms)
        } else {
            None
        },
{
    if ordinal < total && rest_ms > 0 {
        Some(rest_ms)
    } else {
        None
    }
}

/// The steps of a job after `job`, as long as all goes well, up to the `n`th.
pub open spec fn steps_of(job: Job, n: nat) -> Seq<Step>
    decreases n,
{
    if n == 0 {
        seq![]
    } else {
        let next = job.after(JobEvent::Success);
        seq![next.step] + steps_of(next, (n - 1) as nat)
    }
}

/// A job that nothing goes wrong in gets its text, from a paper or a text file, has it cleaned up
/// if that is asked for, keeps it and splits it; once the chunks are spoken it stops the server
/// and merges, transcodes and moves the audio, or leaves a note if there is none; and last it
/// wipes its work directory.
pub proof fn law_job_goes_its_way(job: Job)
    ensures
        job.step == Step::MakeWorkDir && job.from_pdf ==> steps_of(job, 2) == seq![
            Step::Rip,
            Step::ReadRipped,
        ],
        job.step == Step::MakeWorkDir && !job.from_pdf ==> steps_of(job, 1) == seq![
            Step::ReadInput,
        ],
        (job.step == Step::ReadRipped || job.step == Step::ReadInput) && job.use_llm && job.outcome
            is None ==> steps_of(job, 6) == seq![
            Step::MakeClient,
            Step::StartLlm,
            Step::CleanText,
            Step::StopLlm,
            Step::SaveText,
            Step::Harvest,
        ],
        (job.step == Step::ReadRipped || job.step == Step::ReadInput) && !job.use_llm ==> steps_of(
            job,
            2,
        ) == seq![Step::SaveText, Step::Harvest],
        job.step == Step::StartTts ==> steps_of(job, 1) == seq![Step::Speak],
        job.step == Step::StopTts && job.tally.good > 0 ==> steps_of(job, 5) == seq![
            Step::Merge,
            Step::Transcode,
            Step::MoveAudio,
            Step::WipeWorkDir,
            Step::Done,
        ],
        job.step == Step::StopTts && job.tally.good == 0 ==> steps_of(job, 3) == seq![
            Step::LeaveNote,
            Step::WipeWorkDir,
            Step::Done,
        ],
{
    reveal_with_fuel(steps_of, 7);
    assert(job.step == Step::MakeWorkDir && job.from_pdf ==> steps_of(job, 2) == seq![
        Step::Rip,
        Step::ReadRipped,
    ]);
    assert(job.step == Step::MakeWorkDir && !job.from_pdf ==> steps_of(job, 1) == seq![
        Step::ReadInput,
    ]);
    assert((job.step == Step::ReadRipped || job.step == Step::ReadInput) && job.use_llm
        && job.outcome is None ==> steps_of(job, 6) == seq![
        Step::MakeClient,
        Step::StartLlm,
        Step::CleanText,
        Step::StopLlm,
        Step::SaveText,
        Step::Harvest,
    ]);
    assert((job.step == Step::ReadRipped || job.step == Step::ReadInput) && !job.use_llm
        ==> steps_of(job, 2) == seq![Step::SaveText, Step::Harvest]);
    assert(job.step == Step::StartTts ==> steps_of(job, 1) == seq![Step::Speak]);
    assert(job.step == Step::StopTts && job.tally.good > 0 ==> steps_of(job, 5) == seq![
        Step::Merge,
        Step::Transcode,
        Step::MoveAudio,
        Step::WipeWorkDir,
        Step::Done,
    ]);
    assert(job.step == Step::StopTts && job.tally.good == 0 ==> steps_of(job, 3) == seq![
        Step::LeaveNote,
        Step::WipeWorkDir,
        Step::Done,
    ]);
}

/// A failure ends a job hard, with what went wrong, where it cannot go on: without its directory,
/// its text, its servers or its merged audio. Text that cannot be kept, audio that cannot be
/// transcoded or moved, and a note that cannot be left do not end it.
pub proof fn law_what_ends_a_job(job: Job, detail: String)
    ensures
        ({
            let next = job.after(JobEvent::Failure { detail });
            let hard = seq![
                Step::MakeWorkDir,
                Step::Rip,
                Step::ReadRipped,
                Step::ReadInput,
                Step::MakeClient,
                Step::StartLlm,
                Step::CleanText,
                Step::StartTts,
                Step::Merge,
            ];
            let stages = seq![
                Stage::WorkDir,
                Stage::Rip,
                Stage::ReadRipped,
                Stage::ReadInput,
                Stage::Client,
                Stage::StartLlm,
                Stage::Cleanup,
                Stage::StartTts,
                Stage::Merge,
            ];
            &&& forall|k: int|
                0 <= k < hard.len() && job.step == #[trigger] hard[k] ==> next.outcome == Some(
                    JobOutcome::HardFail { stage: stages[k], detail },
                ) && next.step == if k == 0 {
                    Step::Done
                } else if k == 6 {
                    Step::StopLlm
                } else {
                    Step::WipeWorkDir
                }
            &&& job.step == Step::SaveText ==> next == (Job { step: Step::Harvest, ..job })
            &&& job.step == Step::Transcode || job.step == Step::MoveAudio || job.step
                == Step::LeaveNote ==> next == (Job { step: Step::WipeWorkDir, ..job })
        }),
{
}

/// A text without chunks makes a job without audio; any other is spoken.
pub proof fn law_empty_text_has_no_audio(job: Job, total: usize)
    requires
        job.step == Step::Harvest,
    ensures
        ({
            let next = job.after(JobEvent::Harvested { total });
            &&& total == 0 ==> next == (Job {
                step: Step::WipeWorkDir,
                outcome: Some(JobOutcome::Picturebook),
                ..job
            })
            &&& total > 0 ==> next == (Job { step: Step::StartTts, total, ..job })
        }),
{
}

/// The tally of a job counts each chunk once, as what it came out: spoken, quarantined or, in
/// either way, failed.
pub proof fn law_chunks_are_counted(job: Job, results: Seq<ChunkResult>)
    requires
        job.wf(),
        job.step == Step::Speak,
        come_out(job.tally) == 0,
        results.len() <= job.total,
    ensures
        ({
            let t = after_chunks(job, results).tally;
            &&& t.good == results.filter(|r: ChunkResult| r == ChunkResult::Spoken).len()
            &&& t.quarantined == results.filter(
                |r: ChunkResult| r == ChunkResult::Quarantined,
            ).len()
            &&& t.failed == results.filter(
                |r: ChunkResult|
                    r == ChunkResult::SynthesisFailed || r == ChunkResult::WriteFailed,
            ).len()
        }),
    decreases results.len(),
{
    reveal(Seq::filter);
    if results.len() > 0 {
        law_chunks_are_counted(job, results.drop_last());
        lemma_after_chunks(job, results.drop_last());
    }
}

} // verus!
