//! A run over one text, and the repair of an earlier run: what is done next, given how the last
//! step went. The caller performs each step and reports back.

use crate::chunks::Chunk;
use crate::order::{law_picked, lemma_held_below, picked};
use crate::records::{
    is_numbered, numbered_name, retry_indices, ChunkRecord, ChunkStatus, RunRecord,
};
use vstd::prelude::*;

verus! {

/// What is done next.
#[derive(Debug, Clone, Copy, PartialEq, Eq, Structural)]
pub enum RunStep {
    Rip,
    ReadInput,
    StartLlm,
    CleanText,
    StopLlm,
    Harvest,
    StartTts,
    /// Load what validation needs.
    LoadEar,
    /// Speak the next chunk.
    Speak,
    Merge,
    /// Look whether there is merged audio.
    FindAudio,
    Transcode,
    StopTts,
    Finished,
    /// A step failed that the run cannot do without.
    Aborted,
}

/// What a run is asked to do.
#[derive(Debug, Clone, Copy, PartialEq, Eq, Structural)]
pub struct RunPlan {
    pub rip: bool,
    /// Stop after ripping.
    pub rip_only: bool,
    pub use_llm: bool,
    pub validate: bool,
    pub merge: bool,
    pub to_mp3: bool,
}

/// What became of a chunk.
#[derive(Debug, Clone)]
pub enum ChunkOutcome {
    Spoken,
    Quarantined,
    Failed { reason: String },
}

/// How a step went.
#[derive(Debug, Clone)]
pub enum RunEvent {
    Success,
    Failure,
    Harvested { chunks: Vec<Chunk> },
    Chunk { outcome: ChunkOutcome },
    /// Whether there is merged audio.
    Audio { exists: bool },
}

/// A run in progress.
#[derive(Debug, Clone)]
pub struct Run {
    pub plan: RunPlan,
    pub step: RunStep,
    pub chunks: Vec<Chunk>,
    pub record: RunRecord,
}

/// True if `record` tells what became of `chunk`.
pub open spec fn tells(record: ChunkRecord, chunk: Chunk) -> bool {
    &&& record.trailing_boundary == chunk.trailing_boundary
    &&& !(record.status is Skipped)
    &&& record.status is Quarantined ==> record.status->original_text@ == chunk.text@
}

/// True if `status` records `outcome` for `chunk`.
pub open spec fn records(status: ChunkStatus, outcome: ChunkOutcome, chunk: Chunk) -> bool {
    match outcome {
        ChunkOutcome::Spoken => status is Passed,
        ChunkOutcome::Quarantined => status is Quarantined && status->original_text@
            == chunk.text@,
        ChunkOutcome::Failed { reason } => status == (ChunkStatus::Failed { reason }),
    }
}

/// True if one of the chunks was spoken.
pub open spec fn any_spoken(chunks: Seq<ChunkRecord>) -> bool {
    exists|i: int| 0 <= i < chunks.len() && (#[trigger] chunks[i]).status is Passed
}

/// True if a failure of `step` ends the run.
pub open spec fn is_fatal(step: RunStep) -> bool {
    match step {
        RunStep::Rip => true,
        RunStep::ReadInput => true,
        RunStep::StartLlm => true,
        RunStep::CleanText => true,
        RunStep::StartTts => true,
        RunStep::LoadEar => true,
        RunStep::Speak => true,
        _ => false,
    }
}

/// The step after `step` went well, or failed in a way that does not end the run.
pub open spec fn step_after(step: RunStep, plan: RunPlan) -> RunStep {
    match step {
        RunStep::Rip => if plan.rip_only {
            RunStep::Finished
        } else {
            RunStep::ReadInput
        },
        RunStep::ReadInput => if plan.use_llm {
            RunStep::StartLlm
        } else {
            RunStep::Harvest
        },
        RunStep::StartLlm => RunStep::CleanText,
        RunStep::CleanText => RunStep::StopLlm,
        RunStep::StopLlm => RunStep::Harvest,
        RunStep::StartTts => if plan.validate {
            RunStep::LoadEar
        } else {
            RunStep::Speak
        },
        RunStep::LoadEar => RunStep::Speak,
        RunStep::Merge => RunStep::FindAudio,
        RunStep::Transcode => RunStep::StopTts,
        RunStep::StopTts => RunStep::Finished,
        _ => step,
    }
}

/// The step after the chunks `done` of `total` have come out.
pub open spec fn step_after_chunk(done: Seq<ChunkRecord>, total: int, plan: RunPlan) -> RunStep {
    if done.len() < total {
        RunStep::Speak
    } else if plan.merge && any_spoken(done) {
        RunStep::Merge
    } else {
        RunStep::FindAudio
    }
}

fn has_spoken(chunks: &[ChunkRecord]) -> (r: bool)
    ensures
        r == any_spoken(chunks@),
{
    let mut i: usize = 0;
    while i < chunks.len()
        invariant
            i <= chunks.len(),
            forall|k: int| 0 <= k < i ==> !((#[trigger] chunks@[k]).status is Passed),
        decreases chunks.len() - i,
    {
        if chunks[i].is_mergeable() {
            return true;
        }
        i += 1;
    }
    false
}

impl Run {
    /// True if the records so far tell of the chunks so far, and how many there are agrees with
    /// the step.
    pub open spec fn wf(&self) -> bool {
        let done = self.record.chunks@;
        &&& done.len() <= self.chunks@.len()
        &&& is_numbered(done)
        &&& forall|i: int| 0 <= i < done.len() ==> tells(#[trigger] done[i], self.chunks@[i])
        &&& match self.step {
            RunStep::StartTts | RunStep::LoadEar => done.len() == 0 && self.chunks@.len() > 0,
            RunStep::Speak => done.len() < self.chunks@.len(),
            RunStep::Merge | RunStep::FindAudio | RunStep::Transcode | RunStep::StopTts => {
                done.len() == self.chunks@.len() && self.chunks@.len() > 0
            },
            RunStep::Finished => done.len() == self.chunks@.len(),
            RunStep::Aborted => true,
            _ => self.chunks@.len() == 0,
        }
    }

    /// The next step.
    pub open spec fn next_step(&self, event: RunEvent, done: Seq<ChunkRecord>) -> RunStep {
        match event {
            RunEvent::Success => step_after(self.step, self.plan),
            RunEvent::Failure => if is_fatal(self.step) {
                RunStep::Aborted
            } else {
                step_after(self.step, self.plan)
            },
            RunEvent::Harvested { chunks } => if self.step != RunStep::Harvest {
                self.step
            } else if chunks@.len() == 0 {
                RunStep::Aborted
            } else {
                RunStep::StartTts
            },
            RunEvent::Chunk { .. } => if self.step != RunStep::Speak {
                self.step
            } else {
                step_after_chunk(done, self.chunks@.len() as int, self.plan)
            },
            RunEvent::Audio { exists } => if self.step != RunStep::FindAudio {
                self.step
            } else if self.plan.to_mp3 && self.plan.merge && exists {
                RunStep::Transcode
            } else {
                RunStep::StopTts
            },
        }
    }

    /// A run at its beginning, with a record that has no chunks yet.
    pub fn new(plan: RunPlan, record: RunRecord) -> (r: Run)
        requires
            record.chunks@.len() == 0,
        ensures
            r.wf(),
            r.plan == plan,
            r.record == record,
            r.step == if plan.rip {
                RunStep::Rip
            } else {
                RunStep::ReadInput
            },
    {
        Run {
            plan,
            step: if plan.rip {
                RunStep::Rip
            } else {
                RunStep::ReadInput
            },
            chunks: Vec::new(),
            record,
        }
    }

    fn well(&self) -> (r: RunStep)
        ensures
            r == step_after(self.step, self.plan),
    {
        match self.step {
            RunStep::Rip => {
                if self.plan.rip_only {
                    RunStep::Finished
                } else {
                    RunStep::ReadInput
                }
            },
            RunStep::ReadInput => {
                if self.plan.use_llm {
                    RunStep::StartLlm
                } else {
                    RunStep::Harvest
                }
            },
            RunStep::StartLlm => RunStep::CleanText,
            RunStep::CleanText => RunStep::StopLlm,
            RunStep::StopLlm => RunStep::Harvest,
            RunStep::StartTts => {
                if self.plan.validate {
                    RunStep::LoadEar
                } else {
                    RunStep::Speak
                }
            },
            RunStep::LoadEar => RunStep::Speak,
            RunStep::Merge => RunStep::FindAudio,
            RunStep::Transcode => RunStep::StopTts,
            RunStep::StopTts => RunStep::Finished,
            _ => self.step,
        }
    }

    fn failed(&self) -> (r: RunStep)
        ensures
            r == if is_fatal(self.step) {
                RunStep::Aborted
            } else {
                step_after(self.step, self.plan)
            },
    {
        match self.step {
            RunStep::Rip
            | RunStep::ReadInput
            | RunStep::StartLlm
            | RunStep::CleanText
            | RunStep::StartTts
            | RunStep::LoadEar
            | RunStep::Speak => RunStep::Aborted,
            _ => self.well(),
        }
    }

    /// Moves the run on by `event`. An event that does not belong to its step changes nothing.
    pub fn advance(&mut self, event: RunEvent)
        requires
            old(self).wf(),
        ensures
            final(self).wf(),
            final(self).plan == old(self).plan,
            final(self).step == old(self).next_step(event, final(self).record.chunks@),
            final(self).chunks == if old(self).step == RunStep::Harvest && event is Harvested {
                event->chunks
            } else {
                old(self).chunks
            },
            if old(self).step == RunStep::Speak && event is Chunk {
                let n = old(self).record.chunks@.len() as int;
                let last = final(self).record.chunks@.last();
                &&& final(self).record.chunks@.drop_last() == old(self).record.chunks@
                &&& final(self).record.chunks@.len() == n + 1
                &&& last.ordinal == n + 1
                &&& last.wav@ == numbered_name((n + 1) as nat, ".wav"@)
                &&& last.trailing_boundary == old(self).chunks@[n].trailing_boundary
                &&& records(last.status, event->outcome, old(self).chunks@[n])
                &&& final(self).record.timestamp == old(self).record.timestamp
                &&& final(self).record.input_file == old(self).record.input_file
                &&& final(self).record.pdf_ripped == old(self).record.pdf_ripped
                &&& final(self).record.llm_clean == old(self).record.llm_clean
            } else {
                final(self).record == old(self).record
            },
    {
        match event {
            RunEvent::Success => {
                if matches!(self.step, RunStep::Speak) {
                    return ;
                }
                self.step = self.well();
            },
            RunEvent::Failure => {
                self.step = self.failed();
            },
            RunEvent::Harvested { chunks } => {
                if matches!(self.step, RunStep::Harvest) {
                    self.step = if chunks.len() == 0 {
                        RunStep::Aborted
                    } else {
                        RunStep::StartTts
                    };
                    self.chunks = chunks;
                }
            },
            RunEvent::Chunk { outcome } => {
                if matches!(self.step, RunStep::Speak) {
                    self.put_down(outcome);
                }
            },
            RunEvent::Audio { exists } => {
                if matches!(self.step, RunStep::FindAudio) {
                    self.step = if self.plan.to_mp3 && self.plan.merge && exists {
                        RunStep::Transcode
                    } else {
                        RunStep::StopTts
                    };
                }
            },
        }
    }

    fn put_down(&mut self, outcome: ChunkOutcome)
        requires
            old(self).wf(),
            old(self).step == RunStep::Speak,
        ensures
            final(self).wf(),
            final(self).plan == old(self).plan,
            final(self).chunks == old(self).chunks,
            final(self).step == step_after_chunk(
                final(self).record.chunks@,
                old(self).chunks@.len() as int,
                old(self).plan,
            ),
            final(self).record.chunks@.len() == old(self).record.chunks@.len() + 1,
            final(self).record.chunks@.drop_last() == old(self).record.chunks@,
            records(
                final(self).record.chunks@.last().status,
                outcome,
                old(self).chunks@[old(self).record.chunks@.len() as int],
            ),
            final(self).record.chunks@.last().ordinal == old(self).record.chunks@.len() + 1,
            final(self).record.chunks@.last().wav@ == numbered_name(
                (old(self).record.chunks@.len() + 1) as nat,
                ".wav"@,
            ),
            final(self).record.chunks@.last().trailing_boundary == old(
                self,
            ).chunks@[old(self).record.chunks@.len() as int].trailing_boundary,
            final(self).record.timestamp == old(self).record.timestamp,
            final(self).record.input_file == old(self).record.input_file,
            final(self).record.pdf_ripped == old(self).record.pdf_ripped,
            final(self).record.llm_clean == old(self).record.llm_clean,
    {
        let n: usize = self.record.chunks.len();
        let total: usize = self.chunks.len();
        assert(n < total);
        let ghost before = self.record.chunks@;
        let ghost all = self.chunks@;
        let status = match outcome {
            ChunkOutcome::Spoken => ChunkStatus::Passed,
            ChunkOutcome::Quarantined => ChunkStatus::Quarantined {
                original_text: self.chunks[n].text.as_str().to_owned(),
            },
            ChunkOutcome::Failed { reason } => ChunkStatus::Failed { reason },
        };
        self.record.record_chunk(&self.chunks[n], status);
        let ghost done = self.record.chunks@;
        assert forall|i: int| 0 <= i < done.len() implies tells(#[trigger] done[i], all[i]) by {
            if i < n {
                assert(done[i] == done.drop_last()[i]);
                assert(tells(before[i], all[i]));
            } else {
                assert(done[i] == done.last());
            }
        }
        self.step = if self.record.chunks.len() < total {
            RunStep::Speak
        } else if self.plan.merge && has_spoken(self.record.chunks.as_slice()) {
            RunStep::Merge
        } else {
            RunStep::FindAudio
        };
    }
}

/// True while the server that cleans up text runs for a run.
pub open spec fn llm_runs(step: RunStep) -> bool {
    step == RunStep::CleanText || step == RunStep::StopLlm
}

/// True while the server that speaks runs for a run.
pub open spec fn tts_runs(step: RunStep) -> bool {
    match step {
        RunStep::LoadEar => true,
        RunStep::Speak => true,
        RunStep::Merge => true,
        RunStep::FindAudio => true,
        RunStep::Transcode => true,
        RunStep::StopTts => true,
        _ => false,
    }
}

/// A server that a run started is stopped before the run is finished, and the two never run at
/// the same time; only a run that is aborted leaves one behind.
pub proof fn law_run_stops_servers(run: Run, event: RunEvent, done: Seq<ChunkRecord>)
    requires
        run.wf(),
    ensures
        ({
            let next = run.next_step(event, done);
            &&& llm_runs(run.step) && !llm_runs(next) ==> run.step == RunStep::StopLlm || next
                == RunStep::Aborted
            &&& tts_runs(run.step) && !tts_runs(next) ==> run.step == RunStep::StopTts || next
                == RunStep::Aborted
            &&& !llm_runs(run.step) && llm_runs(next) ==> run.step == RunStep::StartLlm
            &&& !tts_runs(run.step) && tts_runs(next) ==> run.step == RunStep::StartTts
        }),
        forall|s: RunStep| !(llm_runs(s) && #[trigger] tts_runs(s)),
        !llm_runs(RunStep::Finished) && !tts_runs(RunStep::Finished),
{
}

/// Every chunk of a finished run has a record that tells what became of it, in the order of the
/// chunks: none is lost.
pub proof fn law_finished_run_lost_nothing(run: Run)
    requires
        run.wf(),
        run.step == RunStep::Finished,
    ensures
        run.record.chunks@.len() == run.chunks@.len(),
        is_numbered(run.record.chunks@),
        forall|i: int|
            0 <= i < run.chunks@.len() ==> tells(
                #[trigger] run.record.chunks@[i],
                run.chunks@[i],
            ),
{
}

/// The repair of an earlier run: its quarantined chunks are spoken again, one after the other.
#[derive(Debug, Clone)]
pub struct Repair {
    pub record: RunRecord,
    /// The positions of the chunks to repair.
    pub queue: Vec<usize>,
    /// How many of them were tried.
    pub tried: usize,
    pub recovered: usize,
}

impl Repair {
    /// True if the chunks that were not tried yet are quarantined, and no two are the same.
    pub open spec fn wf(&self) -> bool {
        &&& self.recovered <= self.tried <= self.queue@.len()
        &&& forall|k: int|
            0 <= k < self.queue@.len() ==> (#[trigger] self.queue@[k]) < self.record.chunks@.len()
        &&& forall|j: int, k: int|
            0 <= j < k < self.queue@.len() ==> (#[trigger] self.queue@[j]) < (
            #[trigger] self.queue@[k])
        &&& forall|k: int|
            self.tried <= k < self.queue@.len() ==> self.record.chunks@[(
            #[trigger] self.queue@[k]) as int].status is Quarantined
    }

    /// The repair of `record`.
    pub fn new(record: RunRecord) -> (r: Repair)
        ensures
            r.wf(),
            r.record == record,
            r.queue@ == picked(
                record.chunks@.len() as int,
                |i: int| record.chunks@[i].status is Quarantined,
            ),
            r.tried == 0,
            r.recovered == 0,
    {
        let queue = retry_indices(record.chunks.as_slice());
        let count: usize = record.chunks.len();
        proof {
            assert(count == record.chunks@.len());
            let wanted = |i: int| record.chunks@[i].status is Quarantined;
            law_picked(record.chunks@.len() as int, wanted);
            assert forall|k: int| 0 <= k < queue@.len() implies (#[trigger] queue@[k])
                < record.chunks@.len() && wanted(queue@[k] as int) by {
                assert(queue@.contains(queue@[k]));
            }
        }
        Repair { record, queue, tried: 0, recovered: 0 }
    }

    /// The position of the next chunk to repair.
    pub fn next(&self) -> (r: Option<usize>)
        requires
            self.wf(),
        ensures
            r == if self.tried < self.queue@.len() {
                Some(self.queue@[self.tried as int])
            } else {
                None
            },
            r matches Some(i) ==> i < self.record.chunks@.len()
                && self.record.chunks@[i as int].status is Quarantined,
    {
        if self.tried < self.queue.len() {
            Some(self.queue[self.tried])
        } else {
            None
        }
    }

    /// Puts down whether the next chunk was recovered. The other records stay as they are.
    pub fn put_down(&mut self, recovered: bool)
        requires
            old(self).wf(),
            old(self).tried < old(self).queue@.len(),
        ensures
            final(self).wf(),
            final(self).queue == old(self).queue,
            final(self).tried == old(self).tried + 1,
            final(self).recovered == old(self).recovered + if recovered {
                1int
            } else {
                0
            },
            final(self).record.chunks@ == tried_again(
                old(self).record.chunks@,
                old(self).queue@[old(self).tried as int] as int,
                recovered,
            ),
            final(self).record.timestamp == old(self).record.timestamp,
            final(self).record.input_file == old(self).record.input_file,
            final(self).record.pdf_ripped == old(self).record.pdf_ripped,
            final(self).record.llm_clean == old(self).record.llm_clean,
    {
        let i: usize = self.queue[self.tried];
        let total: usize = self.queue.len();
        assert(self.tried < total);
        if recovered {
            self.record.mark_recovered(i);
            self.recovered += 1;
        }
        self.tried += 1;
    }

    /// Number of chunks that were tried and are still quarantined.
    pub fn still_bad(&self) -> (r: usize)
        requires
            self.wf(),
        ensures
            r == self.tried - self.recovered,
    {
        self.tried - self.recovered
    }
}

/// The records of `list` after chunk `i` was tried again: if it was recovered it passes, and the
/// other records stay as they are.
pub open spec fn tried_again(list: Seq<ChunkRecord>, i: int, recovered: bool) -> Seq<ChunkRecord> {
    if recovered {
        list.update(i, (ChunkRecord { status: ChunkStatus::Passed, ..list[i] }))
    } else {
        list
    }
}

/// The records of `list` after the chunks of `queue` were tried again, one after the other, with
/// the results `results`.
pub open spec fn all_tried_again(
    list: Seq<ChunkRecord>,
    queue: Seq<usize>,
    results: Seq<bool>,
) -> Seq<ChunkRecord>
    decreases results.len(),
{
    if results.len() == 0 {
        list
    } else {
        tried_again(
            all_tried_again(list, queue, results.drop_last()),
            queue[results.len() - 1] as int,
            results.last(),
        )
    }
}

/// A repair changes the records of the quarantined chunks that were recovered, which pass, and no
/// others: failed chunks, those that passed, and those that are still bad stay as they are.
pub proof fn law_repair_spares_the_rest(list: Seq<ChunkRecord>, results: Seq<bool>)
    requires
        list.len() <= usize::MAX,
        results.len() <= picked(
            list.len() as int,
            |i: int| list[i].status is Quarantined,
        ).len(),
    ensures
        ({
            let queue = picked(list.len() as int, |i: int| list[i].status is Quarantined);
            let after = all_tried_again(list, queue, results);
            &&& after.len() == list.len()
            &&& forall|k: int|
                0 <= k < results.len() ==> after[(#[trigger] queue[k]) as int] == if results[k] {
                    ChunkRecord { status: ChunkStatus::Passed, ..list[queue[k] as int] }
                } else {
                    list[queue[k] as int]
                }
            &&& forall|i: int|
                0 <= i < list.len() && #[trigger] after[i] != list[i]
                    ==> list[i].status is Quarantined && exists|k: int|
                    0 <= k < results.len() && results[k] && #[trigger] queue[k] == i
        }),
    decreases results.len(),
{
    let wanted = |i: int| list[i].status is Quarantined;
    let queue = picked(list.len() as int, wanted);
    law_picked(list.len() as int, wanted);
    lemma_held_below(queue, list.len() as int, wanted);
    if results.len() > 0 {
        let n = results.len() - 1;
        let front = results.drop_last();
        law_repair_spares_the_rest(list, front);
        let before = all_tried_again(list, queue, front);
        let after = all_tried_again(list, queue, results);
        let here = queue[n] as int;
        assert forall|k: int| 0 <= k < n implies (#[trigger] queue[k]) < here by {
            assert(queue[k] < queue[n]);
        }
        assert(queue.contains(queue[n]));
        assert(wanted(here));
        assert(before[here] == list[here]);
        assert forall|k: int| 0 <= k < results.len() implies after[(#[trigger] queue[k]) as int]
            == if results[k] {
            ChunkRecord { status: ChunkStatus::Passed, ..list[queue[k] as int] }
        } else {
            list[queue[k] as int]
        } by {
            if k < n {
                assert(front[k] == results[k]);
                assert(queue[k] != queue[n]);
            }
        }
        assert forall|i: int|
            0 <= i < list.len() && #[trigger] after[i] != list[i] implies list[i].status
            is Quarantined && exists|k: int|
            0 <= k < results.len() && results[k] && #[trigger] queue[k] == i by {
            if i == here {
                assert(results[n] && queue[n] == i);
            } else {
                assert(before[i] != list[i]);
                let k = choose|k: int| 0 <= k < front.len() && front[k] && #[trigger] queue[k] == i;
                assert(results[k] && queue[k] == i);
            }
        }
    }
}

/// The steps that follow `step`, as long as all goes well, up to the `n`th.
pub open spec fn steps_from(step: RunStep, plan: RunPlan, n: nat) -> Seq<RunStep>
    decreases n,
{
    if n == 0 {
        seq![]
    } else {
        let next = step_after(step, plan);
        seq![next] + steps_from(next, plan, (n - 1) as nat)
    }
}

/// A run goes the way that it is asked to: a paper is ripped first, and nothing follows where that
/// is all; the text is read, cleaned up between the start and the stop of a server if that is
/// asked for, and split; what validation needs is loaded only for validation; and merged audio is
/// looked for after a merge.
pub proof fn law_run_goes_its_way(plan: RunPlan)
    ensures
        steps_from(RunStep::Rip, plan, 1) == seq![
            if plan.rip_only {
                RunStep::Finished
            } else {
                RunStep::ReadInput
            },
        ],
        plan.use_llm ==> steps_from(RunStep::ReadInput, plan, 4) == seq![
            RunStep::StartLlm,
            RunStep::CleanText,
            RunStep::StopLlm,
            RunStep::Harvest,
        ],
        !plan.use_llm ==> steps_from(RunStep::ReadInput, plan, 1) == seq![RunStep::Harvest],
        plan.validate ==> steps_from(RunStep::StartTts, plan, 2) == seq![
            RunStep::LoadEar,
            RunStep::Speak,
        ],
        !plan.validate ==> steps_from(RunStep::StartTts, plan, 1) == seq![RunStep::Speak],
        steps_from(RunStep::Merge, plan, 1) == seq![RunStep::FindAudio],
        steps_from(RunStep::Transcode, plan, 2) == seq![RunStep::StopTts, RunStep::Finished],
{
    reveal_with_fuel(steps_from, 5);
    assert(steps_from(RunStep::Rip, plan, 1) == seq![
        if plan.rip_only {
            RunStep::Finished
        } else {
            RunStep::ReadInput
        },
    ]);
    if plan.use_llm {
        assert(steps_from(RunStep::ReadInput, plan, 4) == seq![
            RunStep::StartLlm,
            RunStep::CleanText,
            RunStep::StopLlm,
            RunStep::Harvest,
        ]);
    } else {
        assert(steps_from(RunStep::ReadInput, plan, 1) == seq![RunStep::Harvest]);
    }
    if plan.validate {
        assert(steps_from(RunStep::StartTts, plan, 2) == seq![RunStep::LoadEar, RunStep::Speak]);
    } else {
        assert(steps_from(RunStep::StartTts, plan, 1) == seq![RunStep::Speak]);
    }
    assert(steps_from(RunStep::Merge, plan, 1) == seq![RunStep::FindAudio]);
    assert(steps_from(RunStep::Transcode, plan, 2) == seq![RunStep::StopTts, RunStep::Finished]);
}

/// After a chunk the next one is spoken while there is one. When all have come out, the audio is
/// merged exactly if that is asked for and at least one chunk was spoken, whichever that is.
pub proof fn law_merge_needs_a_spoken_chunk(run: Run, outcome: ChunkOutcome, done: Seq<ChunkRecord>)
    requires
        run.step == RunStep::Speak,
    ensures
        ({
            let next = run.next_step(RunEvent::Chunk { outcome }, done);
            &&& next == RunStep::Speak <==> done.len() < run.chunks@.len()
            &&& next == RunStep::Merge <==> {
                &&& done.len() >= run.chunks@.len()
                &&& run.plan.merge
                &&& done.filter(|r: ChunkRecord| r.status is Passed).len() > 0
            }
        }),
{
    lemma_any_spoken(done);
}

proof fn lemma_any_spoken(done: Seq<ChunkRecord>)
    ensures
        any_spoken(done) <==> done.filter(|r: ChunkRecord| r.status is Passed).len() > 0,
    decreases done.len(),
{
    reveal(Seq::filter);
    if done.len() > 0 {
        let front = done.drop_last();
        lemma_any_spoken(front);
        if any_spoken(front) {
            let i = choose|i: int| 0 <= i < front.len() && (#[trigger] front[i]).status is Passed;
            assert(done[i] == front[i]);
        }
        if any_spoken(done) && !(done.last().status is Passed) {
            let i = choose|i: int| 0 <= i < done.len() && (#[trigger] done[i]).status is Passed;
            assert(front[i] == done[i]);
        }
        if done.last().status is Passed {
            assert(done[done.len() - 1].status is Passed);
        }
    }
}

/// Merged audio is transcoded exactly if it is there and that is asked for, with the merge.
pub proof fn law_audio_is_transcoded(run: Run, exists: bool, done: Seq<ChunkRecord>)
    requires
        run.step == RunStep::FindAudio,
    ensures
        run.next_step(RunEvent::Audio { exists }, done) == RunStep::Transcode <==> exists
            && run.plan.merge && run.plan.to_mp3,
        run.next_step(RunEvent::Audio { exists }, done) == RunStep::Transcode || run.next_step(
            RunEvent::Audio { exists },
            done,
        ) == RunStep::StopTts,
{
}

/// A run cannot do without its text, its servers, its validation and its chunks: a failure there
/// aborts it, and so does a text without chunks. A merge or a transcoding that fails does not.
pub proof fn law_what_aborts_a_run(run: Run, done: Seq<ChunkRecord>)
    requires
        run.step != RunStep::Aborted,
    ensures
        run.next_step(RunEvent::Failure, done) == RunStep::Aborted <==> seq![
            RunStep::Rip,
            RunStep::ReadInput,
            RunStep::StartLlm,
            RunStep::CleanText,
            RunStep::StartTts,
            RunStep::LoadEar,
            RunStep::Speak,
        ].contains(run.step),
        run.step == RunStep::Merge ==> run.next_step(RunEvent::Failure, done)
            == RunStep::FindAudio,
        run.step == RunStep::Transcode ==> run.next_step(RunEvent::Failure, done)
            == RunStep::StopTts,
        forall|chunks: Vec<Chunk>|
            run.step == RunStep::Harvest ==> (#[trigger] run.next_step(
                RunEvent::Harvested { chunks },
                done,
            ) == if chunks@.len() == 0 {
                RunStep::Aborted
            } else {
                RunStep::StartTts
            }),
{
    let list = seq![
        RunStep::Rip,
        RunStep::ReadInput,
        RunStep::StartLlm,
        RunStep::CleanText,
        RunStep::StartTts,
        RunStep::LoadEar,
        RunStep::Speak,
    ];
    assert(list[0] == RunStep::Rip && list[1] == RunStep::ReadInput && list[2]
        == RunStep::StartLlm && list[3] == RunStep::CleanText && list[4] == RunStep::StartTts
        && list[5] == RunStep::LoadEar && list[6] == RunStep::Speak);
}

/// A chunk that was spoken has passed, one that failed keeps its reason, and a quarantined one the
/// text that it was made from.
pub proof fn law_records_of_outcomes(status: ChunkStatus, chunk: Chunk, reason: String)
    ensures
        records(status, ChunkOutcome::Spoken, chunk) <==> status is Passed,
        records(status, ChunkOutcome::Quarantined, chunk) <==> status is Quarantined
            && status->original_text@ == chunk.text@,
        records(status, ChunkOutcome::Failed { reason }, chunk) <==> status == (
        ChunkStatus::Failed { reason }),
{
}

} // verus!
