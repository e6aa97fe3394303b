//! Run and chunk outcome types: what a run leaves behind for later merging and repair.

use crate::chars::is_digit;
use crate::chunks::Chunk;
use crate::numbers::{decimal, law_padded_reads_back, padded, put_padded, value};
use crate::order::{holds, lemma_held_below, lemma_insert, ordered, picked};
use crate::text::{chars_of, put, string_of};
use vstd::prelude::*;

verus! {

/// The silence gap that trails a synthesis chunk.
#[derive(Debug, Clone, Copy, PartialEq, Eq, Structural)]
pub enum Boundary {
    Paragraph,
    Sentence,
}

/// What became of one synthesis chunk.
#[derive(Debug, Clone)]
pub enum ChunkStatus {
    /// The WAV was written and passed validation, or validation was off.
    Passed,
    /// Every take failed validation; no WAV is on disk. The text is the one before sanitizing.
    Quarantined { original_text: String },
    /// A failure before validation; no WAV is on disk.
    Failed { reason: String },
    /// The chunk was rejected before it was ever spoken.
    Skipped { reason: String },
}

/// The outcome of one synthesis chunk.
#[derive(Debug, Clone)]
pub struct ChunkRecord {
    /// Position in the run, counted from 1.
    pub ordinal: usize,
    /// File name of the WAV, relative to the output directory.
    pub wav: String,
    /// The gap that follows in the merged output; `None` for the final chunk.
    pub trailing_boundary: Option<Boundary>,
    pub status: ChunkStatus,
}

impl ChunkRecord {
    /// True if this chunk's WAV is ready to be merged.
    pub fn is_mergeable(&self) -> (r: bool)
        ensures
            r == (self.status is Passed),
    {
        matches!(self.status, ChunkStatus::Passed)
    }

    /// True if this chunk can be repaired by another synthesis. A failed chunk cannot: the
    /// server needs mending, not the text.
    pub fn needs_retry(&self) -> (r: bool)
        ensures
            r == (self.status is Quarantined),
    {
        matches!(self.status, ChunkStatus::Quarantined { .. })
    }

    /// The text to speak again; `None` unless the chunk is quarantined.
    pub fn quarantined_text(&self) -> (r: Option<&str>)
        ensures
            r is Some <==> self.status is Quarantined,
            r matches Some(t) ==> t@ == self.status->original_text@,
    {
        match &self.status {
            ChunkStatus::Quarantined { original_text } => Some(original_text.as_str()),
            _ => None,
        }
    }
}

/// What a text-cleanup pass did.
#[derive(Debug, Clone)]
pub struct LlmCleanRecord {
    pub model: String,
    pub words_before: usize,
    pub words_after: usize,
    /// True if the model changed the text.
    pub changed: bool,
}

/// The record of a run.
#[derive(Debug, Clone)]
pub struct RunRecord {
    /// When the run started, in the form of RFC 3339.
    pub timestamp: String,
    pub input_file: String,
    /// The paper that the text came from, if any.
    pub pdf_ripped: Option<String>,
    pub llm_clean: Option<LlmCleanRecord>,
    /// One record per chunk.
    pub chunks: Vec<ChunkRecord>,
}

pub open spec fn two_digits(s: Seq<char>, i: int) -> bool {
    is_digit(s[i]) && is_digit(s[i + 1])
}

/// True if `s` is a date and a time of day, then a fraction of a second or none, then the offset
/// of UTC; the year takes `y` characters.
pub open spec fn is_stamp_of_year(s: Seq<char>, y: int) -> bool {
    let end = s.len() - 6;
    &&& y == 4 || y == 6 || y == 7
    &&& end == y + 15 || end == y + 19 || end == y + 22 || end == y + 25
    &&& y == 4 ==> two_digits(s, 0) && two_digits(s, 2)
    &&& s[y] == '-' && two_digits(s, y + 1)
    &&& s[y + 3] == '-' && two_digits(s, y + 4)
    &&& s[y + 6] == 'T' && two_digits(s, y + 7)
    &&& s[y + 9] == ':' && two_digits(s, y + 10)
    &&& s[y + 12] == ':' && two_digits(s, y + 13)
    &&& end > y + 15 ==> s[y + 15] == '.'
    &&& forall|i: int| y + 16 <= i < end ==> is_digit(#[trigger] s[i])
    &&& s.skip(end) == seq!['+', '0', '0', ':', '0', '0']
}

/// True if `s` is a point in time in the form of RFC 3339, in UTC.
pub open spec fn is_stamp(s: Seq<char>) -> bool {
    exists|y: int| is_stamp_of_year(s, y)
}

/// `chrono::Utc::now` gives the current time, and `chrono::DateTime::to_rfc3339` writes it in the
/// form of RFC 3339, in UTC: four digits of the year up to 9999 and a sign and more digits after
/// that, and a fraction of three, six or nine digits where it is not zero. Which time it is, is
/// left open. With a clock that is set before 1970, or past the years that chrono can hold, the
/// call panics.
#[verifier::external_body]
fn now_text() -> (r: String)
    ensures
        is_stamp(r@),
{
    chrono::Utc::now().to_rfc3339()
}

/// The current time in the form of RFC 3339, in UTC.
pub fn timestamp() -> (r: String)
    ensures
        is_stamp(r@),
{
    now_text()
}

/// `before`, the ordinal with at least three digits, and `after`.
pub open spec fn numbered_name(ordinal: nat, after: Seq<char>) -> Seq<char> {
    "paragraph_"@ + padded(ordinal, 3) + after
}

/// File name of the WAV of a chunk.
pub fn wav_name(ordinal: usize) -> (r: String)
    ensures
        r@ == numbered_name(ordinal as nat, ".wav"@),
{
    let mut out = chars_of("paragraph_");
    put_padded(&mut out, ordinal as u64, 3);
    put(&mut out, ".wav");
    string_of(out.as_slice())
}

/// File name of the note beside a quarantined chunk.
pub fn bad_name(ordinal: usize) -> (r: String)
    ensures
        r@ == numbered_name(ordinal as nat, ".bad.txt"@),
{
    let mut out = chars_of("paragraph_");
    put_padded(&mut out, ordinal as u64, 3);
    put(&mut out, ".bad.txt");
    string_of(out.as_slice())
}

/// True if the records are numbered from 1 and name their files by their number.
pub open spec fn is_numbered(list: Seq<ChunkRecord>) -> bool {
    forall|i: int|
        0 <= i < list.len() ==> (#[trigger] list[i]).ordinal == i + 1 && list[i].wav@
            == numbered_name((i + 1) as nat, ".wav"@)
}

/// How the chunks of a run came out.
#[derive(Debug, Clone, Copy, PartialEq, Eq, Structural)]
pub struct Tally {
    pub good: usize,
    pub failed: usize,
    pub quarantined: usize,
}

/// Which records can be merged, and which of those miss their file.
#[derive(Debug, Clone)]
pub struct MergePlan {
    pub ready: Vec<usize>,
    pub missing: Vec<usize>,
}

impl RunRecord {
    /// A record without chunks that started at `timestamp`.
    pub fn with_timestamp(
        timestamp: String,
        input_file: String,
        pdf_ripped: Option<String>,
    ) -> (r: RunRecord)
        ensures
            r.timestamp == timestamp,
            r.input_file == input_file,
            r.pdf_ripped == pdf_ripped,
            r.llm_clean is None,
            r.chunks@ == Seq::<ChunkRecord>::empty(),
    {
        RunRecord { timestamp, input_file, pdf_ripped, llm_clean: None, chunks: Vec::new() }
    }

    /// A record without chunks that starts now.
    pub fn new(input_file: String, pdf_ripped: Option<String>) -> (r: RunRecord)
        ensures
            is_stamp(r.timestamp@),
            r.input_file == input_file,
            r.pdf_ripped == pdf_ripped,
            r.llm_clean is None,
            r.chunks@ == Seq::<ChunkRecord>::empty(),
    {
        RunRecord::with_timestamp(timestamp(), input_file, pdf_ripped)
    }

    /// Puts down what became of the next chunk.
    pub fn record_chunk(&mut self, chunk: &Chunk, status: ChunkStatus)
        requires
            old(self).chunks.len() < usize::MAX,
        ensures
            final(self).timestamp == old(self).timestamp,
            final(self).input_file == old(self).input_file,
            final(self).pdf_ripped == old(self).pdf_ripped,
            final(self).llm_clean == old(self).llm_clean,
            final(self).chunks@.len() == old(self).chunks@.len() + 1,
            final(self).chunks@.drop_last() == old(self).chunks@,
            final(self).chunks@.last().ordinal == old(self).chunks@.len() + 1,
            final(self).chunks@.last().wav@ == numbered_name(
                (old(self).chunks@.len() + 1) as nat,
                ".wav"@,
            ),
            final(self).chunks@.last().trailing_boundary == chunk.trailing_boundary,
            final(self).chunks@.last().status == status,
            is_numbered(old(self).chunks@) ==> is_numbered(final(self).chunks@),
    {
        let ordinal: usize = self.chunks.len() + 1;
        let ghost before = self.chunks@;
        self.chunks.push(
            ChunkRecord {
                ordinal,
                wav: wav_name(ordinal),
                trailing_boundary: chunk.trailing_boundary,
                status,
            },
        );
        assert(self.chunks@.drop_last() == before);
    }

    /// Puts down that a quarantined chunk was recovered. The other records stay as they are.
    pub fn mark_recovered(&mut self, index: usize)
        requires
            index < old(self).chunks.len(),
        ensures
            final(self).timestamp == old(self).timestamp,
            final(self).input_file == old(self).input_file,
            final(self).pdf_ripped == old(self).pdf_ripped,
            final(self).llm_clean == old(self).llm_clean,
            final(self).chunks@ == old(self).chunks@.update(
                index as int,
                (ChunkRecord { status: ChunkStatus::Passed, ..old(self).chunks@[index as int] }),
            ),
    {
        self.chunks[index].status = ChunkStatus::Passed;
    }
}

/// The positions of the quarantined records.
pub fn retry_indices(chunks: &[ChunkRecord]) -> (r: Vec<usize>)
    ensures
        r@ == picked(chunks@.len() as int, |i: int| chunks@[i].status is Quarantined),
{
    let ghost wanted = |i: int| chunks@[i].status is Quarantined;
    let mut out: Vec<usize> = Vec::new();
    let mut i: usize = 0;
    while i < chunks.len()
        invariant
            i <= chunks.len(),
            wanted == (|i: int| chunks@[i].status is Quarantined),
            out@ == picked(i as int, wanted),
        decreases chunks.len() - i,
    {
        if chunks[i].needs_retry() {
            out.push(i);
        }
        i += 1;
    }
    out
}

/// The positions of the failed records, which a repair leaves alone.
pub fn failed_indices(chunks: &[ChunkRecord]) -> (r: Vec<usize>)
    ensures
        r@ == picked(chunks@.len() as int, |i: int| chunks@[i].status is Failed),
{
    let ghost wanted = |i: int| chunks@[i].status is Failed;
    let mut out: Vec<usize> = Vec::new();
    let mut i: usize = 0;
    while i < chunks.len()
        invariant
            i <= chunks.len(),
            wanted == (|i: int| chunks@[i].status is Failed),
            out@ == picked(i as int, wanted),
        decreases chunks.len() - i,
    {
        if matches!(chunks[i].status, ChunkStatus::Failed { .. }) {
            out.push(i);
        }
        i += 1;
    }
    out
}

/// The order of the ordinals; of records with the same one, the order in which they stand.
pub open spec fn by_ordinal(chunks: Seq<ChunkRecord>) -> spec_fn(int, int) -> bool {
    |i: int, j: int|
        chunks[i].ordinal < chunks[j].ordinal || (chunks[i].ordinal == chunks[j].ordinal && i < j)
}

/// Puts record `i` into its place in `list`.
fn place_record(
    chunks: &[ChunkRecord],
    list: &mut Vec<usize>,
    i: usize,
    wanted: Ghost<spec_fn(int) -> bool>,
)
    requires
        i < chunks.len(),
        ordered(old(list)@, by_ordinal(chunks@)),
        holds(old(list)@, i as int, wanted@),
        wanted@(i as int),
    ensures
        ordered(final(list)@, by_ordinal(chunks@)),
        holds(final(list)@, i + 1, wanted@),
        is_numbered(chunks@) ==> final(list)@ == old(list)@.push(i),
{
    let ghost list0 = list@;
    let ghost before = by_ordinal(chunks@);
    proof {
        lemma_held_below(list0, i as int, wanted@);
    }
    let mut p: usize = list.len();
    while p > 0
        invariant
            p <= list.len(),
            list@ == list0,
            i < chunks.len(),
            before == by_ordinal(chunks@),
            is_numbered(chunks@) ==> p == list0.len(),
            forall|a: int| 0 <= a < list0.len() ==> (#[trigger] list0[a]) < i,
            forall|a: int| p <= a < list0.len() ==> before(
                i as int,
                (#[trigger] list0[a]) as int,
            ),
        ensures
            p > 0 ==> before(list0[p - 1] as int, i as int),
        decreases p,
    {
        let j: usize = list[p - 1];
        assert(is_numbered(chunks@) ==> chunks@[j as int].ordinal == j + 1
            && chunks@[i as int].ordinal == i + 1);
        if chunks[i].ordinal >= chunks[j].ordinal {
            break;
        }
        p -= 1;
    }
    list.insert(p, i);
    proof {
        assert forall|a: int| 0 <= a < p implies before((#[trigger] list0[a]) as int, i as int) by {
            if a < p - 1 {
                assert(before(list0[a] as int, list0[p - 1] as int));
            }
        }
        lemma_insert(list0, p as int, i, wanted@, before);
    }
}

/// Which records can be merged, in the order of their ordinals, given for each whether its file
/// is on disk.
pub fn merge_plan(chunks: &[ChunkRecord], on_disk: &[bool]) -> (r: MergePlan)
    requires
        chunks.len() == on_disk.len(),
    ensures
        ordered(r.ready@, by_ordinal(chunks@)),
        holds(
            r.ready@,
            chunks@.len() as int,
            |i: int| chunks@[i].status is Passed && on_disk@[i],
        ),
        is_numbered(chunks@) ==> r.ready@ == picked(
            chunks@.len() as int,
            |i: int| chunks@[i].status is Passed && on_disk@[i],
        ),
        r.missing@ == picked(
            chunks@.len() as int,
            |i: int| chunks@[i].status is Passed && !on_disk@[i],
        ),
{
    let ghost here = |i: int| chunks@[i].status is Passed && on_disk@[i];
    let ghost gone = |i: int| chunks@[i].status is Passed && !on_disk@[i];
    let mut ready: Vec<usize> = Vec::new();
    let mut missing: Vec<usize> = Vec::new();
    let mut i: usize = 0;
    while i < chunks.len()
        invariant
            i <= chunks.len(),
            chunks.len() == on_disk.len(),
            here == (|i: int| chunks@[i].status is Passed && on_disk@[i]),
            gone == (|i: int| chunks@[i].status is Passed && !on_disk@[i]),
            ordered(ready@, by_ordinal(chunks@)),
            holds(ready@, i as int, here),
            is_numbered(chunks@) ==> ready@ == picked(i as int, here),
            missing@ == picked(i as int, gone),
        decreases chunks.len() - i,
    {
        if chunks[i].is_mergeable() {
            if on_disk[i] {
                place_record(chunks, &mut ready, i, Ghost(here));
            } else {
                missing.push(i);
            }
        }
        i += 1;
    }
    MergePlan { ready, missing }
}

/// Counts how the chunks of a run came out.
pub fn tally(chunks: &[ChunkRecord]) -> (r: Tally)
    ensures
        r.good == picked(chunks@.len() as int, |i: int| chunks@[i].status is Passed).len(),
        r.failed == picked(chunks@.len() as int, |i: int| chunks@[i].status is Failed).len(),
        r.quarantined == picked(
            chunks@.len() as int,
            |i: int| chunks@[i].status is Quarantined,
        ).len(),
{
    let ghost good_at = |i: int| chunks@[i].status is Passed;
    let ghost failed_at = |i: int| chunks@[i].status is Failed;
    let ghost bad_at = |i: int| chunks@[i].status is Quarantined;
    let mut good: usize = 0;
    let mut failed: usize = 0;
    let mut quarantined: usize = 0;
    let mut i: usize = 0;
    while i < chunks.len()
        invariant
            i <= chunks.len(),
            good <= i,
            failed <= i,
            quarantined <= i,
            good_at == (|i: int| chunks@[i].status is Passed),
            failed_at == (|i: int| chunks@[i].status is Failed),
            bad_at == (|i: int| chunks@[i].status is Quarantined),
            good == picked(i as int, good_at).len(),
            failed == picked(i as int, failed_at).len(),
            quarantined == picked(i as int, bad_at).len(),
        decreases chunks.len() - i,
    {
        match &chunks[i].status {
            ChunkStatus::Passed => {
                good += 1;
            },
            ChunkStatus::Quarantined { .. } => {
                quarantined += 1;
            },
            ChunkStatus::Failed { .. } => {
                failed += 1;
            },
            ChunkStatus::Skipped { .. } => {},
        }
        i += 1;
    }
    Tally { good, failed, quarantined }
}

/// Each record of a finished run counts once, so where none was skipped the tally adds up.
pub proof fn law_tally_adds_up(chunks: Seq<ChunkRecord>, n: int)
    requires
        0 <= n <= chunks.len(),
        forall|i: int| 0 <= i < chunks.len() ==> !((#[trigger] chunks[i]).status is Skipped),
    ensures
        picked(n, |i: int| chunks[i].status is Passed).len() + picked(
            n,
            |i: int| chunks[i].status is Failed,
        ).len() + picked(n, |i: int| chunks[i].status is Quarantined).len() == n,
    decreases n,
{
    if n > 0 {
        law_tally_adds_up(chunks, n - 1);
        assert(!(chunks[n - 1].status is Skipped));
    }
}

/// A recovered record can be merged and is not retried again; the others come out as before.
pub proof fn law_recovery_is_lasting(chunks: Seq<ChunkRecord>, index: int)
    requires
        0 <= index < chunks.len(),
    ensures
        ({
            let after = chunks.update(
                index,
                (ChunkRecord { status: ChunkStatus::Passed, ..chunks[index] }),
            );
            &&& after[index].status is Passed
            &&& !(after[index].status is Quarantined)
            &&& forall|i: int| 0 <= i < chunks.len() && i != index ==> after[i] == chunks[i]
            &&& is_numbered(chunks) ==> is_numbered(after)
        }),
{
}

/// Each chunk has a file of its own: names of different numbers differ.
pub proof fn law_names_differ(a: nat, b: nat, after: Seq<char>)
    requires
        numbered_name(a, after) == numbered_name(b, after),
    ensures
        a == b,
{
    let x = numbered_name(a, after);
    let y = numbered_name(b, after);
    let n = "paragraph_"@.len() as int;
    let p = padded(a, 3);
    let q = padded(b, 3);
    assert(x.subrange(n, n + p.len()) == p);
    assert(y.subrange(n, n + q.len()) == q);
    assert(x.len() == n + p.len() + after.len());
    assert(y.len() == n + q.len() + after.len());
    assert(p == q);
    law_padded_reads_back(a, 3);
    law_padded_reads_back(b, 3);
}

/// The name of a chunk's file is its number, in three digits or more, between what all names begin
/// and end with.
pub proof fn law_names_hold_the_number(ordinal: nat, after: Seq<char>)
    ensures
        exists|digits: Seq<char>|
            {
                &&& numbered_name(ordinal, after) == "paragraph_"@ + digits + after
                &&& #[trigger] value(digits) == ordinal
                &&& digits.len() >= 3
                &&& digits.len() > 3 ==> digits == decimal(ordinal)
            },
{
    law_padded_reads_back(ordinal, 3);
    let digits = padded(ordinal, 3);
    assert(numbered_name(ordinal, after) == "paragraph_"@ + digits + after);
}

/// Records are merged by their number, the smaller one first, and those of the same number as they
/// stand.
pub proof fn law_merged_by_number(chunks: Seq<ChunkRecord>, list: Seq<usize>, a: int, b: int)
    requires
        ordered(list, by_ordinal(chunks)),
        0 <= a < b < list.len(),
    ensures
        chunks[list[a] as int].ordinal <= chunks[list[b] as int].ordinal,
        chunks[list[a] as int].ordinal == chunks[list[b] as int].ordinal ==> list[a] < list[b],
{
    let before = by_ordinal(chunks);
    assert(before(list[a] as int, list[b] as int));
}

} // verus!
