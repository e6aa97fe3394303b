//! Batch runs: which files of the inbox are jobs and in what order, what a job's outcome leads
//! to, and the log from which an interrupted batch knows its failures.

use crate::chars::{lower, small_text, small_text_of};
use crate::numbers::{decimal, put_number};
use crate::order::{holds, lemma_held_below, lemma_insert, ordered};
use crate::records::Tally;
use crate::speech::maybe;
use crate::text::{
    all_ascii, chars_of, find, lines, lowered, put, same, split_lines, string_of, strings_of, texts,
};
use vstd::hash_map::StringHashMap;
use vstd::prelude::*;

verus! {

/// Where in a job a hard failure came up.
#[derive(Debug, Clone, Copy, PartialEq, Eq, Structural)]
pub enum Stage {
    WorkDir,
    Rip,
    ReadRipped,
    ReadInput,
    Client,
    StartLlm,
    Cleanup,
    StartTts,
    Merge,
}

/// What a job produced.
#[derive(Debug, Clone)]
pub enum JobOutcome {
    /// Every chunk is in the audio.
    Clean,
    /// Some chunks are missing from the audio.
    Part,
    /// There is no audio.
    Picturebook,
    /// The job failed before it could produce anything.
    HardFail { stage: Stage, detail: String },
}

/// The outcome of a job of `good` chunks that are spoken and `bad` ones that are not.
pub open spec fn classified(good: int, bad: int) -> JobOutcome {
    if good == 0 {
        JobOutcome::Picturebook
    } else if bad == 0 {
        JobOutcome::Clean
    } else {
        JobOutcome::Part
    }
}

/// Classifies the outcome of a job by how many of its `_total` chunks came out good and bad.
pub fn classify_outcome(n_good: usize, n_bad: usize, _total: usize) -> (r: JobOutcome)
    ensures
        r == classified(n_good as int, n_bad as int),
{
    if n_good == 0 {
        JobOutcome::Picturebook
    } else if n_bad == 0 {
        JobOutcome::Clean
    } else {
        JobOutcome::Part
    }
}

/// What a stage is called in a failure.
pub open spec fn stage_text(stage: Stage) -> Seq<char> {
    match stage {
        Stage::WorkDir => "Cannot create work dir: "@,
        Stage::Rip => "PDF rip failed: "@,
        Stage::ReadRipped => "Cannot read ripped text: "@,
        Stage::ReadInput => "Cannot read input file: "@,
        Stage::Client => "HTTP client: "@,
        Stage::StartLlm => "Crane LLM: "@,
        Stage::Cleanup => "LLM cleanup: "@,
        Stage::StartTts => "Crane TTS: "@,
        Stage::Merge => "merge failed: "@,
    }
}

/// A hard failure in words.
pub fn failure_reason(stage: Stage, detail: &str) -> (r: String)
    ensures
        r@ == stage_text(stage) + detail@,
{
    let mut out = match stage {
        Stage::WorkDir => chars_of("Cannot create work dir: "),
        Stage::Rip => chars_of("PDF rip failed: "),
        Stage::ReadRipped => chars_of("Cannot read ripped text: "),
        Stage::ReadInput => chars_of("Cannot read input file: "),
        Stage::Client => chars_of("HTTP client: "),
        Stage::StartLlm => chars_of("Crane LLM: "),
        Stage::Cleanup => chars_of("LLM cleanup: "),
        Stage::StartTts => chars_of("Crane TTS: "),
        Stage::Merge => chars_of("merge failed: "),
    };
    put(&mut out, detail);
    string_of(out.as_slice())
}

/// The stem of a job's output files: the stem of its input file in small letters.
pub fn input_stem(file_stem: Option<&str>) -> (r: String)
    ensures
        match file_stem {
            Some(s) => {
                &&& r@ == small_text(s@)
                &&& all_ascii(s@) ==> r@ == lowered(s@)
            },
            None => r@ == "unknown"@,
        },
{
    match file_stem {
        Some(s) => {
            let stem = small_text_of(s);
            assert(s@.map_values(|c: char| lower(c)) == lowered(s@));
            stem
        },
        None => "unknown".to_owned(),
    }
}

/// How the name of a job's output file ends.
pub open spec fn output_suffix(outcome: JobOutcome) -> Option<Seq<char>> {
    match outcome {
        JobOutcome::Clean => Some(".mp3"@),
        JobOutcome::Part => Some("_part.mp3"@),
        JobOutcome::Picturebook => Some("_picturebook.txt"@),
        JobOutcome::HardFail { .. } => None,
    }
}

/// Name of the file that a job leaves in the audio directory; `None` after a hard failure.
pub fn output_name(stem: &str, outcome: &JobOutcome) -> (r: Option<String>)
    ensures
        maybe(r) == match output_suffix(*outcome) {
            Some(suffix) => Some(stem@ + suffix),
            None => None,
        },
{
    let mut out = chars_of(stem);
    match outcome {
        JobOutcome::Clean => put(&mut out, ".mp3"),
        JobOutcome::Part => put(&mut out, "_part.mp3"),
        JobOutcome::Picturebook => put(&mut out, "_picturebook.txt"),
        JobOutcome::HardFail { .. } => {
            return None;
        },
    }
    Some(string_of(out.as_slice()))
}

/// The note that is left where a job has no audio.
pub fn picturebook_note(stem: &str, total: usize, tally: &Tally) -> (r: String)
    ensures
        r@ == "lecturner batch: no audio produced for "@ + stem@
            + "\n                         chunks="@ + decimal(total as nat) + ", failed="@
            + decimal(tally.failed as nat) + ", quarantined="@ + decimal(tally.quarantined as nat)
            + "\n"@,
{
    let mut out = chars_of("lecturner batch: no audio produced for ");
    put(&mut out, stem);
    put(&mut out, "\n                         chunks=");
    put_number(&mut out, total as u64);
    put(&mut out, ", failed=");
    put_number(&mut out, tally.failed as u64);
    put(&mut out, ", quarantined=");
    put_number(&mut out, tally.quarantined as u64);
    put(&mut out, "\n");
    string_of(out.as_slice())
}

/// Where an input file goes when its job is over.
#[derive(Debug, Clone, Copy, PartialEq, Eq, Structural)]
pub enum Destination {
    Completed,
    Errored,
}

/// Where an input file goes when its job is over: a hard failure is an error, any other outcome
/// completes the job.
pub fn destination(outcome: &JobOutcome) -> (r: Destination)
    ensures
        r == if outcome is HardFail {
            Destination::Errored
        } else {
            Destination::Completed
        },
{
    match outcome {
        JobOutcome::HardFail { .. } => Destination::Errored,
        _ => Destination::Completed,
    }
}

/// One event of a batch.
#[derive(Debug, Clone)]
pub struct BatchLogEntry {
    pub ts: String,
    /// File name of the job.
    pub pdf: String,
    /// "start", "complete" or "fail".
    pub event: String,
    /// On "complete": "ok", "part" or "picturebook".
    pub outcome: Option<String>,
    /// On "complete": name of the output file.
    pub mp3: Option<String>,
    /// On "fail": what went wrong.
    pub reason: Option<String>,
}

/// The event that a job starts.
pub fn start_entry(ts: String, filename: &str) -> (r: BatchLogEntry)
    ensures
        r.ts == ts,
        r.pdf@ == filename@,
        r.event@ == "start"@,
        r.outcome is None,
        r.mp3 is None,
        r.reason is None,
{
    BatchLogEntry {
        ts,
        pdf: filename.to_owned(),
        event: "start".to_owned(),
        outcome: None,
        mp3: None,
        reason: None,
    }
}

/// What an outcome that completes a job is called.
pub open spec fn outcome_text(outcome: JobOutcome) -> Seq<char> {
    match outcome {
        JobOutcome::Clean => "ok"@,
        JobOutcome::Part => "part"@,
        _ => "picturebook"@,
    }
}

/// The event that a job is over.
pub fn end_entry(ts: String, filename: &str, stem: &str, outcome: &JobOutcome) -> (r: BatchLogEntry)
    ensures
        r.ts == ts,
        r.pdf@ == filename@,
        match *outcome {
            JobOutcome::HardFail { stage, detail } => {
                &&& r.event@ == "fail"@
                &&& r.outcome is None
                &&& r.mp3 is None
                &&& maybe(r.reason) == Some(stage_text(stage) + detail@)
            },
            _ => {
                &&& r.event@ == "complete"@
                &&& maybe(r.outcome) == Some(outcome_text(*outcome))
                &&& maybe(r.mp3) == match output_suffix(*outcome) {
                    Some(suffix) => Some(stem@ + suffix),
                    None => None,
                }
                &&& r.reason is None
            },
        },
{
    match outcome {
        JobOutcome::HardFail { stage, detail } => BatchLogEntry {
            ts,
            pdf: filename.to_owned(),
            event: "fail".to_owned(),
            outcome: None,
            mp3: None,
            reason: Some(failure_reason(*stage, detail.as_str())),
        },
        _ => {
            let name = match outcome {
                JobOutcome::Clean => "ok",
                JobOutcome::Part => "part",
                _ => "picturebook",
            };
            BatchLogEntry {
                ts,
                pdf: filename.to_owned(),
                event: "complete".to_owned(),
                outcome: Some(name.to_owned()),
                mp3: output_name(stem, outcome),
                reason: None,
            }
        },
    }
}

/// Number of failures of `name` among the first `n` of `log`.
pub open spec fn failures(log: Seq<BatchLogEntry>, name: Seq<char>, n: int) -> nat
    decreases n,
{
    if n <= 0 {
        0
    } else if log[n - 1].event@ == "fail"@ && log[n - 1].pdf@ == name {
        failures(log, name, n - 1) + 1
    } else {
        failures(log, name, n - 1)
    }
}

/// How often each job failed.
pub struct FailureCounts {
    map: StringHashMap<usize>,
}

impl FailureCounts {
    /// Number of failures of `name`.
    pub closed spec fn count(&self, name: Seq<char>) -> nat {
        if self.map@.contains_key(name) {
            self.map@[name] as nat
        } else {
            0
        }
    }

    /// Number of failures of `name`.
    pub fn of(&self, name: &str) -> (r: usize)
        ensures
            r == self.count(name@),
    {
        match self.map.get(name) {
            Some(n) => *n,
            None => 0,
        }
    }
}

/// Counts the failures in a log.
pub fn failure_counts(log: &[BatchLogEntry]) -> (r: FailureCounts)
    ensures
        forall|name: Seq<char>| #[trigger]
            r.count(name) == failures(log@, name, log@.len() as int),
{
    let fail = chars_of("fail");
    let mut counts = FailureCounts { map: StringHashMap::new() };
    let mut i: usize = 0;
    while i < log.len()
        invariant
            i <= log.len(),
            fail@ == "fail"@,
            forall|name: Seq<char>| #[trigger]
                counts.count(name) == failures(log@, name, i as int),
            forall|name: Seq<char>| #[trigger] counts.count(name) <= i,
        decreases log.len() - i,
    {
        let event = chars_of(log[i].event.as_str());
        let ghost entry = log@[i as int];
        if same(event.as_slice(), fail.as_slice()) {
            let pdf = log[i].pdf.as_str();
            let ghost before = counts;
            let n: usize = counts.of(pdf);
            counts.map.insert(pdf.to_owned(), n + 1);
            assert forall|name: Seq<char>| #[trigger]
                counts.count(name) == failures(log@, name, i + 1) && counts.count(name) <= i
                + 1 by {
                assert(before.count(name) == failures(log@, name, i as int));
            }
        } else {
            assert forall|name: Seq<char>| #[trigger]
                counts.count(name) == failures(log@, name, i + 1) by {
                assert(counts.count(name) == failures(log@, name, i as int));
            }
        }
        i += 1;
    }
    counts
}

/// How many failures a job may have before it is not tried again.
pub const MAX_FAILURES: usize = 2;

/// True if a job that failed `prior` times is left out.
pub fn is_skipped(prior: usize) -> (r: bool)
    ensures
        r == (prior >= MAX_FAILURES),
{
    prior >= MAX_FAILURES
}

/// A line of the log: the entry in its written form and a newline.
pub fn log_line(entry: &str) -> (r: String)
    ensures
        r@ == entry@.push('\n'),
{
    let mut out = chars_of(entry);
    out.push('\n');
    string_of(out.as_slice())
}

/// The lines of a log.
pub fn log_lines(log: &str) -> (r: Vec<String>)
    ensures
        texts(r@) == lines(log@),
{
    let cs = chars_of(log);
    let all = split_lines(cs.as_slice());
    strings_of(all.as_slice())
}

proof fn lemma_find_newline(s: Seq<char>, t: Seq<char>)
    requires
        s.len() > 0,
        s.last() == '\n',
    ensures
        find(s, seq!['\n']) matches Some(i) && 0 <= i < s.len() && s[i] == '\n',
        find(s + t, seq!['\n']) == find(s, seq!['\n']),
    decreases s.len(),
{
    let nl = seq!['\n'];
    assert(s.take(1) == seq![s[0]]);
    assert((s + t).take(1) == seq![s[0]]);
    assert(seq![s[0]][0] == s[0] && nl[0] == '\n');
    if s[0] == '\n' {
        assert(seq![s[0]] == nl);
    } else {
        assert(s.len() > 1);
        assert((s + t).skip(1) == s.skip(1) + t);
        lemma_find_newline(s.skip(1), t);
        assert(s.skip(1)[find(s.skip(1), nl)->0] == s[find(s.skip(1), nl)->0 + 1]);
    }
}

proof fn lemma_find_end(e: Seq<char>)
    requires
        forall|i: int| 0 <= i < e.len() ==> #[trigger] e[i] != '\n',
    ensures
        find(e.push('\n'), seq!['\n']) == Some(e.len() as int),
    decreases e.len(),
{
    let s = e.push('\n');
    assert(s.take(1) == seq![s[0]]);
    assert(seq!['\n'][0] == '\n' && seq![s[0]][0] == s[0]);
    if e.len() == 0 {
        assert(seq![s[0]] == seq!['\n']);
    } else {
        assert(s[0] == e[0]);
        assert(s.skip(1) == e.skip(1).push('\n'));
        lemma_find_end(e.skip(1));
    }
}

/// A line that is appended to a log is read back as its last line, and the lines before it as
/// before.
pub proof fn law_log_reads_back(log: Seq<char>, entry: Seq<char>)
    requires
        log.len() > 0 ==> log.last() == '\n',
        forall|i: int| 0 <= i < entry.len() ==> #[trigger] entry[i] != '\n',
        entry.len() > 0 ==> entry.last() != '\r',
    ensures
        lines(log + entry.push('\n')) == lines(log).push(entry),
    decreases log.len(),
{
    let line = entry.push('\n');
    if log.len() == 0 {
        assert(log + line == line);
        lemma_find_end(entry);
        let n = entry.len() as int;
        assert(line.take(n) == entry);
        assert(lines(line.skip(n + 1)) == Seq::<Seq<char>>::empty());
        assert(lines(line) == seq![entry] + lines(line.skip(n + 1)));
        assert(lines(log).push(entry) == seq![entry]);
    } else {
        lemma_find_newline(log, line);
        let i = find(log, seq!['\n'])->0;
        let rest = log.skip(i + 1);
        let all = log + line;
        assert(all.skip(i + 1) == rest + line);
        if rest.len() > 0 {
            assert(rest.last() == log.last());
        }
        law_log_reads_back(rest, entry);
        let first = if i > 0 && log[i - 1] == '\r' {
            log.take(i - 1)
        } else {
            log.take(i)
        };
        assert(all.take(i) == log.take(i));
        if i > 0 {
            assert(all.take(i - 1) == log.take(i - 1));
        }
        assert(lines(all) == seq![first] + lines(rest + line));
        assert(lines(log) == seq![first] + lines(rest));
        assert(seq![first] + lines(rest).push(entry) == (seq![first] + lines(rest)).push(entry));
    }
}

/// `b` with an ASCII capital letter made small.
pub open spec fn lower_byte(b: u8) -> u8 {
    if 0x41 <= b <= 0x5a {
        (b + 32) as u8
    } else {
        b
    }
}

/// True if the file name `name` has the extension `ext`, in capital or small letters. A name that
/// is nothing but a dot and `ext` has no extension.
pub open spec fn has_extension(name: Seq<u8>, ext: Seq<u8>) -> bool {
    let k = name.len() - ext.len();
    &&& k > 1
    &&& name[k - 1] == 0x2e
    &&& name.skip(k).map_values(|b: u8| lower_byte(b)) == ext
}

/// The extension of papers.
pub open spec fn pdf() -> Seq<u8> {
    seq![0x70u8, 0x64u8, 0x66u8]
}

/// The extension of text files.
pub open spec fn txt() -> Seq<u8> {
    seq![0x74u8, 0x78u8, 0x74u8]
}

/// True if the file is a job: a paper or a text file.
pub open spec fn is_job(name: Seq<u8>) -> bool {
    has_extension(name, pdf()) || has_extension(name, txt())
}

fn small_byte(b: u8) -> (r: u8)
    ensures
        r == lower_byte(b),
{
    if 0x41 <= b && b <= 0x5a {
        b + 32
    } else {
        b
    }
}

fn ends_in(name: &[u8], a: u8, b: u8, c: u8) -> (r: bool)
    ensures
        r == has_extension(name@, seq![a, b, c]),
{
    if name.len() <= 4 {
        return false;
    }
    let k: usize = name.len() - 3;
    let ghost tail = name@.skip(k as int).map_values(|b: u8| lower_byte(b));
    let r = name[k - 1] == 0x2e && small_byte(name[k]) == a && small_byte(name[k + 1]) == b
        && small_byte(name[k + 2]) == c;
    proof {
        assert(tail.len() == 3);
        assert(tail[0] == lower_byte(name@[k as int]));
        assert(tail[1] == lower_byte(name@[k + 1]));
        assert(tail[2] == lower_byte(name@[k + 2]));
        let ext = seq![a, b, c];
        assert(ext.len() == 3 && ext[0] == a && ext[1] == b && ext[2] == c);
        if r {
            assert(tail == ext);
        }
    }
    r
}

/// True if the file is a paper.
pub fn is_pdf(name: &[u8]) -> (r: bool)
    ensures
        r == has_extension(name@, pdf()),
{
    ends_in(name, 0x70, 0x64, 0x66)
}

/// True if the file is a text file.
pub fn is_txt(name: &[u8]) -> (r: bool)
    ensures
        r == has_extension(name@, txt()),
{
    ends_in(name, 0x74, 0x78, 0x74)
}

/// The alphabetical order of file names, byte by byte.
pub open spec fn name_less(a: Seq<u8>, b: Seq<u8>) -> bool
    decreases a.len(),
{
    if b.len() == 0 {
        false
    } else if a.len() == 0 {
        true
    } else {
        a[0] < b[0] || (a[0] == b[0] && name_less(a.skip(1), b.skip(1)))
    }
}

proof fn lemma_name_less_total(a: Seq<u8>, b: Seq<u8>)
    ensures
        a == b || name_less(a, b) || name_less(b, a),
    decreases a.len(),
{
    if a.len() > 0 && b.len() > 0 {
        lemma_name_less_total(a.skip(1), b.skip(1));
        if a[0] == b[0] && a.skip(1) == b.skip(1) {
            assert(a == seq![a[0]] + a.skip(1));
            assert(b == seq![b[0]] + b.skip(1));
        }
    } else if a.len() == 0 && b.len() == 0 {
        assert(a == b);
    }
}

proof fn lemma_name_less_transitive(a: Seq<u8>, b: Seq<u8>, c: Seq<u8>)
    requires
        name_less(a, b),
        name_less(b, c),
    ensures
        name_less(a, c),
    decreases a.len(),
{
    if a.len() > 0 && a[0] == b[0] && b[0] == c[0] {
        lemma_name_less_transitive(a.skip(1), b.skip(1), c.skip(1));
    }
}

fn comes_first(a: &[u8], b: &[u8]) -> (r: bool)
    ensures
        r == name_less(a@, b@),
{
    let mut i: usize = 0;
    assert(a@.skip(0) == a@ && b@.skip(0) == b@);
    while i < a.len() && i < b.len()
        invariant
            i <= a.len(),
            i <= b.len(),
            name_less(a@, b@) == name_less(a@.skip(i as int), b@.skip(i as int)),
        decreases a.len() - i,
    {
        assert(a@.skip(i as int).skip(1) == a@.skip(i + 1));
        assert(b@.skip(i as int).skip(1) == b@.skip(i + 1));
        if a[i] != b[i] {
            return a[i] < b[i];
        }
        i += 1;
    }
    i < b.len()
}

/// What a list of names holds.
pub open spec fn names_of(list: Seq<Vec<u8>>) -> Seq<Seq<u8>> {
    list.map_values(|n: Vec<u8>| n@)
}

/// The alphabetical order of jobs; of jobs with the same name, the order in which they stand.
pub open spec fn by_name(names: Seq<Seq<u8>>) -> spec_fn(int, int) -> bool {
    |i: int, j: int| name_less(names[i], names[j]) || (names[i] == names[j] && i < j)
}

/// Which of `names` are jobs.
pub open spec fn jobs(names: Seq<Seq<u8>>) -> spec_fn(int) -> bool {
    |i: int| is_job(names[i])
}

fn place_job(list: &[Vec<u8>], order: &mut Vec<usize>, i: usize)
    requires
        i < list.len(),
        is_job(names_of(list@)[i as int]),
        ordered(old(order)@, by_name(names_of(list@))),
        holds(old(order)@, i as int, jobs(names_of(list@))),
    ensures
        ordered(final(order)@, by_name(names_of(list@))),
        holds(final(order)@, i + 1, jobs(names_of(list@))),
{
    let ghost names = names_of(list@);
    let ghost order0 = order@;
    let ghost before = by_name(names);
    proof {
        lemma_held_below(order0, i as int, jobs(names));
    }
    let mut p: usize = order.len();
    while p > 0
        invariant
            p <= order.len(),
            order@ == order0,
            i < list.len(),
            names == names_of(list@),
            before == by_name(names),
            forall|a: int| 0 <= a < order0.len() ==> (#[trigger] order0[a]) < i,
            forall|a: int| p <= a < order0.len() ==> before(
                i as int,
                (#[trigger] order0[a]) as int,
            ),
        ensures
            p > 0 ==> before(order0[p - 1] as int, i as int),
        decreases p,
    {
        let j: usize = order[p - 1];
        assert(names[i as int] == list@[i as int]@ && names[j as int] == list@[j as int]@);
        if !comes_first(list[i].as_slice(), list[j].as_slice()) {
            proof {
                lemma_name_less_total(names[i as int], names[j as int]);
            }
            break;
        }
        p -= 1;
    }
    order.insert(p, i);
    proof {
        assert forall|a: int| 0 <= a < p implies before((#[trigger] order0[a]) as int, i as int) by {
            if a < p - 1 {
                let x = order0[a] as int;
                let y = order0[p - 1] as int;
                assert(before(x, y));
                assert(before(y, i as int));
                if name_less(names[x], names[y]) && name_less(names[y], names[i as int]) {
                    lemma_name_less_transitive(names[x], names[y], names[i as int]);
                }
            }
        }
        lemma_insert(order0, p as int, i, jobs(names), before);
    }
}

/// The positions of the jobs among the file names of the inbox, in alphabetical order.
pub fn collect_inbox_jobs(list: &[Vec<u8>]) -> (r: Vec<usize>)
    ensures
        ordered(r@, by_name(names_of(list@))),
        holds(r@, list@.len() as int, jobs(names_of(list@))),
{
    let mut order: Vec<usize> = Vec::new();
    let mut i: usize = 0;
    while i < list.len()
        invariant
            i <= list.len(),
            ordered(order@, by_name(names_of(list@))),
            holds(order@, i as int, jobs(names_of(list@))),
        decreases list.len() - i,
    {
        assert(names_of(list@)[i as int] == list@[i as int]@);
        if is_pdf(list[i].as_slice()) || is_txt(list[i].as_slice()) {
            place_job(list, &mut order, i);
        }
        i += 1;
    }
    order
}

/// The failures of a job are the entries of the log that tell of one and name it.
pub proof fn law_failures_are_counted(log: Seq<BatchLogEntry>, name: Seq<char>, n: int)
    requires
        0 <= n <= log.len(),
    ensures
        failures(log, name, n) == log.take(n).filter(
            |e: BatchLogEntry| e.event@ == "fail"@ && e.pdf@ == name,
        ).len(),
    decreases n,
{
    reveal(Seq::filter);
    if n > 0 {
        law_failures_are_counted(log, name, n - 1);
        assert(log.take(n).drop_last() == log.take(n - 1));
        assert(log.take(n).last() == log[n - 1]);
    } else {
        assert(log.take(n) == Seq::<BatchLogEntry>::empty());
    }
}

/// A job without audio is a picture book, one with all its chunks is clean, and any other is a
/// part.
pub proof fn law_outcomes(good: int, bad: int)
    ensures
        classified(good, bad) is Picturebook <==> good == 0,
        classified(good, bad) is Clean <==> good != 0 && bad == 0,
        classified(good, bad) is Part <==> good != 0 && bad != 0,
{
}

/// A name comes before another if it has the smaller byte where they first differ, or ends there.
pub proof fn law_names_in_order(same: Seq<u8>, a: Seq<u8>, b: Seq<u8>)
    requires
        a.len() > 0 && b.len() > 0 ==> a[0] != b[0],
    ensures
        name_less(same + a, same + b) <==> b.len() > 0 && (a.len() == 0 || a[0] < b[0]),
    decreases same.len(),
{
    let x = same + a;
    let y = same + b;
    if same.len() == 0 {
        assert(x == a);
        assert(y == b);
    } else {
        assert(x[0] == same[0] && y[0] == same[0]);
        assert(x.skip(1) == same.skip(1) + a);
        assert(y.skip(1) == same.skip(1) + b);
        law_names_in_order(same.skip(1), a, b);
    }
}

/// A name has an extension exactly if it is a name of one byte or more, a dot, and the extension
/// in letters of either case.
pub proof fn law_extensions(name: Seq<u8>, ext: Seq<u8>)
    ensures
        has_extension(name, ext) <==> exists|stem: Seq<u8>, end: Seq<u8>|
            {
                &&& stem.len() > 0
                &&& end.len() == ext.len()
                &&& forall|i: int|
                    0 <= i < end.len() ==> #[trigger] end[i] == ext[i] && !(0x41 <= end[i] <= 0x5a)
                        || 0x41 <= end[i] <= 0x5a && end[i] + 32 == ext[i]
                &&& name == #[trigger] dotted(stem, end)
            },
{
    if has_extension(name, ext) {
        let k = name.len() - ext.len();
        let stem = name.take(k - 1);
        let end = name.skip(k);
        let low = end.map_values(|b: u8| lower_byte(b));
        assert(low == ext);
        assert(name == dotted(stem, end));
        assert forall|i: int| 0 <= i < end.len() implies #[trigger] end[i] == ext[i] && !(0x41
            <= end[i] <= 0x5a) || 0x41 <= end[i] <= 0x5a && end[i] + 32 == ext[i] by {
            assert(low[i] == lower_byte(end[i]));
        }
    }
    if exists|stem: Seq<u8>, end: Seq<u8>|
        {
            &&& stem.len() > 0
            &&& end.len() == ext.len()
            &&& forall|i: int|
                0 <= i < end.len() ==> #[trigger] end[i] == ext[i] && !(0x41 <= end[i] <= 0x5a)
                    || 0x41 <= end[i] <= 0x5a && end[i] + 32 == ext[i]
            &&& name == #[trigger] dotted(stem, end)
        } {
        let (stem, end) = choose|stem: Seq<u8>, end: Seq<u8>|
            {
                &&& stem.len() > 0
                &&& end.len() == ext.len()
                &&& forall|i: int|
                    0 <= i < end.len() ==> #[trigger] end[i] == ext[i] && !(0x41 <= end[i] <= 0x5a)
                        || 0x41 <= end[i] <= 0x5a && end[i] + 32 == ext[i]
                &&& name == #[trigger] dotted(stem, end)
            };
        let k = name.len() - ext.len();
        assert(name.skip(k) == end);
        assert(name[k - 1] == 0x2e);
        assert(end.map_values(|b: u8| lower_byte(b)) == ext);
    }
}

/// A stem, a dot and an ending.
pub open spec fn dotted(stem: Seq<u8>, end: Seq<u8>) -> Seq<u8> {
    stem.push(0x2e) + end
}

/// The jobs are taken in alphabetical order, those of the same name in the order in which they
/// stand, and a file is a job exactly if its extension is "pdf" or "txt".
pub proof fn law_jobs_in_order(names: Seq<Seq<u8>>, list: Seq<usize>, a: int, b: int)
    requires
        ordered(list, by_name(names)),
        holds(list, names.len() as int, jobs(names)),
        0 <= a < b < list.len(),
    ensures
        !name_less(names[list[b] as int], names[list[a] as int]),
        names[list[a] as int] == names[list[b] as int] ==> list[a] < list[b],
        list[a] != list[b],
        forall|i: usize| #[trigger]
            list.contains(i) <==> i < names.len() && (has_extension(
                names[i as int],
                seq![0x70u8, 0x64, 0x66],
            ) || has_extension(names[i as int], seq![0x74u8, 0x78, 0x74])),
{
    let before = by_name(names);
    let x = names[list[a] as int];
    let y = names[list[b] as int];
    assert(before(list[a] as int, list[b] as int));
    lemma_name_less_irreflexive(x);
    if name_less(x, y) && name_less(y, x) {
        lemma_name_less_transitive(x, y, x);
    }
}

proof fn lemma_name_less_irreflexive(a: Seq<u8>)
    ensures
        !name_less(a, a),
    decreases a.len(),
{
    if a.len() > 0 {
        lemma_name_less_irreflexive(a.skip(1));
    }
}

/// What a job leaves is named by its outcome: audio if it has any, all of it or a part, else a
/// note; a job that failed hard leaves nothing.
pub proof fn law_output_names(outcome: JobOutcome)
    ensures
        output_suffix(outcome) is None <==> outcome is HardFail,
        output_suffix(outcome) == Some(".mp3"@) <==> outcome is Clean,
        output_suffix(outcome) == Some("_part.mp3"@) <==> outcome is Part,
        output_suffix(outcome) == Some("_picturebook.txt"@) <==> outcome is Picturebook,
        outcome_text(outcome) == "ok"@ <==> outcome is Clean,
        outcome_text(outcome) == "part"@ <==> outcome is Part,
{
    reveal_strlit(".mp3");
    reveal_strlit("_part.mp3");
    reveal_strlit("_picturebook.txt");
    reveal_strlit("ok");
    reveal_strlit("part");
    reveal_strlit("picturebook");
    assert(".mp3"@.len() == 4 && "_part.mp3"@.len() == 9 && "_picturebook.txt"@.len() == 16);
    assert("ok"@.len() == 2 && "part"@.len() == 4 && "picturebook"@.len() == 11);
}

/// The names of the inbox are taken as they are, in their order.
pub proof fn law_names(list: Seq<Vec<u8>>)
    ensures
        names_of(list).len() == list.len(),
        forall|i: int| 0 <= i < list.len() ==> #[trigger] names_of(list)[i] == list[i]@,
{
}

} // verus!
