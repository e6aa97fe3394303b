//! The programs that a run starts: their arguments, what their exit means, and how long a server
//! is waited for.

use crate::numbers::{decimal, decimal_of};
use crate::rip::RipConfig;
use crate::search::{law_found_first, stands};
use crate::text::{chars_of, find, find_from, lines, split_lines, string_of, texts, trim, trimmed};
use vstd::prelude::*;

verus! {

/// The arguments with which ffmpeg turns a WAV file into an MP3 file, overwriting it, with
/// variable bit rate at quality 2.
pub fn ffmpeg_arguments(wav: &str, mp3: &str) -> (r: Vec<String>)
    ensures
        texts(r@) == seq![
            "-y"@,
            "-i"@,
            wav@,
            "-codec:a"@,
            "libmp3lame"@,
            "-q:a"@,
            "2"@,
            mp3@,
        ],
{
    let mut out: Vec<String> = Vec::new();
    out.push("-y".to_owned());
    out.push("-i".to_owned());
    out.push(wav.to_owned());
    out.push("-codec:a".to_owned());
    out.push("libmp3lame".to_owned());
    out.push("-q:a".to_owned());
    out.push("2".to_owned());
    out.push(mp3.to_owned());
    assert(texts(out@) == seq![
        "-y"@,
        "-i"@,
        wav@,
        "-codec:a"@,
        "libmp3lame"@,
        "-q:a"@,
        "2"@,
        mp3@,
    ]);
    out
}

/// The arguments of the ripping script, after its own path.
pub open spec fn ripper_line(pdf: Seq<char>, out: Seq<char>, cfg: RipConfig) -> Seq<Seq<char>> {
    let base = seq!["--input"@, pdf, "--output"@, out];
    let refs = if cfg.skip_refs {
        base
    } else {
        base.push("--no-skip-refs"@)
    };
    if cfg.skip_captions {
        refs
    } else {
        refs.push("--no-skip-captions"@)
    }
}

/// The arguments of the ripping script, after its own path.
pub fn ripper_arguments(pdf: &str, out: &str, cfg: &RipConfig) -> (r: Vec<String>)
    ensures
        texts(r@) == ripper_line(pdf@, out@, *cfg),
{
    let mut list: Vec<String> = Vec::new();
    list.push("--input".to_owned());
    list.push(pdf.to_owned());
    list.push("--output".to_owned());
    list.push(out.to_owned());
    assert(texts(list@) == seq!["--input"@, pdf@, "--output"@, out@]);
    if !cfg.skip_refs {
        let ghost before = list@;
        list.push("--no-skip-refs".to_owned());
        assert(texts(list@) == texts(before).push("--no-skip-refs"@));
    }
    if !cfg.skip_captions {
        let ghost before = list@;
        list.push("--no-skip-captions".to_owned());
        assert(texts(list@) == texts(before).push("--no-skip-captions"@));
    }
    list
}

/// How the ripping script ended.
#[derive(Debug, Clone, Copy, PartialEq, Eq, Structural)]
pub enum RipVerdict {
    Done,
    /// A package that the script needs is not installed.
    MissingPackage,
    Failed,
    ExtractionError,
}

/// How the ripping script ended, by its exit code and what it printed.
pub open spec fn rip_verdict(code: Option<i32>, stdout: Seq<char>) -> RipVerdict {
    match code {
        Some(c) => if c == 0 {
            RipVerdict::Done
        } else if c == 1 {
            if find(stdout, "GOSSIP_MISSING_DEP:pdfplumber"@) is Some {
                RipVerdict::MissingPackage
            } else {
                RipVerdict::Failed
            }
        } else {
            RipVerdict::ExtractionError
        },
        None => RipVerdict::ExtractionError,
    }
}

/// How the ripping script ended, by its exit code and what it printed.
pub fn ripper_verdict(code: Option<i32>, stdout: &str) -> (r: RipVerdict)
    ensures
        r == rip_verdict(code, stdout@),
{
    match code {
        Some(c) => {
            if c == 0 {
                RipVerdict::Done
            } else if c == 1 {
                let printed = chars_of(stdout);
                let mark = chars_of("GOSSIP_MISSING_DEP:pdfplumber");
                assert(printed@.skip(0) == printed@);
                match find_from(printed.as_slice(), 0, mark.as_slice()) {
                    Some(_) => RipVerdict::MissingPackage,
                    None => RipVerdict::Failed,
                }
            } else {
                RipVerdict::ExtractionError
            }
        },
        None => RipVerdict::ExtractionError,
    }
}

/// The path that a program such as `which` printed: its first line, unless that is blank.
pub fn first_path(printed: &str) -> (r: Option<String>)
    ensures
        ({
            let all = lines(printed@);
            match r {
                Some(path) => all.len() > 0 && trim(all[0]).len() > 0 && path@ == trim(all[0]),
                None => all.len() == 0 || trim(all[0]).len() == 0,
            }
        }),
{
    let cs = chars_of(printed);
    let all = split_lines(cs.as_slice());
    let ghost view = crate::text::rows(all@);
    if all.len() == 0 {
        return None;
    }
    assert(view[0] == all@[0]@);
    let t = trimmed(all[0].as_slice());
    if t.len() == 0 {
        None
    } else {
        Some(string_of(t.as_slice()))
    }
}

/// An argument of a program: a path, or text.
#[derive(Debug, Clone)]
pub enum Argument<P> {
    Path(P),
    Text(String),
}

/// Which model a server loads.
#[derive(Debug, Clone, Copy, PartialEq, Eq, Structural)]
pub enum ModelKind {
    /// Text cleanup.
    Language,
    /// Speech.
    Speech,
}

/// The name by which the server knows a kind of model.
pub open spec fn kind_name(kind: ModelKind) -> Seq<char> {
    match kind {
        ModelKind::Language => "qwen3"@,
        ModelKind::Speech => "qwen3-tts"@,
    }
}

/// True if `a` is the text `t`.
pub open spec fn is_text_argument<P>(a: Argument<P>, t: Seq<char>) -> bool {
    a matches Argument::Text(s) && s@ == t
}

/// The arguments with which a server loads the model at `model` and listens on `port`.
pub fn crane_arguments<P>(model: P, kind: ModelKind, port: u16) -> (r: Vec<Argument<P>>)
    ensures
        r@.len() == 6,
        is_text_argument(r@[0], "--model-path"@),
        r@[1] == Argument::Path(model),
        is_text_argument(r@[2], "--model-type"@),
        is_text_argument(r@[3], kind_name(kind)),
        is_text_argument(r@[4], "--port"@),
        is_text_argument(r@[5], decimal(port as nat)),
{
    let mut out: Vec<Argument<P>> = Vec::new();
    out.push(Argument::Text("--model-path".to_owned()));
    out.push(Argument::Path(model));
    out.push(Argument::Text("--model-type".to_owned()));
    match kind {
        ModelKind::Language => {
            out.push(Argument::Text("qwen3".to_owned()));
        },
        ModelKind::Speech => {
            out.push(Argument::Text("qwen3-tts".to_owned()));
        },
    }
    out.push(Argument::Text("--port".to_owned()));
    let digits = decimal_of(port as u64);
    out.push(Argument::Text(string_of(digits.as_slice())));
    out
}

/// How far the start of a server has come.
#[derive(Debug, Clone, Copy, PartialEq, Eq, Structural)]
pub enum Launch {
    /// It is not known yet whether a server is running.
    Probing,
    /// None is running: one has to be started.
    Starting,
    /// One was started and is asked `polls` more times whether it is ready.
    Waiting { polls: u64 },
    /// One was running already.
    Reused,
    Ready,
    TimedOut,
}

/// What happened at a step of the start of a server.
#[derive(Debug, Clone, Copy, PartialEq, Eq, Structural)]
pub enum LaunchEvent {
    Answered,
    Silent,
    Started,
}

/// How many times a server is asked whether it is ready: every two seconds.
pub open spec fn polls(timeout: u64) -> int {
    timeout as int / 2
}

/// A server that is asked `n` more times, or not any more.
pub open spec fn waiting(n: int) -> Launch {
    if n <= 0 {
        Launch::TimedOut
    } else {
        Launch::Waiting { polls: n as u64 }
    }
}

/// How the start of a server goes on.
pub open spec fn launched(state: Launch, event: LaunchEvent, timeout: u64) -> Launch {
    match (state, event) {
        (Launch::Probing, LaunchEvent::Answered) => Launch::Reused,
        (Launch::Probing, LaunchEvent::Silent) => Launch::Starting,
        (Launch::Starting, LaunchEvent::Started) => waiting(polls(timeout)),
        (Launch::Waiting { .. }, LaunchEvent::Answered) => Launch::Ready,
        (Launch::Waiting { polls }, LaunchEvent::Silent) => waiting(polls - 1),
        _ => state,
    }
}

impl Launch {
    /// How the start of a server goes on; `timeout` is in seconds.
    pub fn next(self, event: LaunchEvent, timeout: u64) -> (r: Launch)
        ensures
            r == launched(self, event, timeout),
    {
        match (self, event) {
            (Launch::Probing, LaunchEvent::Answered) => Launch::Reused,
            (Launch::Probing, LaunchEvent::Silent) => Launch::Starting,
            (Launch::Starting, LaunchEvent::Started) => {
                let n: u64 = timeout / 2;
                if n == 0 {
                    Launch::TimedOut
                } else {
                    Launch::Waiting { polls: n }
                }
            },
            (Launch::Waiting { .. }, LaunchEvent::Answered) => Launch::Ready,
            (Launch::Waiting { polls }, LaunchEvent::Silent) => {
                if polls <= 1 {
                    Launch::TimedOut
                } else {
                    Launch::Waiting { polls: polls - 1 }
                }
            },
            _ => self,
        }
    }
}

/// Where a server that was started stands after it was silent `n` times.
pub open spec fn after_silence(timeout: u64, n: nat) -> Launch
    decreases n,
{
    if n == 0 {
        launched(Launch::Starting, LaunchEvent::Started, timeout)
    } else {
        launched(after_silence(timeout, (n - 1) as nat), LaunchEvent::Silent, timeout)
    }
}

/// A server that never answers is given up after it was asked half as many times as the timeout
/// has seconds, and not before.
pub proof fn law_waiting_ends(timeout: u64, n: nat)
    ensures
        after_silence(timeout, n) == waiting(polls(timeout) - n),
    decreases n,
{
    if n > 0 {
        law_waiting_ends(timeout, (n - 1) as nat);
    }
}

/// A server is started only if none answered.
pub proof fn law_no_second_server(state: Launch, event: LaunchEvent, timeout: u64)
    requires
        launched(state, event, timeout) == Launch::Starting,
        state != Launch::Starting,
    ensures
        state == Launch::Probing,
        event == LaunchEvent::Silent,
{
}

/// The ripping script is told its input and output, and what not to leave out: one argument for
/// each of the two.
pub proof fn law_ripper_arguments(pdf: Seq<char>, out: Seq<char>, cfg: RipConfig)
    ensures
        ({
            let r = ripper_line(pdf, out, cfg);
            &&& r.take(4) == seq!["--input"@, pdf, "--output"@, out]
            &&& r.skip(4) == match (cfg.skip_refs, cfg.skip_captions) {
                (true, true) => seq![],
                (false, true) => seq!["--no-skip-refs"@],
                (true, false) => seq!["--no-skip-captions"@],
                (false, false) => seq!["--no-skip-refs"@, "--no-skip-captions"@],
            }
        }),
{
    let r = ripper_line(pdf, out, cfg);
    assert(r.take(4) == seq!["--input"@, pdf, "--output"@, out]);
    assert(r.skip(4) == match (cfg.skip_refs, cfg.skip_captions) {
        (true, true) => seq![],
        (false, true) => seq!["--no-skip-refs"@],
        (true, false) => seq!["--no-skip-captions"@],
        (false, false) => seq!["--no-skip-refs"@, "--no-skip-captions"@],
    });
}

/// The script is done exactly if it exits with 0. With 1 it lacks a package if it printed the mark
/// for that, wherever, and else it failed; any other end is an error of the extraction.
pub proof fn law_ripper_verdicts(code: Option<i32>, before: Seq<char>, after: Seq<char>)
    ensures
        rip_verdict(code, before) == RipVerdict::Done <==> code == Some(0i32),
        rip_verdict(Some(1i32), before + "GOSSIP_MISSING_DEP:pdfplumber"@ + after)
            == RipVerdict::MissingPackage,
        (forall|j: int| !#[trigger] stands(before, "GOSSIP_MISSING_DEP:pdfplumber"@, j))
            ==> rip_verdict(Some(1i32), before) == RipVerdict::Failed,
        code != Some(0i32) && code != Some(1i32) ==> rip_verdict(code, before)
            == RipVerdict::ExtractionError,
{
    let mark = "GOSSIP_MISSING_DEP:pdfplumber"@;
    let all = before + mark + after;
    law_found_first(all, mark);
    law_found_first(before, mark);
    let n = before.len() as int;
    assert(all.subrange(n, n + mark.len()) == mark);
    assert(stands(all, mark, n));
}

/// A server that was started is asked every two seconds of the timeout: as long as it is silent it
/// is waited for, until it was asked so often, and it is ready as soon as it answers.
pub proof fn law_server_is_waited_for(timeout: u64, n: nat)
    ensures
        2 * n + 2 <= timeout ==> {
            &&& after_silence(timeout, n) == Launch::Waiting {
                polls: (timeout as int / 2 - n) as u64,
            }
            &&& launched(after_silence(timeout, n), LaunchEvent::Answered, timeout)
                == Launch::Ready
        },
        2 * n + 2 > timeout ==> after_silence(timeout, n) == Launch::TimedOut,
        launched(Launch::Probing, LaunchEvent::Answered, timeout) == Launch::Reused,
        launched(Launch::Probing, LaunchEvent::Silent, timeout) == Launch::Starting,
{
    law_waiting_ends(timeout, n);
}

} // verus!
