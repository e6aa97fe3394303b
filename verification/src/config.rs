//! The configuration of a run: what the command line and the configuration file say, and what
//! holds where neither says anything.

use crate::records::Tally;
use crate::runs::RunPlan;
use vstd::prelude::*;

verus! {

/// A path: one of the command line, or a text of the configuration file.
#[derive(Debug, Clone)]
pub enum PathChoice<P> {
    Given(P),
    Text(String),
}

/// Where a batch lives.
#[derive(Debug, Clone)]
pub enum BatchRoot<P> {
    At(P),
    /// In the directory "batch" next to the program.
    NextToProgram,
}

/// What the command line says.
#[derive(Debug, Clone)]
pub struct CliOptions<P> {
    pub input: Option<P>,
    pub out_dir: Option<P>,
    pub rest_ms: Option<u64>,
    pub min_chars: Option<usize>,
    pub max_words: Option<usize>,
    pub merge: Option<bool>,
    pub to_mp3: Option<bool>,
    pub sentence_gap_ms: Option<u32>,
    pub paragraph_gap_ms: Option<u32>,
    pub ffmpeg_bin: Option<P>,
    pub rip_pdf: Option<P>,
    pub skip_refs: Option<bool>,
    pub skip_captions: Option<bool>,
    pub rip_pdf_only: bool,
    pub merge_only: bool,
    pub fix_quarantine: bool,
    /// Set if a batch is asked for; `Some(None)` if no path is given.
    pub batch_pdf: Option<Option<P>>,
}

/// What the configuration file says.
#[derive(Debug, Clone)]
pub struct FileOptions {
    pub input: Option<String>,
    pub out_dir: Option<String>,
    pub rest_ms: Option<u64>,
    pub min_chars: Option<usize>,
    pub max_words: Option<usize>,
    pub merge: Option<bool>,
    pub to_mp3: Option<bool>,
    pub sentence_gap_ms: Option<u32>,
    pub paragraph_gap_ms: Option<u32>,
    pub ffmpeg_bin: Option<String>,
    pub python_bin: Option<String>,
    pub rip_pdf: Option<String>,
    pub skip_refs: Option<bool>,
    pub skip_captions: Option<bool>,
    pub validate: Option<bool>,
    pub whisper_model: Option<String>,
    pub whisper_model_dir: Option<String>,
    /// The bits of a single-precision number.
    pub validate_threshold: Option<u32>,
    pub llm_clean: Option<bool>,
    pub crane_llm_bin: Option<String>,
    pub crane_llm_model: Option<String>,
    pub crane_llm_port: Option<u16>,
    pub crane_llm_timeout: Option<u64>,
    pub crane_tts_bin: Option<String>,
    pub crane_tts_model: Option<String>,
    pub crane_tts_port: Option<u16>,
    pub crane_tts_timeout: Option<u64>,
    pub crane_tts_voice: Option<String>,
    pub crane_tts_language: Option<String>,
    pub crane_tts_instruct: Option<String>,
}

/// The configuration of a run.
#[derive(Debug, Clone)]
pub struct Config<P> {
    pub input: PathChoice<P>,
    pub out_dir: PathChoice<P>,
    pub rest_ms: u64,
    pub min_chars: usize,
    pub max_words: usize,
    pub merge: bool,
    pub to_mp3: bool,
    pub sentence_gap_ms: u32,
    pub paragraph_gap_ms: u32,
    pub ffmpeg_bin: PathChoice<P>,
    pub python_bin: String,
    pub rip_pdf: Option<PathChoice<P>>,
    pub rip_pdf_only: bool,
    pub skip_refs: bool,
    pub skip_captions: bool,
    pub validate: bool,
    pub whisper_model: String,
    pub whisper_model_dir: String,
    /// The bits of a single-precision number.
    pub validate_threshold: u32,
    pub llm_clean: bool,
    pub crane_llm_bin: Option<String>,
    pub crane_llm_model: Option<String>,
    pub crane_llm_port: u16,
    pub crane_llm_timeout: u64,
    pub crane_tts_bin: Option<String>,
    pub crane_tts_model: Option<String>,
    pub crane_tts_port: u16,
    pub crane_tts_timeout: u64,
    pub crane_tts_voice: String,
    pub crane_tts_language: Option<String>,
    pub crane_tts_instruct: Option<String>,
    pub merge_only: bool,
    pub fix_quarantine: bool,
    pub batch_pdf: Option<BatchRoot<P>>,
}

/// The bits of the single-precision number 0.18.
pub const DEFAULT_THRESHOLD: u32 = 0x3e38_51ec;

/// The value of the command line, else that of the file, else the default.
pub open spec fn chosen<T>(cli: Option<T>, file: Option<T>, default: T) -> T {
    match cli {
        Some(v) => v,
        None => match file {
            Some(v) => v,
            None => default,
        },
    }
}

/// The text of the file, else the default.
pub open spec fn chosen_text(file: Option<String>, default: Seq<char>) -> Seq<char> {
    match file {
        Some(s) => s@,
        None => default,
    }
}

/// True if `path` is the path of the command line, else that of the file, else the default.
pub open spec fn is_chosen_path<P>(
    path: PathChoice<P>,
    cli: Option<P>,
    file: Option<String>,
    default: Seq<char>,
) -> bool {
    match cli {
        Some(p) => path == PathChoice::Given(p),
        None => path matches PathChoice::Text(s) && s@ == chosen_text(file, default),
    }
}

fn pick<T>(cli: Option<T>, file: Option<T>, default: T) -> (r: T)
    ensures
        r == chosen(cli, file, default),
{
    match cli {
        Some(v) => v,
        None => match file {
            Some(v) => v,
            None => default,
        },
    }
}

fn pick_text(file: Option<String>, default: &str) -> (r: String)
    ensures
        r@ == chosen_text(file, default@),
{
    match file {
        Some(s) => s,
        None => default.to_owned(),
    }
}

fn pick_path<P>(cli: Option<P>, file: Option<String>, default: &str) -> (r: PathChoice<P>)
    ensures
        is_chosen_path(r, cli, file, default@),
{
    match cli {
        Some(p) => PathChoice::Given(p),
        None => PathChoice::Text(pick_text(file, default)),
    }
}

/// Merges the command line and the configuration file. A value of the command line comes before
/// one of the file, and that before the default. Text is cleaned up by default if a paper is
/// ripped.
pub fn resolve_config<P>(cli: CliOptions<P>, file: FileOptions) -> (r: Config<P>)
    ensures
        is_chosen_path(r.input, cli.input, file.input, "text.txt"@),
        is_chosen_path(r.out_dir, cli.out_dir, file.out_dir, "audio_out"@),
        r.rest_ms == chosen(cli.rest_ms, file.rest_ms, 500),
        r.min_chars == chosen(cli.min_chars, file.min_chars, 10),
        r.max_words == chosen(cli.max_words, file.max_words, 200),
        r.merge == chosen(cli.merge, file.merge, true),
        r.to_mp3 == chosen(cli.to_mp3, file.to_mp3, false),
        r.sentence_gap_ms == chosen(cli.sentence_gap_ms, file.sentence_gap_ms, 180),
        r.paragraph_gap_ms == chosen(cli.paragraph_gap_ms, file.paragraph_gap_ms, 360),
        is_chosen_path(r.ffmpeg_bin, cli.ffmpeg_bin, file.ffmpeg_bin, "ffmpeg"@),
        r.python_bin@ == chosen_text(file.python_bin, "python"@),
        match cli.rip_pdf {
            Some(p) => r.rip_pdf == Some(PathChoice::Given(p)),
            None => match file.rip_pdf {
                Some(s) => r.rip_pdf == Some(PathChoice::<P>::Text(s)),
                None => r.rip_pdf is None,
            },
        },
        r.rip_pdf_only == cli.rip_pdf_only,
        r.skip_refs == chosen(cli.skip_refs, file.skip_refs, true),
        r.skip_captions == chosen(cli.skip_captions, file.skip_captions, true),
        r.validate == chosen(None, file.validate, false),
        r.whisper_model@ == chosen_text(file.whisper_model, "ggml-medium.en.bin"@),
        r.whisper_model_dir@ == chosen_text(file.whisper_model_dir, "models"@),
        r.validate_threshold == chosen(None, file.validate_threshold, DEFAULT_THRESHOLD),
        r.llm_clean == chosen(
            None,
            file.llm_clean,
            cli.rip_pdf is Some || file.rip_pdf is Some,
        ),
        r.crane_llm_bin == file.crane_llm_bin,
        r.crane_llm_model == file.crane_llm_model,
        r.crane_llm_port == chosen(None, file.crane_llm_port, 8101),
        r.crane_llm_timeout == chosen(None, file.crane_llm_timeout, 60),
        r.crane_tts_bin == file.crane_tts_bin,
        r.crane_tts_model == file.crane_tts_model,
        r.crane_tts_port == chosen(None, file.crane_tts_port, 8102),
        r.crane_tts_timeout == chosen(None, file.crane_tts_timeout, 60),
        r.crane_tts_voice@ == chosen_text(file.crane_tts_voice, "Aiden"@),
        r.crane_tts_language == file.crane_tts_language,
        r.crane_tts_instruct == file.crane_tts_instruct,
        r.merge_only == cli.merge_only,
        r.fix_quarantine == cli.fix_quarantine,
        r.batch_pdf == match cli.batch_pdf {
            Some(Some(p)) => Some(BatchRoot::At(p)),
            Some(None) => Some(BatchRoot::NextToProgram),
            None => None,
        },
{
    let ripping = cli.rip_pdf.is_some() || file.rip_pdf.is_some();
    let rip_pdf = match cli.rip_pdf {
        Some(p) => Some(PathChoice::Given(p)),
        None => match file.rip_pdf {
            Some(s) => Some(PathChoice::Text(s)),
            None => None,
        },
    };
    let batch_pdf = match cli.batch_pdf {
        Some(Some(p)) => Some(BatchRoot::At(p)),
        Some(None) => Some(BatchRoot::NextToProgram),
        None => None,
    };
    Config {
        input: pick_path(cli.input, file.input, "text.txt"),
        out_dir: pick_path(cli.out_dir, file.out_dir, "audio_out"),
        rest_ms: pick(cli.rest_ms, file.rest_ms, 500),
        min_chars: pick(cli.min_chars, file.min_chars, 10),
        max_words: pick(cli.max_words, file.max_words, 200),
        merge: pick(cli.merge, file.merge, true),
        to_mp3: pick(cli.to_mp3, file.to_mp3, false),
        sentence_gap_ms: pick(cli.sentence_gap_ms, file.sentence_gap_ms, 180),
        paragraph_gap_ms: pick(cli.paragraph_gap_ms, file.paragraph_gap_ms, 360),
        ffmpeg_bin: pick_path(cli.ffmpeg_bin, file.ffmpeg_bin, "ffmpeg"),
        python_bin: pick_text(file.python_bin, "python"),
        rip_pdf,
        rip_pdf_only: cli.rip_pdf_only,
        skip_refs: pick(cli.skip_refs, file.skip_refs, true),
        skip_captions: pick(cli.skip_captions, file.skip_captions, true),
        validate: pick(None, file.validate, false),
        whisper_model: pick_text(file.whisper_model, "ggml-medium.en.bin"),
        whisper_model_dir: pick_text(file.whisper_model_dir, "models"),
        validate_threshold: pick(None, file.validate_threshold, DEFAULT_THRESHOLD),
        llm_clean: pick(None, file.llm_clean, ripping),
        crane_llm_bin: file.crane_llm_bin,
        crane_llm_model: file.crane_llm_model,
        crane_llm_port: pick(None, file.crane_llm_port, 8101),
        crane_llm_timeout: pick(None, file.crane_llm_timeout, 60),
        crane_tts_bin: file.crane_tts_bin,
        crane_tts_model: file.crane_tts_model,
        crane_tts_port: pick(None, file.crane_tts_port, 8102),
        crane_tts_timeout: pick(None, file.crane_tts_timeout, 60),
        crane_tts_voice: pick_text(file.crane_tts_voice, "Aiden"),
        crane_tts_language: file.crane_tts_language,
        crane_tts_instruct: file.crane_tts_instruct,
        merge_only: cli.merge_only,
        fix_quarantine: cli.fix_quarantine,
        batch_pdf,
    }
}

/// What a run does.
#[derive(Debug, Clone, Copy, PartialEq, Eq, Structural)]
pub enum Mode {
    Batch,
    MergeOnly,
    FixQuarantine,
    /// Speak one text.
    Single,
}

/// What a run does: a batch comes before merging, merging before repair, and repair before
/// speaking.
pub open spec fn mode_of<P>(cfg: Config<P>) -> Mode {
    if cfg.batch_pdf is Some {
        Mode::Batch
    } else if cfg.merge_only {
        Mode::MergeOnly
    } else if cfg.fix_quarantine {
        Mode::FixQuarantine
    } else {
        Mode::Single
    }
}

impl<P> Config<P> {
    /// What a run does.
    pub fn mode(&self) -> (r: Mode)
        ensures
            r == mode_of(*self),
    {
        if self.batch_pdf.is_some() {
            Mode::Batch
        } else if self.merge_only {
            Mode::MergeOnly
        } else if self.fix_quarantine {
            Mode::FixQuarantine
        } else {
            Mode::Single
        }
    }

    /// What a run over one text is asked to do.
    pub fn run_plan(&self) -> (r: RunPlan)
        ensures
            r == (RunPlan {
                rip: self.rip_pdf is Some,
                rip_only: self.rip_pdf_only,
                use_llm: self.llm_clean,
                validate: self.validate,
                merge: self.merge,
                to_mp3: self.to_mp3,
            }),
    {
        RunPlan {
            rip: self.rip_pdf.is_some(),
            rip_only: self.rip_pdf_only,
            use_llm: self.llm_clean,
            validate: self.validate,
            merge: self.merge,
            to_mp3: self.to_mp3,
        }
    }
}

/// The exit code of a run: 1 if a chunk failed, though not if one was quarantined.
pub fn exit_code(tally: &Tally) -> (r: i32)
    ensures
        r == if tally.failed > 0 {
            1i32
        } else {
            0i32
        },
{
    if tally.failed > 0 {
        1
    } else {
        0
    }
}

/// A value of the command line is taken whatever the file says, one of the file where the command
/// line says nothing, and the default only where neither does.
pub proof fn law_command_line_comes_first<T>(cli: Option<T>, file: Option<T>, default: T)
    ensures
        cli matches Some(v) ==> chosen(cli, file, default) == v,
        cli is None ==> (file matches Some(v) ==> chosen(cli, file, default) == v),
        cli is None && file is None ==> chosen(cli, file, default) == default,
{
}

/// A path of the command line is taken as it was given, whatever the file says; else the text of
/// the file is, and the default only where neither says anything.
pub proof fn law_paths_of_the_command_line_come_first<P>(
    path: PathChoice<P>,
    cli: Option<P>,
    file: Option<String>,
    default: Seq<char>,
)
    requires
        is_chosen_path(path, cli, file, default),
    ensures
        cli matches Some(p) ==> path == PathChoice::Given(p),
        cli is None ==> path is Text,
        cli is None ==> (file matches Some(s) ==> path->Text_0@ == s@),
        cli is None && file is None ==> path->Text_0@ == default,
        file matches Some(s) ==> chosen_text(file, default) == s@,
        file is None ==> chosen_text(file, default) == default,
{
}

/// A batch is run whatever else is asked for; merging comes next, then repair, and a text is
/// spoken only if nothing else is asked for.
pub proof fn law_modes<P>(cfg: Config<P>)
    ensures
        mode_of(cfg) == Mode::Batch <==> cfg.batch_pdf is Some,
        mode_of(cfg) == Mode::MergeOnly <==> cfg.batch_pdf is None && cfg.merge_only,
        mode_of(cfg) == Mode::FixQuarantine <==> cfg.batch_pdf is None && !cfg.merge_only
            && cfg.fix_quarantine,
        mode_of(cfg) == Mode::Single <==> cfg.batch_pdf is None && !cfg.merge_only
            && !cfg.fix_quarantine,
{
}

} // verus!
