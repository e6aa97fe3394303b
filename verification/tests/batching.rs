use lecturner::batch::{
    classify_outcome, collect_inbox_jobs, destination, end_entry, failure_counts, failure_reason,
    input_stem, is_pdf, is_skipped, is_txt, log_line, log_lines, output_name, picturebook_note,
    start_entry, BatchLogEntry, Destination, JobOutcome, Stage,
};
use lecturner::commands::{
    crane_arguments, ffmpeg_arguments, first_path, ripper_arguments, ripper_verdict, Argument,
    Launch, LaunchEvent, ModelKind, RipVerdict,
};
use lecturner::chunks::{harvest_chunks, Chunk};
use lecturner::config::{
    exit_code, resolve_config, BatchRoot, CliOptions, FileOptions, Mode, PathChoice,
};
use lecturner::jobs::{merge_list, rest_after, ChunkResult, Job, JobEvent, Step};
use lecturner::records::{Boundary, ChunkStatus, RunRecord, Tally};
use lecturner::rip::RipConfig;
use lecturner::runs::{ChunkOutcome, Repair, Run, RunEvent, RunPlan, RunStep};

fn hard(stage: Stage) -> JobOutcome {
    JobOutcome::HardFail { stage, detail: "why".to_string() }
}

#[test]
fn outcome_follows_the_chunks() {
    assert!(matches!(classify_outcome(0, 3, 3), JobOutcome::Picturebook));
    assert!(matches!(classify_outcome(0, 0, 0), JobOutcome::Picturebook));
    assert!(matches!(classify_outcome(3, 0, 3), JobOutcome::Clean));
    assert!(matches!(classify_outcome(1, 2, 3), JobOutcome::Part));
}

#[test]
fn stems_are_in_small_letters() {
    assert_eq!(input_stem(Some("RosenCrantz_Guildenstern")), "rosencrantz_guildenstern");
    assert_eq!(input_stem(Some("ΟΔΟΣ")), "οδος");
    assert_eq!(input_stem(None), "unknown");
}

#[test]
fn outputs_are_named_after_the_outcome() {
    assert_eq!(output_name("hamlet", &JobOutcome::Clean).unwrap(), "hamlet.mp3");
    assert_eq!(output_name("hamlet", &JobOutcome::Part).unwrap(), "hamlet_part.mp3");
    let name = output_name("hamlet", &JobOutcome::Picturebook);
    assert_eq!(name.unwrap(), "hamlet_picturebook.txt");
    assert_eq!(output_name("hamlet", &hard(Stage::Rip)), None);
}

#[test]
fn only_hard_failures_are_errors() {
    assert_eq!(destination(&JobOutcome::Clean), Destination::Completed);
    assert_eq!(destination(&JobOutcome::Part), Destination::Completed);
    assert_eq!(destination(&JobOutcome::Picturebook), Destination::Completed);
    assert_eq!(destination(&hard(Stage::Merge)), Destination::Errored);
}

#[test]
fn reasons_name_the_stage() {
    let all = [
        (Stage::WorkDir, "Cannot create work dir: x"),
        (Stage::Rip, "PDF rip failed: x"),
        (Stage::ReadRipped, "Cannot read ripped text: x"),
        (Stage::ReadInput, "Cannot read input file: x"),
        (Stage::Client, "HTTP client: x"),
        (Stage::StartLlm, "Crane LLM: x"),
        (Stage::Cleanup, "LLM cleanup: x"),
        (Stage::StartTts, "Crane TTS: x"),
        (Stage::Merge, "merge failed: x"),
    ];
    for (stage, text) in all {
        assert_eq!(failure_reason(stage, "x"), text);
    }
}

#[test]
fn log_entries_tell_the_event() {
    let e = start_entry("t".to_string(), "A.pdf");
    assert_eq!((e.ts.as_str(), e.pdf.as_str(), e.event.as_str()), ("t", "A.pdf", "start"));
    assert!(e.outcome.is_none() && e.mp3.is_none() && e.reason.is_none());
    let e = end_entry("t".to_string(), "A.pdf", "a", &JobOutcome::Part);
    assert_eq!(e.event, "complete");
    assert_eq!(e.outcome.as_deref(), Some("part"));
    assert_eq!(e.mp3.as_deref(), Some("a_part.mp3"));
    assert_eq!(e.reason, None);
    let e = end_entry("t".to_string(), "A.pdf", "a", &JobOutcome::Clean);
    assert_eq!(e.outcome.as_deref(), Some("ok"));
    let e = end_entry("t".to_string(), "A.pdf", "a", &JobOutcome::Picturebook);
    assert_eq!(e.outcome.as_deref(), Some("picturebook"));
    assert_eq!(e.mp3.as_deref(), Some("a_picturebook.txt"));
    let e = end_entry("t".to_string(), "A.pdf", "a", &hard(Stage::StartTts));
    assert_eq!(e.event, "fail");
    assert_eq!(e.reason.as_deref(), Some("Crane TTS: why"));
    assert!(e.outcome.is_none() && e.mp3.is_none());
}

fn event(pdf: &str, event: &str) -> BatchLogEntry {
    BatchLogEntry {
        ts: String::new(),
        pdf: pdf.to_string(),
        event: event.to_string(),
        outcome: None,
        mp3: None,
        reason: None,
    }
}

#[test]
fn failures_are_counted_per_file() {
    let log = [
        event("a.pdf", "start"),
        event("a.pdf", "fail"),
        event("b.pdf", "fail"),
        event("a.pdf", "fail"),
        event("b.pdf", "complete"),
    ];
    let counts = failure_counts(&log);
    assert_eq!(counts.of("a.pdf"), 2);
    assert_eq!(counts.of("b.pdf"), 1);
    assert_eq!(counts.of("c.pdf"), 0);
    assert!(is_skipped(counts.of("a.pdf")));
    assert!(!is_skipped(counts.of("b.pdf")));
}

#[test]
fn log_lines_are_read_back() {
    let mut log = String::new();
    for entry in ["{\"a\":1}", "{}", ""] {
        log += &log_line(entry);
    }
    assert_eq!(log_lines(&log), vec!["{\"a\":1}", "{}", ""]);
    assert!(log_lines("").is_empty());
}

#[test]
fn note_tells_the_counts() {
    let t = Tally { good: 0, failed: 2, quarantined: 1 };
    assert_eq!(picturebook_note("hamlet", 3, &t), format!(
        "lecturner batch: no audio produced for hamlet\n{}chunks=3, failed=2, quarantined=1\n",
        " ".repeat(25)
    ));
}

#[test]
fn inbox_is_sorted_and_filtered() {
    let names = ["b.PDF", "a.txt", "notes.md", ".pdf", "B.pdf", "a.txt.bak", "x.Txt", "pdf", "a.tx"];
    let list: Vec<Vec<u8>> = names.iter().map(|n| n.as_bytes().to_vec()).collect();
    let order = collect_inbox_jobs(&list);
    let jobs: Vec<&str> = order.into_iter().map(|i| names[i]).collect();
    assert_eq!(jobs, vec!["B.pdf", "a.txt", "b.PDF", "x.Txt"]);
    assert!(is_pdf("q.pDf".as_bytes()) && !is_pdf("q.txt".as_bytes()));
    assert!(is_txt("q.txt".as_bytes()) && !is_txt(".txt".as_bytes()));
}

fn ok(job: Job) -> Job {
    job.next(JobEvent::Success)
}

fn fail(job: Job) -> Job {
    job.next(JobEvent::Failure { detail: "why".to_string() })
}

fn chunk(job: Job, result: ChunkResult) -> Job {
    job.next(JobEvent::Chunk { result })
}

#[test]
fn job_with_everything_runs_to_its_end() {
    let mut job = Job::new(true, true);
    let steps = [
        Step::MakeWorkDir, Step::Rip, Step::ReadRipped, Step::MakeClient, Step::StartLlm,
        Step::CleanText, Step::StopLlm, Step::SaveText,
    ];
    for step in steps {
        assert_eq!(job.step, step);
        job = ok(job);
    }
    assert_eq!(job.step, Step::Harvest);
    job = job.next(JobEvent::Harvested { total: 4 });
    assert_eq!(job.step, Step::StartTts);
    job = ok(job);
    let results = [
        ChunkResult::Spoken, ChunkResult::Quarantined, ChunkResult::SynthesisFailed,
        ChunkResult::WriteFailed,
    ];
    for result in results {
        assert_eq!(job.step, Step::Speak);
        job = chunk(job, result);
    }
    assert_eq!(job.tally, Tally { good: 1, failed: 2, quarantined: 1 });
    for step in [Step::StopTts, Step::Merge, Step::Transcode, Step::MoveAudio, Step::WipeWorkDir] {
        assert_eq!(job.step, step);
        job = ok(job);
    }
    assert_eq!(job.step, Step::Done);
    assert!(matches!(job.outcome, Some(JobOutcome::Part)));
}

#[test]
fn text_job_without_cleanup_is_short() {
    let job = ok(Job::new(false, false));
    assert_eq!(job.step, Step::ReadInput);
    let job = ok(job);
    assert_eq!(job.step, Step::SaveText);
    let job = fail(job);
    assert_eq!(job.step, Step::Harvest);
    let job = job.next(JobEvent::Harvested { total: 0 });
    assert_eq!(job.step, Step::WipeWorkDir);
    let job = ok(job);
    assert!(matches!(job.outcome, Some(JobOutcome::Picturebook)));
    assert_eq!(job.step, Step::Done);
}

#[test]
fn failed_cleanup_stops_the_server_and_wipes() {
    let job = ok(ok(ok(ok(Job::new(false, true)))));
    assert_eq!(job.step, Step::CleanText);
    let job = fail(job);
    assert_eq!(job.step, Step::StopLlm);
    let job = ok(job);
    assert_eq!(job.step, Step::WipeWorkDir);
    assert!(matches!(job.outcome, Some(JobOutcome::HardFail { stage: Stage::Cleanup, .. })));
}

#[test]
fn each_fatal_stage_ends_the_job() {
    let job = fail(Job::new(true, true));
    assert_eq!(job.step, Step::Done);
    assert!(matches!(job.outcome, Some(JobOutcome::HardFail { stage: Stage::WorkDir, .. })));
    let expected = [Stage::Rip, Stage::ReadRipped, Stage::Client, Stage::StartLlm];
    let mut job = ok(Job::new(true, true));
    for stage in expected {
        let ended = fail(job.clone());
        assert_eq!(ended.step, Step::WipeWorkDir);
        match ended.outcome {
            Some(JobOutcome::HardFail { stage: s, detail }) => {
                assert_eq!(s, stage);
                assert_eq!(detail, "why");
            }
            other => panic!("{other:?}"),
        }
        job = ok(job);
    }
    let job = fail(ok(Job::new(false, false)));
    assert!(matches!(job.outcome, Some(JobOutcome::HardFail { stage: Stage::ReadInput, .. })));
    let speaking = ok(ok(ok(Job::new(false, false)))).next(JobEvent::Harvested { total: 1 });
    let job = fail(speaking.clone());
    assert!(matches!(job.outcome, Some(JobOutcome::HardFail { stage: Stage::StartTts, .. })));
    let merging = ok(chunk(ok(speaking), ChunkResult::Spoken));
    let job = fail(merging);
    assert_eq!(job.step, Step::WipeWorkDir);
    assert!(matches!(job.outcome, Some(JobOutcome::HardFail { stage: Stage::Merge, .. })));
}

#[test]
fn job_without_audio_leaves_a_note() {
    let job = ok(ok(ok(Job::new(false, false)))).next(JobEvent::Harvested { total: 1 });
    let job = ok(chunk(ok(job), ChunkResult::Quarantined));
    assert_eq!(job.step, Step::LeaveNote);
    let job = ok(job);
    assert_eq!(job.step, Step::WipeWorkDir);
    assert!(matches!(job.outcome, Some(JobOutcome::Picturebook)));
}

#[test]
fn failed_transcoding_is_not_fatal() {
    let job = ok(ok(ok(Job::new(false, false)))).next(JobEvent::Harvested { total: 1 });
    let job = ok(ok(chunk(ok(job), ChunkResult::Spoken)));
    assert_eq!(job.step, Step::Transcode);
    let job = fail(job);
    assert_eq!(job.step, Step::WipeWorkDir);
    assert!(matches!(job.outcome, Some(JobOutcome::Clean)));
}

#[test]
fn stray_events_change_nothing() {
    let job = Job::new(true, true).next(JobEvent::Harvested { total: 9 });
    assert_eq!(job.step, Step::MakeWorkDir);
    assert_eq!(job.total, 0);
    let job = chunk(job, ChunkResult::Spoken);
    assert_eq!(job.tally, Tally { good: 0, failed: 0, quarantined: 0 });
}

#[test]
fn only_spoken_chunks_are_merged() {
    let boundaries = [
        Some(Boundary::Paragraph),
        Some(Boundary::Sentence),
        Some(Boundary::Paragraph),
        Some(Boundary::Sentence),
        None,
    ];
    let chunks: Vec<Chunk> = boundaries
        .into_iter()
        .map(|b| Chunk { text: "x".to_string(), trailing_boundary: b })
        .collect();
    let results = [
        ChunkResult::Spoken,
        ChunkResult::Quarantined,
        ChunkResult::WriteFailed,
        ChunkResult::Spoken,
        ChunkResult::SynthesisFailed,
    ];
    let (list, gaps) = merge_list(&chunks, &results);
    assert_eq!(list, vec![0, 3]);
    assert_eq!(gaps, vec![Some(Boundary::Paragraph), Some(Boundary::Sentence)]);

    let mut job = Job::new(false, false);
    for _ in 0..3 {
        job = job.next(JobEvent::Success);
    }
    job = job.next(JobEvent::Harvested { total: 5 }).next(JobEvent::Success);
    for r in results {
        job = chunk(job, r);
    }
    assert_eq!(job.step, Step::StopTts);
    assert_eq!(job.tally.good, list.len());

    let (none, _) = merge_list(&chunks[1..3], &results[1..3]);
    assert!(none.is_empty());
}

#[test]
fn rests_come_between_chunks() {
    assert_eq!(rest_after(1, 2, 500), Some(500));
    assert_eq!(rest_after(2, 2, 500), None);
    assert_eq!(rest_after(1, 2, 0), None);
}

#[test]
fn programs_get_their_arguments() {
    assert_eq!(ffmpeg_arguments("a.wav", "a.mp3"),
        vec!["-y", "-i", "a.wav", "-codec:a", "libmp3lame", "-q:a", "2", "a.mp3"]);
    let cfg = RipConfig { skip_refs: true, skip_captions: true };
    assert_eq!(ripper_arguments("p", "o", &cfg), vec!["--input", "p", "--output", "o"]);
    let cfg = RipConfig { skip_refs: false, skip_captions: false };
    assert_eq!(ripper_arguments("p", "o", &cfg),
        vec!["--input", "p", "--output", "o", "--no-skip-refs", "--no-skip-captions"]);
    let args: Vec<String> = crane_arguments("m", ModelKind::Speech, 8102).into_iter().map(|a| match a {
        Argument::Path(p) => p.to_string(),
        Argument::Text(t) => t,
    }).collect();
    assert_eq!(args, vec!["--model-path", "m", "--model-type", "qwen3-tts", "--port", "8102"]);
    match &crane_arguments("m", ModelKind::Language, 1)[3] {
        Argument::Text(t) => assert_eq!(t, "qwen3"),
        other => panic!("{other:?}"),
    }
}

#[test]
fn exit_codes_of_the_ripper() {
    assert_eq!(ripper_verdict(Some(0), ""), RipVerdict::Done);
    let printed = "x\nGOSSIP_MISSING_DEP:pdfplumber\n";
    assert_eq!(ripper_verdict(Some(1), printed), RipVerdict::MissingPackage);
    assert_eq!(ripper_verdict(Some(1), "x"), RipVerdict::Failed);
    assert_eq!(ripper_verdict(Some(2), printed), RipVerdict::ExtractionError);
    assert_eq!(ripper_verdict(None, ""), RipVerdict::ExtractionError);
}

#[test]
fn first_printed_path_counts() {
    assert_eq!(first_path(" /bin/x \r\n/bin/y\n").as_deref(), Some("/bin/x"));
    assert_eq!(first_path("\n/bin/y\n"), None);
    assert_eq!(first_path(""), None);
}

#[test]
fn running_server_is_reused() {
    assert_eq!(Launch::Probing.next(LaunchEvent::Answered, 60), Launch::Reused);
    assert_eq!(Launch::Probing.next(LaunchEvent::Silent, 60), Launch::Starting);
}

#[test]
fn silent_server_is_given_up() {
    let mut state = Launch::Starting.next(LaunchEvent::Started, 7);
    assert_eq!(state, Launch::Waiting { polls: 3 });
    assert_eq!(state.next(LaunchEvent::Answered, 7), Launch::Ready);
    for _ in 0..3 {
        assert_ne!(state, Launch::TimedOut);
        state = state.next(LaunchEvent::Silent, 7);
    }
    assert_eq!(state, Launch::TimedOut);
    assert_eq!(Launch::Starting.next(LaunchEvent::Started, 1), Launch::TimedOut);
    assert_eq!(Launch::Ready.next(LaunchEvent::Silent, 7), Launch::Ready);
}

fn cli() -> CliOptions<u8> {
    CliOptions {
        input: None,
        out_dir: None,
        rest_ms: None,
        min_chars: None,
        max_words: None,
        merge: None,
        to_mp3: None,
        sentence_gap_ms: None,
        paragraph_gap_ms: None,
        ffmpeg_bin: None,
        rip_pdf: None,
        skip_refs: None,
        skip_captions: None,
        rip_pdf_only: false,
        merge_only: false,
        fix_quarantine: false,
        batch_pdf: None,
    }
}

fn file() -> FileOptions {
    FileOptions {
        input: None,
        out_dir: None,
        rest_ms: None,
        min_chars: None,
        max_words: None,
        merge: None,
        to_mp3: None,
        sentence_gap_ms: None,
        paragraph_gap_ms: None,
        ffmpeg_bin: None,
        python_bin: None,
        rip_pdf: None,
        skip_refs: None,
        skip_captions: None,
        validate: None,
        whisper_model: None,
        whisper_model_dir: None,
        validate_threshold: None,
        llm_clean: None,
        crane_llm_bin: None,
        crane_llm_model: None,
        crane_llm_port: None,
        crane_llm_timeout: None,
        crane_tts_bin: None,
        crane_tts_model: None,
        crane_tts_port: None,
        crane_tts_timeout: None,
        crane_tts_voice: None,
        crane_tts_language: None,
        crane_tts_instruct: None,
    }
}

fn is_text(path: &PathChoice<u8>, text: &str) -> bool {
    matches!(path, PathChoice::Text(s) if s == text)
}

#[test]
fn defaults_hold_where_nothing_is_said() {
    let cfg = resolve_config(cli(), file());
    assert!(is_text(&cfg.input, "text.txt"));
    assert!(is_text(&cfg.out_dir, "audio_out"));
    assert!(is_text(&cfg.ffmpeg_bin, "ffmpeg"));
    assert_eq!((cfg.rest_ms, cfg.min_chars, cfg.max_words), (500, 10, 200));
    assert_eq!((cfg.sentence_gap_ms, cfg.paragraph_gap_ms), (180, 360));
    assert!(cfg.merge && !cfg.to_mp3 && cfg.skip_refs && cfg.skip_captions);
    assert!(!cfg.validate && !cfg.llm_clean);
    assert_eq!(f32::from_bits(cfg.validate_threshold), 0.18f32);
    assert_eq!(cfg.python_bin, "python");
    assert_eq!(cfg.whisper_model, "ggml-medium.en.bin");
    assert_eq!(cfg.whisper_model_dir, "models");
    assert_eq!((cfg.crane_llm_port, cfg.crane_llm_timeout), (8101, 60));
    assert_eq!((cfg.crane_tts_port, cfg.crane_tts_timeout), (8102, 60));
    assert_eq!(cfg.crane_tts_voice, "Aiden");
    assert!(cfg.crane_tts_language.is_none() && cfg.rip_pdf.is_none() && cfg.batch_pdf.is_none());
    assert_eq!(cfg.mode(), Mode::Single);
}

#[test]
fn command_line_comes_before_the_file() {
    let mut c = cli();
    c.input = Some(7);
    c.rest_ms = Some(1);
    let mut f = file();
    f.input = Some("f.txt".to_string());
    f.out_dir = Some("out".to_string());
    f.rest_ms = Some(2);
    f.max_words = Some(3);
    let cfg = resolve_config(c, f);
    assert!(matches!(cfg.input, PathChoice::Given(7)));
    assert!(is_text(&cfg.out_dir, "out"));
    assert_eq!((cfg.rest_ms, cfg.max_words, cfg.min_chars), (1, 3, 10));
}

#[test]
fn ripping_turns_cleanup_on() {
    let mut c = cli();
    c.rip_pdf = Some(1);
    assert!(resolve_config(c.clone(), file()).llm_clean);
    let mut f = file();
    f.rip_pdf = Some("p.pdf".to_string());
    let cfg = resolve_config(cli(), f.clone());
    assert!(cfg.llm_clean);
    assert!(matches!(&cfg.rip_pdf, Some(PathChoice::Text(s)) if s == "p.pdf"));
    f.llm_clean = Some(false);
    let cfg = resolve_config(c, f);
    assert!(!cfg.llm_clean);
    assert!(matches!(cfg.rip_pdf, Some(PathChoice::Given(1))));
}

#[test]
fn modes_have_an_order() {
    let mut c = cli();
    let mode = |c: &CliOptions<u8>| resolve_config(c.clone(), file()).mode();
    assert_eq!(mode(&c), Mode::Single);
    c.fix_quarantine = true;
    assert_eq!(mode(&c), Mode::FixQuarantine);
    c.merge_only = true;
    assert_eq!(mode(&c), Mode::MergeOnly);
    c.batch_pdf = Some(None);
    assert_eq!(mode(&c), Mode::Batch);
    assert!(matches!(resolve_config(c.clone(), file()).batch_pdf, Some(BatchRoot::NextToProgram)));
    c.batch_pdf = Some(Some(4));
    assert!(matches!(resolve_config(c, file()).batch_pdf, Some(BatchRoot::At(4))));
}

#[test]
fn plan_of_a_run_follows_the_configuration() {
    let mut c = cli();
    c.rip_pdf = Some(1);
    c.rip_pdf_only = true;
    c.to_mp3 = Some(true);
    let mut f = file();
    f.validate = Some(true);
    f.merge = Some(false);
    let plan = resolve_config(c, f).run_plan();
    assert_eq!(plan, RunPlan {
        rip: true,
        rip_only: true,
        use_llm: true,
        validate: true,
        merge: false,
        to_mp3: true,
    });
}

#[test]
fn failed_chunks_set_the_exit_code() {
    assert_eq!(exit_code(&Tally { good: 1, failed: 0, quarantined: 3 }), 0);
    assert_eq!(exit_code(&Tally { good: 1, failed: 1, quarantined: 0 }), 1);
}

fn plan() -> RunPlan {
    RunPlan {
        rip: false,
        rip_only: false,
        use_llm: false,
        validate: false,
        merge: true,
        to_mp3: true,
    }
}

fn run(plan: RunPlan) -> Run {
    Run::new(plan, RunRecord::with_timestamp(String::new(), "t".to_string(), None))
}

fn walk(run: &mut Run, steps: &[RunStep]) {
    for &step in steps {
        assert_eq!(run.step, step);
        run.advance(RunEvent::Success);
    }
}

fn outcome(run: &mut Run, outcome: ChunkOutcome) {
    assert_eq!(run.step, RunStep::Speak);
    run.advance(RunEvent::Chunk { outcome });
}

fn harvested(text: &str) -> RunEvent {
    RunEvent::Harvested { chunks: harvest_chunks(text, 1, 0) }
}

#[test]
fn full_run_goes_through_all_steps() {
    let mut r = run(RunPlan { rip: true, use_llm: true, validate: true, ..plan() });
    walk(&mut r, &[
        RunStep::Rip, RunStep::ReadInput, RunStep::StartLlm, RunStep::CleanText, RunStep::StopLlm,
    ]);
    assert_eq!(r.step, RunStep::Harvest);
    r.advance(harvested("One.\n\nTwo.\n\nThree."));
    walk(&mut r, &[RunStep::StartTts, RunStep::LoadEar]);
    outcome(&mut r, ChunkOutcome::Spoken);
    outcome(&mut r, ChunkOutcome::Quarantined);
    outcome(&mut r, ChunkOutcome::Failed { reason: "no".to_string() });
    assert_eq!(r.record.chunks.len(), 3);
    assert!(r.record.chunks[0].is_mergeable());
    assert_eq!(r.record.chunks[1].quarantined_text(), Some("Two."));
    assert!(matches!(&r.record.chunks[2].status, ChunkStatus::Failed { reason } if reason == "no"));
    assert_eq!(r.record.chunks[2].wav, "paragraph_003.wav");
    walk(&mut r, &[RunStep::Merge]);
    assert_eq!(r.step, RunStep::FindAudio);
    r.advance(RunEvent::Audio { exists: true });
    walk(&mut r, &[RunStep::Transcode, RunStep::StopTts]);
    assert_eq!(r.step, RunStep::Finished);
}

#[test]
fn rip_only_run_stops_early() {
    let mut r = run(RunPlan { rip: true, rip_only: true, ..plan() });
    walk(&mut r, &[RunStep::Rip]);
    assert_eq!(r.step, RunStep::Finished);
}

#[test]
fn run_without_chunks_is_aborted() {
    let mut r = run(plan());
    walk(&mut r, &[RunStep::ReadInput]);
    r.advance(harvested(""));
    assert_eq!(r.step, RunStep::Aborted);
}

#[test]
fn run_without_good_chunks_merges_nothing() {
    let mut r = run(plan());
    walk(&mut r, &[RunStep::ReadInput]);
    r.advance(harvested("One."));
    walk(&mut r, &[RunStep::StartTts]);
    outcome(&mut r, ChunkOutcome::Quarantined);
    assert_eq!(r.step, RunStep::FindAudio);
    r.advance(RunEvent::Audio { exists: false });
    assert_eq!(r.step, RunStep::StopTts);
}

#[test]
fn run_goes_on_after_a_failed_merge_but_not_a_failed_write() {
    let mut r = run(plan());
    walk(&mut r, &[RunStep::ReadInput]);
    r.advance(harvested("One."));
    walk(&mut r, &[RunStep::StartTts]);
    let mut aborted = r.clone();
    aborted.advance(RunEvent::Failure);
    assert_eq!(aborted.step, RunStep::Aborted);
    outcome(&mut r, ChunkOutcome::Spoken);
    r.advance(RunEvent::Failure);
    assert_eq!(r.step, RunStep::FindAudio);
    r.advance(RunEvent::Success);
    assert_eq!(r.step, RunStep::FindAudio);
}

#[test]
fn repair_recovers_quarantined_chunks_only() {
    let mut r = run(plan());
    walk(&mut r, &[RunStep::ReadInput]);
    r.advance(harvested("One.\n\nTwo.\n\nThree.\n\nFour."));
    walk(&mut r, &[RunStep::StartTts]);
    outcome(&mut r, ChunkOutcome::Quarantined);
    outcome(&mut r, ChunkOutcome::Failed { reason: "no".to_string() });
    outcome(&mut r, ChunkOutcome::Spoken);
    outcome(&mut r, ChunkOutcome::Quarantined);
    let mut repair = Repair::new(r.record);
    assert_eq!(repair.next(), Some(0));
    repair.put_down(false);
    assert_eq!(repair.next(), Some(3));
    repair.put_down(true);
    assert_eq!(repair.next(), None);
    assert_eq!((repair.recovered, repair.still_bad()), (1, 1));
    let list = &repair.record.chunks;
    assert_eq!(list[0].quarantined_text(), Some("One."));
    assert!(matches!(list[1].status, ChunkStatus::Failed { .. }));
    assert!(list[2].is_mergeable() && list[3].is_mergeable());
}
