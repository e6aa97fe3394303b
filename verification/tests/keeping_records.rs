use lecturner::chunks::harvest_chunks;
use lecturner::cleanup::{
    chat_request, clean_paragraph, cleaned_name, cleanup_paragraphs, has_answer, is_drop,
    llm_clean_text, LLM_CLEAN_SYSTEM,
};
use lecturner::records::{
    bad_name, failed_indices, merge_plan, retry_indices, tally, timestamp, wav_name, Boundary,
    ChunkRecord, ChunkStatus, RunRecord, Tally,
};

fn record(ordinal: usize, status: ChunkStatus) -> ChunkRecord {
    ChunkRecord { ordinal, wav: wav_name(ordinal), trailing_boundary: None, status }
}

fn quarantined(text: &str) -> ChunkStatus {
    ChunkStatus::Quarantined { original_text: text.to_string() }
}

fn failed() -> ChunkStatus {
    ChunkStatus::Failed { reason: "no server".to_string() }
}

fn mixed() -> Vec<ChunkRecord> {
    vec![
        record(1, ChunkStatus::Passed),
        record(2, quarantined("oops")),
        record(3, failed()),
        record(4, ChunkStatus::Passed),
        record(5, ChunkStatus::Skipped { reason: "short".to_string() }),
    ]
}

#[test]
fn status_decides_what_can_be_done() {
    let list = mixed();
    let mergeable: Vec<bool> = list.iter().map(|r| r.is_mergeable()).collect();
    assert_eq!(mergeable, vec![true, false, false, true, false]);
    let retried: Vec<bool> = list.iter().map(|r| r.needs_retry()).collect();
    assert_eq!(retried, vec![false, true, false, false, false]);
    assert_eq!(list[1].quarantined_text(), Some("oops"));
    assert_eq!(list[2].quarantined_text(), None);
}

#[test]
fn names_have_three_digits_or_more() {
    assert_eq!(wav_name(7), "paragraph_007.wav");
    assert_eq!(wav_name(1234), "paragraph_1234.wav");
    assert_eq!(bad_name(42), "paragraph_042.bad.txt");
}

#[test]
fn records_are_sorted_out() {
    let list = mixed();
    assert_eq!(retry_indices(&list), vec![1]);
    assert_eq!(failed_indices(&list), vec![2]);
    let plan = merge_plan(&list, &[true, true, true, false, true]);
    assert_eq!(plan.ready, vec![0]);
    assert_eq!(plan.missing, vec![3]);
    assert_eq!(tally(&list), Tally { good: 2, failed: 1, quarantined: 1 });
}

#[test]
fn merging_goes_by_the_ordinals() {
    let list = vec![
        record(3, ChunkStatus::Passed),
        record(1, ChunkStatus::Passed),
        record(2, failed()),
        record(2, ChunkStatus::Passed),
    ];
    assert_eq!(merge_plan(&list, &[true; 4]).ready, vec![1, 3, 0]);
}

#[test]
fn run_is_recorded_chunk_by_chunk() {
    let mut run = RunRecord::new("text.txt".to_string(), None);
    assert_eq!(run.input_file, "text.txt");
    assert_eq!(run.pdf_ripped, None);
    assert!(run.llm_clean.is_none());
    let chunks = harvest_chunks("One.\n\nTwo.", 1, 0);
    run.record_chunk(&chunks[0], ChunkStatus::Passed);
    run.record_chunk(&chunks[1], quarantined("Two."));
    assert_eq!(run.chunks.len(), 2);
    assert_eq!(run.chunks[0].ordinal, 1);
    assert_eq!(run.chunks[0].wav, "paragraph_001.wav");
    assert_eq!(run.chunks[0].trailing_boundary, Some(Boundary::Paragraph));
    assert_eq!(run.chunks[1].ordinal, 2);
    assert_eq!(run.chunks[1].trailing_boundary, None);
    assert_eq!(run.chunks[1].quarantined_text(), Some("Two."));
}

#[test]
fn recovered_chunk_can_be_merged() {
    let mut run = RunRecord::with_timestamp("t".to_string(), "i".to_string(), Some("p".to_string()));
    run.chunks = mixed();
    run.mark_recovered(1);
    assert!(run.chunks[1].is_mergeable());
    assert_eq!(run.chunks[1].wav, "paragraph_002.wav");
    assert!(retry_indices(&run.chunks).is_empty());
    assert_eq!(failed_indices(&run.chunks), vec![2]);
    assert_eq!(tally(&run.chunks), Tally { good: 3, failed: 1, quarantined: 0 });
    assert_eq!(run.timestamp, "t");
    assert_eq!(run.pdf_ripped.as_deref(), Some("p"));
}

#[test]
fn tally_adds_up() {
    let list = &mixed()[..4];
    let t = tally(list);
    assert_eq!(t.good + t.failed + t.quarantined, list.len());
}

#[test]
fn timestamps_are_in_utc() {
    let run = RunRecord::new(String::new(), None);
    for stamp in [run.timestamp, timestamp()] {
        assert!(stamp.len() >= 25);
        assert!(stamp.ends_with("+00:00"));
        assert_eq!(&stamp[4..5], "-");
        assert_eq!(&stamp[7..8], "-");
        assert_eq!(&stamp[10..11], "T");
        assert_eq!(&stamp[13..14], ":");
        assert!(chrono::DateTime::parse_from_rfc3339(&stamp).is_ok());
        assert!(stamp[..4].parse::<u32>().unwrap() >= 2024);
    }
}

#[test]
fn model_is_asked_with_its_instructions() {
    let r = chat_request("Some text.");
    assert_eq!(r.model, "qwen25");
    assert_eq!(r.max_tokens, 2048);
    assert!(!r.stream);
    assert_eq!(r.messages.len(), 2);
    assert_eq!(r.messages[0].role, "system");
    assert_eq!(r.messages[0].content, LLM_CLEAN_SYSTEM);
    assert!(LLM_CLEAN_SYSTEM.starts_with("/no_think\nYou are a prose-cleanup assistant"));
    assert_eq!(r.messages[1].role, "user");
    assert_eq!(r.messages[1].content, "Some text.");
}

fn cleaned(paragraph: &str, reply: Option<&str>) -> String {
    clean_paragraph(paragraph, reply).unwrap()
}

#[test]
fn thoughts_are_stripped_from_the_answer() {
    assert_eq!(cleaned("old", Some(" new text \n")), "new text");
    assert_eq!(cleaned("old", Some("<think>\n\n</think>\n\nnew")), "new");
    assert_eq!(cleaned("old", Some("a </think> b </think> c")), "b </think> c");
}

#[test]
fn failures_keep_the_paragraph() {
    assert_eq!(cleaned("old", None), "old");
    assert_eq!(cleaned("old", Some("  ")), "old");
    assert_eq!(cleaned("old", Some("hm </think>  ")), "old");
    assert_eq!(cleaned("drop", None), "drop");
    assert!(has_answer("<think></think> x") && !has_answer("x </think> "));
}

#[test]
fn drop_is_a_word_of_its_own() {
    assert!(is_drop(" Drop\n"));
    assert!(is_drop("DROP"));
    assert!(!is_drop("DROP."));
    assert!(!is_drop("drop it"));
    assert_eq!(clean_paragraph("old", Some("<think></think> drop ")), None);
}

#[test]
fn cleanup_is_put_together() {
    let before = cleanup_paragraphs("one two\n\nthree four five\n\nsix\n\nx", 3);
    assert_eq!(before, vec!["one two", "three four five", "six"]);
    let after = vec![Some("one two".to_string()), Some("3 4".to_string()), None];
    let r = llm_clean_text(&before, &after);
    assert_eq!(r.text, "one two\n\n3 4");
    assert_eq!(r.changed, 1);
    assert_eq!(r.dropped, 1);
    assert_eq!(r.record.model, "qwen3");
    assert_eq!(r.record.words_before, 6);
    assert_eq!(r.record.words_after, 4);
    assert!(r.record.changed);
}

#[test]
fn discarding_a_paragraph_changes_the_text() {
    let before = cleanup_paragraphs("one two\n\nthree", 1);
    let after = vec![Some("one two".to_string()), None];
    let r = llm_clean_text(&before, &after);
    assert_eq!(r.text, "one two");
    assert_eq!((r.changed, r.dropped), (0, 1));
    assert!(r.record.changed);
}

#[test]
fn cleanup_without_answers_changes_nothing() {
    let before = cleanup_paragraphs("one two\r\n\r\nDrop\n\nthree four", 1);
    let after: Vec<Option<String>> = before.iter().map(|p| clean_paragraph(p, None)).collect();
    let r = llm_clean_text(&before, &after);
    assert_eq!(r.text, "one two\n\nDrop\n\nthree four");
    assert_eq!((r.changed, r.dropped), (0, 0));
    assert_eq!(r.record.words_before, r.record.words_after);
    assert!(!r.record.changed);
}

#[test]
fn cleaned_file_stands_beside_the_input() {
    assert_eq!(cleaned_name(Some("text")), "text_cleaned.txt");
    assert_eq!(cleaned_name(None), "text_cleaned.txt");
    assert_eq!(cleaned_name(Some("paper")), "paper_cleaned.txt");
}
