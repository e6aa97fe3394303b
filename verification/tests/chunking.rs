use lecturner::chars::{is_whitespace, utf8_width};
use lecturner::chunks::{
    byte_count, byte_offset_after_nth_word, find_sentence_boundary, harvest_chunks,
    sub_split_by_words,
};
use lecturner::records::Boundary;

#[test]
fn blank_line_yields_paragraph_boundary() {
    let chunks = harvest_chunks("First.\n\nSecond.", 3, 0);
    assert_eq!(chunks.len(), 2);
    assert_eq!(chunks[0].trailing_boundary, Some(Boundary::Paragraph));
    assert_eq!(chunks[1].trailing_boundary, None);
}

#[test]
fn word_split_yields_sentence_boundaries() {
    let long: String = (0..250).map(|i| format!("word{i} ")).collect();
    let chunks = harvest_chunks(long.trim(), 1, 200);
    assert!(chunks.len() >= 2);
    for c in &chunks[..chunks.len() - 1] {
        assert_eq!(c.trailing_boundary, Some(Boundary::Sentence));
    }
    assert_eq!(chunks.last().unwrap().trailing_boundary, None);
}

#[test]
fn paragraph_boundary_propagates_to_last_sub_chunk() {
    let long: String = (0..250).map(|i| format!("word{i} ")).collect();
    let raw = format!("{}\n\nShort second.", long.trim());
    let chunks = harvest_chunks(&raw, 3, 200);
    let last_of_first =
        chunks.iter().take_while(|c| !c.text.contains("Short second")).last().unwrap();
    assert_eq!(last_of_first.trailing_boundary, Some(Boundary::Paragraph));
}

#[test]
fn last_chunk_has_no_trailing_boundary() {
    let chunks = harvest_chunks("One.\n\nTwo.\n\nThree.", 1, 0);
    assert_eq!(chunks.last().unwrap().trailing_boundary, None);
}

fn texts(raw: &str, min_chars: usize, max_words: usize) -> Vec<String> {
    harvest_chunks(raw, min_chars, max_words).into_iter().map(|c| c.text).collect()
}

#[test]
fn carriage_returns_do_not_hide_blank_lines() {
    assert_eq!(texts("One.\r\n\r\nTwo.", 1, 0), vec!["One.", "Two."]);
}

#[test]
fn short_paragraphs_are_left_out() {
    assert_eq!(texts("a b c\n\nabcd\n\n  \n\nabc d", 4, 0), vec!["abcd", "abc d"]);
}

#[test]
fn long_paragraph_is_cut_at_the_last_sentence_end_before_the_target() {
    let raw = "one two three four. five six seven eight";
    let pieces = vec!["one two", "three four.", "five six", "seven eight"];
    assert_eq!(texts(raw, 1, 3), pieces);
    assert_eq!(sub_split_by_words("a b c. d", 2), vec!["a", "b c.", "d"]);
    assert_eq!(sub_split_by_words("A b! C d? E f g", 5), vec!["A b! C d?", "E f g"]);
}

#[test]
fn sentence_end_is_looked_for_in_the_search_window_only() {
    let near = format!("Go. {} b c", "a".repeat(146));
    assert_eq!(sub_split_by_words(&near, 3), vec!["Go.", &near[4..]]);
    let far = format!("Go. {} b c", "a".repeat(147));
    assert_eq!(sub_split_by_words(&far, 3), vec![&far[..151], "b c"]);
}

#[test]
fn cut_falls_back_to_a_word_boundary() {
    assert_eq!(texts("a b c d e", 1, 2), vec!["a", "b", "c", "d e"]);
}

#[test]
fn words_survive_splitting() {
    let raw = "Alpha beta gamma! Delta epsilon. Zeta eta theta iota?\n\nKappa lambda, mu nu.";
    let all: Vec<&str> = raw.split_whitespace().collect();
    for max_words in 1..8 {
        let joined = texts(raw, 1, max_words).join(" ");
        assert_eq!(joined.split_whitespace().collect::<Vec<_>>(), all);
    }
}

#[test]
fn no_piece_is_above_the_word_limit() {
    let raw = "Some words. More of them here! Do they end? Yes, at some point. ".repeat(20);
    for max_words in 1..40 {
        for piece in texts(&raw, 1, max_words) {
            assert!(piece.split_whitespace().count() <= max_words);
        }
    }
}

#[test]
fn silence_follows_all_chunks_but_the_last() {
    let raw = "One two three four five.\n\nSix seven eight nine ten eleven.";
    let chunks = harvest_chunks(raw, 1, 2);
    for c in &chunks[..chunks.len() - 1] {
        assert!(c.trailing_boundary.is_some());
    }
    assert_eq!(chunks[chunks.len() - 1].trailing_boundary, None);
}

#[test]
fn blank_last_paragraph_leaves_no_boundary() {
    let chunks = harvest_chunks("A\n\nB\n\n", 0, 5);
    assert_eq!(chunks.len(), 2);
    assert_eq!(chunks[0].trailing_boundary, Some(Boundary::Paragraph));
    assert_eq!(chunks[1].trailing_boundary, None);
    let chunks = harvest_chunks("A\n\n", 0, 0);
    assert_eq!(chunks.len(), 2);
    assert_eq!(chunks[1].text, "");
}

#[test]
fn wide_characters_are_not_cut() {
    let raw = format!("a b {}", "é".repeat(200));
    assert_eq!(texts(&raw, 1, 1), vec!["a", "b", &"é".repeat(200)]);
    assert_eq!(texts("a\u{2003}b c d", 1, 2), vec!["a", "b", "c d"]);
}

#[test]
fn sub_split_keeps_short_text() {
    assert_eq!(sub_split_by_words("  hello world ", 5), vec!["hello world"]);
    assert!(sub_split_by_words("   ", 5).is_empty());
}

#[test]
fn offset_after_nth_word() {
    assert_eq!(byte_offset_after_nth_word("one  two three", 1), 3);
    assert_eq!(byte_offset_after_nth_word("one  two three", 2), 8);
    assert_eq!(byte_offset_after_nth_word("one  two three", 3), 14);
    assert_eq!(byte_offset_after_nth_word("née là", 1), 4);
    assert_eq!(byte_offset_after_nth_word("one two", 0), 7);
}

#[test]
fn sentence_boundary_needs_white_space() {
    assert_eq!(find_sentence_boundary("v1.2 is out. Yes", 0, 16), Some(12));
    assert_eq!(find_sentence_boundary("v1.2 is out", 0, 11), None);
    assert_eq!(find_sentence_boundary("Done!", 0, 5), Some(5));
    assert_eq!(find_sentence_boundary("Done! Why?", 5, 10), Some(10));
}

#[test]
fn white_space_is_that_of_unicode() {
    for u in 0..=0x10ffffu32 {
        if let Some(c) = char::from_u32(u) {
            assert_eq!(is_whitespace(c), c.is_whitespace());
            assert_eq!(utf8_width(c), c.len_utf8());
        }
    }
}

#[test]
fn bytes_are_counted() {
    assert_eq!(byte_count("né—x"), 7);
    assert_eq!(byte_count(""), 0);
}
