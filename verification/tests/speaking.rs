use lecturner::phonemes::{
    cmudict, normalize_for_comparison, phoneme_error_rate, words_to_phonemes, ErrorRate,
};
use lecturner::speech::{
    crane_llm_url, crane_tts_url, endpoint, ensure_terminal_punctuation, join_segments, preview,
    sanitize_chunk, Voice,
};
use lecturner::validation::{retry_text, transcription_error, Take, ValidationFailure, Verdict};

#[test]
fn full_stop_is_added_where_none_is() {
    assert_eq!(ensure_terminal_punctuation("Hello"), "Hello.");
    assert_eq!(ensure_terminal_punctuation("Hello \n"), "Hello.");
    assert_eq!(ensure_terminal_punctuation(""), ".");
    for text in ["Yes.", "Yes! ", "Yes?", "Yes\u{2026}", "\"Yes\"", "'Yes'  "] {
        assert_eq!(ensure_terminal_punctuation(text), text);
    }
}

#[test]
fn punctuating_twice_is_punctuating_once() {
    let once = ensure_terminal_punctuation("Wait, ");
    assert_eq!(once, "Wait,.");
    assert_eq!(ensure_terminal_punctuation(&once), once);
}

#[test]
fn typographic_punctuation_is_made_plain() {
    let (clean, changed) = sanitize_chunk("\u{201C}It\u{2019}s\u{201D} a\u{2013}b \u{2026}");
    assert_eq!(clean, "\"It's\" a - b ...");
    assert!(changed);
}

#[test]
fn dashes_and_foreign_letters_go() {
    assert_eq!(sanitize_chunk("one\u{2014}two café"), ("one two caf".to_string(), true));
}

#[test]
fn white_space_alone_is_no_change() {
    assert_eq!(sanitize_chunk("  a \t b\n"), ("a b".to_string(), false));
}

#[test]
fn sanitizing_twice_is_sanitizing_once() {
    let (once, _) = sanitize_chunk("«Ça va?» — “oui”…");
    assert!(once.chars().all(|c| c.is_ascii_graphic() || c == ' '));
    assert_eq!(sanitize_chunk(&once), (once.clone(), false));
}

#[test]
fn servers_are_local() {
    assert_eq!(crane_llm_url(8101), "http://127.0.0.1:8101");
    assert_eq!(crane_tts_url(0), "http://127.0.0.1:0");
    assert_eq!(endpoint(&crane_tts_url(65535), "/health"), "http://127.0.0.1:65535/health");
}

#[test]
fn voice_asks_for_speech() {
    let voice = Voice {
        name: "Aiden".to_string(),
        language: None,
        instruct: Some("calm".to_string()),
    };
    let r = voice.chunk_request("Good morning");
    assert_eq!(r.model, "qwen3-tts");
    assert_eq!(r.input, "Good morning.");
    assert_eq!(r.voice, "Aiden");
    assert_eq!(r.response_format, "wav");
    assert_eq!(r.language, None);
    assert_eq!(r.instruct.as_deref(), Some("calm"));
    assert_eq!(voice.request("Good morning").input, "Good morning");
}

#[test]
fn previews_count_characters() {
    assert_eq!(preview("héllo", 2), "hé");
    assert_eq!(preview("hi", 60), "hi");
}

#[test]
fn blank_segments_are_left_out() {
    let list = [" Hello ".to_string(), "  ".to_string(), "world.".to_string()];
    assert_eq!(join_segments(&list), "Hello world.");
    assert_eq!(join_segments(&[]), "");
}

#[test]
fn comparison_keeps_small_letters() {
    assert_eq!(normalize_for_comparison("  It\u{2019}s 3 O\u{2019}Clock\u{2014}now! "),
        "its oclock now");
    assert_eq!(normalize_for_comparison("ÉCOLE İ"), "école i\u{307}");
    assert_eq!(normalize_for_comparison("a\u{301}\u{2013}日本"), "a 日本");
}

#[test]
fn comparison_ignores_case_and_settles_at_once() {
    let text = "  The Quick-Brown fox,  it said \"No\".";
    let once = normalize_for_comparison(text);
    assert_eq!(once, "the quickbrown fox it said no");
    assert_eq!(normalize_for_comparison(&once), once);
    assert_eq!(normalize_for_comparison(&text.to_ascii_uppercase()), once);
}

const DICT: &str = ";;; comment\nHELLO  HH AH0 L OW1\nHELLO(2)  HH EH0 L OW1\n\nWORLD  W ER1 L D\n\
    odd line\nÀLA  AH0 L AA1\n";

#[test]
fn phonemes_of_known_words() {
    let dict = cmudict(DICT);
    assert_eq!(words_to_phonemes(&dict, &["hello", "world"]), "HH AH L OW | W ER L D |");
    assert_eq!(words_to_phonemes(&dict, &["àla"]), "AH L AA |");
    assert_eq!(words_to_phonemes(&dict, &[]), "");
}

#[test]
fn first_entry_wins_whatever_its_case() {
    let dict = cmudict("Tomato  T AH0 M EY1 T OW2\nTOMATO(2)  T AH0 M AA1 T OW2\n");
    assert_eq!(words_to_phonemes(&dict, &["tomato"]), "T AH M EY T OW |");
    assert_eq!(words_to_phonemes(&dict, &["Tomato"]), "T O M A T O |");
}

#[test]
fn unknown_words_are_spelled() {
    let dict = cmudict(DICT);
    assert_eq!(words_to_phonemes(&dict, &["nasa", "hello"]), "N A S A | HH AH L OW |");
    assert_eq!(words_to_phonemes(&dict, &["straße"]), "S T R A SS E |");
    assert_eq!(words_to_phonemes(&dict, &["odd"]), "O D D |");
}

#[test]
fn entry_without_phonemes_is_silent() {
    let dict = cmudict("HUSH  \n");
    assert_eq!(words_to_phonemes(&dict, &["hush", "a"]), " | A |");
}

#[test]
fn first_entry_of_a_word_counts() {
    let dict = cmudict("READ(2)  R EH1 D\nREAD  R IY1 D\n");
    assert_eq!(dict.phones("read").unwrap(), &vec!["R".to_string(), "EH".into(), "D".into()]);
    assert!(dict.phones("READ").is_none());
}

fn rate(errors: usize, tokens: usize) -> ErrorRate {
    ErrorRate { errors, tokens }
}

#[test]
fn error_rates_are_exact() {
    assert_eq!(phoneme_error_rate("", "  "), rate(0, 1));
    assert_eq!(phoneme_error_rate("A B", ""), rate(2, 2));
    assert_eq!(phoneme_error_rate("", "A"), rate(1, 1));
    assert_eq!(phoneme_error_rate("A B C |", "A B C |"), rate(0, 4));
    assert_eq!(phoneme_error_rate("A B C", "A X C D"), rate(2, 4));
    assert_eq!(phoneme_error_rate("K I T T E N", "S I T T I N G"), rate(3, 7));
}

#[test]
fn distance_is_a_metric() {
    let list = ["", "A", "A B", "B A", "A B C |", "X Y Z", "C B A"];
    for a in list {
        for b in list {
            let ab = phoneme_error_rate(a, b);
            assert_eq!(ab, phoneme_error_rate(b, a));
            assert!(ab.errors <= ab.tokens);
            assert_eq!(ab.errors == 0, a == b);
            let (m, n) = (a.split_whitespace().count(), b.split_whitespace().count());
            assert!(ab.errors >= m.abs_diff(n));
            for c in list {
                let through = phoneme_error_rate(a, c).errors + phoneme_error_rate(c, b).errors;
                assert!(ab.errors <= through);
            }
        }
    }
    assert_eq!(phoneme_error_rate("A B C", "X Y Z"), rate(3, 3));
}

#[test]
fn transcriptions_are_compared_by_sound() {
    let dict = cmudict(DICT);
    assert_eq!(transcription_error(&dict, "Hello, World!", "hello world"), rate(0, 10));
    assert_eq!(transcription_error(&dict, "Hello, World!", "hello"), rate(5, 10));
    assert_eq!(transcription_error(&dict, "Hello", ""), rate(5, 5));
    assert_eq!(transcription_error(&dict, "\u{201C}NASA\u{201D}", "nasa"), rate(0, 5));
}

#[test]
fn two_takes_and_no_more() {
    assert_eq!(Take::First.judge(true), Verdict::Accept);
    assert_eq!(Take::First.judge(false), Verdict::Retry);
    assert_eq!(Take::Second.judge(true), Verdict::Accept);
    assert_eq!(Take::Second.judge(false), Verdict::Quarantine);
    assert_eq!(Take::First.attempts(), 1);
    assert_eq!(Take::Second.attempts(), 2);
}

#[test]
fn retry_uses_sanitized_text_where_it_differs() {
    assert_eq!(retry_text("it\u{2019}s"), ("it's".to_string(), true));
    assert_eq!(retry_text("its  "), ("its  ".to_string(), false));
}

#[test]
fn failure_is_put_in_words() {
    let failure = ValidationFailure {
        original_text: "Hello".to_string(),
        transcription: "y".repeat(130),
        phoneme_error: rate(1, 2),
        attempts: 2,
    };
    let head = "y".repeat(120);
    assert_eq!(failure.describe("0.500"), format!(
        "PER=0.500 after 2 attempt(s)\n  original:      Hello\n  transcription: {head}"
    ));
    let all = "y".repeat(130);
    assert_eq!(failure.sidecar("0.5000"), format!(
        "ORIGINAL:\nHello\n\nTRANSCRIPTION:\n{all}\n\nPHONEME_ERROR: 0.5000\nATTEMPTS: 2\n"
    ));
}
