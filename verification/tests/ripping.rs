use lecturner::columns::{
    cluster_into_lines, reading_order, words_to_lines, Band, LineWord, Place,
};
use lecturner::glyphs::scrub_glyph_artifacts;
use lecturner::rip::{
    extract_paragraphs, filter_lines, is_caption, is_noise, is_noise_given, is_page_number,
    is_refs_heading, lines_to_paragraphs, prose_document, rejoin_hyphens, rip_lines, rip_pages,
    RipConfig,
};

#[test]
fn soft_hyphen_rejoined() {
    let input = "perturba-\ntion is key";
    assert_eq!(rejoin_hyphens(input), "perturbation is key");
}

#[test]
fn emdash_not_rejoined() {
    let input = "end—\nnext";
    assert_eq!(rejoin_hyphens(input), "end—\nnext");
}

#[test]
fn uppercase_hyphen_not_rejoined() {
    let input = "NASA-\nJohnson";
    assert_eq!(rejoin_hyphens(input), "NASA-\nJohnson");
}

#[test]
fn glyph_ligatures_restored() {
    assert_eq!(scrub_glyph_artifacts("e[fi]cient"), "efficient");
    assert_eq!(scrub_glyph_artifacts("o[ff]set"), "offset");
}

#[test]
fn glyph_named_removed() {
    assert_eq!(scrub_glyph_artifacts("text[bullet]more"), "textmore");
}

#[test]
fn glyph_unicode_escape_removed() {
    assert_eq!(scrub_glyph_artifacts("te[uni0041]xt"), "text");
}

#[test]
fn glyph_bracket_passthrough() {
    assert_eq!(scrub_glyph_artifacts("see [1] for details"), "see [1] for details");
}

#[test]
fn page_number_detected() {
    assert!(is_page_number("42"));
    assert!(is_page_number(" - 7 - "));
    assert!(!is_page_number("Section 4"));
}

#[test]
fn refs_heading_detected() {
    assert!(is_refs_heading("References"));
    assert!(is_refs_heading("REFERENCES"));
    assert!(is_refs_heading("  bibliography  "));
    assert!(!is_refs_heading("Reference architecture"));
}

#[test]
fn caption_detected() {
    assert!(is_caption("Figure 3. Thrust profile."));
    assert!(is_caption("Table 2: Summary"));
    assert!(is_caption("Fig. 1 shows…"));
    assert!(!is_caption("Figuratively speaking"));
}

#[test]
fn paragraphs_assembled() {
    let lines = vec!["First sentence.", "Second sentence.", "", "New paragraph."];
    let result = lines_to_paragraphs(&lines);
    assert_eq!(result.len(), 2);
    assert_eq!(result[0], "First sentence. Second sentence.");
    assert_eq!(result[1], "New paragraph.");
}

#[test]
fn ligatures_stand_for_their_letters() {
    assert_eq!(scrub_glyph_artifacts("[fi]eld"), "field");
    assert_eq!(scrub_glyph_artifacts("de[fi]ne"), "define");
    assert_eq!(scrub_glyph_artifacts("di[ffi]cult [fl]ow wa[ffl]e le[ft] fir[st]"),
        "difficult flow waffle left first");
    assert_eq!(scrub_glyph_artifacts("an E[fi]gy, (e[fi]cacy)"), "an Effigy, (efficacy)");
    assert_eq!(scrub_glyph_artifacts("de[fi]cient"), "deficient");
}

#[test]
fn named_glyphs_stand_for_their_signs() {
    assert_eq!(scrub_glyph_artifacts("[bracketleft]1[bracketright] [parenleft]a[parenright]"),
        "[1] (a)");
    assert_eq!(scrub_glyph_artifacts("a[endash]b[emdash]c"), "a-b\u{2014}c");
    assert_eq!(scrub_glyph_artifacts("[quotedblleft]x[quotedblright] [quoteleft]y[quoteright]"),
        "\u{201C}x\u{201D} 'y'");
    assert_eq!(scrub_glyph_artifacts("a [dagger] [daggerdbl] [section] [paragraph] b"), "a b");
}

#[test]
fn replaced_brackets_can_make_a_new_glyph() {
    assert_eq!(scrub_glyph_artifacts("[bracketleft]bullet]"), "");
}

#[test]
fn runs_of_single_characters_are_read() {
    assert_eq!(scrub_glyph_artifacts("[f][i][space]"), "fi");
    assert_eq!(scrub_glyph_artifacts("de[f][i]ne[space][A] term"), "define A term");
    assert_eq!(scrub_glyph_artifacts("as in [a] and [1][2]"), "as in [a] and [1][2]");
    assert_eq!(scrub_glyph_artifacts("x[space]y"), "x[space]y");
    assert_eq!(scrub_glyph_artifacts("[[a][b]]"), "[ab]");
}

#[test]
fn only_a_known_word_gets_its_letter_back() {
    assert_eq!(scrub_glyph_artifacts("e[fi]le, e[fi]ling, e[fi]"), "efile, efiling, efi");
}

#[test]
fn only_hexadecimal_unicode_names_go() {
    assert_eq!(scrub_glyph_artifacts("a[uni00A0]b[uniabcdef]c"), "abc");
    assert_eq!(scrub_glyph_artifacts("[uni] [unit] [uni00g0] [uni12"),
        "[uni] [unit] [uni00g0] [uni12");
}

#[test]
fn spaces_collapse_and_ends_are_trimmed() {
    assert_eq!(scrub_glyph_artifacts("  a   b \t c  "), "a b \t c");
}

#[test]
fn plain_lines_pass() {
    assert_eq!(scrub_glyph_artifacts("Nothing to mend here."), "Nothing to mend here.");
}

#[test]
fn hyphens_are_looked_at_one_by_one() {
    assert_eq!(rejoin_hyphens("a-\nb-\nc"), "abc");
    assert_eq!(rejoin_hyphens("a-\n-\nb"), "a-\n-\nb");
    assert_eq!(rejoin_hyphens("a -\nb"), "a -\nb");
    assert_eq!(rejoin_hyphens("a--\nb"), "a--\nb");
    assert_eq!(rejoin_hyphens("well-known"), "well-known");
    assert_eq!(rejoin_hyphens("end-\n"), "end-\n");
    assert_eq!(rejoin_hyphens("x-\né"), "x-\né");
}

#[test]
fn page_numbers_have_digits_between_rules() {
    assert!(is_page_number("--- 12 -"));
    assert!(is_page_number("-5"));
    assert!(!is_page_number("---"));
    assert!(!is_page_number("- -"));
    assert!(!is_page_number(""));
    assert!(!is_page_number("1 2"));
    assert!(!is_page_number("   "));
    assert!(!is_page_number("12a"));
}

#[test]
fn short_lines_are_noise_unless_they_end_a_sentence() {
    assert!(is_noise("Journal of Results"));
    assert!(!is_noise("It works."));
    assert!(!is_noise("Does it?"));
    assert!(!is_noise("   "));
    assert!(!is_noise("This line is long enough to count as prose at all"));
    assert!(is_noise(&"x".repeat(39)));
    assert!(!is_noise(&"x".repeat(40)));
    assert!(!is_noise(&"é".repeat(20)));
}

#[test]
fn addresses_and_bare_identifiers_are_noise() {
    assert!(is_noise("https://example.org/a/very/long/path/to/some/file.html."));
    assert!(is_noise("http://example.org/a/very/long/path/to/some/file.html."));
    assert!(is_noise("10.1000/182 is where the long version of this can be found."));
    assert!(!is_noise("10.100/182 is where the long version of this can be found."));
    assert!(!is_noise("10.12345 is where the long version of this can be found."));
}

#[test]
fn lines_of_capitals_are_noise() {
    assert!(is_noise("PROCEEDINGS OF THE TWELFTH INTERNATIONAL CONFERENCE."));
    assert!(!is_noise("PROCEEDINGS OF THE TWELFTH INTERNATIONAL conference."));
    assert!(is_noise("ΠΡΑΚΤΙΚΑ ΤΟΥ ΔΩΔΕΚΑΤΟΥ ΔΙΕΘΝΟΥΣ ΣΥΝΕΔΡΙΟΥ."));
    assert!(!is_noise("Πρακτικά του NASA δωδέκατου διεθνούς συνεδρίου."));
    assert!(!is_noise("1234567890 1234567890 1234567890 1234567890."));
    assert!(is_noise_given("A line of prose, as long as that is needed here.", true));
    assert!(!is_noise_given("A line of prose, as long as that is needed here.", false));
}

#[test]
fn headings_below_which_nothing_is_read() {
    for h in ["bibliography", "Acknowledgements", "ACKNOWLEDGMENTS", "Appendix"] {
        assert!(is_refs_heading(h));
    }
    assert!(!is_refs_heading("Appendix A"));
}

#[test]
fn captions_need_a_number() {
    for c in ["FIG 3 shows", "tbl. 4", "Tbl 5:", "  table 9  "] {
        assert!(is_caption(c));
    }
    assert!(!is_caption("Figure A"));
    assert!(!is_caption("table "));
    assert!(!is_caption("Tables 3"));
}

#[test]
fn filtering_keeps_blank_lines_and_prose() {
    let prose = "The quick brown fox jumps over the lazy dog today.";
    let lines = [prose, "", "17", "Figure 2 A diagram.", "SHORT", "References", "", prose];
    assert_eq!(filter_lines(&lines, true, true), vec![prose, "", ""]);
    assert_eq!(filter_lines(&lines, true, false), vec![prose, "", "Figure 2 A diagram.", ""]);
    assert_eq!(filter_lines(&lines, false, true), vec![prose, "", "", prose]);
}

#[test]
fn filtering_again_changes_nothing() {
    let lines = ["One sentence here.", "12", "", "References", "More text follows it."];
    let once = filter_lines(&lines, true, true);
    assert_eq!(filter_lines(&once, true, true), once);
}

#[test]
fn paragraphs_have_the_words_of_their_lines() {
    let lines = vec!["  a b ", "c", "", " ", "d"];
    assert_eq!(lines_to_paragraphs(&lines), vec!["a b c", "d"]);
    assert!(lines_to_paragraphs(&["", " "]).is_empty());
}

#[test]
fn paper_becomes_a_document() {
    let lines: Vec<String> = [
        "The perturba-",
        "tion of the orbit is e[fi]ciently damped by the drag.",
        "3",
        "",
        "A second paragraph ends the text here.",
        "References",
        "Somebody, A long title that would otherwise be kept as prose.",
        "",
    ].into_iter().map(String::from).collect();
    let cfg = RipConfig { skip_refs: true, skip_captions: true };
    let prose = rip_lines(&lines, &cfg).unwrap();
    assert_eq!(prose.text, "The perturbation of the orbit is efficiently damped by the drag.\n\n\
        A second paragraph ends the text here.\n");
    assert_eq!(prose.paragraphs, 2);
    assert_eq!(prose.words, 18);
}

#[test]
fn paper_without_prose_gives_nothing() {
    let lines = vec![String::from("12"), String::new(), String::from("Fig. 1")];
    let cfg = RipConfig { skip_refs: true, skip_captions: true };
    assert!(rip_lines(&lines, &cfg).is_none());
    assert!(extract_paragraphs(&lines, &cfg).is_empty());
    assert!(prose_document(&[]).is_none());
}

#[test]
fn page_ends_with_an_empty_line() {
    let page = |lines: &[&str]| lines.iter().map(|l| l.to_string()).collect::<Vec<String>>();
    let pages = [page(&["A first page of text.", "1"]), page(&[]), page(&["A second one."])];
    let cfg = RipConfig { skip_refs: true, skip_captions: true };
    let prose = rip_pages(&pages, &cfg).unwrap();
    assert_eq!(prose.text, "A first page of text.\n\nA second one.\n");
    assert_eq!((prose.paragraphs, prose.words), (2, 8));
    assert!(rip_pages(&[], &cfg).is_none());
}

fn strings(list: &[&str]) -> Vec<String> {
    list.iter().map(|s| s.to_string()).collect()
}

#[test]
fn lines_of_a_page_have_its_words() {
    let page = [
        place(Band::Right, 5, 60),
        place(Band::Left, 20, 1),
        place(Band::Left, 10, 9),
        place(Band::Left, 10, 2),
        place(Band::Spanning, 1, 30),
    ];
    let list = strings(&["right", "below", "b", "a", "Title"]);
    let order = reading_order(&page);
    let breaks = [vec![false], vec![false, false, true], vec![false]];
    let lines = words_to_lines(&list, &order, &breaks);
    assert_eq!(lines, vec!["Title", "a b", "below", "right"]);
    let other = [page[4], page[2], page[0], page[3], page[1]];
    let moved = strings(&["Title", "b", "right", "a", "below"]);
    assert_eq!(words_to_lines(&moved, &reading_order(&other), &breaks), lines);
    assert!(words_to_lines(&[], &reading_order(&[]), &[vec![], vec![], vec![]]).is_empty());
}

fn place(band: Band, top: u64, x0: u64) -> Place {
    Place { band, top, x0 }
}

#[test]
fn columns_are_read_one_after_the_other() {
    let page = [
        place(Band::Right, 5, 60),
        place(Band::Left, 20, 1),
        place(Band::Left, 10, 9),
        place(Band::Left, 10, 2),
        place(Band::Spanning, 1, 30),
    ];
    assert_eq!(reading_order(&page), vec![vec![4], vec![3, 2, 1], vec![0]]);
}

#[test]
fn page_with_mostly_spanning_words_has_one_column() {
    let page = [
        place(Band::Spanning, 3, 1),
        place(Band::Right, 1, 1),
        place(Band::Spanning, 1, 1),
        place(Band::Spanning, 2, 1),
    ];
    assert_eq!(reading_order(&page), vec![vec![1, 2, 3, 0]]);
    assert_eq!(reading_order(&[]), vec![Vec::<usize>::new(), vec![], vec![]]);
}

#[test]
fn words_make_lines() {
    let word = |text: &str, starts_line| LineWord { text: text.to_string(), starts_line };
    let list = [word("a", false), word("b", false), word("c", true), word("d e", false)];
    assert_eq!(cluster_into_lines(&list), vec!["a b", "c d e"]);
    assert!(cluster_into_lines(&[]).is_empty());
}
