//! The pass that rewrites extracted prose for reading aloud, paragraph by paragraph.

use crate::chunks::{paragraph_rows, paragraphs};
use crate::order::picked;
use crate::records::LlmCleanRecord;
use crate::speech::maybe;
use crate::text::{
    chars_of, count_words, find, find_from, join, join_rows, lower_all, lowered, part, put, rows,
    rows_of, same, string_of, strings_of, texts, trim, trim_end, trim_start, trimmed, words,
};
use crate::search::{law_found_first, lemma_find_in_front, lemma_find_is, lemma_find_none, stands};
use crate::words::{
    all_words, is_blank, law_trimmed, lemma_trim, lemma_trim_around, lemma_trim_end,
    lemma_trim_of_end, lemma_trim_start, lemma_words_join,
};
use vstd::prelude::*;

verus! {

/// The instructions that the model gets. `/no_think` keeps it from reasoning at length, and the
/// answer DROP lets it discard what is not prose.
pub const LLM_CLEAN_SYSTEM: &'static str = "\
/no_think
You are a prose-cleanup assistant preparing academic or technical text for \
text-to-speech narration. \
You will be given one paragraph of text extracted from a PDF. \
Some paragraphs may contain extraction artifacts from imperfect PDF parsing. \
Rewrite the paragraph so it reads naturally when spoken aloud. \
Follow these rules exactly:
- If the paragraph is clearly not prose — an image credit line, a URL, a lone \
  figure number, a table of contents entry, a page number, a section heading, \
  or an isolated proper noun with no surrounding sentence — return the single \
  word DROP and nothing else.
- If the paragraph reads as two or more unrelated sentence fragments \
  interleaved mid-sentence (column extraction artifact), reconstruct the most \
  coherent single reading you can from the available words. If no coherent \
  reading is possible, return DROP.
- Remove image and figure credit lines in any form: \
  \"Credit: ...\", \"Image courtesy of ...\", \"Reproduced with permission\", \
  \"| Full Image\", \"Full Image\", and similar attribution fragments embedded \
  anywhere in the paragraph.
- Replace figure and table references with natural language: \
  \"As shown in Figure 3\" → \"As shown in the figure\"; \
  \"(see Table 2)\" → remove the parenthetical entirely.
- Replace equation references: \"from Equation 7\" → \"from the equation above\".
- Replace section cross-references: \"see Section 4.2\" → \"as discussed earlier\".
- Expand citation brackets: \"Smith et al. [14]\" → \"Smith and colleagues\"; \
  \"[3,7,14]\" → remove entirely.
- Spell out units where natural: \"3.2 km/s\" → \"3.2 kilometers per second\"; \
  \"ΔV\" → \"delta-V\".
- Fix soft-hyphenation artifacts from line breaks: \"perturba-tion\" → \"perturbation\".
- Do NOT summarize, shorten, or add any commentary.
- Do NOT change technical facts, numerical values, or sentence meaning.
- Do NOT add phrases like \"Here is the rewritten paragraph:\".
- Return ONLY the rewritten paragraph text, or the single word DROP. Nothing else.";

/// One message of a chat.
#[derive(Debug, Clone)]
pub struct ChatMessage {
    pub role: String,
    pub content: String,
}

/// What is asked of the model.
#[derive(Debug, Clone)]
pub struct ChatRequest {
    pub model: String,
    pub messages: Vec<ChatMessage>,
    pub max_tokens: u32,
    pub stream: bool,
}

/// The request to clean up `paragraph`.
pub fn chat_request(paragraph: &str) -> (r: ChatRequest)
    ensures
        r.model@ == "qwen25"@,
        r.messages@.len() == 2,
        r.messages@[0].role@ == "system"@,
        r.messages@[0].content@ == LLM_CLEAN_SYSTEM@,
        r.messages@[1].role@ == "user"@,
        r.messages@[1].content@ == paragraph@,
        r.max_tokens == 2048,
        !r.stream,
{
    let mut messages: Vec<ChatMessage> = Vec::new();
    messages.push(
        ChatMessage { role: "system".to_owned(), content: LLM_CLEAN_SYSTEM.to_owned() },
    );
    messages.push(ChatMessage { role: "user".to_owned(), content: paragraph.to_owned() });
    ChatRequest { model: "qwen25".to_owned(), messages, max_tokens: 2048, stream: false }
}

/// The answer in a reply: what follows the end of the model's thoughts, or all of it.
pub open spec fn answer(reply: Seq<char>) -> Seq<char> {
    let t = trim(reply);
    match find(t, "</think>"@) {
        Some(i) => trim(t.skip(i + "</think>"@.len())),
        None => t,
    }
}

/// True if the model discarded the paragraph.
pub open spec fn drops(s: Seq<char>) -> bool {
    lowered(trim(s)) == "drop"@
}

/// True if the model gave an answer.
pub open spec fn answered(reply: Option<Seq<char>>) -> bool {
    reply matches Some(text) && answer(text).len() > 0
}

/// What becomes of a paragraph: its text, or nothing if the model discarded it. Where there is no
/// answer the paragraph stays as it is.
pub open spec fn rewritten(paragraph: Seq<char>, reply: Option<Seq<char>>) -> Option<Seq<char>> {
    if !answered(reply) {
        Some(paragraph)
    } else if drops(answer(reply->0)) {
        None
    } else {
        Some(answer(reply->0))
    }
}

/// The text of an optional string slice.
pub open spec fn maybe_text(s: Option<&str>) -> Option<Seq<char>> {
    match s {
        Some(t) => Some(t@),
        None => None,
    }
}

fn answer_of(reply: &str) -> (r: Vec<char>)
    ensures
        r@ == answer(reply@),
{
    let cs = chars_of(reply);
    let t = trimmed(cs.as_slice());
    let mark = chars_of("</think>");
    assert(t@.skip(0) == t@);
    match find_from(t.as_slice(), 0, mark.as_slice()) {
        Some(i) => {
            let rest = part(t.as_slice(), i + mark.len(), t.len());
            assert(rest@ == t@.skip(i + mark@.len()));
            trimmed(rest.as_slice())
        },
        None => t,
    }
}

/// True if the reply holds an answer.
pub fn has_answer(reply: &str) -> (r: bool)
    ensures
        r == answered(Some(reply@)),
{
    answer_of(reply).len() > 0
}

/// True if the model discarded the paragraph.
pub fn is_drop(text: &str) -> (r: bool)
    ensures
        r == drops(text@),
{
    let cs = chars_of(text);
    let t = trimmed(cs.as_slice());
    let l = lower_all(t.as_slice());
    let word = chars_of("drop");
    same(l.as_slice(), word.as_slice())
}

/// What becomes of `paragraph`, given the reply of the model, or `None` if the call failed: its
/// text, or nothing if the model discarded it. A call that fails, or a reply without an answer,
/// leaves the paragraph as it is.
pub fn clean_paragraph(paragraph: &str, reply: Option<&str>) -> (r: Option<String>)
    ensures
        maybe(r) == rewritten(paragraph@, maybe_text(reply)),
{
    match reply {
        Some(text) => {
            let found = answer_of(text);
            if found.len() == 0 {
                return Some(paragraph.to_owned());
            }
            let cleaned = string_of(found.as_slice());
            if is_drop(cleaned.as_str()) {
                None
            } else {
                Some(cleaned)
            }
        },
        None => Some(paragraph.to_owned()),
    }
}

/// The paragraphs that are cleaned up: those of the raw text with enough characters.
pub fn cleanup_paragraphs(raw: &str, min_chars: usize) -> (r: Vec<String>)
    ensures
        texts(r@) == paragraphs(raw@, min_chars as nat),
{
    let list = paragraph_rows(raw, min_chars);
    strings_of(list.as_slice())
}

/// What a list of rewritten paragraphs holds.
pub open spec fn outcomes(list: Seq<Option<String>>) -> Seq<Option<Seq<char>>> {
    list.map_values(|s: Option<String>| maybe(s))
}

/// Those of the first `n` rewritten paragraphs that the model did not discard.
pub open spec fn kept_paragraphs(list: Seq<Option<Seq<char>>>, n: int) -> Seq<Seq<char>>
    decreases n,
{
    if n <= 0 {
        Seq::empty()
    } else {
        match list[n - 1] {
            Some(text) => kept_paragraphs(list, n - 1).push(text),
            None => kept_paragraphs(list, n - 1),
        }
    }
}

/// A cleaned text and what was done to it.
#[derive(Debug, Clone)]
pub struct CleanedText {
    pub text: String,
    pub record: LlmCleanRecord,
    /// Number of paragraphs that were rewritten.
    pub changed: usize,
    /// Number of paragraphs that were discarded.
    pub dropped: usize,
}

/// True if `r` is what the pass makes of the paragraphs `before`, rewritten as `after`.
pub open spec fn is_cleanup(
    r: CleanedText,
    before: Seq<Seq<char>>,
    after: Seq<Option<Seq<char>>>,
) -> bool {
    let n = before.len() as int;
    let kept = kept_paragraphs(after, n);
    let changed = picked(n, |i: int| after[i] is Some && after[i] != Some(before[i]));
    let dropped = picked(n, |i: int| after[i] is None);
    &&& r.text@ == join(kept, seq!['\n', '\n'])
    &&& r.changed == changed.len()
    &&& r.dropped == dropped.len()
    &&& r.record.model@ == "qwen3"@
    &&& r.record.words_before == all_words(before).len()
    &&& r.record.words_after == all_words(kept).len()
    &&& r.record.changed == (changed.len() > 0 || dropped.len() > 0)
}

fn joined(list: &[Vec<char>]) -> (r: Vec<char>)
    ensures
        r@ == join(rows(list@), seq!['\n', '\n']),
        words(r@) == all_words(rows(list@)),
{
    let gap: [char; 2] = ['\n', '\n'];
    assert(gap@ == seq!['\n', '\n']);
    proof {
        assert(is_blank(seq!['\n', '\n']));
        lemma_words_join(rows(list@), seq!['\n', '\n']);
    }
    join_rows(list, gap.as_slice())
}

/// Puts the rewritten paragraphs together. `after` tells what became of each of `before`.
pub fn llm_clean_text(before: &[String], after: &[Option<String>]) -> (r: CleanedText)
    requires
        before.len() == after.len(),
    ensures
        is_cleanup(r, texts(before@), outcomes(after@)),
{
    let old_rows = rows_of(before);
    let ghost olds = texts(before@);
    let ghost news = outcomes(after@);
    let ghost rewrites = |i: int| news[i] is Some && news[i] != Some(olds[i]);
    let ghost discards = |i: int| news[i] is None;
    let mut kept: Vec<Vec<char>> = Vec::new();
    let mut changed: usize = 0;
    let mut dropped: usize = 0;
    let mut i: usize = 0;
    assert(rows(kept@) == Seq::<Seq<char>>::empty());
    while i < before.len()
        invariant
            i <= before.len(),
            before.len() == after.len(),
            olds == texts(before@),
            news == outcomes(after@),
            rows(old_rows@) == olds,
            rewrites == (|i: int| news[i] is Some && news[i] != Some(olds[i])),
            discards == (|i: int| news[i] is None),
            changed <= i,
            dropped <= i,
            rows(kept@) == kept_paragraphs(news, i as int),
            changed == picked(i as int, rewrites).len(),
            dropped == picked(i as int, discards).len(),
        decreases before.len() - i,
    {
        let ghost so_far = kept@;
        assert(rows(old_rows@).len() == before@.len());
        assert(rows(old_rows@)[i as int] == old_rows@[i as int]@);
        assert(news[i as int] == maybe(after@[i as int]));
        match &after[i] {
            Some(text) => {
                let cs = chars_of(text.as_str());
                if !same(cs.as_slice(), old_rows[i].as_slice()) {
                    changed += 1;
                }
                kept.push(cs);
                assert(rows(kept@) == rows(so_far).push(cs@));
            },
            None => {
                dropped += 1;
            },
        }
        i += 1;
    }
    let text = joined(kept.as_slice());
    let whole = joined(old_rows.as_slice());
    let words_after: usize = count_words(text.as_slice());
    let words_before: usize = count_words(whole.as_slice());
    CleanedText {
        text: string_of(text.as_slice()),
        record: LlmCleanRecord {
            model: "qwen3".to_owned(),
            words_before,
            words_after,
            changed: changed > 0 || dropped > 0,
        },
        changed,
        dropped,
    }
}

/// File name of the cleaned text beside an input file with the given stem.
pub fn cleaned_name(stem: Option<&str>) -> (r: String)
    ensures
        r@ == match stem {
            Some(s) => s@ + "_cleaned.txt"@,
            None => "text_cleaned.txt"@,
        },
{
    match stem {
        Some(s) => {
            let mut out = chars_of(s);
            put(&mut out, "_cleaned.txt");
            string_of(out.as_slice())
        },
        None => "text_cleaned.txt".to_owned(),
    }
}

/// A call that fails, or a reply without an answer, leaves the paragraph as it is.
pub proof fn law_failure_keeps_paragraph(paragraph: Seq<char>, reply: Option<Seq<char>>)
    requires
        !answered(reply),
    ensures
        rewritten(paragraph, reply) == Some(paragraph),
{
}

proof fn lemma_nothing_rewritten(list: Seq<Seq<char>>, after: Seq<Option<Seq<char>>>, n: int)
    requires
        0 <= n <= list.len(),
        forall|i: int| 0 <= i < list.len() ==> #[trigger] after[i] == Some(list[i]),
    ensures
        kept_paragraphs(after, n) == list.take(n),
        picked(n, |i: int| after[i] is Some && after[i] != Some(list[i])).len() == 0,
        picked(n, |i: int| after[i] is None).len() == 0,
    decreases n,
{
    if n > 0 {
        lemma_nothing_rewritten(list, after, n - 1);
        assert(after[n - 1] == Some(list[n - 1]));
        assert(list.take(n) == list.take(n - 1).push(list[n - 1]));
    }
}

proof fn lemma_picked_any(n: int, wanted: spec_fn(int) -> bool)
    ensures
        picked(n, wanted).len() > 0 <==> exists|i: int| 0 <= i < n && #[trigger] wanted(i),
    decreases n,
{
    if n > 0 {
        lemma_picked_any(n - 1, wanted);
        if exists|i: int| 0 <= i < n && #[trigger] wanted(i) {
            let i = choose|i: int| 0 <= i < n && #[trigger] wanted(i);
            assert(i < n - 1 ==> 0 <= i < n - 1 && wanted(i));
        }
    }
}

/// The record tells of a change exactly where a paragraph was rewritten or discarded, and where it
/// tells of none the text is that of the paragraphs.
pub proof fn law_record_tells_of_changes(
    r: CleanedText,
    before: Seq<Seq<char>>,
    after: Seq<Option<Seq<char>>>,
)
    requires
        is_cleanup(r, before, after),
    ensures
        r.record.changed <==> exists|i: int|
            0 <= i < before.len() && #[trigger] after[i] != Some(before[i]),
        !r.record.changed ==> r.text@ == join(before, seq!['\n', '\n']),
{
    let n = before.len() as int;
    let rewrites = |i: int| after[i] is Some && after[i] != Some(before[i]);
    let discards = |i: int| after[i] is None;
    lemma_picked_any(n, rewrites);
    lemma_picked_any(n, discards);
    if r.record.changed {
        let i = if picked(n, rewrites).len() > 0 {
            choose|i: int| 0 <= i < n && #[trigger] rewrites(i)
        } else {
            choose|i: int| 0 <= i < n && #[trigger] discards(i)
        };
        assert(0 <= i < n && after[i] != Some(before[i]));
    } else {
        assert forall|i: int| 0 <= i < before.len() implies #[trigger] after[i] == Some(
            before[i],
        ) by {
            assert(!rewrites(i));
            assert(!discards(i));
        }
        lemma_nothing_rewritten(before, after, n);
        assert(before.take(n) == before);
    }
}

/// The paragraphs that are kept are those that the model did not discard, all of them and in
/// order: each stands behind as many as were kept before it, and those kept and those discarded
/// are together all.
pub proof fn law_kept_paragraphs(list: Seq<Option<Seq<char>>>, n: int)
    requires
        0 <= n <= list.len(),
    ensures
        kept_paragraphs(list, n) == list.take(n).filter_map(|o: Option<Seq<char>>| o),
        kept_paragraphs(list, n).len() + picked(n, |i: int| list[i] is None).len() == n,
        forall|i: int|
            0 <= i < n && (#[trigger] list[i]) is Some ==> {
                let before = picked(i, |j: int| list[j] is Some).len();
                &&& before < kept_paragraphs(list, n).len()
                &&& kept_paragraphs(list, n)[before as int] == list[i]->0
            },
        kept_paragraphs(list, n).len() == picked(n, |j: int| list[j] is Some).len(),
    decreases n,
{
    if n > 0 {
        law_kept_paragraphs(list, n - 1);
        let some = |j: int| list[j] is Some;
        assert(list.take(n).drop_last() == list.take(n - 1));
        let kept = kept_paragraphs(list, n);
        assert forall|i: int| 0 <= i < n && (#[trigger] list[i]) is Some implies {
            let before = picked(i, some).len();
            &&& before < kept.len()
            &&& kept[before as int] == list[i]->0
        } by {
            if i < n - 1 {
                assert(kept[picked(i, some).len() as int] == kept_paragraphs(list, n - 1)[picked(
                    i,
                    some,
                ).len() as int]);
            }
        }
    } else {
        assert(list.take(n) == Seq::<Option<Seq<char>>>::empty());
    }
}

/// What the pass comes to: the text has the paragraphs that were not discarded, with a blank line
/// between two; each paragraph is counted as rewritten, discarded or neither; and the words are
/// those of the text and of the paragraphs it was made of.
pub proof fn law_cleanup_accounts_for_all(
    r: CleanedText,
    before: Seq<Seq<char>>,
    after: Seq<Option<Seq<char>>>,
)
    requires
        is_cleanup(r, before, after),
        before.len() == after.len(),
    ensures
        r.text@ == join(after.filter_map(|o: Option<Seq<char>>| o), seq!['\n', '\n']),
        r.record.words_after == words(r.text@).len(),
        r.record.words_before == words(join(before, seq!['\n', '\n'])).len(),
        r.dropped == after.filter(|o: Option<Seq<char>>| o is None).len(),
        r.changed + r.dropped + Seq::new(before.len(), |i: int| i).filter(
            |i: int| after[i] == Some(before[i]),
        ).len() == before.len(),
{
    let n = before.len() as int;
    law_kept_paragraphs(after, n);
    assert(after.take(n) == after);
    assert(is_blank(seq!['\n', '\n']));
    lemma_words_join(kept_paragraphs(after, n), seq!['\n', '\n']);
    lemma_words_join(before, seq!['\n', '\n']);
    lemma_discards_counted(after, n);
    lemma_rewrites_counted(before, after, n);
}

proof fn lemma_discards_counted(after: Seq<Option<Seq<char>>>, n: int)
    requires
        0 <= n <= after.len(),
    ensures
        picked(n, |i: int| after[i] is None).len() == after.take(n).filter(
            |o: Option<Seq<char>>| o is None,
        ).len(),
    decreases n,
{
    reveal(Seq::filter);
    if n > 0 {
        lemma_discards_counted(after, n - 1);
        assert(after.take(n).drop_last() == after.take(n - 1));
    }
}

proof fn lemma_rewrites_counted(before: Seq<Seq<char>>, after: Seq<Option<Seq<char>>>, n: int)
    requires
        0 <= n <= before.len(),
        before.len() == after.len(),
    ensures
        picked(n, |i: int| after[i] is Some && after[i] != Some(before[i])).len() + picked(
            n,
            |i: int| after[i] is None,
        ).len() + Seq::new(n as nat, |i: int| i).filter(
            |i: int| after[i] == Some(before[i]),
        ).len() == n,
    decreases n,
{
    reveal(Seq::filter);
    let upto = |k: int| Seq::new(k as nat, |i: int| i);
    if n > 0 {
        lemma_rewrites_counted(before, after, n - 1);
        assert(upto(n).drop_last() == upto(n - 1));
        assert(upto(n).last() == n - 1);
    }
}

/// The answer is what follows the first end of the model's thoughts.
pub proof fn law_answer_follows_thoughts(thoughts: Seq<char>, rest: Seq<char>)
    requires
        find(thoughts + "</think>"@, "</think>"@) == Some(thoughts.len() as int),
    ensures
        answer(thoughts + "</think>"@ + rest) == trim(rest),
{
    reveal_strlit("</think>");
    let mark = "</think>"@;
    let a = trim_start(thoughts);
    let b = trim_end(rest);
    lemma_trim_around(thoughts, mark, rest);
    lemma_trim_start(thoughts);
    let cut = thoughts.len() - a.len();
    law_found_first(thoughts + mark, mark);
    assert((a + mark).subrange(a.len() as int, (a.len() + mark.len()) as int) == mark);
    assert(stands(a + mark, mark, a.len() as int));
    assert forall|j: int| j < a.len() implies !#[trigger] stands(a + mark, mark, j) by {
        if 0 <= j {
            assert((a + mark).subrange(j, j + mark.len()) == (thoughts + mark).subrange(
                j + cut,
                j + cut + mark.len(),
            ));
            assert(!stands(thoughts + mark, mark, j + cut));
        }
    }
    lemma_find_is(a + mark, mark, a.len() as int);
    lemma_find_in_front(a, mark, b);
    assert((a + mark + b).skip((a.len() + mark.len()) as int) == b);
    lemma_trim_of_end(rest);
}

/// A reply without thoughts is the answer, but for the white space around it.
pub proof fn law_plain_reply_is_the_answer(reply: Seq<char>)
    requires
        forall|j: int| !#[trigger] stands(reply, "</think>"@, j),
    ensures
        answer(reply) == trim(reply),
{
    lemma_trim_start(reply);
    lemma_trim_end(trim_start(reply));
    let t = trim(reply);
    let mark = "</think>"@;
    let cut = reply.len() - trim_start(reply).len();
    assert forall|j: int| !#[trigger] stands(t, mark, j) by {
        if stands(t, mark, j) {
            assert(t.subrange(j, j + mark.len()) == reply.subrange(j + cut, j + cut + mark.len()));
            assert(stands(reply, mark, j + cut));
        }
    }
    lemma_find_none(t, mark);
}

/// An answer other than "drop", whatever its case, takes the place of the paragraph; "drop"
/// discards it, and nothing else does.
pub proof fn law_answer_decides(paragraph: Seq<char>, reply: Seq<char>)
    requires
        answer(reply).len() > 0,
    ensures
        rewritten(paragraph, Some(reply)) is None <==> lowered(answer(reply)) == "drop"@,
        rewritten(paragraph, Some(reply)) matches Some(text) ==> text == answer(reply),
{
    let t = trim(reply);
    let a = answer(reply);
    lemma_trim(reply);
    match find(t, "</think>"@) {
        Some(i) => {
            lemma_trim(t.skip(i + "</think>"@.len()));
        },
        None => {},
    }
    law_trimmed(Seq::empty(), a, Seq::empty());
    assert(Seq::<char>::empty() + a + Seq::<char>::empty() == a);
}

/// If no call has an answer, the text comes out as it went in: nothing is rewritten, and nothing
/// is lost.
pub proof fn law_failures_lose_nothing(
    r: CleanedText,
    list: Seq<Seq<char>>,
    replies: Seq<Option<Seq<char>>>,
)
    requires
        list.len() == replies.len(),
        forall|i: int| 0 <= i < list.len() ==> !answered(#[trigger] replies[i]),
        is_cleanup(
            r,
            list,
            Seq::new(list.len(), |i: int| rewritten(list[i], replies[i])),
        ),
    ensures
        r.text@ == join(list, seq!['\n', '\n']),
        r.changed == 0,
        r.dropped == 0,
        r.record.words_before == r.record.words_after,
        !r.record.changed,
{
    let after = Seq::new(list.len(), |i: int| rewritten(list[i], replies[i]));
    assert forall|i: int| 0 <= i < list.len() implies #[trigger] after[i] == Some(list[i]) by {
        assert(!answered(replies[i]));
    }
    lemma_nothing_rewritten(list, after, list.len() as int);
    assert(list.take(list.len() as int) == list);
}

/// What became of each paragraph is told in their order: its text, or nothing.
pub proof fn law_outcomes_in_order(list: Seq<Option<String>>, reply: Option<&str>)
    ensures
        outcomes(list).len() == list.len(),
        forall|i: int|
            0 <= i < list.len() ==> (#[trigger] outcomes(list)[i] is Some <==> list[i] is Some),
        forall|i: int|
            0 <= i < list.len() && list[i] is Some ==> #[trigger] outcomes(list)[i] == Some(
                list[i]->0@,
            ),
        maybe_text(reply) is Some <==> reply is Some,
        reply matches Some(s) ==> maybe_text(reply) == Some(s@),
{
}

} // verus!
