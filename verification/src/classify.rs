//! Telling the kinds of questions apart by their wording.

use vstd::prelude::*;

use crate::entry::{Entry, EntryView};
use crate::patterns::{
    announced, announced_at, ascii_lowered, common_text, en_phrases, lowercase, regex_capture,
    regex_is_match, same_letter, to_lowercase, zh_digits, zh_number_at, QA_PATTERN, ZH_NUMBER_PATTERN,
};
use crate::text::{
    byte_len, chars_of, chinese, contains_text, has_part, occurs_at, text_len, texts,
};

verus! {

/// A letter of the English alphabet.
pub open spec fn letter(c: char) -> bool {
    ('a' <= c <= 'z') || ('A' <= c <= 'Z')
}

/// Whether `c` is a letter of the English alphabet.
pub fn is_letter(c: char) -> (r: bool)
    ensures
        r == letter(c),
{
    ('a' <= c && c <= 'z') || ('A' <= c && c <= 'Z')
}

/// Whether `c` is a common Chinese character.
pub fn is_chinese(c: char) -> (r: bool)
    ensures
        r == chinese(c),
{
    '\u{4e00}' <= c && c <= '\u{9fff}'
}

/// The text holds an English letter.
pub open spec fn has_letter(s: Seq<char>) -> bool {
    exists|i: int| 0 <= i < s.len() && letter(#[trigger] s[i])
}

/// The text holds a Chinese character.
pub open spec fn has_chinese(s: Seq<char>) -> bool {
    exists|i: int| 0 <= i < s.len() && chinese(#[trigger] s[i])
}

/// The number of English letters in the text.
pub open spec fn letter_count(s: Seq<char>) -> nat {
    s.filter(|c: char| letter(c)).len()
}

/// The number of Chinese characters in the text.
pub open spec fn chinese_count(s: Seq<char>) -> nat {
    s.filter(|c: char| chinese(c)).len()
}

/// Whether the text holds a Chinese character.
pub fn contains_chinese(s: &str) -> (r: bool)
    ensures
        r == has_chinese(s@),
{
    let v = chars_of(s);
    for i in 0..v.len()
        invariant
            v@ == s@,
            forall|j: int| 0 <= j < i ==> !chinese(#[trigger] v@[j]),
    {
        if is_chinese(v[i]) {
            return true;
        }
    }
    false
}

/// Whether the text holds an English letter.
pub fn contains_letter(s: &str) -> (r: bool)
    ensures
        r == has_letter(s@),
{
    let v = chars_of(s);
    for i in 0..v.len()
        invariant
            v@ == s@,
            forall|j: int| 0 <= j < i ==> !letter(#[trigger] v@[j]),
    {
        if is_letter(v[i]) {
            return true;
        }
    }
    false
}

/// The numbers of English letters and of Chinese characters in the text.
fn count_scripts(s: &str) -> (r: (usize, usize))
    ensures
        r.0 == letter_count(s@),
        r.1 == chinese_count(s@),
{
    let v = chars_of(s);
    let mut letters: usize = 0;
    let mut hans: usize = 0;
    for i in 0..v.len()
        invariant
            letters <= i,
            hans <= i,
            letters == letter_count(v@.take(i as int)),
            hans == chinese_count(v@.take(i as int)),
    {
        proof {
            reveal(Seq::filter);
            assert(v@.take(i + 1).drop_last() =~= v@.take(i as int));
        }
        if is_letter(v[i]) {
            letters += 1;
        }
        if is_chinese(v[i]) {
            hans += 1;
        }
    }
    assert(v@.take(v@.len() as int) =~= s@);
    (letters, hans)
}

/// A long, mainly English text without an answer: it is there to be read aloud.
pub open spec fn read_aloud(e: EntryView) -> bool {
    let q = e.question_text;
    &&& e.answers.len() == 0
    &&& has_letter(q)
    &&& byte_len(q) >= 180
    &&& letter_count(q) > 30
    &&& letter_count(q) > 3 * chinese_count(q)
}

/// Whether the question is a text to be read aloud: it has no answer, at least 180 bytes,
/// and more than 30 English letters, more than three for each Chinese character.
pub fn looks_like_read_aloud(e: &Entry) -> (r: bool)
    ensures
        r == read_aloud(e@),
{
    if e.answers.len() > 0 {
        return false;
    }
    let q = e.question_text.as_str();
    let (letters, hans) = count_scripts(q);
    contains_letter(q) && text_len(q) >= 180 && letters > 30 && letters as u128 > 3 * hans as u128
}

/// The wording of a lowercase question or analysis that asks for a story to be retold.
pub open spec fn retelling_hint(q: Seq<char>, a: Seq<char>) -> bool {
    ||| has_part(q, "梗概"@)
    ||| has_part(q, "关键词"@)
    ||| has_part(q, "复述"@)
    ||| has_part(q, "retelling"@)
    ||| has_part(q, "retell"@)
    ||| has_part(a, "参考复述"@)
    ||| has_part(a, "复述"@)
}

/// One of the texts has at least `n` bytes.
pub open spec fn has_long(s: Seq<Seq<char>>, n: nat) -> bool {
    exists|i: int| 0 <= i < s.len() && byte_len(#[trigger] s[i]) >= n
}

/// The question asks for a story to be retold and has a long answer.
pub open spec fn retelling(e: EntryView) -> bool {
    &&& retelling_hint(lowercase(e.question_text), lowercase(e.analysis))
    &&& has_long(e.answers, 120)
}

/// Whether a question or analysis, both in lowercase, asks for a story to be retold.
pub fn hints_at_retelling(q: &str, a: &str) -> (r: bool)
    ensures
        r == retelling_hint(q@, a@),
{
    contains_text(q, "梗概") || contains_text(q, "关键词") || contains_text(q, "复述")
        || contains_text(q, "retelling") || contains_text(q, "retell") || contains_text(
        a,
        "参考复述",
    ) || contains_text(a, "复述")
}

/// Whether one of the texts has at least `n` bytes.
pub fn any_long(v: &Vec<String>, n: usize) -> (r: bool)
    ensures
        r == has_long(texts(v@), n as nat),
{
    for i in 0..v.len()
        invariant
            forall|j: int| 0 <= j < i ==> byte_len(#[trigger] texts(v@)[j]) < n,
    {
        if text_len(v[i].as_str()) >= n {
            assert(byte_len(texts(v@)[i as int]) >= n);
            return true;
        }
    }
    false
}

/// Whether the question asks for a story to be retold: its wording or that of its analysis
/// says so, and it has an answer of at least 120 bytes.
pub fn looks_like_retelling(e: &Entry) -> (r: bool)
    ensures
        r == retelling(e@),
        common_text(e@.question_text) && common_text(e@.analysis) ==> r == (retelling_hint(
            ascii_lowered(e@.question_text),
            ascii_lowered(e@.analysis),
        ) && has_long(e@.answers, 120)),
{
    let q = to_lowercase(e.question_text.as_str());
    let a = to_lowercase(e.analysis.as_str());
    hints_at_retelling(q.as_str(), a.as_str()) && any_long(&e.answers, 120)
}

/// The wording of a lowercase question that is to be answered.
pub open spec fn qa_wording(q: Seq<char>) -> bool {
    ||| has_part(q, "第"@) && has_part(q, "个问题"@)
    ||| has_part(q, "question."@)
}

/// The question is one of a series to be answered.
pub open spec fn question_and_answer(e: EntryView) -> bool {
    let q = lowercase(e.question_text);
    qa_wording(q) || announced(q)
}

/// Whether a question in lowercase is worded as one of a series to be answered.
pub fn has_qa_wording(q: &str) -> (r: bool)
    ensures
        r == qa_wording(q@),
{
    (contains_text(q, "第") && contains_text(q, "个问题")) || contains_text(q, "question.")
}

/// Whether the question is one of a series to be answered: it is worded so, or announced so.
pub fn looks_like_qa(e: &Entry) -> (r: bool)
    ensures
        r == question_and_answer(e@),
        common_text(e@.question_text) ==> r == (qa_wording(ascii_lowered(e@.question_text))
            || announced(ascii_lowered(e@.question_text))),
{
    let q = to_lowercase(e.question_text.as_str());
    has_qa_wording(q.as_str()) || regex_is_match(QA_PATTERN, q.as_str())
}

/// The number that the first of the phrases from the `k`-th on gives to a lowercase text.
pub open spec fn en_number(text: Seq<char>, k: int) -> Option<int>
    decreases 10 - k,
{
    if k < 0 || k >= 10 {
        None
    } else if has_part(text, en_phrases()[k]) {
        Some(k + 1)
    } else {
        en_number(text, k + 1)
    }
}

/// The number of the question that the text names first in Chinese.
pub open spec fn zh_number(text: Seq<char>) -> Option<int>
    decreases text.len(),
{
    if text.len() < 5 {
        None
    } else if zh_number_at(text, 0, text[1]) {
        Some(zh_digits().index_of(text[1]) + 1)
    } else {
        zh_number(text.skip(1))
    }
}

/// The place of a question in its series: by the English phrase in its lowercase text, else
/// by the Chinese number in its text, else behind all others.
pub open spec fn qa_order(lowered: Seq<char>, text: Seq<char>) -> int {
    match en_number(lowered, 0) {
        Some(n) => n,
        None => match zh_number(text) {
            Some(n) => n,
            None => 999,
        },
    }
}

/// Without a Chinese number anywhere there is no first one.
proof fn lemma_zh_number_none(text: Seq<char>)
    requires
        forall|k: int, d: char| !zh_number_at(text, k, d),
    ensures
        zh_number(text) is None,
    decreases text.len(),
{
    if text.len() >= 5 {
        assert forall|k: int, d: char| !zh_number_at(text.skip(1), k, d) by {
            assert(!zh_number_at(text, k + 1, d));
            if 0 <= k && k + 5 <= text.skip(1).len() {
                assert(text.skip(1).subrange(k, k + 5) =~= text.subrange(k + 1, k + 6));
            }
        }
        lemma_zh_number_none(text.skip(1));
    }
}

/// The Chinese number at the first place where there is one.
proof fn lemma_zh_number_some(text: Seq<char>, i: int, d: char)
    requires
        zh_number_at(text, i, d),
        forall|k: int, c: char| k < i ==> !zh_number_at(text, k, c),
    ensures
        zh_number(text) == Some(zh_digits().index_of(d) + 1),
    decreases text.len(),
{
    if i == 0 {
        assert(text.subrange(0, 5)[1] == text[1]);
    } else {
        assert(!zh_number_at(text, 0, text[1]));
        let rest = text.skip(1);
        assert(rest.subrange(i - 1, i + 4) =~= text.subrange(i, i + 5));
        assert forall|k: int, c: char| k < i - 1 implies !zh_number_at(rest, k, c) by {
            assert(!zh_number_at(text, k + 1, c));
            if 0 <= k && k + 5 <= rest.len() {
                assert(rest.subrange(k, k + 5) =~= text.subrange(k + 1, k + 6));
            }
        }
        lemma_zh_number_some(rest, i - 1, d);
    }
}

/// The place of the Chinese numeral `d`, from 1; 999 for any other character.
pub fn zh_digit_value(d: char) -> (r: i32)
    ensures
        r == if zh_digits().contains(d) {
            zh_digits().index_of(d) + 1
        } else {
            999
        },
        1 <= r <= 10 || r == 999,
{
    let digits: [char; 10] = ['一', '二', '三', '四', '五', '六', '七', '八', '九', '十'];
    let mut n: i32 = 0;
    assert(digits@ =~= zh_digits());
    for i in 0..10usize
        invariant
            digits@ == zh_digits(),
            n == i,
            forall|j: int| 0 <= j < i ==> digits@[j] != d,
    {
        n += 1;
        if digits[i] == d {
            assert(zh_digits()[i as int] == d);
            assert(zh_digits().index_of(d) == i) by {
                let k = zh_digits().index_of(d);
                assert(0 <= k < 10 && zh_digits()[k] == d);
                if k < i {
                    assert(digits@[k] != d);
                }
                if k > i {
                    assert(zh_digits()[k] != zh_digits()[i as int]);
                }
            }
            return n;
        }
    }
    999
}

/// The place in its series of a question whose lowercase text is `lowered`.
pub fn qa_order_of(lowered: &str, question_text: &str) -> (r: i32)
    ensures
        r == qa_order(lowered@, question_text@),
        1 <= r <= 10 || r == 999,
{
    let phrases: [&str; 10] = [
        "first question",
        "second question",
        "third question",
        "fourth question",
        "fifth question",
        "sixth question",
        "seventh question",
        "eighth question",
        "ninth question",
        "tenth question",
    ];
    let mut n: i32 = 0;
    for i in 0..10usize
        invariant
            n == i,
            forall|j: int| 0 <= j < 10 ==> (#[trigger] phrases@[j])@ == en_phrases()[j],
            en_number(lowered@, 0) == en_number(lowered@, i as int),
    {
        n += 1;
        if contains_text(lowered, phrases[i]) {
            return n;
        }
    }
    match regex_capture(ZH_NUMBER_PATTERN, question_text) {
        Some(s) => {
            let v = chars_of(s.as_str());
            proof {
                let i = choose|i: int| #[trigger]
                    zh_number_at(question_text@, i, s@[0]) && forall|k: int, d: char|
                        k < i ==> !zh_number_at(question_text@, k, d);
                lemma_zh_number_some(question_text@, i, s@[0]);
            }
            zh_digit_value(v[0])
        },
        None => {
            proof {
                lemma_zh_number_none(question_text@);
            }
            999
        },
    }
}

/// The place of a question in its series, from 1 to 10; 999 where its text gives none.
pub fn extract_qa_order_index(question_text: &str) -> (r: i32)
    ensures
        r == qa_order(lowercase(question_text@), question_text@),
        common_text(question_text@) ==> r == qa_order(ascii_lowered(question_text@), question_text@),
        1 <= r <= 10 || r == 999,
{
    let text = to_lowercase(question_text);
    qa_order_of(text.as_str(), question_text)
}

/// The sections into which questions are sorted.
#[derive(Debug, Clone, Copy, PartialEq, Eq, Structural)]
pub enum Section {
    ReadAloud,
    Translation,
    Qa,
    Retelling,
    Other,
}

/// One of the texts holds an English letter.
pub open spec fn any_has_letter(s: Seq<Seq<char>>) -> bool {
    exists|i: int| 0 <= i < s.len() && has_letter(#[trigger] s[i])
}

/// The section of an entry: the first that fits of reading aloud, retelling, series of
/// questions and Chinese questions with English answers, else the section of all others.
pub open spec fn section(e: EntryView) -> Section {
    if read_aloud(e) {
        Section::ReadAloud
    } else if retelling(e) {
        Section::Retelling
    } else if question_and_answer(e) {
        Section::Qa
    } else if has_chinese(e.question_text) && any_has_letter(e.answers) {
        Section::Translation
    } else {
        Section::Other
    }
}

/// Whether one of the texts holds an English letter.
pub fn any_contains_letter(v: &Vec<String>) -> (r: bool)
    ensures
        r == any_has_letter(texts(v@)),
{
    for i in 0..v.len()
        invariant
            forall|j: int| 0 <= j < i ==> !has_letter(#[trigger] texts(v@)[j]),
    {
        if contains_letter(v[i].as_str()) {
            assert(has_letter(texts(v@)[i as int]));
            return true;
        }
    }
    false
}

/// The section into which the entry belongs.
pub fn section_of(e: &Entry) -> (r: Section)
    ensures
        r == section(e@),
{
    if looks_like_read_aloud(e) {
        Section::ReadAloud
    } else if looks_like_retelling(e) {
        Section::Retelling
    } else if looks_like_qa(e) {
        Section::Qa
    } else if contains_chinese(e.question_text.as_str()) && any_contains_letter(&e.answers) {
        Section::Translation
    } else {
        Section::Other
    }
}

/// Characters are counted one by one, and each for what it is.
pub proof fn lemma_script_counts(a: Seq<char>, b: Seq<char>, c: char)
    ensures
        letter_count(a + b) == letter_count(a) + letter_count(b),
        chinese_count(a + b) == chinese_count(a) + chinese_count(b),
        letter_count(seq![c]) == if ('a' <= c <= 'z') || ('A' <= c <= 'Z') {
            1nat
        } else {
            0nat
        },
        chinese_count(seq![c]) == if '\u{4e00}' <= c <= '\u{9fff}' {
            1nat
        } else {
            0nat
        },
{
    Seq::filter_distributes_over_add(a, b, |x: char| letter(x));
    Seq::filter_distributes_over_add(a, b, |x: char| chinese(x));
    reveal(Seq::filter);
    let none: Seq<char> = Seq::empty();
    assert(seq![c].drop_last() =~= none);
    assert(none.filter(|x: char| letter(x)) =~= none);
    assert(none.filter(|x: char| chinese(x)) =~= none);
}

/// A text to be read aloud has no answer, is long, and has many English letters, both as such
/// and beside its Chinese characters; nothing else is asked of it.
pub proof fn lemma_read_aloud(e: EntryView)
    ensures
        e.answers.len() > 0 ==> !read_aloud(e),
        byte_len(e.question_text) < 180 ==> !read_aloud(e),
        letter_count(e.question_text) <= 30 ==> !read_aloud(e),
        letter_count(e.question_text) <= 3 * chinese_count(e.question_text) ==> !read_aloud(e),
        e.answers.len() == 0 && byte_len(e.question_text) >= 180 && letter_count(e.question_text)
            > 30 && letter_count(e.question_text) > 3 * chinese_count(e.question_text)
            ==> read_aloud(e),
{
    if letter_count(e.question_text) > 0 {
        lemma_some_letter(e.question_text);
    }
}

/// Where letters are counted there is one.
proof fn lemma_some_letter(s: Seq<char>)
    requires
        letter_count(s) > 0,
    ensures
        has_letter(s),
    decreases s.len(),
{
    reveal(Seq::filter);
    if s.len() > 0 {
        if letter(s.last()) {
            assert(letter(s[s.len() - 1]));
        } else {
            let init = s.drop_last();
            lemma_some_letter(init);
            let i = choose|i: int| 0 <= i < init.len() && letter(#[trigger] init[i]);
            assert(letter(s[i]));
        }
    }
}

/// Every hint at retelling counts, in the question or in the analysis, if there is a long
/// answer; without a hint, or with short answers only, nothing is to be retold.
pub proof fn lemma_retelling(e: EntryView, i: int)
    requires
        0 <= i < e.answers.len(),
    ensures
        byte_len(e.answers[i]) >= 120 && (has_part(lowercase(e.question_text), "梗概"@) || has_part(lowercase(e.question_text), "关键词"@) || has_part(lowercase(e.question_text), "复述"@) || has_part(lowercase(e.question_text), "retelling"@) || has_part(lowercase(e.question_text), "retell"@) || has_part(
            lowercase(e.analysis),
            "复述"@,
        ) || has_part(lowercase(e.analysis), "参考复述"@)) ==> retelling(e),
        !has_part(lowercase(e.question_text), "梗概"@) && !has_part(lowercase(e.question_text), "关键词"@) && !has_part(lowercase(e.question_text), "复述"@) && !has_part(lowercase(e.question_text), "retelling"@) && !has_part(lowercase(e.question_text), "retell"@) && !has_part(
            lowercase(e.analysis),
            "复述"@,
        ) && !has_part(lowercase(e.analysis), "参考复述"@) ==> !retelling(e),
        (forall|j: int| 0 <= j < e.answers.len() ==> byte_len(#[trigger] e.answers[j]) < 120)
            ==> !retelling(e),
{
    if byte_len(e.answers[i]) >= 120 {
        assert(has_long(e.answers, 120));
    }
}

/// Without an answer there is nothing to be retold.
pub proof fn lemma_retelling_unanswered(e: EntryView)
    requires
        e.answers.len() == 0,
    ensures
        !retelling(e),
{
}

/// A question is one of a series if it holds both parts of a Chinese number, the end of an
/// English sentence with `question`, or an announcement; if none of these, it is not.
pub proof fn lemma_series(e: EntryView)
    ensures
        has_part(lowercase(e.question_text), "第"@) && has_part(
            lowercase(e.question_text),
            "个问题"@,
        ) ==> question_and_answer(e),
        has_part(lowercase(e.question_text), "question."@) ==> question_and_answer(e),
        announced(lowercase(e.question_text)) ==> question_and_answer(e),
        !has_part(lowercase(e.question_text), "第"@) && !has_part(
            lowercase(e.question_text),
            "question."@,
        ) && !announced(lowercase(e.question_text)) ==> !question_and_answer(e),
        !has_part(lowercase(e.question_text), "个问题"@) && !has_part(
            lowercase(e.question_text),
            "question."@,
        ) && !announced(lowercase(e.question_text)) ==> !question_and_answer(e),
{
}

/// Each of the ten announcements announces a question.
pub proof fn lemma_announced(q: Seq<char>)
    ensures
        has_part(q, "get ready to answer the first question"@) ==> announced(q),
        has_part(q, "get ready to answer the second question"@) ==> announced(q),
        has_part(q, "get ready to answer the third question"@) ==> announced(q),
        has_part(q, "get ready to answer the fourth question"@) ==> announced(q),
        has_part(q, "get ready to answer the fifth question"@) ==> announced(q),
        has_part(q, "get ready to answer the sixth question"@) ==> announced(q),
        has_part(q, "get ready to answer the seventh question"@) ==> announced(q),
        has_part(q, "get ready to answer the eighth question"@) ==> announced(q),
        has_part(q, "get ready to answer the ninth question"@) ==> announced(q),
        has_part(q, "get ready to answer the tenth question"@) ==> announced(q),
{
    reveal_strlit("get ready to answer the ");
    if has_part(q, "get ready to answer the first question"@) {
        reveal_strlit("first question");
        reveal_strlit("get ready to answer the first question");
        assert("get ready to answer the "@ + en_phrases()[0]
            =~= "get ready to answer the first question"@);
        lemma_announcement(q, 0, "get ready to answer the first question"@);
    }
    if has_part(q, "get ready to answer the second question"@) {
        reveal_strlit("second question");
        reveal_strlit("get ready to answer the second question");
        assert("get ready to answer the "@ + en_phrases()[1]
            =~= "get ready to answer the second question"@);
        lemma_announcement(q, 1, "get ready to answer the second question"@);
    }
    if has_part(q, "get ready to answer the third question"@) {
        reveal_strlit("third question");
        reveal_strlit("get ready to answer the third question");
        assert("get ready to answer the "@ + en_phrases()[2]
            =~= "get ready to answer the third question"@);
        lemma_announcement(q, 2, "get ready to answer the third question"@);
    }
    if has_part(q, "get ready to answer the fourth question"@) {
        reveal_strlit("fourth question");
        reveal_strlit("get ready to answer the fourth question");
        assert("get ready to answer the "@ + en_phrases()[3]
            =~= "get ready to answer the fourth question"@);
        lemma_announcement(q, 3, "get ready to answer the fourth question"@);
    }
    if has_part(q, "get ready to answer the fifth question"@) {
        reveal_strlit("fifth question");
        reveal_strlit("get ready to answer the fifth question");
        assert("get ready to answer the "@ + en_phrases()[4]
            =~= "get ready to answer the fifth question"@);
        lemma_announcement(q, 4, "get ready to answer the fifth question"@);
    }
    if has_part(q, "get ready to answer the sixth question"@) {
        reveal_strlit("sixth question");
        reveal_strlit("get ready to answer the sixth question");
        assert("get ready to answer the "@ + en_phrases()[5]
            =~= "get ready to answer the sixth question"@);
        lemma_announcement(q, 5, "get ready to answer the sixth question"@);
    }
    if has_part(q, "get ready to answer the seventh question"@) {
        reveal_strlit("seventh question");
        reveal_strlit("get ready to answer the seventh question");
        assert("get ready to answer the "@ + en_phrases()[6]
            =~= "get ready to answer the seventh question"@);
        lemma_announcement(q, 6, "get ready to answer the seventh question"@);
    }
    if has_part(q, "get ready to answer the eighth question"@) {
        reveal_strlit("eighth question");
        reveal_strlit("get ready to answer the eighth question");
        assert("get ready to answer the "@ + en_phrases()[7]
            =~= "get ready to answer the eighth question"@);
        lemma_announcement(q, 7, "get ready to answer the eighth question"@);
    }
    if has_part(q, "get ready to answer the ninth question"@) {
        reveal_strlit("ninth question");
        reveal_strlit("get ready to answer the ninth question");
        assert("get ready to answer the "@ + en_phrases()[8]
            =~= "get ready to answer the ninth question"@);
        lemma_announcement(q, 8, "get ready to answer the ninth question"@);
    }
    if has_part(q, "get ready to answer the tenth question"@) {
        reveal_strlit("tenth question");
        reveal_strlit("get ready to answer the tenth question");
        assert("get ready to answer the "@ + en_phrases()[9]
            =~= "get ready to answer the tenth question"@);
        lemma_announcement(q, 9, "get ready to answer the tenth question"@);
    }
}

/// What holds an announcement in lowercase announces a question.
proof fn lemma_announcement(q: Seq<char>, k: int, whole: Seq<char>)
    requires
        0 <= k < 10,
        whole == "get ready to answer the "@ + en_phrases()[k],
        has_part(q, whole),
    ensures
        announced(q),
{
    let i = choose|i: int| occurs_at(q, whole, i);
    let from = q.skip(i);
    assert forall|j: int| 0 <= j < whole.len() implies same_letter(#[trigger] from[j], whole[j]) by {
        assert(q.subrange(i, i + whole.len())[j] == from[j]);
    }
    assert(announced_at(q, i, k));
}

/// The English phrases give the places from 1 to 10, an earlier phrase before a later one, and
/// all of them before any Chinese number.
pub proof fn lemma_english_places(lowered: Seq<char>, text: Seq<char>)
    ensures
        has_part(lowered, "first question"@) ==> qa_order(
            lowered,
            text,
        ) == 1,
        !has_part(lowered, "first question"@) && has_part(lowered, "second question"@) ==> qa_order(
            lowered,
            text,
        ) == 2,
        !has_part(lowered, "first question"@) && !has_part(lowered, "second question"@) && has_part(lowered, "third question"@) ==> qa_order(
            lowered,
            text,
        ) == 3,
        !has_part(lowered, "first question"@) && !has_part(lowered, "second question"@) && !has_part(lowered, "third question"@) && has_part(lowered, "fourth question"@) ==> qa_order(
            lowered,
            text,
        ) == 4,
        !has_part(lowered, "first question"@) && !has_part(lowered, "second question"@) && !has_part(lowered, "third question"@) && !has_part(lowered, "fourth question"@) && has_part(lowered, "fifth question"@) ==> qa_order(
            lowered,
            text,
        ) == 5,
        !has_part(lowered, "first question"@) && !has_part(lowered, "second question"@) && !has_part(lowered, "third question"@) && !has_part(lowered, "fourth question"@) && !has_part(lowered, "fifth question"@) && has_part(lowered, "sixth question"@) ==> qa_order(
            lowered,
            text,
        ) == 6,
        !has_part(lowered, "first question"@) && !has_part(lowered, "second question"@) && !has_part(lowered, "third question"@) && !has_part(lowered, "fourth question"@) && !has_part(lowered, "fifth question"@) && !has_part(lowered, "sixth question"@) && has_part(lowered, "seventh question"@) ==> qa_order(
            lowered,
            text,
        ) == 7,
        !has_part(lowered, "first question"@) && !has_part(lowered, "second question"@) && !has_part(lowered, "third question"@) && !has_part(lowered, "fourth question"@) && !has_part(lowered, "fifth question"@) && !has_part(lowered, "sixth question"@) && !has_part(lowered, "seventh question"@) && has_part(lowered, "eighth question"@) ==> qa_order(
            lowered,
            text,
        ) == 8,
        !has_part(lowered, "first question"@) && !has_part(lowered, "second question"@) && !has_part(lowered, "third question"@) && !has_part(lowered, "fourth question"@) && !has_part(lowered, "fifth question"@) && !has_part(lowered, "sixth question"@) && !has_part(lowered, "seventh question"@) && !has_part(lowered, "eighth question"@) && has_part(lowered, "ninth question"@) ==> qa_order(
            lowered,
            text,
        ) == 9,
        !has_part(lowered, "first question"@) && !has_part(lowered, "second question"@) && !has_part(lowered, "third question"@) && !has_part(lowered, "fourth question"@) && !has_part(lowered, "fifth question"@) && !has_part(lowered, "sixth question"@) && !has_part(lowered, "seventh question"@) && !has_part(lowered, "eighth question"@) && !has_part(lowered, "ninth question"@) && has_part(lowered, "tenth question"@) ==> qa_order(
            lowered,
            text,
        ) == 10,
{
    reveal_with_fuel(en_number, 11);
}

/// Without an English phrase the first Chinese number gives the place, from 1 to 10.
pub proof fn lemma_chinese_places(
    lowered: Seq<char>,
    before: Seq<char>,
    d: char,
    after: Seq<char>,
)
    requires
        !has_part(lowered, "first question"@),
        !has_part(lowered, "second question"@),
        !has_part(lowered, "third question"@),
        !has_part(lowered, "fourth question"@),
        !has_part(lowered, "fifth question"@),
        !has_part(lowered, "sixth question"@),
        !has_part(lowered, "seventh question"@),
        !has_part(lowered, "eighth question"@),
        !has_part(lowered, "ninth question"@),
        !has_part(lowered, "tenth question"@),
        !before.contains('第'),
    ensures
        d == '一' ==> qa_order(lowered, before + seq!['第', d, '个', '问', '题'] + after) == 1,
        d == '二' ==> qa_order(lowered, before + seq!['第', d, '个', '问', '题'] + after) == 2,
        d == '三' ==> qa_order(lowered, before + seq!['第', d, '个', '问', '题'] + after) == 3,
        d == '四' ==> qa_order(lowered, before + seq!['第', d, '个', '问', '题'] + after) == 4,
        d == '五' ==> qa_order(lowered, before + seq!['第', d, '个', '问', '题'] + after) == 5,
        d == '六' ==> qa_order(lowered, before + seq!['第', d, '个', '问', '题'] + after) == 6,
        d == '七' ==> qa_order(lowered, before + seq!['第', d, '个', '问', '题'] + after) == 7,
        d == '八' ==> qa_order(lowered, before + seq!['第', d, '个', '问', '题'] + after) == 8,
        d == '九' ==> qa_order(lowered, before + seq!['第', d, '个', '问', '题'] + after) == 9,
        d == '十' ==> qa_order(lowered, before + seq!['第', d, '个', '问', '题'] + after) == 10,
{
    reveal_with_fuel(en_number, 11);
    let mark = seq!['第', d, '个', '问', '题'];
    let text = before + mark + after;
    let n = before.len() as int;
    let digits = zh_digits();
    assert(text.subrange(n, n + 5) =~= mark);
    if digits.contains(d) {
        assert(zh_number_at(text, n, d));
        assert forall|k: int, c: char| k < n implies !zh_number_at(text, k, c) by {
            if zh_number_at(text, k, c) {
                assert(text.subrange(k, k + 5)[0] == text[k]);
                assert(before[k] == '第');
            }
        }
        lemma_zh_number_some(text, n, d);
    }
    if d == '一' {
        assert(digits[0] == d);
        assert(digits.index_of(d) == 0);
    }
    if d == '二' {
        assert(digits[1] == d);
        assert(digits.index_of(d) == 1);
    }
    if d == '三' {
        assert(digits[2] == d);
        assert(digits.index_of(d) == 2);
    }
    if d == '四' {
        assert(digits[3] == d);
        assert(digits.index_of(d) == 3);
    }
    if d == '五' {
        assert(digits[4] == d);
        assert(digits.index_of(d) == 4);
    }
    if d == '六' {
        assert(digits[5] == d);
        assert(digits.index_of(d) == 5);
    }
    if d == '七' {
        assert(digits[6] == d);
        assert(digits.index_of(d) == 6);
    }
    if d == '八' {
        assert(digits[7] == d);
        assert(digits.index_of(d) == 7);
    }
    if d == '九' {
        assert(digits[8] == d);
        assert(digits.index_of(d) == 8);
    }
    if d == '十' {
        assert(digits[9] == d);
        assert(digits.index_of(d) == 9);
    }
}

/// Without an English phrase and without `第` a question has no place and comes last.
pub proof fn lemma_no_place(lowered: Seq<char>, text: Seq<char>)
    requires
        !has_part(lowered, "first question"@),
        !has_part(lowered, "second question"@),
        !has_part(lowered, "third question"@),
        !has_part(lowered, "fourth question"@),
        !has_part(lowered, "fifth question"@),
        !has_part(lowered, "sixth question"@),
        !has_part(lowered, "seventh question"@),
        !has_part(lowered, "eighth question"@),
        !has_part(lowered, "ninth question"@),
        !has_part(lowered, "tenth question"@),
        !text.contains('第'),
    ensures
        qa_order(lowered, text) == 999,
{
    reveal_with_fuel(en_number, 11);
    assert forall|k: int, c: char| !zh_number_at(text, k, c) by {
        if zh_number_at(text, k, c) {
            assert(text.subrange(k, k + 5)[0] == text[k]);
        }
    }
    lemma_zh_number_none(text);
}

/// The sections in the order in which they are tried.
pub proof fn lemma_section(e: EntryView)
    ensures
        read_aloud(e) <==> section(e) == Section::ReadAloud,
        !read_aloud(e) && retelling(e) <==> section(e) == Section::Retelling,
        !read_aloud(e) && !retelling(e) && question_and_answer(e) <==> section(e) == Section::Qa,
        forall|i: int, j: int, k: int|
            #![trigger e.question_text[i], e.answers[j][k]]
            0 <= i < e.question_text.len() && '\u{4e00}' <= e.question_text[i] <= '\u{9fff}' && 0
                <= j < e.answers.len() && 0 <= k < e.answers[j].len() && (('a' <= e.answers[j][k]
                <= 'z') || ('A' <= e.answers[j][k] <= 'Z')) && !retelling(e)
                && !question_and_answer(e) ==> section(e) == Section::Translation,
        (forall|i: int|
            0 <= i < e.question_text.len() ==> !('\u{4e00}' <= #[trigger] e.question_text[i]
                <= '\u{9fff}')) ==> section(e) != Section::Translation,
        (forall|j: int, k: int|
            0 <= j < e.answers.len() && 0 <= k < e.answers[j].len() ==> !(('a'
                <= #[trigger] e.answers[j][k] <= 'z') || ('A' <= e.answers[j][k] <= 'Z')))
            ==> section(e) != Section::Translation,
        section(e) == Section::Other <==> !(section(e) == Section::ReadAloud || section(e)
            == Section::Retelling || section(e) == Section::Qa || section(e)
            == Section::Translation),
{
    assert forall|i: int, j: int, k: int|
        #![trigger e.question_text[i], e.answers[j][k]]
        0 <= i < e.question_text.len() && '\u{4e00}' <= e.question_text[i] <= '\u{9fff}' && 0 <= j
            < e.answers.len() && 0 <= k < e.answers[j].len() && (('a' <= e.answers[j][k] <= 'z')
            || ('A' <= e.answers[j][k] <= 'Z')) && !retelling(e) && !question_and_answer(
            e,
        ) implies section(e) == Section::Translation by {
        assert(chinese(e.question_text[i]));
        assert(letter(e.answers[j][k]));
        assert(has_letter(e.answers[j]));
        assert(any_has_letter(e.answers));
    }
}

/// The hints are these words, in the question or in the analysis, and no others.
pub proof fn lemma_hints(q: Seq<char>, a: Seq<char>)
    ensures
        has_part(q, "梗概"@) || has_part(q, "关键词"@) || has_part(q, "复述"@) || has_part(
            q,
            "retell"@,
        ) || has_part(a, "复述"@) ==> retelling_hint(q, a),
        !has_part(q, "梗概"@) && !has_part(q, "关键词"@) && !has_part(q, "复述"@) && !has_part(
            q,
            "retell"@,
        ) && !has_part(q, "retelling"@) && !has_part(a, "复述"@) && !has_part(a, "参考复述"@)
            ==> !retelling_hint(q, a),
        has_part(q, "第"@) && has_part(q, "个问题"@) ==> qa_wording(q),
        has_part(q, "question."@) ==> qa_wording(q),
        !has_part(q, "第"@) && !has_part(q, "question."@) ==> !qa_wording(q),
        !has_part(q, "个问题"@) && !has_part(q, "question."@) ==> !qa_wording(q),
{
}

/// A text has a script if one of its characters has it, and texts are long if one of them is.
pub proof fn lemma_scripts(s: Seq<char>, i: int, list: Seq<Seq<char>>, j: int, n: nat)
    ensures
        0 <= i < s.len() && (('a' <= s[i] <= 'z') || ('A' <= s[i] <= 'Z')) ==> has_letter(s),
        0 <= i < s.len() && '\u{4e00}' <= s[i] <= '\u{9fff}' ==> has_chinese(s),
        (forall|k: int|
            0 <= k < s.len() ==> !(('a' <= #[trigger] s[k] <= 'z') || ('A' <= s[k] <= 'Z')))
            ==> !has_letter(s),
        (forall|k: int| 0 <= k < s.len() ==> !('\u{4e00}' <= #[trigger] s[k] <= '\u{9fff}'))
            ==> !has_chinese(s),
        0 <= j < list.len() && byte_len(list[j]) >= n ==> has_long(list, n),
        (forall|k: int| 0 <= k < list.len() ==> byte_len(#[trigger] list[k]) < n) ==> !has_long(
            list,
            n,
        ),
{
    if 0 <= i < s.len() && (('a' <= s[i] <= 'z') || ('A' <= s[i] <= 'Z')) {
        assert(letter(s[i]));
    }
    if 0 <= i < s.len() && '\u{4e00}' <= s[i] <= '\u{9fff}' {
        assert(chinese(s[i]));
    }
}

/// What stands in the place of a Chinese numeral and is none gives no place.
pub proof fn lemma_other_numeral(
    lowered: Seq<char>,
    before: Seq<char>,
    d: char,
    after: Seq<char>,
)
    requires
        !has_part(lowered, "first question"@),
        !has_part(lowered, "second question"@),
        !has_part(lowered, "third question"@),
        !has_part(lowered, "fourth question"@),
        !has_part(lowered, "fifth question"@),
        !has_part(lowered, "sixth question"@),
        !has_part(lowered, "seventh question"@),
        !has_part(lowered, "eighth question"@),
        !has_part(lowered, "ninth question"@),
        !has_part(lowered, "tenth question"@),
        !before.contains('第'),
        !after.contains('第'),
        d != '第',
        d != '一',
        d != '二',
        d != '三',
        d != '四',
        d != '五',
        d != '六',
        d != '七',
        d != '八',
        d != '九',
        d != '十',
    ensures
        qa_order(lowered, before + seq!['第', d, '个', '问', '题'] + after) == 999,
{
    reveal_with_fuel(en_number, 11);
    let mark = seq!['第', d, '个', '问', '题'];
    let text = before + mark + after;
    let n = before.len() as int;
    assert forall|k: int, c: char| !zh_number_at(text, k, c) by {
        if zh_number_at(text, k, c) {
            assert(text.subrange(k, k + 5)[0] == text[k]);
            assert(text.subrange(k, k + 5)[1] == text[k + 1]);
            if k < n {
                assert(before[k] == '第');
            } else if k >= n + 5 {
                assert(after[k - n - 5] == '第');
            } else if k == n {
                assert(c == d);
            }
        }
    }
    lemma_zh_number_none(text);
}

} // verus!
