//! Reading the pages: finding the questions and their answers.

use std::path::PathBuf;

use vstd::prelude::*;

use crate::answers::{lemma_selected, select_shortest_answers, selected};
use crate::entry::{entry_views, Entry, EntryView};
use crate::json::{
    braced, braced_at, copy_json, json_parsed, json_space, json_views, opt_view, ordered,
    parse_json, print_json, printed, Json, JsonView,
};
use crate::paths::{
    dir_names, directories, folder_name, folder_name_of, path_names, path_text, text_of,
    text_of_path,
};
use crate::patterns::{
    block_rest, br_rest, decode_entities, entities_decoded, has_tag, lemma_any_tag,
    lemma_block_tag, lemma_br_tag, lemma_inline_tag, lemma_markup_closed, lemma_no_tags, lemma_other_tag,
    lemma_page_object, lemma_page_object_around, lemma_page_object_braces, lemma_replaced_behind,
    lemma_replaced_open, lemma_replaced_plain, page_object, regex_capture, regex_replace_all, replaced, tag_rest,
    BLOCK_PATTERN, BR_PATTERN, PAGE_PATTERN, TAG_PATTERN,
};
use crate::text::{
    blank, chars_of, first_place, has_part, last_place, lemma_first_place, lemma_last_place,
    lemma_part_of_sum, lemma_tidied, lemma_trimmed_around, lemma_trimmed_fixed, split_lines,
    substring, text_eq, texts, tidied, tidy, tidy_lines, trim, trim_end, trim_start, trimmed,
    white_space,
};

verus! {

/// The text of a value: of a string its content, of anything else its JSON text.
pub open spec fn raw_text(v: JsonView) -> Seq<char> {
    match v {
        JsonView::Str(s) => s,
        _ => printed(v),
    }
}

/// HTML without tags: line breaks and the ends of blocks become line feeds, the other tags
/// disappear.
pub open spec fn untagged(s: Seq<char>) -> Seq<char> {
    let lines = replaced(s, br_rest(), seq!['\n']);
    let blocks = replaced(lines, block_rest(), seq!['\n']);
    replaced(blocks, tag_rest(), Seq::empty())
}

/// HTML as plain text: line breaks and the ends of blocks become line feeds, the other tags
/// disappear, and character references are decoded.
pub open spec fn stripped(s: Seq<char>) -> Seq<char> {
    entities_decoded(untagged(s))
}

/// The text of an optional value of HTML, cleaned up; empty without a value.
pub open spec fn cleaned(v: Option<JsonView>) -> Seq<char> {
    match v {
        Some(v) => tidied(stripped(raw_text(v))),
        None => Seq::empty(),
    }
}

/// HTML as plain text. Where no `&` is left without the tags, there is nothing to decode, and
/// a text without `<` and `&` is plain already.
pub fn strip_markup(s: &str) -> (r: String)
    ensures
        r@ == stripped(s@),
        !untagged(s@).contains('&') ==> r@ == untagged(s@),
        !s@.contains('<') && !s@.contains('&') ==> r@ == s@,
{
    proof {
        reveal_strlit("\n");
        reveal_strlit("");
        assert("\n"@ =~= seq!['\n']);
        assert(""@ =~= Seq::empty());
        if !s@.contains('<') {
            lemma_replaced_plain(s@, br_rest(), seq!['\n']);
            lemma_replaced_plain(s@, block_rest(), seq!['\n']);
            lemma_replaced_plain(s@, tag_rest(), Seq::empty());
        }
    }
    let lines = regex_replace_all(BR_PATTERN, s, "\n");
    let blocks = regex_replace_all(BLOCK_PATTERN, lines.as_str(), "\n");
    let plain = regex_replace_all(TAG_PATTERN, blocks.as_str(), "");
    decode_entities(plain.as_str())
}

/// The text of a value: of a string its content, of anything else its JSON text.
pub fn value_text(v: &Json) -> (r: String)
    ensures
        r@ == raw_text(v@),
{
    match v {
        Json::Str(s) => s.clone(),
        _ => print_json(v),
    }
}

/// The text of an optional value of HTML: without tags, its lines trimmed, the empty ones
/// left out. Where no `&` is left without the tags, there is nothing to decode, and of a string
/// without `<` and `&` only the lines are tidied.
pub fn clean_html_text(text: Option<&Json>) -> (r: String)
    ensures
        r@ == cleaned(opt_view(text)),
        opt_view(text) matches Some(v) ==> !untagged(raw_text(v)).contains('&') ==> r@ == tidied(
            untagged(raw_text(v)),
        ),
        opt_view(text) matches Some(JsonView::Str(s)) ==> !s.contains('<') && !s.contains('&')
            ==> r@ == tidied(s),
{
    match text {
        Some(v) => {
            let s = value_text(v);
            let plain = strip_markup(s.as_str());
            tidy_lines(plain.as_str())
        },
        None => String::new(),
    }
}

/// Why a page could not be read.
#[derive(Debug)]
pub enum PageError {
    /// There is no opening brace.
    NoStart,
    /// There is no closing brace.
    NoEnd,
    /// What stands between the braces is not JSON; with the parser's message.
    BadJson(String),
}

/// What an error about a page says.
pub enum PageFault {
    NoStart,
    NoEnd,
    BadJson(Seq<char>),
}

impl View for PageError {
    type V = PageFault;

    open spec fn view(&self) -> PageFault {
        match self {
            PageError::NoStart => PageFault::NoStart,
            PageError::NoEnd => PageFault::NoEnd,
            PageError::BadJson(e) => PageFault::BadJson(e@),
        }
    }
}

impl PageFault {
    /// The message of the error.
    pub open spec fn message(self) -> Seq<char> {
        match self {
            PageFault::NoStart => "Cannot locate pageConfig JSON object (start)"@,
            PageFault::NoEnd => "Cannot locate pageConfig JSON object (end)"@,
            PageFault::BadJson(e) => "JSON parse error: "@ + e,
        }
    }
}

impl PageError {
    /// The message of the error.
    pub fn message(&self) -> (r: String)
        ensures
            r@ == self@.message(),
    {
        match self {
            PageError::NoStart => "Cannot locate pageConfig JSON object (start)".to_string(),
            PageError::NoEnd => "Cannot locate pageConfig JSON object (end)".to_string(),
            PageError::BadJson(e) => {
                let mut r = "JSON parse error: ".to_string();
                r.append(e.as_str());
                r
            },
        }
    }
}

/// The first opening brace, if both braces occur, comes no later than directly behind the
/// last closing one.
pub open spec fn braces_in_order(s: Seq<char>) -> bool {
    match (first_place(s, '{'), last_place(s, '}')) {
        (Some(a), Some(b)) => a <= b + 1,
        _ => true,
    }
}

/// The first and the last place of two characters.
fn find_places(v: &Vec<char>, open: char, close: char) -> (r: (Option<usize>, Option<usize>))
    ensures
        match r.0 {
            Some(a) => a < v.len() && first_place(v@, open) == Some(a as int),
            None => first_place(v@, open) is None,
        },
        match r.1 {
            Some(b) => b < v.len() && last_place(v@, close) == Some(b as int),
            None => last_place(v@, close) is None,
        },
{
    let mut first: Option<usize> = None;
    let mut last: Option<usize> = None;
    for i in 0..v.len()
        invariant
            match first {
                Some(a) => a < i && first_place(v@.take(i as int), open) == Some(a as int),
                None => first_place(v@.take(i as int), open) is None,
            },
            match last {
                Some(b) => b < i && last_place(v@.take(i as int), close) == Some(b as int),
                None => last_place(v@.take(i as int), close) is None,
            },
    {
        assert(v@.take(i + 1).drop_last() =~= v@.take(i as int));
        if first.is_none() && v[i] == open {
            first = Some(i);
        }
        if v[i] == close {
            last = Some(i);
        }
    }
    assert(v@.take(v@.len() as int) =~= v@);
    (first, last)
}

/// Whether the first opening brace, if both braces occur, comes no later than directly
/// behind the last closing one.
pub fn has_braces_in_order(raw: &str) -> (r: bool)
    ensures
        r == braces_in_order(raw@),
{
    let v = chars_of(raw);
    match find_places(&v, '{', '}') {
        (Some(a), Some(b)) => a <= b || a - 1 == b,
        _ => true,
    }
}

/// The JSON text of a page: what the page's pattern captured, or else everything from the
/// first opening to the last closing brace.
pub open spec fn located(raw: Seq<char>, captured: Option<Seq<char>>) -> Result<
    Seq<char>,
    PageFault,
> {
    match captured {
        Some(json) => Ok(json),
        None => match first_place(raw, '{') {
            None => Err(PageFault::NoStart),
            Some(a) => match last_place(raw, '}') {
                None => Err(PageFault::NoEnd),
                Some(b) => Ok(raw.subrange(a, b + 1)),
            },
        },
    }
}

/// The JSON text of a page, given what the page's pattern captured of it.
pub fn locate_json(raw: &str, captured: Option<String>) -> (r: Result<String, PageError>)
    requires
        captured is None ==> braces_in_order(raw@),
    ensures
        match r {
            Ok(json) => located(raw@, text_of(captured)) == Ok::<
                Seq<char>,
                PageFault,
            >(json@),
            Err(e) => located(raw@, text_of(captured)) == Err::<
                Seq<char>,
                PageFault,
            >(e@),
        },
{
    if let Some(json) = captured {
        return Ok(json);
    }
    let v = chars_of(raw);
    let (first, last) = find_places(&v, '{', '}');
    match first {
        None => Err(PageError::NoStart),
        Some(a) => match last {
            None => Err(PageError::NoEnd),
            Some(b) => Ok(substring(&v, a, b + 1)),
        },
    }
}

/// The configuration that a page holds.
pub open spec fn page_parsed(raw: Seq<char>) -> Result<JsonView, PageFault> {
    match located(raw, page_object(trimmed(raw))) {
        Ok(json) => match json_parsed(json) {
            Ok(v) => Ok(v),
            Err(e) => Err(PageFault::BadJson(e)),
        },
        Err(e) => Err(e),
    }
}

/// `raw` is the JSON text of an object, `json`, between `before` without an opening and `after`
/// without a closing brace, and the object does not speak of `pageConfig`.
pub open spec fn surrounds(
    raw: Seq<char>,
    before: Seq<char>,
    json: Seq<char>,
    after: Seq<char>,
) -> bool {
    &&& raw == before + json + after
    &&& braced(json)
    &&& !before.contains('{')
    &&& !after.contains('}')
    &&& !has_part(json, "pageConfig"@)
}

/// What is located is in braces, or empty.
proof fn lemma_located(raw: Seq<char>, text: Seq<char>)
    requires
        braces_in_order(raw),
        located(raw, page_object(text)) is Ok,
    ensures
        ({
            let json = located(raw, page_object(text))->Ok_0;
            json.len() == 0 || braced_at(json, 0, json.len() - 1)
        }),
{
    let json = located(raw, page_object(text))->Ok_0;
    if page_object(text) is Some {
        lemma_page_object_braces(text);
    } else {
        lemma_first_place(raw, '{');
        lemma_last_place(raw, '}');
    }
    if json.len() > 0 {
        assert(json.take(0).len() == 0);
        assert(json.skip(json.len() as int).len() == 0);
    }
}

/// The configuration that a page holds: what is assigned to `pageConfig` at its end, or else
/// what stands between its outermost braces. It is an object. Where the page is an object with
/// text around it, the object is read as if it stood alone.
pub fn parse_page_config(raw: &str) -> (r: Result<Json, PageError>)
    requires
        braces_in_order(raw@),
    ensures
        match r {
            Ok(v) => page_parsed(raw@) == Ok::<JsonView, PageFault>(v@) && ordered(v@)
                && v@ is Object,
            Err(e) => page_parsed(raw@) == Err::<JsonView, PageFault>(e@),
        },
        forall|before: Seq<char>, json: Seq<char>, after: Seq<char>| #[trigger]
            surrounds(raw@, before, json, after) ==> match r {
                Ok(v) => json_parsed(json) == Ok::<JsonView, Seq<char>>(v@),
                Err(e) => json_parsed(json) is Err && e is BadJson,
            },
{
    let whole = trim(raw);
    let captured = regex_capture(PAGE_PATTERN, whole.as_str());
    proof {
        assert forall|before: Seq<char>, json: Seq<char>, after: Seq<char>| #[trigger]
            surrounds(raw@, before, json, after) implies exists|a: int, b: int| #[trigger]
            braced_at(json, a, b) && located(raw@, page_object(trimmed(raw@))) == Ok::<
                Seq<char>,
                PageFault,
            >(json.subrange(a, b + 1)) by {
            lemma_spaced_object(before, json, after);
        }
    }
    let json = match locate_json(raw, captured) {
        Ok(json) => json,
        Err(e) => return Err(e),
    };
    proof {
        lemma_located(raw@, trimmed(raw@));
    }
    let parsed = parse_json(json.as_str());
    proof {
        assert forall|before: Seq<char>, text: Seq<char>, after: Seq<char>| #[trigger]
            surrounds(raw@, before, text, after) implies match parsed {
            Ok(v) => json_parsed(text) == Ok::<JsonView, Seq<char>>(v@),
            Err(_) => json_parsed(text) is Err,
        } by {
            let (a, b) = choose|a: int, b: int| #[trigger]
                braced_at(text, a, b) && json@ == text.subrange(a, b + 1);
            assert(text.take(a) + json@ + text.skip(b + 1) =~= text);
        }
    }
    match parsed {
        Ok(v) => Ok(v),
        Err(e) => Err(PageError::BadJson(e)),
    }
}

/// The items of an optional array; none without one.
pub open spec fn items_of(v: Option<JsonView>) -> Seq<JsonView> {
    match v {
        Some(JsonView::Array(items)) => items,
        _ => Seq::empty(),
    }
}

/// The objects among the values.
pub open spec fn objects(items: Seq<JsonView>) -> Seq<JsonView> {
    items.filter(|v: JsonView| v is Object)
}

/// The questions in the lists of the sliders, slider by slider.
pub open spec fn slider_questions(sliders: Seq<JsonView>) -> Seq<JsonView>
    decreases sliders.len(),
{
    if sliders.len() == 0 {
        Seq::empty()
    } else {
        slider_questions(sliders.drop_last()) + objects(
            items_of(sliders.last().member("questionList"@)),
        )
    }
}

/// The question that the page shows by itself.
pub open spec fn single_question(page: JsonView) -> Seq<JsonView> {
    match page.member("questionObj"@) {
        Some(JsonView::Object(m)) => seq![JsonView::Object(m)],
        _ => Seq::empty(),
    }
}

/// All questions of a page: the one that it shows by itself, then those of its sliders.
pub open spec fn question_nodes(page: JsonView) -> Seq<JsonView> {
    single_question(page) + slider_questions(items_of(page.member("sliders"@)))
}

/// Appends the objects among the items.
fn push_objects(nodes: &mut Vec<Json>, items: &Vec<Json>)
    ensures
        json_views(final(nodes)@) == json_views(old(nodes)@) + objects(json_views(items@)),
{
    let ghost start = json_views(nodes@);
    let ghost all = json_views(items@);
    assert(start =~= start + objects(all.take(0))) by {
        reveal(Seq::filter);
    }
    for i in 0..items.len()
        invariant
            all == json_views(items@),
            json_views(nodes@) == start + objects(all.take(i as int)),
    {
        let ghost before = nodes@;
        proof {
            reveal(Seq::filter);
            assert(all.take(i + 1).drop_last() =~= all.take(i as int));
        }
        if items[i].is_object() {
            nodes.push(items[i].clone());
            assert(json_views(nodes@) =~= json_views(before).push(all[i as int]));
            assert(json_views(nodes@) =~= start + objects(all.take(i as int)).push(all[i as int]));
        }
    }
    assert(all.take(all.len() as int) =~= all);
}

/// All questions of a page: the one that it shows by itself, then those of its sliders.
pub fn extract_question_nodes(page_config: &Json) -> (r: Vec<Json>)
    ensures
        json_views(r@) == question_nodes(page_config@),
{
    let mut nodes: Vec<Json> = Vec::new();
    if let Some(q) = page_config.get("questionObj") {
        if q.is_object() {
            nodes.push(q.clone());
        }
    }
    assert(json_views(nodes@) =~= single_question(page_config@));
    let ghost start = json_views(nodes@);
    if let Some(v) = page_config.get("sliders") {
        if let Some(sliders) = v.as_array() {
            let ghost all = json_views(sliders@);
            assert(start =~= start + slider_questions(all.take(0)));
            for i in 0..sliders.len()
                invariant
                    all == json_views(sliders@),
                    json_views(nodes@) == start + slider_questions(all.take(i as int)),
            {
                let ghost before = json_views(nodes@);
                proof {
                    assert(all.take(i + 1).drop_last() =~= all.take(i as int));
                    reveal(Seq::filter);
                }
                if let Some(list) = sliders[i].get("questionList") {
                    if let Some(questions) = list.as_array() {
                        push_objects(&mut nodes, questions);
                    }
                }
                assert(json_views(nodes@) =~= before + objects(
                    items_of(all[i as int].member("questionList"@)),
                ));
                assert(json_views(nodes@) =~= start + slider_questions(all.take(i + 1)));
            }
            assert(all.take(all.len() as int) =~= all);
        }
    }
    assert(json_views(nodes@) =~= question_nodes(page_config@));
    nodes
}

/// The texts that are not empty.
pub open spec fn nonempty(s: Seq<Seq<char>>) -> Seq<Seq<char>> {
    s.filter(|t: Seq<char>| t.len() > 0)
}

/// The answers that were spoken, cleaned up.
pub open spec fn spoken_texts(items: Seq<JsonView>) -> Seq<Seq<char>> {
    Seq::new(items.len(), |i: int| cleaned(items[i].member("content"@)))
}

/// The first member of an option that can hold its text.
pub open spec fn option_content(option: JsonView) -> Option<JsonView> {
    if option.member("content"@) is Some {
        option.member("content"@)
    } else if option.member("text"@) is Some {
        option.member("text"@)
    } else if option.member("title"@) is Some {
        option.member("title"@)
    } else {
        option.member("value"@)
    }
}

/// The text of an option, cleaned up; an option is a text itself or an object with one.
pub open spec fn option_text(option: JsonView) -> Seq<char> {
    match option {
        JsonView::Str(_) => cleaned(Some(option)),
        JsonView::Object(_) => cleaned(option_content(option)),
        _ => Seq::empty(),
    }
}

/// The texts of options, cleaned up.
pub open spec fn option_texts(options: Seq<JsonView>) -> Seq<Seq<char>> {
    Seq::new(options.len(), |i: int| option_text(options[i]))
}

/// The answer text of a question, unless it is empty or only a placeholder.
pub open spec fn answer_texts(question: JsonView) -> Seq<Seq<char>> {
    let t = cleaned(question.member("answer_text"@));
    if t.len() > 0 && t != "<answers/>"@ && t != "answers/"@ {
        seq![t]
    } else {
        Seq::empty()
    }
}

/// Everything that can be an answer to a question: what was spoken, its options, its answer
/// text.
pub open spec fn answer_candidates(question: JsonView) -> Seq<Seq<char>> {
    nonempty(spoken_texts(items_of(question.member("record_speak"@)))) + nonempty(
        option_texts(items_of(question.member("options"@))),
    ) + answer_texts(question)
}

/// The text of an option, cleaned up.
pub fn clean_option(option: &Json) -> (r: String)
    ensures
        r@ == option_text(option@),
{
    match option {
        Json::Str(_) => clean_html_text(Some(option)),
        Json::Object(_) => {
            let content = match option.get("content") {
                Some(v) => Some(v),
                None => match option.get("text") {
                    Some(v) => Some(v),
                    None => match option.get("title") {
                        Some(v) => Some(v),
                        None => option.get("value"),
                    },
                },
            };
            clean_html_text(content)
        },
        _ => String::new(),
    }
}

/// Appends a text unless it is empty.
fn push_nonempty(out: &mut Vec<String>, t: String, Ghost(start): Ghost<Seq<Seq<char>>>, Ghost(
    done,
): Ghost<Seq<Seq<char>>>)
    requires
        texts(old(out)@) == start + nonempty(done),
    ensures
        texts(final(out)@) == start + nonempty(done.push(t@)),
{
    let ghost before = out@;
    proof {
        reveal(Seq::filter);
        assert(done.push(t@).drop_last() =~= done);
    }
    if !t.as_str().is_empty() {
        out.push(t);
        assert(texts(out@) =~= texts(before).push(t@));
        assert(texts(out@) =~= start + nonempty(done).push(t@));
    }
}

/// Everything that can be an answer to a question: what was spoken, its options, its answer
/// text, each cleaned up, without the empty ones.
pub fn iter_answer_candidates(question: &Json) -> (r: Vec<String>)
    ensures
        texts(r@) == answer_candidates(question@),
{
    let mut out: Vec<String> = Vec::new();
    let ghost none: Seq<Seq<char>> = Seq::empty();
    assert(nonempty(none) =~= none) by {
        reveal(Seq::filter);
    }
    assert(texts(out@) =~= none);
    let ghost spoken = spoken_texts(items_of(question@.member("record_speak"@)));
    if let Some(v) = question.get("record_speak") {
        if let Some(items) = v.as_array() {
            assert(spoken.take(0) =~= none);
            assert(texts(out@) =~= none + nonempty(spoken.take(0)));
            for i in 0..items.len()
                invariant
                    spoken == spoken_texts(json_views(items@)),
                    texts(out@) == none + nonempty(spoken.take(i as int)),
            {
                let t = clean_html_text(items[i].get("content"));
                push_nonempty(&mut out, t, Ghost(none), Ghost(spoken.take(i as int)));
                assert(spoken.take(i as int).push(t@) =~= spoken.take(i + 1));
            }
            assert(spoken.take(spoken.len() as int) =~= spoken);
        } else {
            assert(spoken =~= none);
        }
    } else {
        assert(spoken =~= none);
    }
    assert(texts(out@) =~= nonempty(spoken));
    let ghost start = texts(out@);
    let ghost options = option_texts(items_of(question@.member("options"@)));
    if let Some(v) = question.get("options") {
        if let Some(items) = v.as_array() {
            assert(options.take(0) =~= none);
            assert(texts(out@) =~= start + nonempty(options.take(0)));
            for i in 0..items.len()
                invariant
                    options == option_texts(json_views(items@)),
                    texts(out@) == start + nonempty(options.take(i as int)),
            {
                let t = clean_option(&items[i]);
                push_nonempty(&mut out, t, Ghost(start), Ghost(options.take(i as int)));
                assert(options.take(i as int).push(t@) =~= options.take(i + 1));
            }
            assert(options.take(options.len() as int) =~= options);
        } else {
            assert(options =~= none);
        }
    } else {
        assert(options =~= none);
    }
    assert(texts(out@) =~= start + nonempty(options));
    let ghost before = texts(out@);
    let t = clean_html_text(question.get("answer_text"));
    if !t.as_str().is_empty() && !text_eq(t.as_str(), "<answers/>") && !text_eq(
        t.as_str(),
        "answers/",
    ) {
        out.push(t);
    }
    assert(texts(out@) =~= before + answer_texts(question@));
    out
}

/// The identifier of a question: its own, or else the name of the folder of its page.
pub open spec fn question_id(question: JsonView, folder: Seq<char>) -> Seq<char> {
    match question.member("question_id"@) {
        Some(v) => raw_text(v),
        None => folder,
    }
}

/// The entry that a question makes; of its candidate answers the five shortest.
pub open spec fn question_entry(
    question: JsonView,
    folder: Seq<char>,
    source: Seq<char>,
) -> EntryView {
    EntryView {
        question_id: question_id(question, folder),
        question_text: cleaned(question.member("question_text"@)),
        answers: selected(answer_candidates(question), 5),
        analysis: cleaned(question.member("analysis"@)),
        source_file: source,
        question_type: question.member("question_type"@),
        qtype_id: question.member("qtype_id"@),
    }
}

/// The entries of a page, in the order of its questions.
pub open spec fn page_entries(
    page: JsonView,
    folder: Seq<char>,
    source: Seq<char>,
) -> Seq<EntryView> {
    let questions = question_nodes(page);
    Seq::new(questions.len(), |i: int| question_entry(questions[i], folder, source))
}

/// The entry that a question makes.
pub fn make_entry(q: &Json, folder: &str, source_file: &str) -> (r: Entry)
    ensures
        r@ == question_entry(q@, folder@, source_file@),
        r.answers@.len() <= 5,
{
    let question_id = match q.get("question_id") {
        Some(v) => value_text(v),
        None => folder.to_string(),
    };
    let question_text = clean_html_text(q.get("question_text"));
    let analysis = clean_html_text(q.get("analysis"));
    let answers = select_shortest_answers(iter_answer_candidates(q), 5);
    proof {
        lemma_selected(answer_candidates(q@), 5);
        assert(texts(answers@).len() == answers@.len());
    }
    Entry {
        question_id,
        question_text,
        answers,
        analysis,
        source_file: source_file.to_string(),
        question_type: copy_json(q.get("question_type")),
        qtype_id: copy_json(q.get("qtype_id")),
    }
}

/// The entries of a page, given its configuration.
pub fn read_page(page_config: &Json, folder: &str, source_file: &str) -> (r: Vec<Entry>)
    ensures
        entry_views(r@) == page_entries(page_config@, folder@, source_file@),
{
    let questions = extract_question_nodes(page_config);
    let ghost all = page_entries(page_config@, folder@, source_file@);
    let mut entries: Vec<Entry> = Vec::new();
    for i in 0..questions.len()
        invariant
            all == page_entries(page_config@, folder@, source_file@),
            json_views(questions@) == question_nodes(page_config@),
            entry_views(entries@) == all.take(i as int),
    {
        let ghost before = entries@;
        assert(questions@[i as int]@ == json_views(questions@)[i as int]);
        let e = make_entry(&questions[i], folder, source_file);
        entries.push(e);
        assert(entry_views(entries@) =~= entry_views(before).push(e@));
        assert(entry_views(entries@) =~= all.take(i + 1));
    }
    assert(all.take(all.len() as int) =~= all);
    entries
}

/// The entries of the page at `path` with the content `raw`, or what is wrong with it.
pub open spec fn file_entries(raw: Seq<char>, path: PathBuf) -> Result<Seq<EntryView>, PageFault> {
    match page_parsed(raw) {
        Ok(page) => Ok(
            page_entries(page, folder_name(dir_names(path_names(path))), path_text(path)),
        ),
        Err(e) => Err(e),
    }
}

/// The entries of the page at `path`, given its content `raw`; each names the path as its
/// source.
pub fn process_file(path: &PathBuf, raw: &str) -> (r: Result<Vec<Entry>, PageError>)
    requires
        braces_in_order(raw@),
    ensures
        match r {
            Ok(entries) => file_entries(raw@, *path) == Ok::<Seq<EntryView>, PageFault>(
                entry_views(entries@),
            ) && forall|i: int|
                0 <= i < entries@.len() ==> (#[trigger] entries@[i]).source_file@ == path_text(
                    *path,
                ),
            Err(e) => file_entries(raw@, *path) == Err::<Seq<EntryView>, PageFault>(e@),
        },
{
    let page_config = match parse_page_config(raw) {
        Ok(v) => v,
        Err(e) => return Err(e),
    };
    let folder = folder_name_of(&directories(path));
    let source_file = text_of_path(path);
    let entries = read_page(&page_config, folder.as_str(), source_file.as_str());
    assert forall|i: int| 0 <= i < entries@.len() implies (#[trigger] entries@[i]).source_file@
        == path_text(*path) by {
        let all = page_entries(page_config@, folder@, path_text(*path));
        assert(entry_views(entries@).len() == all.len());
        assert(entries@[i]@ == entry_views(entries@)[i]);
        assert(all[i].source_file == path_text(*path));
    }
    Ok(entries)
}

/// A page that is nothing but an object in braces is read as it is.
pub proof fn lemma_bare_object(raw: Seq<char>)
    requires
        raw.len() > 0,
        raw[0] == '{',
        raw.last() == '}',
    ensures
        braces_in_order(raw),
        located(raw, None) == Ok::<Seq<char>, PageFault>(raw),
{
    lemma_first_place(raw, '{');
    lemma_last_place(raw, '}');
    assert(raw.contains(raw[0]));
    assert(raw.contains(raw[raw.len() - 1]));
    assert(raw.subrange(0, raw.len() as int) =~= raw);
}

/// The text of a page that assigns `json` to `pageConfig`.
pub open spec fn assignment(json: Seq<char>, semicolon: bool) -> Seq<char> {
    "var pageConfig = "@ + json + (if semicolon {
        ";"@
    } else {
        ""@
    })
}

/// A page that assigns an object in braces to `pageConfig` is read as that object.
pub proof fn lemma_assigned_object(json: Seq<char>, semicolon: bool)
    requires
        json.len() > 0,
        json[0] == '{',
        json.last() == '}',
    ensures
        braces_in_order(assignment(json, semicolon)),
        located(
            assignment(json, semicolon),
            page_object(trimmed(assignment(json, semicolon))),
        ) == Ok::<Seq<char>, PageFault>(json),
{
    reveal_strlit("var pageConfig = ");
    reveal_strlit(";");
    reveal_strlit("");
    let raw = assignment(json, semicolon);
    lemma_trimmed_fixed(raw);
    lemma_page_object(json, semicolon);
    lemma_first_place(raw, '{');
    lemma_last_place(raw, '}');
    assert(raw[17] == '{');
    assert(raw[json.len() + 16int] == '}');
    assert(raw.contains(raw[17]));
    assert(raw.contains(raw[json.len() + 16int]));
}

/// Text around an object makes no difference: a page is read as the object in braces that it
/// holds, whatever stands before the first opening and behind the last closing brace, as long
/// as the object itself does not speak of `pageConfig`.
pub proof fn lemma_surrounded_object(before: Seq<char>, json: Seq<char>, after: Seq<char>)
    requires
        json.len() > 0,
        json[0] == '{',
        json.last() == '}',
        !before.contains('{'),
        !after.contains('}'),
        !has_part(json, "pageConfig"@),
    ensures
        braces_in_order(before + json + after),
        located(before + json + after, page_object(trimmed(before + json + after))) == Ok::<
            Seq<char>,
            PageFault,
        >(json),
        page_parsed(before + json + after) == match json_parsed(json) {
            Ok(v) => Ok::<JsonView, PageFault>(v),
            Err(e) => Err(PageFault::BadJson(e)),
        },
{
    let raw = before + json + after;
    lemma_trimmed_around(before, json, after);
    lemma_page_object_around(trim_start(before), json, trim_end(after));
    lemma_first_place(raw, '{');
    lemma_last_place(raw, '}');
    let a = before.len() as int;
    let b = a + json.len() - 1;
    assert(raw[a] == '{');
    assert(raw[b] == '}');
    let i = first_place(raw, '{')->0;
    if i < a {
        assert(before[i] == '{');
    }
    let k = last_place(raw, '}')->0;
    if k > b {
        assert(after[k - b - 1] == '}');
    }
    assert(raw.subrange(a, b + 1) =~= json);
}

/// Text around an object makes no difference, nor does white space around its braces: what is
/// located is the object from its opening to its closing brace.
pub proof fn lemma_spaced_object(before: Seq<char>, json: Seq<char>, after: Seq<char>)
    requires
        surrounds(before + json + after, before, json, after),
    ensures
        braces_in_order(before + json + after),
        exists|a: int, b: int| #[trigger]
            braced_at(json, a, b) && located(
                before + json + after,
                page_object(trimmed(before + json + after)),
            ) == Ok::<Seq<char>, PageFault>(json.subrange(a, b + 1)),
{
    let (a, b) = choose|a: int, b: int| braced_at(json, a, b);
    let lead = json.take(a);
    let object = json.subrange(a, b + 1);
    let trail = json.skip(b + 1);
    let left = before + lead;
    let right = trail + after;
    assert(left + object + right =~= before + json + after);
    assert(!left.contains('{')) by {
        if left.contains('{') {
            let i = choose|i: int| 0 <= i < left.len() && left[i] == '{';
            if i < before.len() {
                assert(before[i] == '{');
            } else {
                assert(json_space(lead[i - before.len()]));
            }
        }
    }
    assert(!right.contains('}')) by {
        if right.contains('}') {
            let i = choose|i: int| 0 <= i < right.len() && right[i] == '}';
            if i < trail.len() {
                assert(json_space(trail[i]));
            } else {
                assert(after[i - trail.len()] == '}');
            }
        }
    }
    assert(!has_part(object, "pageConfig"@)) by {
        if has_part(object, "pageConfig"@) {
            lemma_part_of_sum(lead, object, "pageConfig"@);
            lemma_part_of_sum(lead + object, trail, "pageConfig"@);
            assert(lead + object + trail =~= json);
        }
    }
    lemma_surrounded_object(left, object, right);
}

/// Before its character references are decoded, a cleaned text has no tag left.
pub proof fn lemma_untagged(s: Seq<char>)
    ensures
        !has_tag(untagged(s)),
{
    lemma_no_tags(
        replaced(replaced(s, br_rest(), seq!['\n']), block_rest(), seq!['\n']),
    );
}

/// Cleaned text has no blank line, and no line that begins or ends with white space.
pub proof fn lemma_cleaned(v: Option<JsonView>)
    ensures
        cleaned(v).len() > 0 ==> tidy(split_lines(cleaned(v))),
{
    if let Some(v) = v {
        lemma_tidied(stripped(raw_text(v)));
    }
}

/// The texts that are not empty are not empty.
proof fn lemma_nonempty(s: Seq<Seq<char>>)
    ensures
        forall|i: int| 0 <= i < nonempty(s).len() ==> (#[trigger] nonempty(s)[i]).len() > 0,
{
    broadcast use vstd::seq_lib::group_filter_ensures;

    let pred = |t: Seq<char>| t.len() > 0;
    assert forall|i: int| 0 <= i < nonempty(s).len() implies (#[trigger] nonempty(s)[i]).len()
        > 0 by {
        assert(pred(s.filter(pred)[i]));
    }
}

/// The answers of a question's entry: at most five, none empty, none twice, each one of the
/// candidates.
pub proof fn lemma_entry_answers(question: JsonView, folder: Seq<char>, source: Seq<char>)
    ensures
        question_entry(question, folder, source).answers.len() <= 5,
        question_entry(question, folder, source).answers.no_duplicates(),
        forall|a: Seq<char>| #[trigger]
            question_entry(question, folder, source).answers.contains(a) ==> a.len() > 0
                && answer_candidates(question).contains(a),
{
    let all = answer_candidates(question);
    let spoken = spoken_texts(items_of(question.member("record_speak"@)));
    let options = option_texts(items_of(question.member("options"@)));
    lemma_selected(all, 5);
    lemma_nonempty(spoken);
    lemma_nonempty(options);
    assert forall|a: Seq<char>| all.contains(a) implies a.len() > 0 by {
        let i = choose|i: int| 0 <= i < all.len() && all[i] == a;
        let n = nonempty(spoken).len();
        let m = nonempty(options).len();
        if i < n {
            assert(nonempty(spoken)[i] == a);
        } else if i < n + m {
            assert(nonempty(options)[i - n] == a);
        } else {
            assert(answer_texts(question)[i - n - m] == a);
        }
    }
}

/// The question that a page shows by itself comes first, then every object in the question list
/// of every slider, slider by slider; what is no object is left out.
pub proof fn lemma_question_nodes(
    page: JsonView,
    sliders: Seq<JsonView>,
    lists: Seq<Seq<JsonView>>,
)
    requires
        page.member("sliders"@) == Some(JsonView::Array(sliders)),
        lists.len() == sliders.len(),
        forall|i: int|
            0 <= i < sliders.len() ==> (#[trigger] sliders[i]).member("questionList"@) == Some(
                JsonView::Array(lists[i]),
            ),
    ensures
        page.member("questionObj"@) matches Some(q) ==> q is Object ==> question_nodes(page)
            == seq![q] + lists.flatten().filter(|v: JsonView| v is Object),
        page.member("questionObj"@) matches Some(q) ==> !(q is Object) ==> question_nodes(page)
            == lists.flatten().filter(|v: JsonView| v is Object),
        page.member("questionObj"@) is None ==> question_nodes(page) == lists.flatten().filter(
            |v: JsonView| v is Object,
        ),
{
    lists.lemma_flatten_and_flatten_alt_are_equivalent();
    lemma_slider_questions(sliders, lists);
    let none: Seq<JsonView> = Seq::empty();
    assert(none + slider_questions(sliders) =~= slider_questions(sliders));
}

/// The questions of sliders that all have lists.
proof fn lemma_slider_questions(sliders: Seq<JsonView>, lists: Seq<Seq<JsonView>>)
    requires
        lists.len() == sliders.len(),
        forall|i: int|
            0 <= i < sliders.len() ==> (#[trigger] sliders[i]).member("questionList"@) == Some(
                JsonView::Array(lists[i]),
            ),
    ensures
        slider_questions(sliders) == lists.flatten_alt().filter(|v: JsonView| v is Object),
    decreases sliders.len(),
{
    let pred = |v: JsonView| v is Object;
    if sliders.len() > 0 {
        let init = sliders.drop_last();
        assert forall|i: int| 0 <= i < init.len() implies (#[trigger] init[i]).member(
            "questionList"@,
        ) == Some(JsonView::Array(lists.drop_last()[i])) by {
            assert(init[i] == sliders[i]);
        }
        lemma_slider_questions(init, lists.drop_last());
        assert(sliders[sliders.len() - 1].member("questionList"@) == Some(
            JsonView::Array(lists.last()),
        ));
        Seq::filter_distributes_over_add(lists.drop_last().flatten_alt(), lists.last(), pred);
    } else {
        reveal(Seq::filter);
        assert(slider_questions(sliders) =~= lists.flatten_alt().filter(pred));
    }
}

/// A slider without a list of questions has none.
pub proof fn lemma_slider_without_list(sliders: Seq<JsonView>, slider: JsonView)
    requires
        !(slider.member("questionList"@) matches Some(JsonView::Array(_))),
    ensures
        slider_questions(sliders.push(slider)) == slider_questions(sliders),
{
    reveal(Seq::filter);
    assert(sliders.push(slider).drop_last() =~= sliders);
    assert(slider_questions(sliders.push(slider)) =~= slider_questions(sliders));
}

/// A page without sliders has no question but the one that it shows by itself.
pub proof fn lemma_page_without_sliders(page: JsonView)
    requires
        !(page.member("sliders"@) matches Some(JsonView::Array(_))),
    ensures
        match page.member("questionObj"@) {
            Some(q) => if q is Object {
                question_nodes(page) == seq![q]
            } else {
                question_nodes(page).len() == 0
            },
            None => question_nodes(page).len() == 0,
        },
{
    let none: Seq<JsonView> = Seq::empty();
    assert(items_of(page.member("sliders"@)) =~= none);
    assert(slider_questions(none) =~= none);
    assert(single_question(page) + none =~= single_question(page));
}

/// What the list `items` of an optional array is.
pub proof fn lemma_items_of(v: Option<JsonView>)
    ensures
        v matches Some(JsonView::Array(items)) ==> items_of(v) == items,
        !(v matches Some(JsonView::Array(_))) ==> items_of(v).len() == 0,
{
}

/// The candidates are, in this order, the recorded answers, the options and the answer text:
/// of the recorded answers and of the options every one whose cleaned text is not empty, and
/// the answer text unless it is empty or a placeholder.
pub proof fn lemma_candidates(question: JsonView)
    ensures
        answer_candidates(question) == items_of(question.member("record_speak"@)).map_values(
            |item: JsonView| cleaned(item.member("content"@)),
        ).filter(|t: Seq<char>| t.len() > 0) + items_of(question.member("options"@)).map_values(
            |option: JsonView| option_text(option),
        ).filter(|t: Seq<char>| t.len() > 0) + seq![
            cleaned(question.member("answer_text"@)),
        ].filter(|t: Seq<char>| t.len() > 0 && t != "<answers/>"@ && t != "answers/"@),
{
    let spoken = items_of(question.member("record_speak"@));
    let options = items_of(question.member("options"@));
    let last = cleaned(question.member("answer_text"@));
    assert(spoken_texts(spoken) =~= spoken.map_values(
        |item: JsonView| cleaned(item.member("content"@)),
    ));
    assert(option_texts(options) =~= options.map_values(|option: JsonView| option_text(option)));
    reveal(Seq::filter);
    let none: Seq<Seq<char>> = Seq::empty();
    assert(seq![last].drop_last() =~= none);
    let keep = |t: Seq<char>| t.len() > 0 && t != "<answers/>"@ && t != "answers/"@;
    assert(none.filter(keep) =~= none);
    assert(seq![last].filter(keep) =~= answer_texts(question));
}

/// Every recorded answer with a text is a candidate.
pub proof fn lemma_recorded_answers(question: JsonView, items: Seq<JsonView>, i: int)
    requires
        question.member("record_speak"@) == Some(JsonView::Array(items)),
        0 <= i < items.len(),
        cleaned(items[i].member("content"@)).len() > 0,
    ensures
        answer_candidates(question).contains(cleaned(items[i].member("content"@))),
{
    lemma_candidates(question);
    let all = items.map_values(|item: JsonView| cleaned(item.member("content"@)));
    let keep = |t: Seq<char>| t.len() > 0;
    assert(keep(all[i]));
    all.lemma_filter_contains(keep, i);
    let kept = all.filter(keep);
    let j = choose|j: int| 0 <= j < kept.len() && kept[j] == all[i];
    assert(answer_candidates(question)[j] == all[i]);
}

/// Every option with a text is a candidate.
pub proof fn lemma_options(question: JsonView, items: Seq<JsonView>, i: int)
    requires
        question.member("options"@) == Some(JsonView::Array(items)),
        0 <= i < items.len(),
        option_text(items[i]).len() > 0,
    ensures
        answer_candidates(question).contains(option_text(items[i])),
{
    lemma_candidates(question);
    let spoken = items_of(question.member("record_speak"@)).map_values(
        |item: JsonView| cleaned(item.member("content"@)),
    );
    let all = items.map_values(|option: JsonView| option_text(option));
    let keep = |t: Seq<char>| t.len() > 0;
    assert(keep(all[i]));
    all.lemma_filter_contains(keep, i);
    let kept = all.filter(keep);
    let j = choose|j: int| 0 <= j < kept.len() && kept[j] == all[i];
    assert(answer_candidates(question)[spoken.filter(keep).len() + j] == all[i]);
}

/// The text of an option: a string is its own text, an object has that of the first of its
/// members `content`, `text`, `title` and `value`, anything else has none.
pub proof fn lemma_option_text(option: JsonView)
    ensures
        option is Str ==> option_text(option) == cleaned(Some(option)),
        option is Object && option.member("content"@) is Some ==> option_text(option) == cleaned(
            option.member("content"@),
        ),
        option is Object && option.member("content"@) is None && option.member("text"@) is Some
            ==> option_text(option) == cleaned(option.member("text"@)),
        option is Object && option.member("content"@) is None && option.member("text"@) is None
            && option.member("title"@) is Some ==> option_text(option) == cleaned(
            option.member("title"@),
        ),
        option is Object && option.member("content"@) is None && option.member("text"@) is None
            && option.member("title"@) is None ==> option_text(option) == cleaned(
            option.member("value"@),
        ),
        !(option is Str) && !(option is Object) ==> option_text(option).len() == 0,
{
}

/// Where each field of an entry comes from.
pub proof fn lemma_entry_fields(question: JsonView, folder: Seq<char>, source: Seq<char>)
    ensures
        ({
            let e = question_entry(question, folder, source);
            &&& question.member("question_id"@) is None ==> e.question_id == folder
            &&& question.member("question_id"@) matches Some(JsonView::Str(id)) ==> e.question_id
                == id
            &&& question.member("question_id"@) matches Some(v) ==> !(v is Str) ==> e.question_id
                == printed(v)
            &&& e.question_text == cleaned(question.member("question_text"@))
            &&& e.analysis == cleaned(question.member("analysis"@))
            &&& e.source_file == source
            &&& e.question_type == question.member("question_type"@)
            &&& e.qtype_id == question.member("qtype_id"@)
            &&& e.answers.len() < 5 ==> forall|a: Seq<char>|
                answer_candidates(question).contains(a) ==> #[trigger] e.answers.contains(a)
        }),
{
    lemma_selected(answer_candidates(question), 5);
}

/// A page makes one entry of each of its questions, in their order.
pub proof fn lemma_page_entries(page: JsonView, folder: Seq<char>, source: Seq<char>)
    ensures
        page_entries(page, folder, source) == question_nodes(page).map_values(
            |q: JsonView| question_entry(q, folder, source),
        ),
{
    assert(page_entries(page, folder, source) =~= question_nodes(page).map_values(
        |q: JsonView| question_entry(q, folder, source),
    ));
}

/// Cleaning: of a string its own text, of any other value its JSON text, without tags, decoded
/// and tidied; nothing without a value.
pub proof fn lemma_cleaning(s: Seq<char>, v: JsonView)
    ensures
        raw_text(JsonView::Str(s)) == s,
        !(v is Str) ==> raw_text(v) == printed(v),
        stripped(s) == entities_decoded(untagged(s)),
        cleaned(None).len() == 0,
        cleaned(Some(JsonView::Str(s))) == tidied(entities_decoded(untagged(s))),
        !(v is Str) ==> cleaned(Some(v)) == tidied(entities_decoded(untagged(printed(v)))),
{
}

/// A line break element, however it is written, becomes a line feed, and what stands before and
/// behind it stays what it is.
pub proof fn lemma_line_break(
    before: Seq<char>,
    lead: Seq<char>,
    b: char,
    r: char,
    mid: Seq<char>,
    slash: bool,
    trail: Seq<char>,
    after: Seq<char>,
)
    requires
        !before.contains('<'),
        blank(lead),
        b == 'b' || b == 'B',
        r == 'r' || r == 'R',
        blank(mid),
        blank(trail),
    ensures
        untagged(
            before + (seq!['<'] + lead + seq![b, r] + mid + (if slash {
                seq!['/']
            } else {
                Seq::empty()
            }) + trail + seq!['>']) + after,
        ) == before + seq!['\n'] + untagged(after),
{
    let bar: Seq<char> = if slash {
        seq!['/']
    } else {
        Seq::empty()
    };
    let tag = seq!['<'] + lead + seq![b, r] + mid + bar + trail + seq!['>'];
    lemma_br_tag(lead, b, r, mid, slash, trail, after);
    assert(before + tag + after =~= before + (tag + after));
    lemma_replaced_behind(before, tag + after, br_rest(), seq!['\n']);
    let lines = replaced(after, br_rest(), seq!['\n']);
    let front = before + seq!['\n'];
    assert(before + (seq!['\n'] + lines) =~= front + lines);
    lemma_untagged_behind(front, lines);
}

/// Once line breaks are replaced, text without `<` in front stays what it is.
proof fn lemma_untagged_behind(front: Seq<char>, lines: Seq<char>)
    requires
        !front.contains('<'),
    ensures
        replaced(replaced(front + lines, block_rest(), seq!['\n']), tag_rest(), Seq::empty())
            == front + replaced(
            replaced(lines, block_rest(), seq!['\n']),
            tag_rest(),
            Seq::empty(),
        ),
{
    lemma_replaced_behind(front, lines, block_rest(), seq!['\n']);
    lemma_replaced_behind(
        front,
        replaced(lines, block_rest(), seq!['\n']),
        tag_rest(),
        Seq::empty(),
    );
}

/// The end of a block becomes a line feed, and what stands before and behind it stays what it
/// is.
pub proof fn lemma_block_end(
    before: Seq<char>,
    lead: Seq<char>,
    name: Seq<char>,
    trail: Seq<char>,
    after: Seq<char>,
)
    requires
        !before.contains('<'),
        blank(lead),
        blank(trail),
        ({
            ||| name == seq!['p'] || name == seq!['P']
            ||| name == seq!['d', 'i', 'v'] || name == seq!['D', 'I', 'V'] || name == seq![
                'D',
                'i',
                'v',
            ]
            ||| name == seq!['l', 'i'] || name == seq!['L', 'I'] || name == seq!['L', 'i']
            ||| name.len() == 2 && (name[0] == 'h' || name[0] == 'H') && '1' <= name[1] <= '6'
        }),
    ensures
        untagged(before + (seq!['<', '/'] + lead + name + trail + seq!['>']) + after) == before
            + seq!['\n'] + untagged(after),
{
    let tag = seq!['<', '/'] + lead + name + trail + seq!['>'];
    lemma_block_tag(lead, name, trail, replaced(after, br_rest(), seq!['\n']));
    lemma_other_tag(tag, after);
    assert(before + tag + after =~= before + (tag + after));
    lemma_replaced_behind(before, tag + after, br_rest(), seq!['\n']);
    let lines = replaced(after, br_rest(), seq!['\n']);
    lemma_replaced_behind(before, tag + lines, block_rest(), seq!['\n']);
    let blocks = replaced(lines, block_rest(), seq!['\n']);
    let front = before + seq!['\n'];
    assert(before + (seq!['\n'] + blocks) =~= front + blocks);
    assert(!front.contains('<'));
    lemma_replaced_behind(front, blocks, tag_rest(), Seq::empty());
}

/// Any other tag disappears, and what stands before and behind it stays what it is.
pub proof fn lemma_tag_removed(before: Seq<char>, inner: Seq<char>, after: Seq<char>)
    requires
        !before.contains('<'),
        inner.len() > 0,
        !inner.contains('<'),
        !inner.contains('>'),
        !white_space(inner[0]),
        inner[0] == 'b' || inner[0] == 'B' ==> inner.len() == 1 || (inner[1] != 'r' && inner[1]
            != 'R'),
        inner[0] == '/' ==> inner.len() > 1 && !white_space(inner[1]) && inner[1] != 'p' && inner[1]
            != 'P' && inner[1] != 'd' && inner[1] != 'D' && inner[1] != 'l' && inner[1] != 'L'
            && inner[1] != 'h' && inner[1] != 'H',
    ensures
        untagged(before + (seq!['<'] + inner + seq!['>']) + after) == before + untagged(after),
{
    let tag = seq!['<'] + inner + seq!['>'];
    let lines = replaced(after, br_rest(), seq!['\n']);
    let blocks = replaced(lines, block_rest(), seq!['\n']);
    assert(before + tag + after =~= before + (tag + after));
    lemma_other_tag(tag, after);
    lemma_replaced_behind(before, tag + after, br_rest(), seq!['\n']);
    lemma_inline_tag(tag, lines);
    lemma_replaced_behind(before, tag + lines, block_rest(), seq!['\n']);
    lemma_any_tag(inner, blocks);
    lemma_replaced_behind(before, tag + blocks, tag_rest(), Seq::empty());
}

/// A text without tags stays what it is.
pub proof fn lemma_untagged_plain(s: Seq<char>)
    requires
        !s.contains('<'),
    ensures
        untagged(s) == s,
{
    lemma_replaced_plain(s, br_rest(), seq!['\n']);
    lemma_replaced_plain(s, block_rest(), seq!['\n']);
    lemma_replaced_plain(s, tag_rest(), Seq::empty());
}

/// A text without `>` has no tag and stays what it is.
pub proof fn lemma_untagged_open(s: Seq<char>)
    requires
        !s.contains('>'),
    ensures
        untagged(s) == s,
{
    assert forall|t: Seq<char>| #[trigger] br_rest()(t) is Some implies t.contains('>') by {
        lemma_markup_closed(t);
    }
    assert forall|t: Seq<char>| #[trigger] block_rest()(t) is Some implies t.contains('>') by {
        lemma_markup_closed(t);
    }
    assert forall|t: Seq<char>| #[trigger] tag_rest()(t) is Some implies t.contains('>') by {
        lemma_markup_closed(t);
    }
    lemma_replaced_open(s, br_rest(), seq!['\n']);
    lemma_replaced_open(s, block_rest(), seq!['\n']);
    lemma_replaced_open(s, tag_rest(), Seq::empty());
}

/// What was captured is taken as it is; else the first opening and the last closing brace
/// decide, and each is missed for itself, the opening one first.
pub proof fn lemma_locating(raw: Seq<char>, json: Seq<char>)
    ensures
        located(raw, Some(json)) == Ok::<Seq<char>, PageFault>(json),
        !raw.contains('{') ==> located(raw, None) == Err::<Seq<char>, PageFault>(
            PageFault::NoStart,
        ),
        raw.contains('{') && !raw.contains('}') ==> located(raw, None) == Err::<
            Seq<char>,
            PageFault,
        >(PageFault::NoEnd),
        raw.contains('{') && raw.contains('}') ==> located(raw, None) is Ok,
{
    lemma_first_place(raw, '{');
    lemma_last_place(raw, '}');
    if raw.contains('{') {
        let i = choose|i: int| 0 <= i < raw.len() && raw[i] == '{';
    }
}

/// A page is read as what its located text stands for, and fails as that fails.
pub proof fn lemma_page_parsed(raw: Seq<char>)
    ensures
        located(raw, page_object(trimmed(raw))) matches Err(e) ==> page_parsed(raw) == Err::<
            JsonView,
            PageFault,
        >(e),
        located(raw, page_object(trimmed(raw))) matches Ok(json) ==> json_parsed(json) matches Ok(v)
            ==> page_parsed(raw) == Ok::<JsonView, PageFault>(v),
        located(raw, page_object(trimmed(raw))) matches Ok(json) ==> json_parsed(json) matches Err(
            e,
        ) ==> page_parsed(raw) == Err::<JsonView, PageFault>(PageFault::BadJson(e)),
{
}

/// Braces are in order if an opening one comes before a closing one or directly behind one, or
/// if one of the two is missing; not so if all closing ones come well before all opening ones.
pub proof fn lemma_braces_in_order(raw: Seq<char>, i: int, j: int)
    ensures
        0 <= i < raw.len() && raw[i] == '{' && 0 <= j < raw.len() && raw[j] == '}' && i <= j + 1
            ==> braces_in_order(raw),
        !raw.contains('{') || !raw.contains('}') ==> braces_in_order(raw),
        0 <= j && j + 1 < i < raw.len() && raw[i] == '{' && raw[j] == '}' && !raw.take(i).contains(
            '{',
        ) && !raw.skip(j + 1).contains('}') ==> !braces_in_order(raw),
{
    lemma_first_place(raw, '{');
    lemma_last_place(raw, '}');
    if 0 <= i < raw.len() && raw[i] == '{' {
        assert(raw.contains(raw[i]));
    }
    if 0 <= j < raw.len() && raw[j] == '}' {
        assert(raw.contains(raw[j]));
    }
    if first_place(raw, '{') is Some && last_place(raw, '}') is Some {
        let a = first_place(raw, '{')->0;
        let b = last_place(raw, '}')->0;
        if 0 <= a < i <= raw.len() {
            assert(raw.take(i)[a] == '{');
        }
        if 0 <= j < b {
            assert(raw.skip(j + 1)[b - j - 1] == '}');
        }
    }
}

/// The entries of a file are those of its page, named after the file's folder where they have no
/// identifier and with the file's path as their source.
pub proof fn lemma_file_entries(raw: Seq<char>, path: PathBuf, page: JsonView, i: int)
    requires
        page_parsed(raw) == Ok::<JsonView, PageFault>(page),
    ensures
        file_entries(raw, path) is Ok,
        file_entries(raw, path)->Ok_0.len() == question_nodes(page).len(),
        0 <= i < question_nodes(page).len() ==> file_entries(raw, path)->Ok_0[i]
            == question_entry(
            question_nodes(page)[i],
            folder_name(dir_names(path_names(path))),
            path_text(path),
        ),
{
}

} // verus!
