//! The Markdown of an entry.

use vstd::prelude::*;

use crate::entry::{Entry, EntryView};
use crate::json::{owned_view, print_json, printed, Json, JsonView};
use crate::text::{decimal, has_part, lemma_part_of_sum, occurs_at, push_decimal, texts};

verus! {

/// The text of an optional field; a missing one reads `null`.
pub open spec fn field_text(v: Option<JsonView>) -> Seq<char> {
    match v {
        Some(v) => printed(v),
        None => "null"@,
    }
}

/// The answers as a numbered list.
pub open spec fn numbered(answers: Seq<Seq<char>>) -> Seq<char>
    decreases answers.len(),
{
    if answers.len() == 0 {
        Seq::empty()
    } else {
        numbered(answers.drop_last()) + decimal(answers.len()) + ". "@ + answers.last() + "\n"@
    }
}

/// The line that names the source.
pub open spec fn source_line(e: EntryView, include_source: bool) -> Seq<char> {
    if include_source {
        "- 来源：`"@ + e.source_file + "`\n"@
    } else {
        Seq::empty()
    }
}

/// The line that gives the two types.
pub open spec fn type_line(e: EntryView) -> Seq<char> {
    "- 题型：`question_type="@ + field_text(e.question_type) + "`，`qtype_id="@ + field_text(
        e.qtype_id,
    ) + "`\n\n"@
}

/// The question under its heading.
pub open spec fn question_block(text: Seq<char>) -> Seq<char> {
    "#### 题目\n"@ + (if text.len() == 0 {
        "_（空）_"@
    } else {
        text
    })
}

/// The answers under their heading.
pub open spec fn answer_block(answers: Seq<Seq<char>>) -> Seq<char> {
    "\n\n#### 参考答案\n"@ + (if answers.len() == 0 {
        "_未提取到可见答案_\n"@
    } else {
        numbered(answers)
    })
}

/// The analysis under its heading, where it is wanted and there is one.
pub open spec fn analysis_block(e: EntryView, include_analysis: bool) -> Seq<char> {
    if include_analysis && e.analysis.len() > 0 {
        "\n#### 解析/线索\n"@ + e.analysis + "\n"@
    } else {
        Seq::empty()
    }
}

/// The Markdown of an entry, with the given question and answers.
pub open spec fn entry_markdown(
    text: Seq<char>,
    answers: Seq<Seq<char>>,
    e: EntryView,
    include_analysis: bool,
    include_source: bool,
) -> Seq<char> {
    "### "@ + e.question_id + "\n"@ + source_line(e, include_source) + type_line(e)
        + question_block(text) + answer_block(answers) + analysis_block(e, include_analysis)
        + "\n"@
}

/// Appends the text of an optional field.
fn push_field(out: &mut String, v: &Option<Json>)
    ensures
        final(out)@ == old(out)@ + field_text(owned_view(*v)),
{
    match v {
        Some(v) => {
            let s = print_json(v);
            out.append(s.as_str());
        },
        None => {
            out.append("null");
        },
    }
}

/// Appends the answers as a numbered list.
fn push_numbered(out: &mut String, answers: &[String])
    ensures
        final(out)@ == old(out)@ + numbered(texts(answers@)),
{
    let ghost start = out@;
    let ghost all = texts(answers@);
    assert(out@ =~= start + numbered(all.take(0)));
    for i in 0..answers.len()
        invariant
            all == texts(answers@),
            out@ == start + numbered(all.take(i as int)),
    {
        let ghost before = out@;
        push_decimal(out, i as u128 + 1);
        out.append(". ");
        out.append(answers[i].as_str());
        out.append("\n");
        proof {
            assert(all.take(i + 1).drop_last() =~= all.take(i as int));
            assert(out@ =~= before + decimal((i + 1) as nat) + ". "@ + all[i as int] + "\n"@);
            assert(out@ =~= start + numbered(all.take(i + 1)));
        }
    }
    assert(all.take(all.len() as int) =~= all);
}

/// The Markdown of an entry, with the given question and answers.
pub fn render_entry_with_text(
    question_text: &str,
    answers: &[String],
    e: &Entry,
    include_analysis: bool,
    include_source: bool,
) -> (r: String)
    ensures
        r@ == entry_markdown(
            question_text@,
            texts(answers@),
            e@,
            include_analysis,
            include_source,
        ),
{
    let mut out = "### ".to_string();
    out.append(e.question_id.as_str());
    out.append("\n");
    let ghost head = "### "@ + e@.question_id + "\n"@;
    assert(out@ =~= head);
    if include_source {
        out.append("- 来源：`");
        out.append(e.source_file.as_str());
        out.append("`\n");
    }
    assert(out@ =~= head + source_line(e@, include_source));
    let ghost before = out@;
    out.append("- 题型：`question_type=");
    push_field(&mut out, &e.question_type);
    out.append("`，`qtype_id=");
    push_field(&mut out, &e.qtype_id);
    out.append("`\n\n");
    assert(out@ =~= before + type_line(e@));
    let ghost before = out@;
    out.append("#### 题目\n");
    if question_text.is_empty() {
        out.append("_（空）_");
    } else {
        out.append(question_text);
    }
    assert(out@ =~= before + question_block(question_text@));
    let ghost before = out@;
    out.append("\n\n#### 参考答案\n");
    if answers.len() == 0 {
        out.append("_未提取到可见答案_\n");
    } else {
        push_numbered(&mut out, answers);
    }
    assert(out@ =~= before + answer_block(texts(answers@)));
    let ghost before = out@;
    if include_analysis && !e.analysis.as_str().is_empty() {
        out.append("\n#### 解析/线索\n");
        out.append(e.analysis.as_str());
        out.append("\n");
    }
    assert(out@ =~= before + analysis_block(e@, include_analysis));
    out.append("\n");
    out
}

/// The Markdown of an entry with its own question and answers.
pub open spec fn rendered(e: EntryView, include_analysis: bool, include_source: bool) -> Seq<char> {
    entry_markdown(e.question_text, e.answers, e, include_analysis, include_source)
}

/// The Markdown of an entry.
pub fn render_entry(e: &Entry, include_analysis: bool, include_source: bool) -> (r: String)
    ensures
        r@ == rendered(e@, include_analysis, include_source),
{
    render_entry_with_text(
        e.question_text.as_str(),
        e.answers.as_slice(),
        e,
        include_analysis,
        include_source,
    )
}

/// Without the analysis, what the analysis says makes no difference.
pub proof fn lemma_analysis_left_out(e: EntryView, analysis: Seq<char>, include_source: bool)
    ensures
        rendered(EntryView { analysis, ..e }, false, include_source) == rendered(
            e,
            false,
            include_source,
        ),
{
}

/// Without the source, where an entry comes from makes no difference.
pub proof fn lemma_source_left_out(e: EntryView, source_file: Seq<char>, include_analysis: bool)
    ensures
        rendered(EntryView { source_file, ..e }, include_analysis, false) == rendered(
            e,
            include_analysis,
            false,
        ),
{
}

/// Every answer stands on a line of its own under its number, from 1 on.
pub proof fn lemma_numbered(answers: Seq<Seq<char>>, a: Seq<char>)
    ensures
        numbered(Seq::empty()).len() == 0,
        numbered(answers.push(a)) == numbered(answers) + decimal(answers.len() + 1) + ". "@ + a
            + "\n"@,
{
    assert(answers.push(a).drop_last() =~= answers);
}

/// The Markdown of an entry: its identifier as a heading, its source if wanted, its types, the
/// question or a mark that it is empty, the numbered answers or a mark that there are none, and
/// its analysis if wanted and not empty, each under its own heading and in this order.
pub proof fn lemma_entry_text(e: EntryView, include_analysis: bool, include_source: bool)
    ensures
        rendered(e, include_analysis, include_source) == "### "@ + e.question_id + "\n"@ + (
        if include_source {
            "- 来源：`"@ + e.source_file + "`\n"@
        } else {
            Seq::empty()
        }) + "- 题型：`question_type="@ + (match e.question_type {
            Some(v) => printed(v),
            None => "null"@,
        }) + "`，`qtype_id="@ + (match e.qtype_id {
            Some(v) => printed(v),
            None => "null"@,
        }) + "`\n\n"@ + "#### 题目\n"@ + (if e.question_text.len() == 0 {
            "_（空）_"@
        } else {
            e.question_text
        }) + "\n\n#### 参考答案\n"@ + (if e.answers.len() == 0 {
            "_未提取到可见答案_\n"@
        } else {
            numbered(e.answers)
        }) + (if include_analysis && e.analysis.len() > 0 {
            "\n#### 解析/线索\n"@ + e.analysis + "\n"@
        } else {
            Seq::empty()
        }) + "\n"@,
{
    let head = "### "@ + e.question_id + "\n"@ + source_line(e, include_source);
    assert(head + type_line(e) =~= head + "- 题型：`question_type="@ + field_text(e.question_type)
        + "`，`qtype_id="@ + field_text(e.qtype_id) + "`\n\n"@);
    let typed = head + type_line(e);
    let shown: Seq<char> = if e.question_text.len() == 0 {
        "_（空）_"@
    } else {
        e.question_text
    };
    assert(typed + question_block(e.question_text) =~= typed + "#### 题目\n"@ + shown);
    let asked = typed + question_block(e.question_text);
    let listed: Seq<char> = if e.answers.len() == 0 {
        "_未提取到可见答案_\n"@
    } else {
        numbered(e.answers)
    };
    assert(asked + answer_block(e.answers) =~= asked + "\n\n#### 参考答案\n"@ + listed);
}

/// Every answer is shown under its number.
pub proof fn lemma_answer_shown(
    e: EntryView,
    i: int,
    include_analysis: bool,
    include_source: bool,
)
    requires
        0 <= i < e.answers.len(),
    ensures
        has_part(
            rendered(e, include_analysis, include_source),
            decimal((i + 1) as nat) + ". "@ + e.answers[i] + "\n"@,
        ),
{
    let part = decimal((i + 1) as nat) + ". "@ + e.answers[i] + "\n"@;
    lemma_numbered_part(e.answers, i);
    let before = "### "@ + e.question_id + "\n"@ + source_line(e, include_source) + type_line(e)
        + question_block(e.question_text);
    lemma_part_of_sum("\n\n#### 参考答案\n"@, numbered(e.answers), part);
    lemma_part_of_sum(before, answer_block(e.answers), part);
    lemma_part_of_sum(
        before + answer_block(e.answers),
        analysis_block(e, include_analysis),
        part,
    );
    lemma_part_of_sum(
        before + answer_block(e.answers) + analysis_block(e, include_analysis),
        "\n"@,
        part,
    );
}

/// The numbered list holds the line of every answer.
proof fn lemma_numbered_part(answers: Seq<Seq<char>>, i: int)
    requires
        0 <= i < answers.len(),
    ensures
        has_part(numbered(answers), decimal((i + 1) as nat) + ". "@ + answers[i] + "\n"@),
    decreases answers.len(),
{
    let part = decimal((i + 1) as nat) + ". "@ + answers[i] + "\n"@;
    let init = answers.drop_last();
    let line = decimal(answers.len()) + ". "@ + answers.last() + "\n"@;
    assert(numbered(answers) =~= numbered(init) + line);
    if i == answers.len() - 1 {
        assert(line.subrange(0, line.len() as int) =~= line);
        assert(occurs_at(line, line, 0));
    } else {
        lemma_numbered_part(init, i);
    }
    lemma_part_of_sum(numbered(init), line, part);
}

} // verus!
