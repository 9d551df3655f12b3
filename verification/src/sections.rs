//! The sections of a group of questions, and the document that lists them.

use vstd::prelude::*;

use crate::classify::{extract_qa_order_index, qa_order, section, section_of, Section};
use crate::entry::{entry_views, Entry, EntryView};
use crate::patterns::lowercase;
use crate::render::{lemma_source_left_out, render_entry, rendered};
use crate::retelling::{fix_retelling_swap, lemma_righted_unchanged, righted};
use crate::sorting::{
    in_order, inserted, is_order, lemma_sorted_in_order, lemma_sorted_map, lemma_sorted_multiset,
    lemma_sorted_stable, level_with, stably_sorted,
};
use crate::text::{
    decimal, has_part, is_text_le, lemma_part_of_sum, lemma_text_le_antisymmetric,
    lemma_text_le_total, lemma_text_le_transitive, occurs_at, push_decimal, text_le,
};

verus! {

/// The order of entries by rank, then by identifier.
pub open spec fn by_rank(rank: spec_fn(EntryView) -> int) -> spec_fn(
    EntryView,
    EntryView,
) -> bool {
    |a: EntryView, b: EntryView|
        rank(a) < rank(b) || (rank(a) == rank(b) && text_le(a.question_id, b.question_id))
}

/// Every entry has the same rank.
pub open spec fn no_rank() -> spec_fn(EntryView) -> int {
    |e: EntryView| 0
}

/// The rank of an entry is its place in its series.
pub open spec fn place_rank() -> spec_fn(EntryView) -> int {
    |e: EntryView| qa_order(lowercase(e.question_text), e.question_text)
}

/// The order by rank and identifier is an order, whatever the rank.
pub proof fn lemma_by_rank_is_order(rank: spec_fn(EntryView) -> int)
    ensures
        is_order(by_rank(rank)),
{
    let le = by_rank(rank);
    assert forall|a: EntryView, b: EntryView| #[trigger] le(a, b) || le(b, a) by {
        lemma_text_le_total(a.question_id, b.question_id);
    }
    assert forall|a: EntryView, b: EntryView, c: EntryView| #[trigger]
        le(a, b) && #[trigger] le(b, c) implies le(a, c) by {
        if rank(a) == rank(b) && rank(b) == rank(c) {
            lemma_text_le_transitive(a.question_id, b.question_id, c.question_id);
        }
    }
}

/// What a list of ranked entries holds, without the ranks.
spec fn ranked_views(items: Seq<(i32, Entry)>) -> Seq<EntryView> {
    Seq::new(items.len(), |i: int| items[i].1@)
}

/// The entries carry the ranks that `rank` gives them.
spec fn carry_ranks(items: Seq<(i32, Entry)>, rank: spec_fn(EntryView) -> int) -> bool {
    forall|i: int| 0 <= i < items.len() ==> (#[trigger] items[i]).0 == rank(items[i].1@)
}

/// Puts an entry behind the last one that comes no later.
fn insert_ranked(
    items: &mut Vec<(i32, Entry)>,
    rank: i32,
    e: Entry,
    Ghost(rank_of): Ghost<spec_fn(EntryView) -> int>,
)
    requires
        carry_ranks(old(items)@, rank_of),
        rank == rank_of(e@),
    ensures
        carry_ranks(final(items)@, rank_of),
        ranked_views(final(items)@) == inserted(
            ranked_views(old(items)@),
            e@,
            by_rank(rank_of),
        ),
{
    let ghost le = by_rank(rank_of);
    let ghost all = ranked_views(items@);
    let mut pos: usize = items.len();
    assert(all.take(pos as int) =~= all);
    assert(inserted(all, e@, le) =~= inserted(all.take(pos as int), e@, le) + all.skip(pos as int));
    while pos > 0 && !(items[pos - 1].0 < rank || (items[pos - 1].0 == rank && is_text_le(
        items[pos - 1].1.question_id.as_str(),
        e.question_id.as_str(),
    )))
        invariant
            pos <= items.len(),
            all == ranked_views(items@),
            le == by_rank(rank_of),
            carry_ranks(items@, rank_of),
            rank == rank_of(e@),
            inserted(all, e@, le) == inserted(all.take(pos as int), e@, le) + all.skip(pos as int),
        decreases pos,
    {
        let ghost before = all.take(pos as int);
        assert(before.last() == all[pos - 1]);
        assert(before.drop_last() =~= all.take(pos - 1));
        assert(inserted(before.drop_last(), e@, le).push(before.last()) + all.skip(pos as int)
            =~= inserted(all.take(pos - 1), e@, le) + all.skip(pos - 1));
        pos -= 1;
    }
    proof {
        let before = all.take(pos as int);
        if pos > 0 {
            assert(before.last() == all[pos - 1]);
        }
        assert(before.push(e@) + all.skip(pos as int) =~= all.insert(pos as int, e@));
    }
    items.insert(pos, (rank, e));
    assert(ranked_views(items@) =~= all.insert(pos as int, e@));
}

/// The entries in the order of their ranks and identifiers.
fn sort_ranked(items: Vec<(i32, Entry)>, Ghost(rank_of): Ghost<spec_fn(EntryView) -> int>) -> (r:
    Vec<Entry>)
    requires
        carry_ranks(items@, rank_of),
    ensures
        entry_views(r@) == stably_sorted(ranked_views(items@), by_rank(rank_of)),
{
    let ghost le = by_rank(rank_of);
    let ghost all = ranked_views(items@);
    let mut sorted: Vec<(i32, Entry)> = Vec::new();
    assert(ranked_views(sorted@) =~= stably_sorted(all.take(0), le));
    for item in it: items
        invariant
            it.seq() == items@,
            all == ranked_views(items@),
            le == by_rank(rank_of),
            carry_ranks(items@, rank_of),
            carry_ranks(sorted@, rank_of),
            ranked_views(sorted@) == stably_sorted(all.take(it.index()), le),
    {
        assert(all.take(it.index() + 1).drop_last() =~= all.take(it.index()));
        assert(items@[it.index()].0 == rank_of(items@[it.index()].1@));
        let (rank, e) = item;
        insert_ranked(&mut sorted, rank, e, Ghost(rank_of));
    }
    assert(all.take(all.len() as int) =~= all);
    let mut r: Vec<Entry> = Vec::new();
    let ghost order = ranked_views(sorted@);
    for item in it: sorted
        invariant
            it.seq() == sorted@,
            order == ranked_views(sorted@),
            entry_views(r@) == order.take(it.index()),
    {
        let ghost before = r@;
        let (_, e) = item;
        r.push(e);
        assert(entry_views(r@) =~= entry_views(before).push(e@));
        assert(entry_views(r@) =~= order.take(it.index() + 1));
    }
    assert(order.take(order.len() as int) =~= order);
    r
}

/// The entries in the order of their identifiers; those with the same one keep their order.
pub fn sort_by_id(entries: Vec<Entry>) -> (r: Vec<Entry>)
    ensures
        entry_views(r@) == stably_sorted(entry_views(entries@), by_rank(no_rank())),
{
    let ghost all = entry_views(entries@);
    let mut items: Vec<(i32, Entry)> = Vec::new();
    for e in it: entries
        invariant
            it.seq() == entries@,
            all == entry_views(entries@),
            carry_ranks(items@, no_rank()),
            ranked_views(items@) == all.take(it.index()),
    {
        let ghost before = items@;
        items.push((0, e));
        assert(ranked_views(items@) =~= ranked_views(before).push(e@));
        assert(ranked_views(items@) =~= all.take(it.index() + 1));
    }
    assert(all.take(all.len() as int) =~= all);
    sort_ranked(items, Ghost(no_rank()))
}

/// The entries in the order of their places in their series; those with the same place in
/// the order of their identifiers.
pub fn sort_by_place(entries: Vec<Entry>) -> (r: Vec<Entry>)
    ensures
        entry_views(r@) == stably_sorted(entry_views(entries@), by_rank(place_rank())),
{
    let ghost all = entry_views(entries@);
    let mut items: Vec<(i32, Entry)> = Vec::new();
    for e in it: entries
        invariant
            it.seq() == entries@,
            all == entry_views(entries@),
            carry_ranks(items@, place_rank()),
            ranked_views(items@) == all.take(it.index()),
    {
        let ghost before = items@;
        let rank: i32 = extract_qa_order_index(e.question_text.as_str());
        items.push((rank, e));
        assert(ranked_views(items@) =~= ranked_views(before).push(e@));
        assert(ranked_views(items@) =~= all.take(it.index() + 1));
    }
    assert(all.take(all.len() as int) =~= all);
    sort_ranked(items, Ghost(place_rank()))
}

/// The entries that belong to a section, in their order.
pub open spec fn of_section(entries: Seq<EntryView>, s: Section) -> Seq<EntryView> {
    entries.filter(|e: EntryView| section(e) == s)
}

/// The entries of a group by section.
pub struct Sections {
    pub read_aloud: Vec<Entry>,
    pub translation: Vec<Entry>,
    pub qa: Vec<Entry>,
    pub retelling: Vec<Entry>,
    pub others: Vec<Entry>,
}

impl Sections {
    /// The entries of a section.
    pub open spec fn entries(self, s: Section) -> Seq<EntryView> {
        match s {
            Section::ReadAloud => entry_views(self.read_aloud@),
            Section::Translation => entry_views(self.translation@),
            Section::Qa => entry_views(self.qa@),
            Section::Retelling => entry_views(self.retelling@),
            Section::Other => entry_views(self.others@),
        }
    }
}

/// One entry more goes to the end of its section.
proof fn lemma_of_section_push(entries: Seq<EntryView>, e: EntryView, s: Section)
    ensures
        of_section(entries.push(e), s) == if section(e) == s {
            of_section(entries, s).push(e)
        } else {
            of_section(entries, s)
        },
{
    reveal(Seq::filter);
    assert(entries.push(e).drop_last() =~= entries);
}

/// Appends an entry.
fn push_entry(list: &mut Vec<Entry>, e: Entry)
    ensures
        entry_views(final(list)@) == entry_views(old(list)@).push(e@),
{
    let ghost before = list@;
    list.push(e);
    assert(entry_views(list@) =~= entry_views(before).push(e@));
}

/// The entries by section, each section in the order of the entries.
pub fn split_sections(entries: Vec<Entry>) -> (r: Sections)
    ensures
        forall|s: Section| #[trigger] r.entries(s) == of_section(entry_views(entries@), s),
{
    let ghost all = entry_views(entries@);
    let mut r = Sections {
        read_aloud: Vec::new(),
        translation: Vec::new(),
        qa: Vec::new(),
        retelling: Vec::new(),
        others: Vec::new(),
    };
    proof {
        reveal(Seq::filter);
        assert forall|s: Section| #[trigger] r.entries(s) == of_section(all.take(0), s) by {
            assert(r.entries(s) =~= of_section(all.take(0), s));
        }
    }
    for e in it: entries
        invariant
            it.seq() == entries@,
            all == entry_views(entries@),
            forall|s: Section| #[trigger] r.entries(s) == of_section(all.take(it.index()), s),
    {
        let ghost before = r;
        proof {
            assert(all.take(it.index() + 1) =~= all.take(it.index()).push(e@));
            assert forall|s: Section| #[trigger]
                of_section(all.take(it.index() + 1), s) == if section(e@) == s {
                    before.entries(s).push(e@)
                } else {
                    before.entries(s)
                } by {
                lemma_of_section_push(all.take(it.index()), e@, s);
            }
        }
        match section_of(&e) {
            Section::ReadAloud => push_entry(&mut r.read_aloud, e),
            Section::Translation => push_entry(&mut r.translation, e),
            Section::Qa => push_entry(&mut r.qa, e),
            Section::Retelling => push_entry(&mut r.retelling, e),
            Section::Other => push_entry(&mut r.others, e),
        }
        assert forall|s: Section| #[trigger]
            r.entries(s) == of_section(all.take(it.index() + 1), s) by {
            assert(before.entries(s) == of_section(all.take(it.index()), s));
        }
    }
    assert(all.take(all.len() as int) =~= all);
    r
}

/// The entry with its question and answers put right.
pub open spec fn righted_entry(e: EntryView) -> EntryView {
    EntryView { question_text: righted(e).0, answers: righted(e).1, ..e }
}

/// A section as the document lists it: a series by the places of its questions, every other
/// section by the identifiers, what is to be retold put right before.
pub open spec fn listed(entries: Seq<EntryView>, s: Section) -> Seq<EntryView> {
    let own = of_section(entries, s);
    match s {
        Section::Qa => stably_sorted(own, by_rank(place_rank())),
        Section::Retelling => stably_sorted(
            own.map_values(|e: EntryView| righted_entry(e)),
            by_rank(no_rank()),
        ),
        _ => stably_sorted(own, by_rank(no_rank())),
    }
}

/// The entry with its question and answers put right.
fn right_entry(e: Entry) -> (r: Entry)
    ensures
        r@ == righted_entry(e@),
{
    let (question_text, answers) = fix_retelling_swap(&e);
    Entry {
        question_id: e.question_id,
        question_text,
        answers,
        analysis: e.analysis,
        source_file: e.source_file,
        question_type: e.question_type,
        qtype_id: e.qtype_id,
    }
}

/// The entries with question and answers put right.
fn right_entries(entries: Vec<Entry>) -> (r: Vec<Entry>)
    ensures
        entry_views(r@) == entry_views(entries@).map_values(|e: EntryView| righted_entry(e)),
{
    let mut r: Vec<Entry> = Vec::new();
    for e in it: entries
        invariant
            it.seq() == entries@,
            r@.len() == it.index(),
            forall|i: int| 0 <= i < r@.len() ==> (#[trigger] r@[i])@ == righted_entry(entries@[i]@),
    {
        r.push(right_entry(e));
    }
    assert(entry_views(r@) =~= entry_views(entries@).map_values(|e: EntryView| righted_entry(e)));
    r
}

/// The sections of a group as the document lists them.
pub fn arrange_sections(entries: Vec<Entry>) -> (r: Sections)
    ensures
        forall|s: Section| #[trigger] r.entries(s) == listed(entry_views(entries@), s),
{
    let ghost all = entry_views(entries@);
    let split = split_sections(entries);
    assert(split.entries(Section::ReadAloud) == of_section(all, Section::ReadAloud));
    assert(split.entries(Section::Translation) == of_section(all, Section::Translation));
    assert(split.entries(Section::Qa) == of_section(all, Section::Qa));
    assert(split.entries(Section::Retelling) == of_section(all, Section::Retelling));
    assert(split.entries(Section::Other) == of_section(all, Section::Other));
    Sections {
        read_aloud: sort_by_id(split.read_aloud),
        translation: sort_by_id(split.translation),
        qa: sort_by_place(split.qa),
        retelling: sort_by_id(right_entries(split.retelling)),
        others: sort_by_id(split.others),
    }
}

/// The Markdown of entries, one after the other.
pub open spec fn all_rendered(
    entries: Seq<EntryView>,
    include_analysis: bool,
    include_source: bool,
) -> Seq<char>
    decreases entries.len(),
{
    if entries.len() == 0 {
        Seq::empty()
    } else {
        all_rendered(entries.drop_last(), include_analysis, include_source) + rendered(
            entries.last(),
            include_analysis,
            include_source,
        )
    }
}

/// A line of the overview.
pub open spec fn count_line(label: Seq<char>, n: nat) -> Seq<char> {
    label + decimal(n) + "\n"@
}

/// The overview: how many questions there are, and how many in each section; the section of
/// all others is named only where it has any.
pub open spec fn overview(entries: Seq<EntryView>) -> Seq<char> {
    let others = of_section(entries, Section::Other).len();
    count_line("- 题目总数："@, entries.len()) + count_line(
        "- 第一部分（跟随朗读）："@,
        of_section(entries, Section::ReadAloud).len(),
    ) + count_line(
        "- 第二部分（翻译题）："@,
        of_section(entries, Section::Translation).len(),
    ) + count_line("- 第三部分（问答题）："@, of_section(entries, Section::Qa).len()) + count_line(
        "- 第四部分（Retelling）："@,
        of_section(entries, Section::Retelling).len(),
    ) + (if others > 0 {
        count_line("- 其他未归类："@, others)
    } else {
        Seq::empty()
    })
}

/// A section under its title.
pub open spec fn section_markdown(
    title: Seq<char>,
    entries: Seq<EntryView>,
    include_analysis: bool,
    include_source: bool,
) -> Seq<char> {
    title + "\n\n"@ + all_rendered(entries, include_analysis, include_source)
}

/// The document of a group: title, overview and sections.
pub open spec fn document(
    group: Seq<char>,
    entries: Seq<EntryView>,
    include_analysis: bool,
    include_source: bool,
) -> Seq<char> {
    let others = listed(entries, Section::Other);
    "# 题目与答案提取结果 — "@ + group + "\n\n"@ + overview(entries) + "\n"@ + section_markdown(
        "## 第一部分：跟随文章朗读"@,
        listed(entries, Section::ReadAloud),
        include_analysis,
        include_source,
    ) + section_markdown(
        "## 第二部分：翻译题（中文题目 -> 英文答案）"@,
        listed(entries, Section::Translation),
        include_analysis,
        include_source,
    ) + section_markdown(
        "## 第三部分：问答题（按第几个问题顺序）"@,
        listed(entries, Section::Qa),
        include_analysis,
        include_source,
    ) + section_markdown(
        "## 第四部分：Retelling"@,
        listed(entries, Section::Retelling),
        include_analysis,
        include_source,
    ) + (if others.len() > 0 {
        section_markdown("## 其他未归类"@, others, include_analysis, include_source)
    } else {
        Seq::empty()
    })
}

/// Appends a line of the overview.
fn push_count(out: &mut String, label: &str, n: usize)
    ensures
        final(out)@ == old(out)@ + count_line(label@, n as nat),
{
    let ghost before = out@;
    out.append(label);
    push_decimal(out, n as u128);
    out.append("\n");
    assert(out@ =~= before + count_line(label@, n as nat));
}

/// Appends a section.
fn push_section(
    out: &mut String,
    title: &str,
    entries: &Vec<Entry>,
    include_analysis: bool,
    include_source: bool,
)
    ensures
        final(out)@ == old(out)@ + section_markdown(
            title@,
            entry_views(entries@),
            include_analysis,
            include_source,
        ),
{
    let ghost all = entry_views(entries@);
    let ghost start = out@ + title@ + "\n\n"@;
    out.append(title);
    out.append("\n\n");
    assert(out@ =~= start + all_rendered(all.take(0), include_analysis, include_source));
    for i in 0..entries.len()
        invariant
            all == entry_views(entries@),
            out@ == start + all_rendered(all.take(i as int), include_analysis, include_source),
    {
        let s = render_entry(&entries[i], include_analysis, include_source);
        out.append(s.as_str());
        assert(all.take(i + 1).drop_last() =~= all.take(i as int));
        assert(out@ =~= start + all_rendered(all.take(i + 1), include_analysis, include_source));
    }
    assert(all.take(all.len() as int) =~= all);
    assert(out@ =~= old(out)@ + section_markdown(title@, all, include_analysis, include_source));
}

/// As many entries are listed in a section as belong to it.
proof fn lemma_listed_len(entries: Seq<EntryView>, s: Section)
    ensures
        listed(entries, s).len() == of_section(entries, s).len(),
{
    let own = of_section(entries, s);
    lemma_sorted_multiset(own, by_rank(place_rank()));
    lemma_sorted_multiset(own, by_rank(no_rank()));
    lemma_sorted_multiset(
        own.map_values(|e: EntryView| righted_entry(e)),
        by_rank(no_rank()),
    );
}

/// The document of a group of questions; a group without any has none.
pub fn render_group(
    group_name: &str,
    entries: Vec<Entry>,
    include_analysis: bool,
    include_source: bool,
) -> (r: Option<String>)
    ensures
        match r {
            Some(doc) => entries@.len() > 0 && doc@ == document(
                group_name@,
                entry_views(entries@),
                include_analysis,
                include_source,
            ),
            None => entries@.len() == 0,
        },
{
    if entries.len() == 0 {
        return None;
    }
    let ghost all = entry_views(entries@);
    let total: usize = entries.len();
    let s = arrange_sections(entries);
    proof {
        lemma_listed_len(all, Section::ReadAloud);
        lemma_listed_len(all, Section::Translation);
        lemma_listed_len(all, Section::Qa);
        lemma_listed_len(all, Section::Retelling);
        lemma_listed_len(all, Section::Other);
        assert(s.entries(Section::ReadAloud) == listed(all, Section::ReadAloud));
        assert(s.entries(Section::Translation) == listed(all, Section::Translation));
        assert(s.entries(Section::Qa) == listed(all, Section::Qa));
        assert(s.entries(Section::Retelling) == listed(all, Section::Retelling));
        assert(s.entries(Section::Other) == listed(all, Section::Other));
    }
    let mut out = "# 题目与答案提取结果 — ".to_string();
    out.append(group_name);
    out.append("\n\n");
    let ghost head = out@;
    push_count(&mut out, "- 题目总数：", total);
    push_count(&mut out, "- 第一部分（跟随朗读）：", s.read_aloud.len());
    push_count(&mut out, "- 第二部分（翻译题）：", s.translation.len());
    push_count(&mut out, "- 第三部分（问答题）：", s.qa.len());
    push_count(&mut out, "- 第四部分（Retelling）：", s.retelling.len());
    if s.others.len() > 0 {
        push_count(&mut out, "- 其他未归类：", s.others.len());
    }
    assert(out@ =~= head + overview(all));
    out.append("\n");
    push_section(
        &mut out,
        "## 第一部分：跟随文章朗读",
        &s.read_aloud,
        include_analysis,
        include_source,
    );
    push_section(
        &mut out,
        "## 第二部分：翻译题（中文题目 -> 英文答案）",
        &s.translation,
        include_analysis,
        include_source,
    );
    push_section(
        &mut out,
        "## 第三部分：问答题（按第几个问题顺序）",
        &s.qa,
        include_analysis,
        include_source,
    );
    push_section(
        &mut out,
        "## 第四部分：Retelling",
        &s.retelling,
        include_analysis,
        include_source,
    );
    if s.others.len() > 0 {
        push_section(&mut out, "## 其他未归类", &s.others, include_analysis, include_source);
    }
    assert(out@ =~= document(group_name@, all, include_analysis, include_source));
    Some(out)
}

/// How many entries there are in the sections together.
pub open spec fn section_total(entries: Seq<EntryView>) -> nat {
    of_section(entries, Section::ReadAloud).len() + of_section(entries, Section::Translation).len()
        + of_section(entries, Section::Qa).len() + of_section(entries, Section::Retelling).len()
        + of_section(entries, Section::Other).len()
}

/// Every entry belongs to one section: the numbers of the sections add up to the total.
pub proof fn lemma_sections_add_up(entries: Seq<EntryView>)
    ensures
        section_total(entries) == entries.len(),
    decreases entries.len(),
{
    if entries.len() == 0 {
        reveal(Seq::filter);
    } else {
        let init = entries.drop_last();
        let e = entries.last();
        lemma_sections_add_up(init);
        assert(init.push(e) =~= entries);
        lemma_of_section_push(init, e, Section::ReadAloud);
        lemma_of_section_push(init, e, Section::Translation);
        lemma_of_section_push(init, e, Section::Qa);
        lemma_of_section_push(init, e, Section::Retelling);
        lemma_of_section_push(init, e, Section::Other);
    }
}

/// A section lists just the entries that belong to it, each as often as it occurs.
pub proof fn lemma_listed_multiset(entries: Seq<EntryView>, s: Section)
    ensures
        listed(entries, s).to_multiset() == of_section(entries, s).to_multiset(),
{
    let own = of_section(entries, s);
    let fixed = own.map_values(|e: EntryView| righted_entry(e));
    assert forall|i: int| 0 <= i < own.len() implies fixed[i] == own[i] by {
        lemma_righted_unchanged(own[i]);
    }
    assert(fixed =~= own);
    lemma_sorted_multiset(own, by_rank(place_rank()));
    lemma_sorted_multiset(own, by_rank(no_rank()));
}

/// A section lists its entries in order: a series by the places of its questions and then by
/// the identifiers, every other section by the identifiers.
pub proof fn lemma_listed_in_order(entries: Seq<EntryView>, s: Section)
    ensures
        in_order(
            listed(entries, s),
            by_rank(
                if s == Section::Qa {
                    place_rank()
                } else {
                    no_rank()
                },
            ),
        ),
{
    let own = of_section(entries, s);
    lemma_by_rank_is_order(place_rank());
    lemma_by_rank_is_order(no_rank());
    lemma_sorted_in_order(own, by_rank(place_rank()));
    lemma_sorted_in_order(own, by_rank(no_rank()));
    lemma_sorted_in_order(
        own.map_values(|e: EntryView| righted_entry(e)),
        by_rank(no_rank()),
    );
}

/// The Markdown of entries holds that of each of them.
proof fn lemma_rendered_part(
    entries: Seq<EntryView>,
    e: EntryView,
    include_analysis: bool,
    include_source: bool,
)
    requires
        entries.contains(e),
    ensures
        has_part(
            all_rendered(entries, include_analysis, include_source),
            rendered(e, include_analysis, include_source),
        ),
    decreases entries.len(),
{
    let init = entries.drop_last();
    let before = all_rendered(init, include_analysis, include_source);
    let last = rendered(entries.last(), include_analysis, include_source);
    if entries.last() == e {
        assert(last.subrange(0, last.len() as int) =~= last);
        assert(occurs_at(last, last, 0));
    } else {
        let i = choose|i: int| 0 <= i < entries.len() && entries[i] == e;
        assert(init[i] == e);
        lemma_rendered_part(init, e, include_analysis, include_source);
    }
    lemma_part_of_sum(before, last, rendered(e, include_analysis, include_source));
}

/// An entry is listed in its section.
proof fn lemma_listed_contains(entries: Seq<EntryView>, e: EntryView)
    requires
        entries.contains(e),
    ensures
        listed(entries, section(e)).contains(e),
{
    broadcast use vstd::seq_lib::group_filter_ensures;
    broadcast use vstd::seq_lib::group_to_multiset_ensures;

    let s = section(e);
    let own = of_section(entries, s);
    let pred = |x: EntryView| section(x) == s;
    let i = choose|i: int| 0 <= i < entries.len() && entries[i] == e;
    assert(pred(entries[i]));
    assert(entries.filter(pred).contains(entries[i]));
    lemma_listed_multiset(entries, s);
    assert(own.to_multiset().contains(e));
    assert(listed(entries, s).to_multiset().contains(e));
}

/// A section under its title holds the Markdown of each entry that belongs to it.
proof fn lemma_section_part(
    title: Seq<char>,
    entries: Seq<EntryView>,
    e: EntryView,
    include_analysis: bool,
    include_source: bool,
)
    requires
        entries.contains(e),
    ensures
        has_part(
            section_markdown(title, listed(entries, section(e)), include_analysis, include_source),
            rendered(e, include_analysis, include_source),
        ),
{
    let own = listed(entries, section(e));
    lemma_listed_contains(entries, e);
    lemma_rendered_part(own, e, include_analysis, include_source);
    lemma_part_of_sum(
        title + "\n\n"@,
        all_rendered(own, include_analysis, include_source),
        rendered(e, include_analysis, include_source),
    );
}

/// Nothing is lost: the document of a group holds the Markdown of every one of its entries.
pub proof fn lemma_document_complete(
    group: Seq<char>,
    entries: Seq<EntryView>,
    e: EntryView,
    include_analysis: bool,
    include_source: bool,
)
    requires
        entries.contains(e),
    ensures
        has_part(
            document(group, entries, include_analysis, include_source),
            rendered(e, include_analysis, include_source),
        ),
{
    let part = rendered(e, include_analysis, include_source);
    lemma_listed_contains(entries, e);
    let s1 = section_markdown(
        "## 第一部分：跟随文章朗读"@,
        listed(entries, Section::ReadAloud),
        include_analysis,
        include_source,
    );
    let s2 = section_markdown(
        "## 第二部分：翻译题（中文题目 -> 英文答案）"@,
        listed(entries, Section::Translation),
        include_analysis,
        include_source,
    );
    let s3 = section_markdown(
        "## 第三部分：问答题（按第几个问题顺序）"@,
        listed(entries, Section::Qa),
        include_analysis,
        include_source,
    );
    let s4 = section_markdown(
        "## 第四部分：Retelling"@,
        listed(entries, Section::Retelling),
        include_analysis,
        include_source,
    );
    let others = listed(entries, Section::Other);
    let s5 = if others.len() > 0 {
        section_markdown("## 其他未归类"@, others, include_analysis, include_source)
    } else {
        Seq::empty()
    };
    let head = "# 题目与答案提取结果 — "@ + group + "\n\n"@ + overview(entries) + "\n"@;
    match section(e) {
        Section::ReadAloud => {
            lemma_section_part("## 第一部分：跟随文章朗读"@, entries, e, include_analysis, include_source);
            lemma_part_of_sum(head, s1, part);
            lemma_part_of_sum(head + s1, s2, part);
            lemma_part_of_sum(head + s1 + s2, s3, part);
            lemma_part_of_sum(head + s1 + s2 + s3, s4, part);
        },
        Section::Translation => {
            lemma_section_part(
                "## 第二部分：翻译题（中文题目 -> 英文答案）"@,
                entries,
                e,
                include_analysis,
                include_source,
            );
            lemma_part_of_sum(head + s1, s2, part);
            lemma_part_of_sum(head + s1 + s2, s3, part);
            lemma_part_of_sum(head + s1 + s2 + s3, s4, part);
        },
        Section::Qa => {
            lemma_section_part(
                "## 第三部分：问答题（按第几个问题顺序）"@,
                entries,
                e,
                include_analysis,
                include_source,
            );
            lemma_part_of_sum(head + s1 + s2, s3, part);
            lemma_part_of_sum(head + s1 + s2 + s3, s4, part);
        },
        Section::Retelling => {
            lemma_section_part("## 第四部分：Retelling"@, entries, e, include_analysis, include_source);
            lemma_part_of_sum(head + s1 + s2 + s3, s4, part);
        },
        Section::Other => {
            lemma_section_part("## 其他未归类"@, entries, e, include_analysis, include_source);
        },
    }
    lemma_part_of_sum(head + s1 + s2 + s3 + s4, s5, part);
}

/// Forgets where an entry comes from.
pub open spec fn source_forgotten() -> spec_fn(EntryView) -> EntryView {
    |e: EntryView| EntryView { source_file: Seq::empty(), ..e }
}

/// A section does not depend on where its entries come from.
proof fn lemma_of_section_source(entries: Seq<EntryView>, s: Section)
    ensures
        of_section(entries.map_values(source_forgotten()), s) == of_section(entries, s).map_values(
            source_forgotten(),
        ),
    decreases entries.len(),
{
    let f = source_forgotten();
    if entries.len() == 0 {
        reveal(Seq::filter);
        assert(of_section(entries.map_values(f), s) =~= of_section(entries, s).map_values(f));
    } else {
        let init = entries.drop_last();
        let e = entries.last();
        lemma_of_section_source(init, s);
        assert(init.push(e) =~= entries);
        assert(init.map_values(f).push(f(e)) =~= entries.map_values(f));
        assert(section(f(e)) == section(e));
        lemma_of_section_push(init, e, s);
        lemma_of_section_push(init.map_values(f), f(e), s);
        assert(of_section(init, s).push(e).map_values(f) =~= of_section(init, s).map_values(
            f,
        ).push(f(e)));
    }
}

/// The order in which a section lists its entries does not depend on where they come from.
proof fn lemma_listed_source(entries: Seq<EntryView>, s: Section)
    ensures
        listed(entries.map_values(source_forgotten()), s) == listed(entries, s).map_values(
            source_forgotten(),
        ),
{
    let f = source_forgotten();
    let own = of_section(entries, s);
    let right = |e: EntryView| righted_entry(e);
    lemma_of_section_source(entries, s);
    let by_place = by_rank(place_rank());
    let by_id = by_rank(no_rank());
    assert forall|a: EntryView, b: EntryView| #[trigger] by_place(f(a), f(b)) == by_place(a, b) by {}
    assert forall|a: EntryView, b: EntryView| #[trigger] by_id(f(a), f(b)) == by_id(a, b) by {}
    lemma_sorted_map(own, by_place, f);
    lemma_sorted_map(own, by_id, f);
    lemma_sorted_map(own.map_values(right), by_id, f);
    assert(own.map_values(f).map_values(right) =~= own.map_values(right).map_values(f)) by {
        assert forall|e: EntryView| righted_entry(#[trigger] f(e)) == f(righted_entry(e)) by {
            lemma_righted_unchanged(e);
            lemma_righted_unchanged(f(e));
        }
    }
}

/// Without the sources, the Markdown of entries does not depend on where they come from.
proof fn lemma_all_rendered_source(entries: Seq<EntryView>, include_analysis: bool)
    ensures
        all_rendered(entries.map_values(source_forgotten()), include_analysis, false)
            == all_rendered(entries, include_analysis, false),
    decreases entries.len(),
{
    let f = source_forgotten();
    if entries.len() > 0 {
        lemma_all_rendered_source(entries.drop_last(), include_analysis);
        assert(entries.map_values(f).drop_last() =~= entries.drop_last().map_values(f));
        lemma_source_left_out(entries.last(), Seq::empty(), include_analysis);
    } else {
        assert(entries.map_values(f) =~= entries);
    }
}

/// Without the sources, the document of a group does not depend on where its entries come
/// from.
pub proof fn lemma_document_source(
    group: Seq<char>,
    entries: Seq<EntryView>,
    include_analysis: bool,
)
    ensures
        document(group, entries.map_values(source_forgotten()), include_analysis, false)
            == document(group, entries, include_analysis, false),
{
    let f = source_forgotten();
    let forgotten = entries.map_values(f);
    assert forall|s: Section|
        #![trigger of_section(forgotten, s)]
        #![trigger listed(forgotten, s)]
        of_section(forgotten, s).len() == of_section(entries, s).len() && listed(forgotten, s).len()
            == listed(entries, s).len() && all_rendered(
            listed(forgotten, s),
            include_analysis,
            false,
        ) == all_rendered(listed(entries, s), include_analysis, false) by {
        lemma_of_section_source(entries, s);
        lemma_listed_source(entries, s);
        lemma_all_rendered_source(listed(entries, s), include_analysis);
    }
    assert(overview(forgotten) == overview(entries));
}

/// A section lists just the entries that are classified for it, each as often as it occurs.
pub proof fn lemma_listed_classified(entries: Seq<EntryView>, s: Section)
    ensures
        listed(entries, s).to_multiset() == entries.filter(
            |e: EntryView| section(e) == s,
        ).to_multiset(),
        listed(entries, s).len() == entries.filter(|e: EntryView| section(e) == s).len(),
        forall|i: int|
            0 <= i < listed(entries, s).len() ==> section(#[trigger] listed(entries, s)[i]) == s,
{
    broadcast use vstd::seq_lib::group_to_multiset_ensures;

    lemma_listed_multiset(entries, s);
    lemma_listed_len(entries, s);
    let pred = |e: EntryView| section(e) == s;
    let own = entries.filter(pred);
    let all = listed(entries, s);
    assert forall|i: int| 0 <= i < all.len() implies section(#[trigger] all[i]) == s by {
        assert(all.contains(all[i]));
        assert(all.to_multiset().contains(all[i]));
        assert(own.to_multiset().contains(all[i]));
        assert(own.contains(all[i]));
        let j = choose|j: int| 0 <= j < own.len() && own[j] == all[i];
        entries.lemma_filter_pred(pred, j);
        assert(pred(own[j]));
    }
}

/// The questions of a series are listed by their places, those of the same place by their
/// identifiers; the entries of every other section by their identifiers.
pub proof fn lemma_listed_order(entries: Seq<EntryView>, s: Section, i: int, j: int)
    requires
        0 <= i < j < listed(entries, s).len(),
    ensures
        ({
            let a = listed(entries, s)[i];
            let b = listed(entries, s)[j];
            let p = qa_order(lowercase(a.question_text), a.question_text);
            let q = qa_order(lowercase(b.question_text), b.question_text);
            &&& s == Section::Qa ==> p <= q && (p == q ==> text_le(a.question_id, b.question_id))
            &&& s != Section::Qa ==> text_le(a.question_id, b.question_id)
        }),
{
    lemma_listed_in_order(entries, s);
}

/// Entries of a section with the same identifier, in a series also of the same place, keep the
/// order in which they came.
pub proof fn lemma_listed_stable(entries: Seq<EntryView>, s: Section, z: EntryView)
    ensures
        s != Section::Qa ==> listed(entries, s).filter(
            |e: EntryView| e.question_id == z.question_id,
        ) == entries.filter(|e: EntryView| section(e) == s).filter(
            |e: EntryView| e.question_id == z.question_id,
        ),
        s == Section::Qa ==> listed(entries, s).filter(
            |e: EntryView|
                e.question_id == z.question_id && qa_order(
                    lowercase(e.question_text),
                    e.question_text,
                ) == qa_order(lowercase(z.question_text), z.question_text),
        ) == entries.filter(|e: EntryView| section(e) == s).filter(
            |e: EntryView|
                e.question_id == z.question_id && qa_order(
                    lowercase(e.question_text),
                    e.question_text,
                ) == qa_order(lowercase(z.question_text), z.question_text),
        ),
{
    let own = of_section(entries, s);
    let by_id = by_rank(no_rank());
    let by_place = by_rank(place_rank());
    let fixed = own.map_values(|e: EntryView| righted_entry(e));
    assert forall|i: int| 0 <= i < own.len() implies fixed[i] == own[i] by {
        lemma_righted_unchanged(own[i]);
    }
    assert(fixed =~= own);
    lemma_by_rank_is_order(no_rank());
    lemma_by_rank_is_order(place_rank());
    lemma_sorted_stable(own, by_id, z);
    lemma_sorted_stable(own, by_place, z);
    assert forall|e: EntryView| #[trigger] level_with(z, by_id)(e) == (e.question_id
        == z.question_id) by {
        lemma_text_le_total(z.question_id, z.question_id);
        if level_with(z, by_id)(e) {
            lemma_text_le_antisymmetric(z.question_id, e.question_id);
        }
    }
    assert(level_with(z, by_id) =~= (|e: EntryView| e.question_id == z.question_id));
    assert forall|e: EntryView| #[trigger] level_with(z, by_place)(e) == (e.question_id
        == z.question_id && qa_order(lowercase(e.question_text), e.question_text) == qa_order(
        lowercase(z.question_text),
        z.question_text,
    )) by {
        lemma_text_le_total(z.question_id, z.question_id);
        if level_with(z, by_place)(e) {
            lemma_text_le_antisymmetric(z.question_id, e.question_id);
        }
    }
    assert(level_with(z, by_place) =~= (|e: EntryView|
        e.question_id == z.question_id && qa_order(lowercase(e.question_text), e.question_text)
            == qa_order(lowercase(z.question_text), z.question_text)));
}

/// The Markdown of entries as a concatenation.
proof fn lemma_all_rendered(
    entries: Seq<EntryView>,
    include_analysis: bool,
    include_source: bool,
)
    ensures
        all_rendered(entries, include_analysis, include_source) == entries.map_values(
            |e: EntryView| rendered(e, include_analysis, include_source),
        ).flatten(),
    decreases entries.len(),
{
    let f = |e: EntryView| rendered(e, include_analysis, include_source);
    entries.map_values(f).lemma_flatten_and_flatten_alt_are_equivalent();
    if entries.len() > 0 {
        let init = entries.drop_last();
        lemma_all_rendered(init, include_analysis, include_source);
        init.map_values(f).lemma_flatten_and_flatten_alt_are_equivalent();
        assert(entries.map_values(f).drop_last() =~= init.map_values(f));
    }
}

/// The document has the title of the group, the overview, and behind the title of each section
/// the Markdown of the entries of that section and of no other, one after the other; the
/// section of all others stands there only if it has an entry.
pub proof fn lemma_document_sections(
    group: Seq<char>,
    entries: Seq<EntryView>,
    include_analysis: bool,
    include_source: bool,
)
    ensures
        document(group, entries, include_analysis, include_source) == "# 题目与答案提取结果 — "@
            + group + "\n\n"@ + overview(entries) + "\n"@ + ("## 第一部分：跟随文章朗读"@ + "\n\n"@
            + listed(entries, Section::ReadAloud).map_values(
            |e: EntryView| rendered(e, include_analysis, include_source),
        ).flatten()) + ("## 第二部分：翻译题（中文题目 -> 英文答案）"@ + "\n\n"@ + listed(
            entries,
            Section::Translation,
        ).map_values(|e: EntryView| rendered(e, include_analysis, include_source)).flatten()) + (
        "## 第三部分：问答题（按第几个问题顺序）"@ + "\n\n"@ + listed(entries, Section::Qa).map_values(
            |e: EntryView| rendered(e, include_analysis, include_source),
        ).flatten()) + ("## 第四部分：Retelling"@ + "\n\n"@ + listed(
            entries,
            Section::Retelling,
        ).map_values(|e: EntryView| rendered(e, include_analysis, include_source)).flatten()) + (
        if listed(entries, Section::Other).len() > 0 {
            "## 其他未归类"@ + "\n\n"@ + listed(entries, Section::Other).map_values(
                |e: EntryView| rendered(e, include_analysis, include_source),
            ).flatten()
        } else {
            Seq::empty()
        }),
{
    lemma_all_rendered(listed(entries, Section::ReadAloud), include_analysis, include_source);
    lemma_all_rendered(listed(entries, Section::Translation), include_analysis, include_source);
    lemma_all_rendered(listed(entries, Section::Qa), include_analysis, include_source);
    lemma_all_rendered(listed(entries, Section::Retelling), include_analysis, include_source);
    lemma_all_rendered(listed(entries, Section::Other), include_analysis, include_source);
}

/// The overview counts all entries, and under the name of each section those that are
/// classified for it; all others only where there are any.
pub proof fn lemma_overview(entries: Seq<EntryView>)
    ensures
        overview(entries) == ("- 题目总数："@ + decimal(entries.len()) + "\n"@) + (
        "- 第一部分（跟随朗读）："@ + decimal(
            entries.filter(|e: EntryView| section(e) == Section::ReadAloud).len(),
        ) + "\n"@) + ("- 第二部分（翻译题）："@ + decimal(
            entries.filter(|e: EntryView| section(e) == Section::Translation).len(),
        ) + "\n"@) + ("- 第三部分（问答题）："@ + decimal(
            entries.filter(|e: EntryView| section(e) == Section::Qa).len(),
        ) + "\n"@) + ("- 第四部分（Retelling）："@ + decimal(
            entries.filter(|e: EntryView| section(e) == Section::Retelling).len(),
        ) + "\n"@) + (if entries.filter(|e: EntryView| section(e) == Section::Other).len() > 0 {
            "- 其他未归类："@ + decimal(
                entries.filter(|e: EntryView| section(e) == Section::Other).len(),
            ) + "\n"@
        } else {
            Seq::empty()
        }),
{
    assert(of_section(entries, Section::ReadAloud) == entries.filter(
        |e: EntryView| section(e) == Section::ReadAloud,
    ));
    assert(of_section(entries, Section::Translation) == entries.filter(
        |e: EntryView| section(e) == Section::Translation,
    ));
    assert(of_section(entries, Section::Qa) == entries.filter(
        |e: EntryView| section(e) == Section::Qa,
    ));
    assert(of_section(entries, Section::Retelling) == entries.filter(
        |e: EntryView| section(e) == Section::Retelling,
    ));
    assert(of_section(entries, Section::Other) == entries.filter(
        |e: EntryView| section(e) == Section::Other,
    ));
}

/// The fields of the sections and the entries of each section are the same.
pub proof fn lemma_sections_fields(s: Sections)
    ensures
        s.entries(Section::ReadAloud) == entry_views(s.read_aloud@),
        s.entries(Section::Translation) == entry_views(s.translation@),
        s.entries(Section::Qa) == entry_views(s.qa@),
        s.entries(Section::Retelling) == entry_views(s.retelling@),
        s.entries(Section::Other) == entry_views(s.others@),
{
}

/// The entries of a section, before they are put in order, are those classified for it.
pub proof fn lemma_of_section(entries: Seq<EntryView>, s: Section)
    ensures
        of_section(entries, s) == entries.filter(|e: EntryView| section(e) == s),
{
}

/// Sorting by identifier and by place puts entries in that order.
pub proof fn lemma_ranks(a: EntryView, b: EntryView)
    ensures
        by_rank(no_rank())(a, b) <==> text_le(a.question_id, b.question_id),
        ({
            let p = qa_order(lowercase(a.question_text), a.question_text);
            let q = qa_order(lowercase(b.question_text), b.question_text);
            by_rank(place_rank())(a, b) <==> p < q || (p == q && text_le(
                a.question_id,
                b.question_id,
            ))
        }),
{
}

} // verus!
