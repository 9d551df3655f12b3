//! The layout of a Markdown document as a sequence of printing steps.

use pulldown_cmark::{Event, Tag, TagEnd};
use vstd::prelude::*;

use crate::text::{is_trimmed, lemma_trimmed, texts, trim, trimmed};

verus! {

/// What a Markdown parser reports of a document, as far as the layout depends on it.
#[derive(Debug)]
pub enum Markdown {
    /// A heading of the given level begins.
    HeadingStart(u8),
    /// A list begins; an ordered one has the number of its first item.
    ListStart(Option<u64>),
    ItemStart,
    HeadingEnd,
    ParagraphEnd,
    ItemEnd,
    ListEnd,
    Text(String),
    Code(String),
    /// A line ends within a paragraph.
    SoftBreak,
    /// A line is ended within a paragraph.
    HardBreak,
    /// Anything else.
    Other,
}

/// What an event is.
pub enum MarkdownView {
    HeadingStart(u8),
    ListStart(Option<u64>),
    ItemStart,
    HeadingEnd,
    ParagraphEnd,
    ItemEnd,
    ListEnd,
    Text(Seq<char>),
    Code(Seq<char>),
    SoftBreak,
    HardBreak,
    Other,
}

impl View for Markdown {
    type V = MarkdownView;

    open spec fn view(&self) -> MarkdownView {
        match self {
            Markdown::HeadingStart(level) => MarkdownView::HeadingStart(*level),
            Markdown::ListStart(first) => MarkdownView::ListStart(*first),
            Markdown::ItemStart => MarkdownView::ItemStart,
            Markdown::HeadingEnd => MarkdownView::HeadingEnd,
            Markdown::ParagraphEnd => MarkdownView::ParagraphEnd,
            Markdown::ItemEnd => MarkdownView::ItemEnd,
            Markdown::ListEnd => MarkdownView::ListEnd,
            Markdown::Text(s) => MarkdownView::Text(s@),
            Markdown::Code(s) => MarkdownView::Code(s@),
            Markdown::SoftBreak => MarkdownView::SoftBreak,
            Markdown::HardBreak => MarkdownView::HardBreak,
            Markdown::Other => MarkdownView::Other,
        }
    }
}

/// What a list of events holds.
pub open spec fn event_views(events: Seq<Markdown>) -> Seq<MarkdownView> {
    Seq::new(events.len(), |i: int| events[i]@)
}

/// An event of `pulldown_cmark`.
#[verifier::external_type_specification]
#[verifier::external_body]
pub struct ExEvent<'a>(pulldown_cmark::Event<'a>);

/// What an event of `pulldown_cmark` holds.
pub uninterp spec fn event_content(event: pulldown_cmark::Event<'_>) -> MarkdownView;

/// `pulldown_cmark::Parser`: the events of a document, in order.
pub uninterp spec fn markdown_parsed(text: Seq<char>) -> Seq<MarkdownView>;

/// Collects the events of `pulldown_cmark::Parser::new`. What they hold is a function of the
/// text.
#[verifier::external_body]
fn parse_markdown<'a>(text: &'a str) -> (r: Vec<Event<'a>>)
    ensures
        Seq::new(r@.len(), |i: int| event_content(r@[i])) == markdown_parsed(text@),
{
    pulldown_cmark::Parser::new(text).collect()
}

/// Takes an event of `pulldown_cmark` apart, by its variant. A heading's level becomes its
/// number.
#[verifier::external_body]
fn open_event(event: Event<'_>) -> (r: Markdown)
    ensures
        r@ == event_content(event),
{
    match event {
        Event::Start(Tag::Heading { level, .. }) => Markdown::HeadingStart(level as u8),
        Event::Start(Tag::List(first)) => Markdown::ListStart(first),
        Event::Start(Tag::Item) => Markdown::ItemStart,
        Event::End(TagEnd::Heading(_)) => Markdown::HeadingEnd,
        Event::End(TagEnd::Paragraph) => Markdown::ParagraphEnd,
        Event::End(TagEnd::Item) => Markdown::ItemEnd,
        Event::End(TagEnd::List(_)) => Markdown::ListEnd,
        Event::Text(s) => Markdown::Text(s.into_string()),
        Event::Code(s) => Markdown::Code(s.into_string()),
        Event::SoftBreak => Markdown::SoftBreak,
        Event::HardBreak => Markdown::HardBreak,
        _ => Markdown::Other,
    }
}

/// The events of a document, in order.
pub fn read_markdown(text: &str) -> (r: Vec<Markdown>)
    ensures
        event_views(r@) == markdown_parsed(text@),
{
    let events = parse_markdown(text);
    let ghost all = markdown_parsed(text@);
    let mut r: Vec<Markdown> = Vec::new();
    for event in it: events
        invariant
            it.seq() == events@,
            all == Seq::new(events@.len(), |i: int| event_content(events@[i])),
            event_views(r@) == all.take(it.index()),
    {
        let ghost before = r@;
        let e = open_event(event);
        r.push(e);
        assert(event_views(r@) =~= event_views(before).push(e@));
        assert(event_views(r@) =~= all.take(it.index() + 1));
    }
    assert(all.take(all.len() as int) =~= all);
    r
}

/// The size of running text.
pub const BODY_SIZE: u8 = 11;

/// A step in printing a document.
#[derive(Debug)]
pub enum Step {
    /// Use this font size from here on.
    FontSize(u8),
    Paragraph(String),
    /// Leave a line free.
    Break,
    OrderedList(Vec<String>),
    UnorderedList(Vec<String>),
}

/// What a step is.
pub enum StepView {
    FontSize(u8),
    Paragraph(Seq<char>),
    Break,
    OrderedList(Seq<Seq<char>>),
    UnorderedList(Seq<Seq<char>>),
}

impl View for Step {
    type V = StepView;

    open spec fn view(&self) -> StepView {
        match self {
            Step::FontSize(n) => StepView::FontSize(*n),
            Step::Paragraph(s) => StepView::Paragraph(s@),
            Step::Break => StepView::Break,
            Step::OrderedList(items) => StepView::OrderedList(texts(items@)),
            Step::UnorderedList(items) => StepView::UnorderedList(texts(items@)),
        }
    }
}

/// What a list of steps holds.
pub open spec fn step_views(steps: Seq<Step>) -> Seq<StepView> {
    Seq::new(steps.len(), |i: int| steps[i]@)
}

/// The layout between two events: the text and the list items read so far, whether the list
/// is ordered, and the steps so far.
#[verifier::ext_equal]
pub struct LayoutView {
    pub buffer: Seq<char>,
    pub items: Seq<Seq<char>>,
    pub ordered: bool,
    pub steps: Seq<StepView>,
}

/// The font size of a heading.
pub open spec fn heading_size_of(level: u8) -> u8 {
    if level == 1 {
        18
    } else if level == 2 {
        15
    } else if level == 3 {
        13
    } else {
        11
    }
}

impl LayoutView {
    /// At the beginning of a document.
    pub open spec fn start() -> LayoutView {
        LayoutView {
            buffer: Seq::empty(),
            items: Seq::empty(),
            ordered: false,
            steps: seq![StepView::FontSize(BODY_SIZE)],
        }
    }

    /// One step more.
    pub open spec fn then_step(self, step: StepView) -> LayoutView {
        LayoutView { steps: self.steps.push(step), ..self }
    }

    /// The text so far set as a paragraph, unless it is blank.
    pub open spec fn flushed(self) -> LayoutView {
        if trimmed(self.buffer).len() > 0 {
            LayoutView { buffer: Seq::empty(), ..self }.then_step(
                StepView::Paragraph(trimmed(self.buffer)),
            )
        } else {
            self
        }
    }

    /// The text so far taken as a list item, unless it is blank.
    pub open spec fn item_taken(self) -> LayoutView {
        let text = trimmed(self.buffer);
        LayoutView {
            buffer: Seq::empty(),
            items: if text.len() > 0 {
                self.items.push(text)
            } else {
                self.items
            },
            ..self
        }
    }

    /// The list items so far set as a list, if there are any.
    pub open spec fn list_set(self) -> LayoutView {
        if self.items.len() > 0 {
            LayoutView { items: Seq::empty(), ..self }.then_step(
                if self.ordered {
                    StepView::OrderedList(self.items)
                } else {
                    StepView::UnorderedList(self.items)
                },
            )
        } else {
            self
        }
    }

    /// The layout after one event more.
    pub open spec fn after(self, event: MarkdownView) -> LayoutView {
        match event {
            MarkdownView::HeadingStart(level) => self.flushed().then_step(
                StepView::FontSize(heading_size_of(level)),
            ),
            MarkdownView::ListStart(first) => LayoutView {
                items: Seq::empty(),
                ordered: first is Some,
                ..self
            },
            MarkdownView::ItemStart => LayoutView { buffer: Seq::empty(), ..self },
            MarkdownView::HeadingEnd => self.flushed().then_step(
                StepView::FontSize(BODY_SIZE),
            ).then_step(StepView::Break),
            MarkdownView::ParagraphEnd => self.flushed(),
            MarkdownView::ItemEnd => self.item_taken(),
            MarkdownView::ListEnd => self.list_set().then_step(StepView::Break),
            MarkdownView::Text(s) => LayoutView { buffer: self.buffer + s, ..self },
            MarkdownView::Code(s) => LayoutView { buffer: self.buffer + s, ..self },
            MarkdownView::SoftBreak => LayoutView { buffer: self.buffer.push('\n'), ..self },
            MarkdownView::HardBreak => LayoutView { buffer: self.buffer.push('\n'), ..self },
            MarkdownView::Other => self,
        }
    }

    /// The layout after the given events.
    pub open spec fn after_all(events: Seq<MarkdownView>) -> LayoutView
        decreases events.len(),
    {
        if events.len() == 0 {
            LayoutView::start()
        } else {
            LayoutView::after_all(events.drop_last()).after(events.last())
        }
    }
}

/// The steps that print a document with the given events.
pub open spec fn document_steps(events: Seq<MarkdownView>) -> Seq<StepView> {
    LayoutView::after_all(events).flushed().steps
}

/// The layout of a document, event by event.
pub struct Layout {
    pub buffer: String,
    pub items: Vec<String>,
    pub ordered: bool,
    pub steps: Vec<Step>,
}

impl View for Layout {
    type V = LayoutView;

    open spec fn view(&self) -> LayoutView {
        LayoutView {
            buffer: self.buffer@,
            items: texts(self.items@),
            ordered: self.ordered,
            steps: step_views(self.steps@),
        }
    }
}

/// The font size of a heading.
pub fn heading_size(level: u8) -> (r: u8)
    ensures
        r == heading_size_of(level),
{
    if level == 1 {
        18
    } else if level == 2 {
        15
    } else if level == 3 {
        13
    } else {
        11
    }
}

impl Layout {
    /// At the beginning of a document.
    pub fn new() -> (r: Layout)
        ensures
            r@ == LayoutView::start(),
    {
        let mut steps: Vec<Step> = Vec::new();
        steps.push(Step::FontSize(BODY_SIZE));
        let r = Layout { buffer: String::new(), items: Vec::new(), ordered: false, steps };
        assert(r@.items =~= Seq::empty());
        assert(r@.steps =~= seq![StepView::FontSize(BODY_SIZE)]);
        r
    }

    /// One step more.
    fn push_step(&mut self, step: Step)
        ensures
            final(self)@ == old(self)@.then_step(step@),
    {
        let ghost before = self@;
        self.steps.push(step);
        assert(self@.steps =~= before.steps.push(step@));
    }

    /// Sets the text so far as a paragraph, unless it is blank.
    pub fn flush(&mut self)
        ensures
            final(self)@ == old(self)@.flushed(),
    {
        let text = trim(self.buffer.as_str());
        if !text.as_str().is_empty() {
            self.buffer = String::new();
            self.push_step(Step::Paragraph(text));
        }
    }

    /// Takes the text so far as a list item, unless it is blank.
    fn take_item(&mut self)
        ensures
            final(self)@ == old(self)@.item_taken(),
    {
        let ghost before = self@;
        let text = trim(self.buffer.as_str());
        self.buffer = String::new();
        if !text.as_str().is_empty() {
            self.items.push(text);
            assert(self@.items =~= before.items.push(text@));
        }
    }

    /// Sets the list items so far as a list, if there are any.
    fn set_list(&mut self)
        ensures
            final(self)@ == old(self)@.list_set(),
    {
        if self.items.len() > 0 {
            let mut items: Vec<String> = Vec::new();
            items.append(&mut self.items);
            assert(texts(items@) =~= old(self)@.items);
            assert(texts(self.items@) =~= Seq::empty());
            if self.ordered {
                self.push_step(Step::OrderedList(items));
            } else {
                self.push_step(Step::UnorderedList(items));
            }
        }
    }

    /// Takes in one event more.
    pub fn advance(&mut self, event: &Markdown)
        ensures
            final(self)@ == old(self)@.after(event@),
    {
        match event {
            Markdown::HeadingStart(level) => {
                self.flush();
                self.push_step(Step::FontSize(heading_size(*level)));
            },
            Markdown::ListStart(first) => {
                self.ordered = first.is_some();
                self.items = Vec::new();
                assert(texts(self.items@) =~= Seq::empty());
            },
            Markdown::ItemStart => {
                self.buffer = String::new();
            },
            Markdown::HeadingEnd => {
                self.flush();
                self.push_step(Step::FontSize(BODY_SIZE));
                self.push_step(Step::Break);
            },
            Markdown::ParagraphEnd => {
                self.flush();
            },
            Markdown::ItemEnd => {
                self.take_item();
            },
            Markdown::ListEnd => {
                self.set_list();
                self.push_step(Step::Break);
            },
            Markdown::Text(s) => {
                self.buffer.append(s.as_str());
            },
            Markdown::Code(s) => {
                self.buffer.append(s.as_str());
            },
            Markdown::SoftBreak => {
                self.buffer.push('\n');
            },
            Markdown::HardBreak => {
                self.buffer.push('\n');
            },
            Markdown::Other => {},
        }
    }
}

/// The steps that print a document with the given events.
pub fn layout_events(events: &Vec<Markdown>) -> (r: Vec<Step>)
    ensures
        step_views(r@) == document_steps(event_views(events@)),
{
    let ghost all = event_views(events@);
    let mut layout = Layout::new();
    for i in 0..events.len()
        invariant
            all == event_views(events@),
            layout@ == LayoutView::after_all(all.take(i as int)),
    {
        layout.advance(&events[i]);
        assert(all.take(i + 1).drop_last() =~= all.take(i as int));
    }
    assert(all.take(all.len() as int) =~= all);
    layout.flush();
    layout.steps
}

/// The steps that print a Markdown document.
pub fn layout_document(text: &str) -> (r: Vec<Step>)
    ensures
        step_views(r@) == document_steps(markdown_parsed(text@)),
{
    layout_events(&read_markdown(text))
}

/// A text that is worth printing: not blank, no white space at its ends.
pub open spec fn printable(s: Seq<char>) -> bool {
    s.len() > 0 && is_trimmed(s)
}

/// A list that is worth printing: it has items, and each is worth printing.
pub open spec fn printable_list(items: Seq<Seq<char>>) -> bool {
    items.len() > 0 && forall|i: int| 0 <= i < items.len() ==> printable(#[trigger] items[i])
}

/// A step that prints nothing blank.
pub open spec fn neat(step: StepView) -> bool {
    match step {
        StepView::Paragraph(s) => printable(s),
        StepView::OrderedList(items) => printable_list(items),
        StepView::UnorderedList(items) => printable_list(items),
        _ => true,
    }
}

/// A layout of which no step prints anything blank, nor will the list.
pub open spec fn neat_layout(l: LayoutView) -> bool {
    &&& forall|i: int| 0 <= i < l.steps.len() ==> neat(#[trigger] l.steps[i])
    &&& forall|i: int| 0 <= i < l.items.len() ==> printable(#[trigger] l.items[i])
}

/// An event keeps a layout neat.
proof fn lemma_after_neat(l: LayoutView, event: MarkdownView)
    requires
        neat_layout(l),
    ensures
        neat_layout(l.flushed()),
        neat_layout(l.after(event)),
{
    lemma_trimmed(l.buffer);
}

/// However the events come, no blank paragraph and no empty list or list item is printed.
pub proof fn lemma_document_neat(events: Seq<MarkdownView>)
    ensures
        forall|i: int|
            0 <= i < document_steps(events).len() ==> neat(#[trigger] document_steps(events)[i]),
{
    lemma_after_all_neat(events);
    lemma_after_neat(LayoutView::after_all(events), MarkdownView::Other);
}

/// The layout after any events is neat.
proof fn lemma_after_all_neat(events: Seq<MarkdownView>)
    ensures
        neat_layout(LayoutView::after_all(events)),
    decreases events.len(),
{
    if events.len() > 0 {
        lemma_after_all_neat(events.drop_last());
        lemma_after_neat(LayoutView::after_all(events.drop_last()), events.last());
    }
}

/// Whatever comes, no step that is there is lost or changed.
pub proof fn lemma_steps_kept(l: LayoutView, event: MarkdownView)
    ensures
        l.steps.is_prefix_of(l.after(event).steps),
        l.steps.is_prefix_of(l.flushed().steps),
{
}

/// A document is laid out event by event, from the size of running text on, and what is left
/// of its text at the end is set as a paragraph.
pub proof fn lemma_document_steps(events: Seq<MarkdownView>, event: MarkdownView)
    ensures
        LayoutView::after_all(Seq::empty()).steps == seq![StepView::FontSize(11)],
        LayoutView::after_all(Seq::empty()).buffer.len() == 0,
        LayoutView::after_all(Seq::empty()).items.len() == 0,
        LayoutView::after_all(events.push(event)) == LayoutView::after_all(events).after(event),
        trimmed(LayoutView::after_all(events).buffer).len() > 0 ==> document_steps(events)
            == LayoutView::after_all(events).steps.push(
            StepView::Paragraph(trimmed(LayoutView::after_all(events).buffer)),
        ),
        trimmed(LayoutView::after_all(events).buffer).len() == 0 ==> document_steps(events)
            == LayoutView::after_all(events).steps,
{
    assert(events.push(event).drop_last() =~= events);
}

/// Text, code and line ends gather, in their order and without a step; nothing else is touched.
pub proof fn lemma_text_gathers(l: LayoutView, s: Seq<char>)
    ensures
        l.after(MarkdownView::Text(s)) == (LayoutView { buffer: l.buffer + s, ..l }),
        l.after(MarkdownView::Code(s)) == (LayoutView { buffer: l.buffer + s, ..l }),
        l.after(MarkdownView::SoftBreak) == (LayoutView { buffer: l.buffer + seq!['\n'], ..l }),
        l.after(MarkdownView::HardBreak) == (LayoutView { buffer: l.buffer + seq!['\n'], ..l }),
        l.after(MarkdownView::Other) == l,
{
    assert(l.buffer.push('\n') =~= l.buffer + seq!['\n']);
}

/// At the end of a paragraph the text gathered since is set, trimmed, as one paragraph, and the
/// gathering begins anew; blank text is not set.
pub proof fn lemma_paragraph_set(l: LayoutView, s: Seq<char>)
    requires
        l.buffer.len() == 0,
    ensures
        trimmed(s).len() > 0 ==> l.after(MarkdownView::Text(s)).after(MarkdownView::ParagraphEnd)
            == (LayoutView { steps: l.steps.push(StepView::Paragraph(trimmed(s))), ..l }),
        trimmed(s).len() == 0 ==> l.after(MarkdownView::Text(s)).after(
            MarkdownView::ParagraphEnd,
        ).steps == l.steps,
{
    assert(l.buffer + s =~= s);
    let none: Seq<char> = Seq::empty();
    assert(l.buffer =~= none);
}

/// A heading is set in the size of its level, and behind it a line is left free in the size of
/// running text.
pub proof fn lemma_heading_set(l: LayoutView, level: u8, s: Seq<char>)
    requires
        l.buffer.len() == 0,
        trimmed(s).len() > 0,
    ensures
        l.after(MarkdownView::HeadingStart(level)).after(MarkdownView::Text(s)).after(
            MarkdownView::HeadingEnd,
        ) == (LayoutView {
            steps: l.steps + seq![
                StepView::FontSize(
                    if level == 1 {
                        18
                    } else if level == 2 {
                        15
                    } else if level == 3 {
                        13
                    } else {
                        11
                    },
                ),
                StepView::Paragraph(trimmed(s)),
                StepView::FontSize(11),
                StepView::Break,
            ],
            ..l
        }),
{
    let none: Seq<char> = Seq::empty();
    assert(l.buffer =~= none);
    assert(trimmed(none) =~= none);
    let begun = l.after(MarkdownView::HeadingStart(level));
    assert(begun.buffer + s =~= s);
    let done = begun.after(MarkdownView::Text(s)).after(MarkdownView::HeadingEnd);
    assert(done.steps =~= l.steps + seq![
        StepView::FontSize(heading_size_of(level)),
        StepView::Paragraph(trimmed(s)),
        StepView::FontSize(11),
        StepView::Break,
    ]);
}

/// Text that was gathered before a heading is set before it, not lost.
pub proof fn lemma_text_before_heading(l: LayoutView, level: u8)
    requires
        trimmed(l.buffer).len() > 0,
    ensures
        l.after(MarkdownView::HeadingStart(level)).steps.len() == l.steps.len() + 2,
        l.after(MarkdownView::HeadingStart(level)).steps[l.steps.len() as int]
            == StepView::Paragraph(trimmed(l.buffer)),
        l.after(MarkdownView::HeadingStart(level)).buffer.len() == 0,
{
}

/// The events of a list item with the text `t`.
pub open spec fn item_events(t: Seq<char>) -> Seq<MarkdownView> {
    seq![MarkdownView::ItemStart, MarkdownView::Text(t), MarkdownView::ItemEnd]
}

/// The layout after further events.
pub open spec fn after_more(l: LayoutView, events: Seq<MarkdownView>) -> LayoutView
    decreases events.len(),
{
    if events.len() == 0 {
        l
    } else {
        after_more(l, events.drop_last()).after(events.last())
    }
}

/// Further events come after the first ones.
pub proof fn lemma_after_more(first: Seq<MarkdownView>, more: Seq<MarkdownView>)
    ensures
        LayoutView::after_all(first + more) == after_more(LayoutView::after_all(first), more),
    decreases more.len(),
{
    let all = first + more;
    if more.len() > 0 {
        assert(all.drop_last() =~= first + more.drop_last());
        lemma_after_more(first, more.drop_last());
    } else {
        assert(all =~= first);
    }
}

/// The items of a list gather, each trimmed, but for the blank ones.
proof fn lemma_items_gather(l: LayoutView, ts: Seq<Seq<char>>)
    requires
        l.items.len() == 0,
    ensures
        ({
            let r = after_more(
                l,
                ts.map_values(|t: Seq<char>| item_events(t)).flatten(),
            );
            &&& r.items == ts.map_values(|t: Seq<char>| trimmed(t)).filter(
                |t: Seq<char>| t.len() > 0,
            )
            &&& r.steps == l.steps
            &&& r.ordered == l.ordered
            &&& ts.len() > 0 ==> r.buffer.len() == 0
            &&& ts.len() == 0 ==> r == l
        }),
    decreases ts.len(),
{
    reveal(Seq::filter);
    let f = |t: Seq<char>| item_events(t);
    let g = |t: Seq<char>| trimmed(t);
    let keep = |t: Seq<char>| t.len() > 0;
    let lists = ts.map_values(f);
    lists.lemma_flatten_and_flatten_alt_are_equivalent();
    if ts.len() > 0 {
        let init = ts.drop_last();
        let t = ts.last();
        lemma_items_gather(l, init);
        init.map_values(f).lemma_flatten_and_flatten_alt_are_equivalent();
        assert(lists.drop_last() =~= init.map_values(f));
        let before = init.map_values(f).flatten();
        let events = lists.flatten();
        assert(events =~= before + item_events(t));
        let last = events.drop_last();
        assert(last.drop_last().drop_last() =~= before);
        assert(events.last() == MarkdownView::ItemEnd);
        assert(last.last() == MarkdownView::Text(t));
        assert(last.drop_last().last() == MarkdownView::ItemStart);
        let none: Seq<char> = Seq::empty();
        assert(none + t =~= t);
        let r0 = after_more(l, before);
        assert(after_more(l, last.drop_last()) == r0.after(MarkdownView::ItemStart));
        assert(after_more(l, last) == r0.after(MarkdownView::ItemStart).after(
            MarkdownView::Text(t),
        ));
        assert(after_more(l, events) == r0.after(MarkdownView::ItemStart).after(
            MarkdownView::Text(t),
        ).after(MarkdownView::ItemEnd));
        assert(ts.map_values(g).drop_last() =~= init.map_values(g));
    } else {
        assert(lists.flatten() =~= Seq::<MarkdownView>::empty());
        assert(ts.map_values(g).filter(keep) =~= Seq::<Seq<char>>::empty());
        assert(l.items =~= Seq::<Seq<char>>::empty());
    }
}

/// A list is set as one list of all its items, in their order, each trimmed, but for the blank
/// ones; it is ordered if it has a first number. If no item is left there is no list. Either
/// way a line is left free.
pub proof fn lemma_list_set(l: LayoutView, first: Option<u64>, ts: Seq<Seq<char>>)
    ensures
        ({
            let events = ts.map_values(|t: Seq<char>| item_events(t)).flatten();
            let r = after_more(l.after(MarkdownView::ListStart(first)), events).after(
                MarkdownView::ListEnd,
            );
            let items = ts.map_values(|t: Seq<char>| trimmed(t)).filter(
                |t: Seq<char>| t.len() > 0,
            );
            &&& items.len() > 0 && first is Some ==> r.steps == l.steps + seq![
                StepView::OrderedList(items),
                StepView::Break,
            ]
            &&& items.len() > 0 && first is None ==> r.steps == l.steps + seq![
                StepView::UnorderedList(items),
                StepView::Break,
            ]
            &&& items.len() == 0 ==> r.steps == l.steps + seq![StepView::Break]
            &&& r.items.len() == 0
        }),
{
    let begun = l.after(MarkdownView::ListStart(first));
    lemma_items_gather(begun, ts);
    let events = ts.map_values(|t: Seq<char>| item_events(t)).flatten();
    let items = ts.map_values(|t: Seq<char>| trimmed(t)).filter(|t: Seq<char>| t.len() > 0);
    let r = after_more(begun, events).after(MarkdownView::ListEnd);
    if items.len() > 0 {
        assert(r.steps =~= l.steps + seq![
            if first is Some {
                StepView::OrderedList(items)
            } else {
                StepView::UnorderedList(items)
            },
            StepView::Break,
        ]);
    } else {
        assert(r.steps =~= l.steps + seq![StepView::Break]);
    }
}

/// If all items have a text, the list has as many, each the trimmed text of its item.
pub proof fn lemma_list_complete(l: LayoutView, first: Option<u64>, ts: Seq<Seq<char>>)
    requires
        ts.len() > 0,
        forall|i: int| 0 <= i < ts.len() ==> trimmed(#[trigger] ts[i]).len() > 0,
    ensures
        ({
            let events = ts.map_values(|t: Seq<char>| item_events(t)).flatten();
            let r = after_more(l.after(MarkdownView::ListStart(first)), events).after(
                MarkdownView::ListEnd,
            );
            &&& r.steps.len() == l.steps.len() + 2
            &&& first is Some ==> r.steps[l.steps.len() as int] == StepView::OrderedList(
                ts.map_values(|t: Seq<char>| trimmed(t)),
            )
            &&& first is None ==> r.steps[l.steps.len() as int] == StepView::UnorderedList(
                ts.map_values(|t: Seq<char>| trimmed(t)),
            )
        }),
{
    let all = ts.map_values(|t: Seq<char>| trimmed(t));
    lemma_list_set(l, first, ts);
    lemma_all_kept(all);
}

/// Texts none of which is empty are all kept.
proof fn lemma_all_kept(s: Seq<Seq<char>>)
    requires
        forall|i: int| 0 <= i < s.len() ==> (#[trigger] s[i]).len() > 0,
    ensures
        s.filter(|t: Seq<char>| t.len() > 0) == s,
    decreases s.len(),
{
    reveal(Seq::filter);
    if s.len() > 0 {
        let init = s.drop_last();
        assert forall|i: int| 0 <= i < init.len() implies (#[trigger] init[i]).len() > 0 by {
            assert(init[i] == s[i]);
        }
        lemma_all_kept(init);
        assert(s[s.len() - 1].len() > 0);
        assert(init.push(s.last()) =~= s);
    } else {
        assert(s.filter(|t: Seq<char>| t.len() > 0) =~= s);
    }
}

/// At the end of a paragraph all text that is there and not blank is set, and blank text changes
/// nothing; the end of a heading does the same and goes back to the size of running text.
pub proof fn lemma_ends(l: LayoutView)
    ensures
        trimmed(l.buffer).len() > 0 ==> l.after(MarkdownView::ParagraphEnd) == (LayoutView {
            buffer: Seq::empty(),
            steps: l.steps.push(StepView::Paragraph(trimmed(l.buffer))),
            ..l
        }),
        trimmed(l.buffer).len() == 0 ==> l.after(MarkdownView::ParagraphEnd) == l,
        l.after(MarkdownView::HeadingEnd).steps == l.after(MarkdownView::ParagraphEnd).steps
            + seq![StepView::FontSize(11), StepView::Break],
{
    assert(l.after(MarkdownView::HeadingEnd).steps =~= l.flushed().steps + seq![
        StepView::FontSize(11),
        StepView::Break,
    ]);
}

/// What events and steps hold, one by one.
pub proof fn lemma_layout_views(events: Seq<Markdown>, steps: Seq<Step>, i: int)
    ensures
        event_views(events).len() == events.len(),
        0 <= i < events.len() ==> event_views(events)[i] == match events[i] {
            Markdown::HeadingStart(level) => MarkdownView::HeadingStart(level),
            Markdown::ListStart(first) => MarkdownView::ListStart(first),
            Markdown::ItemStart => MarkdownView::ItemStart,
            Markdown::HeadingEnd => MarkdownView::HeadingEnd,
            Markdown::ParagraphEnd => MarkdownView::ParagraphEnd,
            Markdown::ItemEnd => MarkdownView::ItemEnd,
            Markdown::ListEnd => MarkdownView::ListEnd,
            Markdown::Text(s) => MarkdownView::Text(s@),
            Markdown::Code(s) => MarkdownView::Code(s@),
            Markdown::SoftBreak => MarkdownView::SoftBreak,
            Markdown::HardBreak => MarkdownView::HardBreak,
            Markdown::Other => MarkdownView::Other,
        },
        step_views(steps).len() == steps.len(),
        0 <= i < steps.len() ==> step_views(steps)[i] == match steps[i] {
            Step::FontSize(n) => StepView::FontSize(n),
            Step::Paragraph(s) => StepView::Paragraph(s@),
            Step::Break => StepView::Break,
            Step::OrderedList(items) => StepView::OrderedList(texts(items@)),
            Step::UnorderedList(items) => StepView::UnorderedList(texts(items@)),
        },
{
}

} // verus!
