//! The markdown event stream that the summary parser consumes.
//!
//! The tokenizer itself is an external collaborator (pulldown-cmark); this
//! module translates its stream, variant for variant, into the plain event
//! model below, which the verified parser then walks.

use pulldown_cmark::Tag;

use vstd::prelude::*;

verus! {

/// A markdown tag, as far as the summary grammar cares: the structural tags
/// the parser matches on are explicit, and every other tag keeps just enough
/// identity for balanced skipping of its span.
#[derive(Debug)]
pub enum MdTag {
    Paragraph,
    /// A heading with its level.
    Heading(u32),
    List,
    Item,
    /// A link with its destination.
    Link(String),
    BlockQuote,
    CodeBlock,
    /// A footnote definition with its label.
    Note(String),
    Table,
    TableHead,
    TableRow,
    TableCell,
    Emphasis,
    Strong,
    Strike,
    /// An image with its destination.
    Image(String),
}

/// What one markdown event is; events the summary grammar never inspects
/// are folded into `Other`.
#[derive(Debug)]
pub enum MdEventKind {
    Start(MdTag),
    End(MdTag),
    Text(String),
    Code(String),
    SoftBreak,
    Other,
}

/// One markdown event together with the byte offset in the source text at
/// which it starts.
#[derive(Debug)]
pub struct MdEvent {
    pub kind: MdEventKind,
    pub off: usize,
}

impl Clone for MdTag {
    /// A clone keeps the variant and what it carries.
    fn clone(&self) -> (r: Self)
        ensures
            r == *self,
    {
        match self {
            MdTag::Paragraph => MdTag::Paragraph,
            MdTag::Heading(d) => MdTag::Heading(*d),
            MdTag::List => MdTag::List,
            MdTag::Item => MdTag::Item,
            MdTag::Link(h) => MdTag::Link(h.clone()),
            MdTag::BlockQuote => MdTag::BlockQuote,
            MdTag::CodeBlock => MdTag::CodeBlock,
            MdTag::Note(s) => MdTag::Note(s.clone()),
            MdTag::Table => MdTag::Table,
            MdTag::TableHead => MdTag::TableHead,
            MdTag::TableRow => MdTag::TableRow,
            MdTag::TableCell => MdTag::TableCell,
            MdTag::Emphasis => MdTag::Emphasis,
            MdTag::Strong => MdTag::Strong,
            MdTag::Strike => MdTag::Strike,
            MdTag::Image(h) => MdTag::Image(h.clone()),
        }
    }
}

impl Clone for MdEventKind {
    /// A clone keeps the variant and what it carries.
    fn clone(&self) -> (r: Self)
        ensures
            r == *self,
    {
        match self {
            MdEventKind::Start(t) => MdEventKind::Start(t.clone()),
            MdEventKind::End(t) => MdEventKind::End(t.clone()),
            MdEventKind::Text(s) => MdEventKind::Text(s.clone()),
            MdEventKind::Code(s) => MdEventKind::Code(s.clone()),
            MdEventKind::SoftBreak => MdEventKind::SoftBreak,
            MdEventKind::Other => MdEventKind::Other,
        }
    }
}

impl Clone for MdEvent {
    /// A clone keeps the event and its offset.
    fn clone(&self) -> (r: Self)
        ensures
            r == *self,
    {
        MdEvent { kind: self.kind.clone(), off: self.off }
    }
}

/// Tag equality up to the text the tags carry.
pub open spec fn tag_matches(a: MdTag, b: MdTag) -> bool {
    match (a, b) {
        (MdTag::Paragraph, MdTag::Paragraph) => true,
        (MdTag::Heading(x), MdTag::Heading(y)) => x == y,
        (MdTag::List, MdTag::List) => true,
        (MdTag::Item, MdTag::Item) => true,
        (MdTag::Link(x), MdTag::Link(y)) => x@ == y@,
        (MdTag::BlockQuote, MdTag::BlockQuote) => true,
        (MdTag::CodeBlock, MdTag::CodeBlock) => true,
        (MdTag::Note(x), MdTag::Note(y)) => x@ == y@,
        (MdTag::Table, MdTag::Table) => true,
        (MdTag::TableHead, MdTag::TableHead) => true,
        (MdTag::TableRow, MdTag::TableRow) => true,
        (MdTag::TableCell, MdTag::TableCell) => true,
        (MdTag::Emphasis, MdTag::Emphasis) => true,
        (MdTag::Strong, MdTag::Strong) => true,
        (MdTag::Strike, MdTag::Strike) => true,
        (MdTag::Image(x), MdTag::Image(y)) => x@ == y@,
        _ => false,
    }
}

/// Decides `tag_matches`.
pub fn tag_eq(a: &MdTag, b: &MdTag) -> (r: bool)
    ensures
        r == tag_matches(*a, *b),
{
    match (a, b) {
        (MdTag::Paragraph, MdTag::Paragraph) => true,
        (MdTag::Heading(x), MdTag::Heading(y)) => x == y,
        (MdTag::List, MdTag::List) => true,
        (MdTag::Item, MdTag::Item) => true,
        (MdTag::Link(x), MdTag::Link(y)) => x.eq(y),
        (MdTag::BlockQuote, MdTag::BlockQuote) => true,
        (MdTag::CodeBlock, MdTag::CodeBlock) => true,
        (MdTag::Note(x), MdTag::Note(y)) => x.eq(y),
        (MdTag::Table, MdTag::Table) => true,
        (MdTag::TableHead, MdTag::TableHead) => true,
        (MdTag::TableRow, MdTag::TableRow) => true,
        (MdTag::TableCell, MdTag::TableCell) => true,
        (MdTag::Emphasis, MdTag::Emphasis) => true,
        (MdTag::Strong, MdTag::Strong) => true,
        (MdTag::Strike, MdTag::Strike) => true,
        (MdTag::Image(x), MdTag::Image(y)) => x.eq(y),
        _ => false,
    }
}

/// The plain text one event contributes to a chapter name or title: text and
/// inline code keep their characters, a soft break becomes one space, and
/// everything else (styling tags among them) contributes nothing.
pub open spec fn text_piece(e: MdEventKind) -> Seq<char> {
    match e {
        MdEventKind::Text(s) => s@,
        MdEventKind::Code(s) => s@,
        MdEventKind::SoftBreak => seq![' '],
        _ => Seq::empty(),
    }
}

/// The de-styled plain text of a sequence of events.
pub open spec fn stringified(evs: Seq<MdEventKind>) -> Seq<char>
    decreases evs.len(),
{
    if evs.len() == 0 {
        Seq::empty()
    } else {
        text_piece(evs[0]) + stringified(evs.skip(1))
    }
}

pub proof fn lemma_stringified_snoc(evs: Seq<MdEventKind>, e: MdEventKind)
    ensures
        stringified(evs.push(e)) == stringified(evs) + text_piece(e),
    decreases evs.len(),
{
    if evs.len() == 0 {
        assert(evs.push(e).skip(1) =~= Seq::<MdEventKind>::empty());
        assert(evs.push(e)[0] == e);
        assert(stringified(evs.push(e)) == text_piece(e) + stringified(
            Seq::<MdEventKind>::empty(),
        ));
        assert(stringified(Seq::<MdEventKind>::empty()) == Seq::<char>::empty());
        assert(stringified(evs) == Seq::<char>::empty());
        assert(stringified(evs.push(e)) =~= stringified(evs) + text_piece(e));
    } else {
        assert(evs.push(e).skip(1) =~= evs.skip(1).push(e));
        lemma_stringified_snoc(evs.skip(1), e);
        assert(evs.push(e)[0] == evs[0]);
        assert(stringified(evs.push(e)) =~= stringified(evs) + text_piece(e));
    }
}

/// Removes the styling from collected markdown events and returns just the
/// plain text.
pub fn stringify_events(events: Vec<MdEventKind>) -> (r: String)
    ensures
        r@ == stringified(events@),
{
    let mut r = String::new();
    let mut i: usize = 0;
    while i < events.len()
        invariant
            i <= events.len(),
            r@ == stringified(events@.take(i as int)),
        decreases events.len() - i,
    {
        match &events[i] {
            MdEventKind::Text(s) => {
                r.append(s.as_str());
            },
            MdEventKind::Code(s) => {
                r.append(s.as_str());
            },
            MdEventKind::SoftBreak => {
                crate::text::push_char(&mut r, ' ');
            },
            _ => {},
        }
        proof {
            assert(events@.take(i + 1) =~= events@.take(i as int).push(events@[i as int]));
            lemma_stringified_snoc(events@.take(i as int), events@[i as int]);
        }
        i = i + 1;
    }
    proof {
        assert(events@.take(events@.len() as int) =~= events@);
    }
    r
}

#[verifier::external_type_specification]
#[verifier::external_body]
pub struct ExMdSourceEvent<'a>(pulldown_cmark::Event<'a>);

#[verifier::external_type_specification]
#[verifier::external_body]
pub struct ExMdSourceTag<'a>(pulldown_cmark::Tag<'a>);

/// The events the external tokenizer produces for a text, already
/// translated into the plain model: a function of the text alone, so two
/// tokenizations of equal texts agree.
pub uninterp spec fn events_of(text: Seq<char>) -> Seq<MdEvent>;

/// Relies on `pulldown_cmark::Parser::new` and `Parser::into_offset_iter`:
/// the ordered block/inline events of the text, translated variant for
/// variant, each with the byte offset in the text at which it starts; the
/// events depend on the text alone.
#[verifier::external_body]
pub fn tokenize(text: &str) -> (r: Vec<MdEvent>)
    ensures
        r@ == events_of(text@),
{
    pulldown_cmark::Parser::new(text)
        .into_offset_iter()
        .map(|(ev, range)| conv_event(ev, range.start))
        .collect()
}

/// Relies on the `pulldown_cmark::Event` model: translates one event,
/// variant for variant, keeping its byte offset; events the summary grammar
/// never inspects become `Other`.
#[verifier::external_body]
fn conv_event(ev: pulldown_cmark::Event<'_>, off: usize) -> (r: MdEvent)
    ensures
        r.off == off,
{
    let kind = match ev {
        pulldown_cmark::Event::Start(t) => MdEventKind::Start(conv_tag(t)),
        pulldown_cmark::Event::End(t) => MdEventKind::End(conv_tag(t)),
        pulldown_cmark::Event::Text(s) => MdEventKind::Text(s.into_string()),
        pulldown_cmark::Event::Code(s) => MdEventKind::Code(s.into_string()),
        pulldown_cmark::Event::SoftBreak => MdEventKind::SoftBreak,
        _ => MdEventKind::Other,
    };
    MdEvent { kind, off }
}

/// Relies on the `pulldown_cmark::Tag` model: translates the tags the
/// summary grammar matches on, one arm each, moving only the destination of
/// a link; every other tag is handed on to `conv_container_tag`.
#[verifier::external_body]
fn conv_tag(t: Tag<'_>) -> MdTag {
    match t {
        Tag::Paragraph => MdTag::Paragraph,
        Tag::Heading(d) => MdTag::Heading(d),
        Tag::List(_) => MdTag::List,
        Tag::Item => MdTag::Item,
        Tag::Link(_, href, _) => MdTag::Link(href.into_string()),
        other => conv_container_tag(other),
    }
}

/// Relies on the `pulldown_cmark::Tag` model: translates the container and
/// styling tags, one arm each, so their spans can be skipped with balanced
/// start/end matching; the structural tags go back to `conv_tag`, which
/// translates every one of them directly.
#[verifier::external_body]
fn conv_container_tag(t: Tag<'_>) -> MdTag {
    match t {
        Tag::BlockQuote => MdTag::BlockQuote,
        Tag::CodeBlock(_) => MdTag::CodeBlock,
        Tag::FootnoteDefinition(s) => MdTag::Note(s.into_string()),
        Tag::Table(_) => MdTag::Table,
        Tag::TableHead => MdTag::TableHead,
        Tag::TableRow => MdTag::TableRow,
        Tag::TableCell => MdTag::TableCell,
        Tag::Emphasis => MdTag::Emphasis,
        Tag::Strong => MdTag::Strong,
        Tag::Strikethrough => MdTag::Strike,
        Tag::Image(_, href, _) => MdTag::Image(href.into_string()),
        other => conv_tag(other),
    }
}

} // verus!
