//! The CommonMark parser's events, brought over into the renderer's own
//! event type one event at a time.
use vstd::prelude::*;
use crate::markdown::{HeadingLevel, MdEvent};
use pulldown_cmark::{CodeBlockKind, Event, Options, Parser, TagEnd};
use pulldown_cmark::HeadingLevel as CmarkLevel;
use pulldown_cmark::Event::{End, Start};
use pulldown_cmark::Tag::{BlockQuote, CodeBlock, Emphasis, Heading, Item, Link, List, Paragraph, Strikethrough, Strong};

verus! {

/// A parse event of pulldown-cmark, carried through as it is.
#[verifier::external_type_specification]
#[verifier::external_body]
pub struct ExCmarkEvent<'a>(pulldown_cmark::Event<'a>);

/// The renderer's events for Markdown text, as pulldown-cmark parses it
/// (see [`parse_md_events`]).
pub uninterp spec fn cmark_events(input: Seq<char>) -> Seq<MdEvent>;

/// Parses `input` with pulldown-cmark's `Parser::new_ext`, strike-through,
/// tables and task lists switched on, and brings each event the parser
/// yields over with [`event_of`], in order. The result depends on the text
/// alone and is named [`cmark_events`]; what the grammar makes of the text
/// is not stated.
#[verifier::external_body]
pub(crate) fn parse_md_events(input: &str) -> (evs: Vec<MdEvent>)
    ensures
        evs@ == cmark_events(input@),
{
    let mut options = Options::empty();
    options.insert(Options::ENABLE_STRIKETHROUGH);
    options.insert(Options::ENABLE_TABLES);
    options.insert(Options::ENABLE_TASKLISTS);
    Parser::new_ext(input, options).map(|e| event_of(&e)).collect()
}

/// The opening of a paragraph, quote, code block (its fence's language, or
/// none when indented), list (its first number when ordered), item,
/// emphasis, strong text, strike-through or link (its destination) as the
/// renderer's event; `None` for any other event. One arm per variant.
#[verifier::external_body]
pub(crate) fn start_event(e: &Event) -> Option<MdEvent> {
    match e {
        Start(Paragraph) => Some(MdEvent::StartParagraph),
        Start(BlockQuote(_)) => Some(MdEvent::StartBlockQuote),
        Start(CodeBlock(CodeBlockKind::Fenced(l))) => Some(MdEvent::StartCodeBlock(Some(l.to_string()))),
        Start(CodeBlock(CodeBlockKind::Indented)) => Some(MdEvent::StartCodeBlock(None)),
        Start(List(first)) => Some(MdEvent::StartList(*first)),
        Start(Item) => Some(MdEvent::StartItem),
        Start(Emphasis) => Some(MdEvent::StartEmphasis),
        Start(Strong) => Some(MdEvent::StartStrong),
        Start(Strikethrough) => Some(MdEvent::StartStrikethrough),
        Start(Link { dest_url, .. }) => Some(MdEvent::StartLink(dest_url.to_string())),
        _ => None,
    }
}

/// The closing of a paragraph, quote, code block, list, item, emphasis,
/// strong text, strike-through or link as the renderer's event; `None` for
/// any other event. One arm per variant.
#[verifier::external_body]
pub(crate) fn end_event(e: &Event) -> Option<MdEvent> {
    match e {
        End(TagEnd::Paragraph) => Some(MdEvent::EndParagraph),
        End(TagEnd::BlockQuote(_)) => Some(MdEvent::EndBlockQuote),
        End(TagEnd::CodeBlock) => Some(MdEvent::EndCodeBlock),
        End(TagEnd::List(_)) => Some(MdEvent::EndList),
        End(TagEnd::Item) => Some(MdEvent::EndItem),
        End(TagEnd::Emphasis) => Some(MdEvent::EndEmphasis),
        End(TagEnd::Strong) => Some(MdEvent::EndStrong),
        End(TagEnd::Strikethrough) => Some(MdEvent::EndStrikethrough),
        End(TagEnd::Link) => Some(MdEvent::EndLink),
        _ => None,
    }
}

/// Text, inline code, a soft or hard break, a rule or a task marker as the
/// renderer's event; `None` for any other event. One arm per variant.
#[verifier::external_body]
pub(crate) fn leaf_event(e: &Event) -> Option<MdEvent> {
    match e {
        Event::Text(t) => Some(MdEvent::Text(t.to_string())),
        Event::Code(c) => Some(MdEvent::Code(c.to_string())),
        Event::SoftBreak => Some(MdEvent::SoftBreak),
        Event::HardBreak => Some(MdEvent::HardBreak),
        Event::Rule => Some(MdEvent::Rule),
        Event::TaskListMarker(checked) => Some(MdEvent::TaskListMarker(*checked)),
        _ => None,
    }
}

/// The level of a heading that `e` opens; `None` when it opens none.
#[verifier::external_body]
pub(crate) fn opened_heading(e: &Event) -> Option<HeadingLevel> {
    match e {
        Start(Heading { level: CmarkLevel::H1, .. }) => Some(HeadingLevel::H1),
        Start(Heading { level: CmarkLevel::H2, .. }) => Some(HeadingLevel::H2),
        Start(Heading { level: CmarkLevel::H3, .. }) => Some(HeadingLevel::H3),
        Start(Heading { level: CmarkLevel::H4, .. }) => Some(HeadingLevel::H4),
        Start(Heading { level: CmarkLevel::H5, .. }) => Some(HeadingLevel::H5),
        Start(Heading { level: CmarkLevel::H6, .. }) => Some(HeadingLevel::H6),
        _ => None,
    }
}

/// The level of a heading that `e` closes; `None` when it closes none.
#[verifier::external_body]
pub(crate) fn closed_heading(e: &Event) -> Option<HeadingLevel> {
    match e {
        End(TagEnd::Heading(CmarkLevel::H1)) => Some(HeadingLevel::H1),
        End(TagEnd::Heading(CmarkLevel::H2)) => Some(HeadingLevel::H2),
        End(TagEnd::Heading(CmarkLevel::H3)) => Some(HeadingLevel::H3),
        End(TagEnd::Heading(CmarkLevel::H4)) => Some(HeadingLevel::H4),
        End(TagEnd::Heading(CmarkLevel::H5)) => Some(HeadingLevel::H5),
        End(TagEnd::Heading(CmarkLevel::H6)) => Some(HeadingLevel::H6),
        _ => None,
    }
}

/// The renderer's event for a parse event, from what the conversions above
/// make of it: the heading it opens or closes, else the first conversion
/// that knows it, else [`MdEvent::Other`].
pub open spec fn chosen_event(
    opened: Option<HeadingLevel>,
    closed: Option<HeadingLevel>,
    start: Option<MdEvent>,
    end: Option<MdEvent>,
    leaf: Option<MdEvent>,
) -> MdEvent {
    match opened {
        Some(l) => MdEvent::StartHeading(l),
        None => match closed {
            Some(l) => MdEvent::EndHeading(l),
            None => match start {
                Some(m) => m,
                None => match end {
                    Some(m) => m,
                    None => match leaf {
                        Some(m) => m,
                        None => MdEvent::Other,
                    },
                },
            },
        },
    }
}

/// Picks the renderer's event out of the conversions of one parse event;
/// see [`chosen_event`].
pub(crate) fn md_event(
    opened: Option<HeadingLevel>,
    closed: Option<HeadingLevel>,
    start: Option<MdEvent>,
    end: Option<MdEvent>,
    leaf: Option<MdEvent>,
) -> (m: MdEvent)
    ensures
        m == chosen_event(opened, closed, start, end, leaf),
{
    if let Some(level) = opened {
        MdEvent::StartHeading(level)
    } else if let Some(level) = closed {
        MdEvent::EndHeading(level)
    } else if let Some(m) = start {
        m
    } else if let Some(m) = end {
        m
    } else if let Some(m) = leaf {
        m
    } else {
        MdEvent::Other
    }
}

/// The renderer's event for one parse event: [`md_event`] of what the
/// conversions above make of it. The parse event is opaque here, so only
/// the choice among the conversions is stated, in [`md_event`].
pub(crate) fn event_of(e: &Event) -> MdEvent {
    md_event(opened_heading(e), closed_heading(e), start_event(e), end_event(e), leaf_event(e))
}

} // verus!
