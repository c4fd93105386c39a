//! The structural event vocabulary of a document, and the tokenizer that
//! produces it from Markdown text.

use vstd::prelude::*;
use pulldown_cmark::{CodeBlockKind, Event, Tag};

verus! {

/// A structural event over a document. Extraction is defined purely against
/// this vocabulary.
#[derive(Debug, PartialEq, Clone)]
pub enum MdEvent {
    /// Start of a heading, with its level.
    HeadingStart(u32),
    /// A text run.
    Text(String),
    /// Start of an unordered list.
    ListStart,
    /// End of an unordered list.
    ListEnd,
    /// Start of a list item.
    ItemStart,
    /// Start of a fenced code block.
    CodeBlockStart,
    /// Any other structural event; extraction ignores it.
    Other,
}

#[verifier::external_type_specification]
#[verifier::external_body]
pub struct ExParser<'a>(pulldown_cmark::Parser<'a>);

/// The structural events of a document's text, in the library's vocabulary:
/// what the tokenizer yields for that text, a function of the text alone.
pub uninterp spec fn doc_events(s: Seq<char>) -> Seq<MdEvent>;

/// The finite stream a tokenizer has yet to yield, in the library's
/// vocabulary.
pub uninterp spec fn stream_left(p: pulldown_cmark::Parser) -> Seq<MdEvent>;

/// Relies on pulldown_cmark::Parser::new: builds a tokenizer whose whole
/// remaining stream is the document's events, which depend on the text
/// alone.
#[verifier::external_body]
fn new_parser<'a>(text: &'a str) -> (p: pulldown_cmark::Parser<'a>)
    ensures
        stream_left(p) == doc_events(text@),
{
    pulldown_cmark::Parser::new(text)
}

/// Relies on pulldown_cmark::Parser::next: yields the first event of the
/// remaining stream, mapped onto the library's vocabulary (one arm per
/// variant the extraction rules distinguish), leaving the rest; nothing is
/// yielded exactly when the stream is exhausted.
#[verifier::external_body]
fn next_structural(p: &mut pulldown_cmark::Parser) -> (e: Option<MdEvent>)
    ensures
        match e {
            Some(ev) => stream_left(*old(p)).len() > 0 && ev == stream_left(*old(p))[0]
                && stream_left(*final(p)) == stream_left(*old(p)).drop_first(),
            None => stream_left(*old(p)).len() == 0 && stream_left(*final(p))
                == stream_left(*old(p)),
        },
{
    match p.next() {
        None => None,
        Some(Event::Start(Tag::Heading(level))) => Some(MdEvent::HeadingStart(level)),
        Some(Event::Start(Tag::List(None))) => Some(MdEvent::ListStart),
        Some(Event::End(Tag::List(None))) => Some(MdEvent::ListEnd),
        Some(Event::Start(Tag::Item)) => Some(MdEvent::ItemStart),
        Some(Event::Start(Tag::CodeBlock(CodeBlockKind::Fenced(_)))) => Some(
            MdEvent::CodeBlockStart,
        ),
        Some(Event::Text(t)) => Some(MdEvent::Text(t.to_string())),
        Some(_) => Some(MdEvent::Other),
    }
}

/// Tokenizes a document into the sequence of its structural events.
pub fn tokenize(content: &str) -> (events: Vec<MdEvent>)
    ensures
        events@ == doc_events(content@),
{
    let mut parser = new_parser(content);
    let mut events: Vec<MdEvent> = Vec::new();
    proof {
        assert(events@ + stream_left(parser) =~= doc_events(content@));
    }
    loop
        invariant
            events@ + stream_left(parser) == doc_events(content@),
        decreases stream_left(parser).len(),
    {
        let ghost pre_stream = stream_left(parser);
        let ghost pre_events = events@;
        match next_structural(&mut parser) {
            Some(e) => {
                events.push(e);
                proof {
                    assert(events@ + stream_left(parser) =~= pre_events + pre_stream);
                }
            },
            None => {
                proof {
                    assert(events@ =~= events@ + stream_left(parser));
                }
                return events;
            },
        }
    }
}

} // verus!
