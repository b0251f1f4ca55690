//! Parse events: as the parser reports them, and as the walk reads them.

use vstd::prelude::*;
use yaml_rust::scanner::{TScalarStyle, TokenType};

use crate::position::Position;

verus! {

/// An event of the parser, with everything that it carries.
///
/// The numbers are anchor ids. A scalar holds its text, its style, its
/// anchor id and its tag.
#[derive(Debug, PartialEq)]
pub enum RawEvent {
    Nothing,
    StreamStart,
    StreamEnd,
    DocumentStart,
    DocumentEnd,
    Alias(usize),
    Scalar(String, TScalarStyle, usize, Option<TokenType>),
    SequenceStart(usize),
    SequenceEnd,
    MappingStart(usize),
    MappingEnd,
}

/// An event that shapes the document: a scalar with its text, style and
/// tag, or the start or end of a sequence or a mapping.
#[derive(Debug, PartialEq)]
pub enum DocEvent {
    Scalar(String, TScalarStyle, Option<TokenType>),
    SequenceStart,
    SequenceEnd,
    MappingStart,
    MappingEnd,
}

/// An event with the position at which its token began.
pub type EventRecord = (DocEvent, Position);

/// The event that is kept for a parser event, if any.
///
/// The envelope of streams and documents is dropped, and so are aliases,
/// which are not resolved. Scalars and the starts and ends of sequences and
/// mappings are kept, without their anchor ids.
pub open spec fn normalized(event: RawEvent) -> Option<DocEvent> {
    match event {
        RawEvent::Nothing => None,
        RawEvent::StreamStart => None,
        RawEvent::StreamEnd => None,
        RawEvent::DocumentStart => None,
        RawEvent::DocumentEnd => None,
        RawEvent::Alias(_) => None,
        RawEvent::Scalar(value, style, _, tag) => Some(DocEvent::Scalar(value, style, tag)),
        RawEvent::SequenceStart(_) => Some(DocEvent::SequenceStart),
        RawEvent::SequenceEnd => Some(DocEvent::SequenceEnd),
        RawEvent::MappingStart(_) => Some(DocEvent::MappingStart),
        RawEvent::MappingEnd => Some(DocEvent::MappingEnd),
    }
}

/// The records that are kept of a run of parser events, in the order in
/// which the events came.
pub open spec fn normalized_all(raw: Seq<(RawEvent, Position)>) -> Seq<EventRecord>
    decreases raw.len(),
{
    if raw.len() == 0 {
        Seq::empty()
    } else {
        let before = normalized_all(raw.drop_last());
        match normalized(raw.last().0) {
            Some(event) => before.push((event, raw.last().1)),
            None => before,
        }
    }
}

} // verus!
