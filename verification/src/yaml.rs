//! What this library takes from the YAML parser and from std without
//! proof.
//!
//! The parser is `yaml_rust`. Its types, and two error types of std, are
//! declared here so that values of them can be passed along; the library
//! never looks inside one. The functions below make the calls, and their
//! contracts are believed, not proved.

use vstd::prelude::*;
use vstd::utf8::*;
use yaml_rust::parser::{MarkedEventReceiver, Parser};
use yaml_rust::scanner::{Marker, ScanError, TScalarStyle, TokenType};

use crate::event::RawEvent;
use crate::position::Position;

verus! {

/// `yaml_rust::scanner::TScalarStyle`, the style in which a scalar was
/// written.
#[verifier::external_type_specification]
#[verifier::external_body]
pub struct ExScalarStyle(TScalarStyle);

/// `yaml_rust::scanner::TokenType`, a token of the scanner. The tag of a
/// scalar is held in one.
#[verifier::external_type_specification]
#[verifier::external_body]
pub struct ExTokenType(TokenType);

/// `yaml_rust::scanner::Marker`, a place in the source text.
#[verifier::external_type_specification]
#[verifier::external_body]
pub struct ExMarker(Marker);

/// `yaml_rust::parser::Event`, an event of the parser.
#[verifier::external_type_specification]
#[verifier::external_body]
pub struct ExParserEvent(yaml_rust::parser::Event);

/// `yaml_rust::scanner::ScanError`, the error with which the parser rejects
/// a text.
#[verifier::external_type_specification]
#[verifier::external_body]
pub struct ExScanError(ScanError);

/// `std::io::Error`, the error of a read that failed. The library reads
/// nothing itself: it has the type for those who read and then load.
#[verifier::external_type_specification]
#[verifier::external_body]
pub struct ExIoError(std::io::Error);

/// `core::str::Utf8Error`, the error of bytes that are not UTF-8.
#[verifier::external_type_specification]
#[verifier::external_body]
pub struct ExUtf8Error(core::str::Utf8Error);

/// The events that the parser reports for a text, each with the position
/// of its marker, in the order in which it reports them; for a text that
/// the parser rejects, the error with which it does.
///
/// This names the outcome of `yaml_rust::parser::Parser::load` on the
/// characters of the text, with all documents of the stream loaded. Nothing
/// else is said of it: which events a text gives is the parser's affair.
pub uninterp spec fn parsed_events(text: Seq<char>) -> Result<
    Seq<(RawEvent, Position)>,
    ScanError,
>;

/// The error with which `core::str::from_utf8` rejects bytes that are not
/// UTF-8. Nothing else is said of it.
pub uninterp spec fn utf8_error(bytes: Seq<u8>) -> core::str::Utf8Error;

/// Moves a `yaml_rust::parser::Event` into the library's own type, variant
/// for variant, with all that it carries. Nothing is claimed of the result.
#[verifier::external_body]
fn raw_event(event: yaml_rust::parser::Event) -> RawEvent {
    match event {
        yaml_rust::parser::Event::Nothing => RawEvent::Nothing,
        yaml_rust::parser::Event::StreamStart => RawEvent::StreamStart,
        yaml_rust::parser::Event::StreamEnd => RawEvent::StreamEnd,
        yaml_rust::parser::Event::DocumentStart => RawEvent::DocumentStart,
        yaml_rust::parser::Event::DocumentEnd => RawEvent::DocumentEnd,
        yaml_rust::parser::Event::Alias(id) => RawEvent::Alias(id),
        yaml_rust::parser::Event::Scalar(v, s, id, t) => RawEvent::Scalar(v, s, id, t),
        yaml_rust::parser::Event::SequenceStart(id) => RawEvent::SequenceStart(id),
        yaml_rust::parser::Event::SequenceEnd => RawEvent::SequenceEnd,
        yaml_rust::parser::Event::MappingStart(id) => RawEvent::MappingStart(id),
        yaml_rust::parser::Event::MappingEnd => RawEvent::MappingEnd,
    }
}

/// Reads line and column off a marker, with `Marker::line` and
/// `Marker::col`, as they are. Nothing is claimed of the result.
#[verifier::external_body]
fn position_of(marker: Marker) -> Position {
    Position { line: marker.line(), col: marker.col() }
}

/// Receives the events of a parse and keeps them all, in order.
pub struct Recorder {
    records: Vec<(RawEvent, Position)>,
}

impl Recorder {
    /// What has been kept so far.
    pub closed spec fn kept(&self) -> Seq<(RawEvent, Position)> {
        self.records@
    }
}

impl MarkedEventReceiver for Recorder {
    /// Keeps the event behind those that came before.
    fn on_event(&mut self, event: yaml_rust::parser::Event, marker: Marker)
        ensures
            final(self).kept().len() == old(self).kept().len() + 1,
            final(self).kept().drop_last() == old(self).kept(),
    {
        self.records.push((raw_event(event), position_of(marker)));
    }
}

/// Parses a text with `yaml_rust::parser::Parser::load`, all documents of
/// the stream, and returns the events that the parser handed over.
///
/// The contract gives the outcome its name, [`parsed_events`], and claims
/// with that only that the outcome, events or error, depends on the text
/// alone. The parser
/// keeps no state between two parses and consults nothing but the
/// characters it is given. It is taken to return on every text: its own
/// internal assertions are taken to hold. It calls itself once for each
/// level of nesting, so a text that is nested deeply enough to exhaust the
/// stack ends the process.
#[verifier::external_body]
pub(crate) fn load_events(text: &str) -> (r: Result<Vec<(RawEvent, Position)>, ScanError>)
    ensures
        match r {
            Ok(records) => parsed_events(text@) == Ok::<_, ScanError>(records@),
            Err(error) => parsed_events(text@) == Err::<Seq<(RawEvent, Position)>, _>(error),
        },
{
    let mut recorder = Recorder { records: Vec::new() };
    match Parser::new(text.chars()).load(&mut recorder, true) {
        Ok(()) => Ok(recorder.records),
        Err(error) => Err(error),
    }
}

/// Reads bytes as text with `core::str::from_utf8`.
///
/// The function checks that the bytes are valid UTF-8 and then hands the
/// same bytes back as a string; it fails on bytes that are not UTF-8, with
/// an error that depends on the bytes alone, named [`utf8_error`].
#[verifier::external_body]
pub(crate) fn text_of(bytes: &[u8]) -> (r: Result<&str, core::str::Utf8Error>)
    ensures
        match r {
            Ok(text) => valid_utf8(bytes@) && encode_utf8(text@) == bytes@,
            Err(error) => !valid_utf8(bytes@) && error == utf8_error(bytes@),
        },
{
    core::str::from_utf8(bytes)
}

} // verus!
