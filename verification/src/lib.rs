//! Line and column lookup for values inside YAML and JSON documents.
//!
//! A document is parsed into a flat sequence of events, each carrying the
//! position at which its token began. The events are walked once, and every
//! mapping key and every scalar sequence element is recorded under a
//! `/`-separated path. The finished table answers exact lookups by path and
//! lists its entries in ascending path order.

use vstd::prelude::*;
use vstd::utf8::*;

pub mod error;
pub mod event;
pub mod order;
pub mod path;
pub mod position;
pub mod positions;
pub mod table;
pub mod walk;
pub mod yaml;

pub use error::{Error, Result};
pub use event::{DocEvent, RawEvent};
pub use path::{Location, Path};
pub use position::Position;
pub use positions::Positions;

verus! {

/// `r` is what loading the text `text` gives: where the parser accepts the
/// text, the table built from its events; where it rejects the text, the
/// error of the parser, as it is.
pub open spec fn loaded(text: Seq<char>, r: Result<Positions>) -> bool {
    match yaml::parsed_events(text) {
        Ok(raw) => r matches Ok(positions) && positions.built_from(raw),
        Err(error) => r == Err::<Positions, Error>(Error::Parse(error)),
    }
}

/// Loads a lookup table of [`Position`] information from UTF-8 text.
pub fn from_str(s: &str) -> (r: Result<Positions>)
    ensures
        loaded(s@, r),
{
    match yaml::load_events(s) {
        Ok(raw) => Ok(Positions::from_events(raw)),
        Err(err) => Err(Error::from(err)),
    }
}

/// Loads a lookup table of [`Position`] information from bytes, which have
/// to be UTF-8 text.
pub fn from_bytes(bytes: &[u8]) -> (r: Result<Positions>)
    ensures
        valid_utf8(bytes@) ==> loaded(decode_utf8(bytes@), r),
        !valid_utf8(bytes@) ==> r == Err::<Positions, Error>(
            Error::Utf8(yaml::utf8_error(bytes@)),
        ),
{
    match yaml::text_of(bytes) {
        Ok(text) => {
            proof {
                encode_utf8_decode_utf8(text@);
            }
            from_str(text)
        },
        Err(err) => Err(Error::from(err)),
    }
}

/// Loading is a function of the text: two loads of one text both fail,
/// with the same error, or both give tables with the same events, the same
/// index and the same listing.
pub proof fn lemma_load_twice(text: Seq<char>, first: Result<Positions>, second: Result<Positions>)
    requires
        loaded(text, first),
        loaded(text, second),
    ensures
        match (first, second) {
            (Ok(p), Ok(q)) => {
                &&& p.events() == q.events()
                &&& p.cursor() == q.cursor()
                &&& p@ == q@
                &&& p.entries() == q.entries()
            },
            (Err(e), Err(f)) => e == f,
            _ => false,
        },
{
    if let Ok(p) = first {
        if let Ok(q) = second {
            p.lemma_same_index_same_listing(q);
        }
    }
}

} // verus!
