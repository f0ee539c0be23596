//! A codec for the external term format: a compact, tagged binary encoding of
//! integers, floats, atoms, tuples, lists, maps and binaries.
mod bytes;
mod decoder;
mod encoder;
mod error;
pub mod format;
pub mod laws;
mod term;

pub use decoder::Reader;
pub use encoder::Encoder;
pub use error::{Error, Result};
pub use term::{BigInt, Term, Value};

use format::{message, parse_message};
use vstd::prelude::*;

verus! {

impl Term {
    /// Decodes one message.
    pub fn from_bytes(bytes: &[u8]) -> (r: Result<Term>)
        ensures
            match r {
                Ok(t) => parse_message(bytes@) == Ok::<Value, Error>(t@) && t.ints_canonical(),
                Err(x) => parse_message(bytes@) == Err::<Value, Error>(x),
            },
    {
        Reader::new(bytes).read()
    }

    /// Encodes this term as one message, with the smallest tag for each size.
    pub fn to_bytes(&self) -> (r: Result<Vec<u8>>)
        ensures
            match message(self@) {
                Some(b) => r is Ok && r->Ok_0@ == b,
                None => r == Err::<Vec<u8>, Error>(Error::TooLarge),
            },
    {
        let r = Encoder::new().encode(self);
        proof {
            if let Some(b) = message(self@) {
                assert(Seq::<u8>::empty() + b =~= b);
            }
        }
        r
    }
}

/// Decodes one message.
pub fn unpack(bytes: &[u8]) -> (r: Result<Term>)
    ensures
        match r {
            Ok(t) => parse_message(bytes@) == Ok::<Value, Error>(t@) && t.ints_canonical(),
            Err(x) => parse_message(bytes@) == Err::<Value, Error>(x),
        },
{
    Term::from_bytes(bytes)
}

/// Encodes `term` as one message.
pub fn pack(term: &Term) -> (r: Result<Vec<u8>>)
    ensures
        match message(term@) {
            Some(b) => r is Ok && r->Ok_0@ == b,
            None => r == Err::<Vec<u8>, Error>(Error::TooLarge),
        },
{
    term.to_bytes()
}

} // verus!
