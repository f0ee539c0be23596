//! The wire format, stated as a parser and a canonical encoder over values.
use crate::bytes::{be_bytes, be_value, le_bytes, le_value};
use crate::error::Error;
use crate::term::Value;
use vstd::prelude::*;
use vstd::utf8::{decode_utf8, encode_utf8, valid_utf8};

verus! {

pub const VERSION: u8 = 131;

pub const SMALL_INTEGER: u8 = 97;

pub const INTEGER: u8 = 98;

pub const SMALL_BIG: u8 = 110;

pub const LARGE_BIG: u8 = 111;

pub const FLOAT: u8 = 70;

pub const ATOM: u8 = 100;

pub const ATOM_UTF8: u8 = 118;

pub const SMALL_ATOM: u8 = 115;

pub const SMALL_ATOM_UTF8: u8 = 119;

pub const SMALL_TUPLE: u8 = 104;

pub const LARGE_TUPLE: u8 = 105;

pub const MAP: u8 = 116;

pub const NIL: u8 = 106;

pub const LIST: u8 = 108;

pub const SHORT_BINARY: u8 = 107;

pub const BINARY: u8 = 109;

/// The tag bytes that name a term type.
pub open spec fn is_known_tag(t: u8) -> bool {
    ||| t == SMALL_INTEGER || t == INTEGER || t == SMALL_BIG || t == LARGE_BIG || t == FLOAT
    ||| t == ATOM || t == ATOM_UTF8 || t == SMALL_ATOM || t == SMALL_ATOM_UTF8
    ||| t == SMALL_TUPLE || t == LARGE_TUPLE || t == MAP || t == NIL || t == LIST
    ||| t == SHORT_BINARY || t == BINARY
}

/// `2^32`.
pub const U32_LIMIT: u64 = 0x1_0000_0000;

/// A four-byte two's-complement field read as a signed number.
pub open spec fn signed32(u: nat) -> int {
    if u >= 0x8000_0000 {
        u - 0x1_0000_0000
    } else {
        u as int
    }
}

/// A magnitude with its sign byte: `1` is negative, anything else positive.
pub open spec fn signed_magnitude(sign: u8, m: nat) -> int {
    if sign == 1 {
        -m
    } else {
        m as int
    }
}

pub open spec fn bytes_at(s: Seq<u8>, p: int, n: int) -> Seq<u8> {
    s.subrange(p, p + n)
}

/// A payload of `n` bytes at `p`, or the end of input.
pub open spec fn payload(s: Seq<u8>, p: int, n: int) -> Result<Seq<u8>, Error> {
    if p + n <= s.len() {
        Ok(bytes_at(s, p, n))
    } else {
        Err(Error::UnexpectedEnd)
    }
}

/// An atom's text, when its bytes are UTF-8.
pub open spec fn atom_at(s: Seq<u8>, p: int, n: int) -> Result<(Value, int), Error> {
    if p + n > s.len() {
        Err(Error::UnexpectedEnd)
    } else if !valid_utf8(bytes_at(s, p, n)) {
        Err(Error::InvalidUtf8)
    } else {
        Ok((Value::Atom(decode_utf8(bytes_at(s, p, n))), p + n))
    }
}

/// A bignum's magnitude of `n` bytes, after its sign byte at `p`.
pub open spec fn bignum_at(s: Seq<u8>, p: int, n: int) -> Result<(Value, int), Error> {
    if p + 1 + n > s.len() {
        Err(Error::UnexpectedEnd)
    } else {
        Ok((Value::Integer(signed_magnitude(s[p], le_value(bytes_at(s, p + 1, n)))), p + 1 + n))
    }
}

/// The term that starts at `p`, and where it ends.
pub open spec fn parse(s: Seq<u8>, p: int) -> Result<(Value, int), Error>
    decreases s.len() - p, 0int,
{
    if p < 0 || p >= s.len() {
        Err(Error::UnexpectedEnd)
    } else {
        let tag = s[p];
        let q = p + 1;
        if tag == SMALL_INTEGER {
            if q + 1 <= s.len() {
                Ok((Value::Integer(s[q] as int), q + 1))
            } else {
                Err(Error::UnexpectedEnd)
            }
        } else if tag == INTEGER {
            if q + 4 <= s.len() {
                Ok((Value::Integer(signed32(be_value(bytes_at(s, q, 4)))), q + 4))
            } else {
                Err(Error::UnexpectedEnd)
            }
        } else if tag == SMALL_BIG {
            if q + 1 <= s.len() {
                bignum_at(s, q + 1, s[q] as int)
            } else {
                Err(Error::UnexpectedEnd)
            }
        } else if tag == LARGE_BIG {
            if q + 4 <= s.len() {
                bignum_at(s, q + 4, be_value(bytes_at(s, q, 4)) as int)
            } else {
                Err(Error::UnexpectedEnd)
            }
        } else if tag == FLOAT {
            if q + 8 <= s.len() {
                Ok((Value::Float(be_value(bytes_at(s, q, 8)) as u64), q + 8))
            } else {
                Err(Error::UnexpectedEnd)
            }
        } else if tag == SMALL_ATOM || tag == SMALL_ATOM_UTF8 {
            if q + 1 <= s.len() {
                atom_at(s, q + 1, s[q] as int)
            } else {
                Err(Error::UnexpectedEnd)
            }
        } else if tag == ATOM || tag == ATOM_UTF8 {
            if q + 2 <= s.len() {
                atom_at(s, q + 2, be_value(bytes_at(s, q, 2)) as int)
            } else {
                Err(Error::UnexpectedEnd)
            }
        } else if tag == SMALL_TUPLE || tag == LARGE_TUPLE {
            let w: int = if tag == SMALL_TUPLE { 1 } else { 4 };
            if q + w <= s.len() {
                match parse_seq(s, q + w, be_value(bytes_at(s, q, w))) {
                    Ok((items, e)) => Ok((Value::Tuple(items), e)),
                    Err(x) => Err(x),
                }
            } else {
                Err(Error::UnexpectedEnd)
            }
        } else if tag == MAP {
            if q + 4 <= s.len() {
                match parse_pairs(s, q + 4, be_value(bytes_at(s, q, 4))) {
                    Ok((items, e)) => Ok((Value::Dict(items), e)),
                    Err(x) => Err(x),
                }
            } else {
                Err(Error::UnexpectedEnd)
            }
        } else if tag == NIL {
            Ok((Value::Nil, q))
        } else if tag == LIST {
            if q + 4 <= s.len() {
                match parse_seq(s, q + 4, be_value(bytes_at(s, q, 4))) {
                    Ok((items, e)) => if p < e <= s.len() {
                        match parse(s, e) {
                            Ok((tail, f)) => Ok((Value::List(items, Box::new(tail)), f)),
                            Err(x) => Err(x),
                        }
                    } else {
                        Err(Error::UnexpectedEnd)
                    },
                    Err(x) => Err(x),
                }
            } else {
                Err(Error::UnexpectedEnd)
            }
        } else if tag == SHORT_BINARY || tag == BINARY {
            let w: int = if tag == SHORT_BINARY { 2 } else { 4 };
            if q + w <= s.len() {
                match payload(s, q + w, be_value(bytes_at(s, q, w)) as int) {
                    Ok(b) => Ok((Value::Binary(b), q + w + b.len())),
                    Err(x) => Err(x),
                }
            } else {
                Err(Error::UnexpectedEnd)
            }
        } else {
            Err(Error::UnknownTermType(tag))
        }
    }
}

/// `n` terms in a row from `p`, and where the last one ends.
pub open spec fn parse_seq(s: Seq<u8>, p: int, n: nat) -> Result<(Seq<Value>, int), Error>
    decreases s.len() - p, n,
{
    if n == 0 {
        Ok((Seq::empty(), p))
    } else if p >= s.len() {
        Err(Error::UnexpectedEnd)
    } else {
        match parse(s, p) {
            Ok((first, e)) => if p < e <= s.len() {
                match parse_seq(s, e, (n - 1) as nat) {
                    Ok((rest, f)) => Ok((seq![first] + rest, f)),
                    Err(x) => Err(x),
                }
            } else {
                Err(Error::UnexpectedEnd)
            },
            Err(x) => Err(x),
        }
    }
}

/// `n` key/value pairs in a row from `p`, and where the last one ends.
pub open spec fn parse_pairs(s: Seq<u8>, p: int, n: nat) -> Result<(Seq<(Value, Value)>, int), Error>
    decreases s.len() - p, n,
{
    if n == 0 {
        Ok((Seq::empty(), p))
    } else if p >= s.len() {
        Err(Error::UnexpectedEnd)
    } else {
        match parse(s, p) {
            Ok((key, e)) => if p < e < s.len() {
                match parse(s, e) {
                    Ok((value, f)) => if e < f <= s.len() {
                        match parse_pairs(s, f, (n - 1) as nat) {
                            Ok((rest, g)) => Ok((seq![(key, value)] + rest, g)),
                            Err(x) => Err(x),
                        }
                    } else {
                        Err(Error::UnexpectedEnd)
                    },
                    Err(x) => Err(x),
                }
            } else {
                Err(Error::UnexpectedEnd)
            },
            Err(x) => Err(x),
        }
    }
}

/// A message that starts at `p`: the version marker, then one term. Bytes
/// after the term are not read.
pub open spec fn parse_message_at(s: Seq<u8>, p: int) -> Result<Value, Error> {
    if p < 0 || p >= s.len() {
        Err(Error::UnexpectedEnd)
    } else if s[p] != VERSION {
        Err(Error::UnknownFormatVersion(s[p]))
    } else {
        match parse(s, p + 1) {
            Ok((v, _)) => Ok(v),
            Err(x) => Err(x),
        }
    }
}

/// A whole message.
pub open spec fn parse_message(s: Seq<u8>) -> Result<Value, Error> {
    parse_message_at(s, 0)
}

/// `|n|`.
pub open spec fn magnitude(n: int) -> nat {
    if n < 0 {
        (-n) as nat
    } else {
        n as nat
    }
}

/// The sign byte of a bignum.
pub open spec fn sign_byte(n: int) -> u8 {
    if n < 0 {
        1
    } else {
        0
    }
}

/// The shortest encoding of an integer: one unsigned byte, else four signed
/// bytes, else a bignum with a one-byte length, else one with a four-byte
/// length.
pub open spec fn int_encoding(n: int) -> Option<Seq<u8>> {
    if 0 <= n < 256 {
        Some(seq![SMALL_INTEGER, n as u8])
    } else if -0x8000_0000 <= n < 0x8000_0000 {
        let u = if n < 0 { n + 0x1_0000_0000 } else { n };
        Some(seq![INTEGER] + be_bytes(u as nat, 4))
    } else {
        let m = le_bytes(magnitude(n));
        if m.len() < 256 {
            Some(seq![SMALL_BIG, m.len() as u8, sign_byte(n)] + m)
        } else if m.len() < U32_LIMIT {
            Some(seq![LARGE_BIG] + be_bytes(m.len(), 4) + seq![sign_byte(n)] + m)
        } else {
            None
        }
    }
}

/// The canonical encoding of a value, with the smallest tag for each size;
/// none where a length does not fit in its widest field.
pub open spec fn encoding(v: Value) -> Option<Seq<u8>>
    decreases v,
{
    match v {
        Value::Integer(n) => int_encoding(n),
        Value::Float(bits) => Some(seq![FLOAT] + be_bytes(bits as nat, 8)),
        Value::Atom(text) => {
            let u = encode_utf8(text);
            if u.len() < 256 {
                Some(seq![SMALL_ATOM_UTF8, u.len() as u8] + u)
            } else if u.len() < 0x1_0000 {
                Some(seq![ATOM_UTF8] + be_bytes(u.len(), 2) + u)
            } else {
                None
            }
        },
        Value::Tuple(items) => match encoding_seq(items) {
            Some(b) => if items.len() < 256 {
                Some(seq![SMALL_TUPLE, items.len() as u8] + b)
            } else if items.len() < U32_LIMIT {
                Some(seq![LARGE_TUPLE] + be_bytes(items.len(), 4) + b)
            } else {
                None
            },
            None => None,
        },
        Value::Dict(pairs) => match encoding_pairs(pairs) {
            Some(b) => if pairs.len() < U32_LIMIT {
                Some(seq![MAP] + be_bytes(pairs.len(), 4) + b)
            } else {
                None
            },
            None => None,
        },
        Value::Nil => Some(seq![NIL]),
        Value::List(items, tail) => match (encoding_seq(items), encoding(*tail)) {
            (Some(b), Some(t)) => if items.len() < U32_LIMIT {
                Some(seq![LIST] + be_bytes(items.len(), 4) + b + t)
            } else {
                None
            },
            _ => None,
        },
        Value::Binary(b) => if b.len() < U32_LIMIT {
            Some(seq![BINARY] + be_bytes(b.len(), 4) + b)
        } else {
            None
        },
    }
}

/// The encodings of `items`, one after another.
pub open spec fn encoding_seq(items: Seq<Value>) -> Option<Seq<u8>>
    decreases items,
{
    if items.len() == 0 {
        Some(Seq::empty())
    } else {
        match (encoding_seq(items.drop_last()), encoding(items.last())) {
            (Some(a), Some(b)) => Some(a + b),
            _ => None,
        }
    }
}

/// The encodings of each key and value of `pairs`, one after another.
pub open spec fn encoding_pairs(pairs: Seq<(Value, Value)>) -> Option<Seq<u8>>
    decreases pairs,
{
    if pairs.len() == 0 {
        Some(Seq::empty())
    } else {
        match (encoding_pairs(pairs.drop_last()), encoding(pairs.last().0), encoding(pairs.last().1)) {
            (Some(a), Some(k), Some(v)) => Some(a + k + v),
            _ => None,
        }
    }
}

/// A prefix that has no encoding leaves the whole without one.
pub proof fn lemma_encoding_seq_none(s: Seq<Value>, k: int)
    requires
        0 <= k <= s.len(),
        encoding_seq(s.subrange(0, k)) is None,
    ensures
        encoding_seq(s) is None,
    decreases s.len(),
{
    if k < s.len() {
        assert(s.drop_last().subrange(0, k) =~= s.subrange(0, k));
        lemma_encoding_seq_none(s.drop_last(), k);
    } else {
        assert(s.subrange(0, k) =~= s);
    }
}

/// A prefix that has no encoding leaves the whole without one.
pub proof fn lemma_encoding_pairs_none(s: Seq<(Value, Value)>, k: int)
    requires
        0 <= k <= s.len(),
        encoding_pairs(s.subrange(0, k)) is None,
    ensures
        encoding_pairs(s) is None,
    decreases s.len(),
{
    if k < s.len() {
        assert(s.drop_last().subrange(0, k) =~= s.subrange(0, k));
        lemma_encoding_pairs_none(s.drop_last(), k);
    } else {
        assert(s.subrange(0, k) =~= s);
    }
}

/// A whole message: the version marker, then the canonical encoding of `v`.
pub open spec fn message(v: Value) -> Option<Seq<u8>> {
    match encoding(v) {
        Some(b) => Some(seq![VERSION] + b),
        None => None,
    }
}

} // verus!
