use crate::bytes::{be_value, lemma_be_value_bound, lemma_pow256_values, read_be};
use crate::error::{Error, Result};
use crate::format::{
    atom_at, bignum_at, bytes_at, parse, parse_message_at, parse_pairs, parse_seq, payload, ATOM,
    ATOM_UTF8, BINARY, FLOAT, INTEGER, LARGE_BIG, LARGE_TUPLE, LIST, MAP, NIL, SHORT_BINARY,
    SMALL_ATOM, SMALL_ATOM_UTF8, SMALL_BIG, SMALL_INTEGER, SMALL_TUPLE, VERSION,
};
use crate::term::{all_canonical, pair_views, pairs_canonical, views, BigInt, Term};
use vstd::prelude::*;
use vstd::slice::{slice_subrange, slice_to_vec};
use vstd::utf8::{encode_utf8, encode_utf8_decode_utf8, valid_utf8};

verus! {

/// Relies on std's `str::from_utf8`: it accepts exactly the valid UTF-8 byte
/// strings, and the text it returns is made of exactly those bytes.
#[verifier::external_body]
fn utf8_text(b: &[u8]) -> (r: Option<String>)
    ensures
        r is Some <==> valid_utf8(b@),
        r is Some ==> encode_utf8(r->0@) == b@,
{
    match std::str::from_utf8(b) {
        Ok(s) => Some(s.to_string()),
        Err(_) => None,
    }
}

/// `pre` put in front of the items of a successful parse.
pub open spec fn prefixed<A>(pre: Seq<A>, r: core::result::Result<(Seq<A>, int), Error>) -> core::result::Result<(Seq<A>, int), Error> {
    match r {
        Ok((items, e)) => Ok((pre + items, e)),
        Err(x) => Err(x),
    }
}

proof fn lemma_prefixed_step<A>(pre: Seq<A>, x: A, r: core::result::Result<(Seq<A>, int), Error>)
    ensures
        prefixed(pre.push(x), r) == prefixed(pre, prefixed(seq![x], r)),
{
    if let Ok((items, e)) = r {
        assert(pre.push(x) + items =~= pre + (seq![x] + items));
    }
}

/// A cursor over an encoded message.
pub struct Reader<'a> {
    pub data: &'a [u8],
    pub pos: usize,
    pub version: Option<u8>,
}

impl<'a> Reader<'a> {
    pub fn new(bytes: &'a [u8]) -> (r: Self)
        ensures
            r.data@ == bytes@,
            r.pos == 0,
            r.version is None,
    {
        Reader { data: bytes, pos: 0, version: None }
    }

    /// The version marker, then one term.
    pub fn read(&mut self) -> (r: Result<Term>)
        ensures
            final(self).data@ == old(self).data@,
            old(self).pos < old(self).data@.len() && old(self).data@[old(self).pos as int] == VERSION
                ==> final(self).version == Some(VERSION),
            !(old(self).pos < old(self).data@.len() && old(self).data@[old(self).pos as int] == VERSION)
                ==> final(self).version == old(self).version,
            match r {
                Ok(t) => parse_message_at(old(self).data@, old(self).pos as int) == Ok::<_, Error>(t@)
                    && parse(old(self).data@, old(self).pos + 1) == Ok::<_, Error>((t@, final(self).pos as int))
                    && t.ints_canonical(),
                Err(x) => parse_message_at(old(self).data@, old(self).pos as int) == Err::<crate::term::Value, _>(x),
            },
    {
        if self.pos >= self.data.len() {
            return Err(Error::UnexpectedEnd);
        }
        let marker = self.data[self.pos];
        if marker != VERSION {
            return Err(Error::UnknownFormatVersion(marker));
        }
        self.pos = self.pos + 1;
        self.version = Some(VERSION);
        self.read_term()
    }

    fn read_u8(&mut self) -> (r: Result<u8>)
        ensures
            final(self).data@ == old(self).data@,
            final(self).version == old(self).version,
            old(self).pos < old(self).data@.len() ==> r == Ok::<u8, Error>(old(self).data@[old(self).pos as int])
                && final(self).pos == old(self).pos + 1,
            old(self).pos >= old(self).data@.len() ==> r == Err::<u8, Error>(Error::UnexpectedEnd),
    {
        if self.pos >= self.data.len() {
            return Err(Error::UnexpectedEnd);
        }
        let b = self.data[self.pos];
        self.pos = self.pos + 1;
        Ok(b)
    }

    /// A `k`-byte big-endian field.
    fn read_field(&mut self, k: usize) -> (r: Result<u64>)
        requires
            1 <= k <= 8,
        ensures
            final(self).data@ == old(self).data@,
            final(self).version == old(self).version,
            old(self).pos + k <= old(self).data@.len() ==> r == Ok::<u64, Error>(
                be_value(bytes_at(old(self).data@, old(self).pos as int, k as int)) as u64,
            ) && final(self).pos == old(self).pos + k,
            old(self).pos + k > old(self).data@.len() ==> r == Err::<u64, Error>(Error::UnexpectedEnd),
    {
        if self.pos > self.data.len() || k > self.data.len() - self.pos {
            return Err(Error::UnexpectedEnd);
        }
        let rest = slice_subrange(self.data, self.pos, self.data.len());
        let v = read_be(rest, k);
        assert(rest@.subrange(0, k as int) == bytes_at(self.data@, self.pos as int, k as int));
        self.pos = self.pos + k;
        Ok(v)
    }

    /// The next `size` bytes, as they stand.
    pub fn read_buffer(&mut self, size: u64) -> (r: Result<Vec<u8>>)
        ensures
            final(self).data@ == old(self).data@,
            final(self).version == old(self).version,
            match payload(old(self).data@, old(self).pos as int, size as int) {
                Ok(b) => r is Ok && r->Ok_0@ == b && final(self).pos == old(self).pos + size,
                Err(x) => r == Err::<Vec<u8>, Error>(x),
            },
    {
        if self.pos > self.data.len() || size > (self.data.len() - self.pos) as u64 {
            return Err(Error::UnexpectedEnd);
        }
        let end = self.pos + size as usize;
        let buf = slice_to_vec(slice_subrange(self.data, self.pos, end));
        self.pos = end;
        Ok(buf)
    }

    fn read_atom(&mut self, size: u64) -> (r: Result<Term>)
        ensures
            final(self).data@ == old(self).data@,
            final(self).version == old(self).version,
            match atom_at(old(self).data@, old(self).pos as int, size as int) {
                Ok((v, e)) => r is Ok && r->Ok_0@ == v && final(self).pos == e && r->Ok_0.ints_canonical(),
                Err(x) => r == Err::<Term, Error>(x),
            },
    {
        let buf = match self.read_buffer(size) {
            Ok(b) => b,
            Err(x) => return Err(x),
        };
        match utf8_text(buf.as_slice()) {
            Some(s) => {
                proof {
                    encode_utf8_decode_utf8(s@);
                }
                Ok(Term::Atom(s))
            },
            None => Err(Error::InvalidUtf8),
        }
    }

    fn read_bignum(&mut self, size: u64) -> (r: Result<Term>)
        ensures
            final(self).data@ == old(self).data@,
            final(self).version == old(self).version,
            match bignum_at(old(self).data@, old(self).pos as int, size as int) {
                Ok((v, e)) => r is Ok && r->Ok_0@ == v && final(self).pos == e && r->Ok_0.ints_canonical(),
                Err(x) => r == Err::<Term, Error>(x),
            },
    {
        let sign = match self.read_u8() {
            Ok(b) => b,
            Err(x) => return Err(x),
        };
        let buf = match self.read_buffer(size) {
            Ok(b) => b,
            Err(x) => return Err(x),
        };
        Ok(Term::Integer(BigInt::from_bytes_le(sign == 1, buf)))
    }

    /// `n` terms in a row.
    fn read_terms(&mut self, n: u64) -> (r: Result<Vec<Term>>)
        requires
            old(self).pos <= old(self).data@.len(),
        ensures
            final(self).data@ == old(self).data@,
            final(self).version == old(self).version,
            match r {
                Ok(items) => parse_seq(old(self).data@, old(self).pos as int, n as nat)
                    == Ok::<_, Error>((views(items@), final(self).pos as int)) && all_canonical(items@)
                    && old(self).pos <= final(self).pos <= old(self).data@.len(),
                Err(x) => parse_seq(old(self).data@, old(self).pos as int, n as nat) == Err::<(Seq<crate::term::Value>, int), _>(x),
            },
        decreases old(self).data@.len() - old(self).pos, n + 1,
    {
        let ghost d = self.data@;
        let ghost start = self.pos as int;
        let mut items: Vec<Term> = Vec::new();
        let mut i: u64 = 0;
        proof {
            assert(prefixed(views(items@), parse_seq(d, start, n as nat)) == parse_seq(d, start, n as nat)) by {
                if let Ok((v, e)) = parse_seq(d, start, n as nat) {
                    assert(Seq::<crate::term::Value>::empty() + v =~= v);
                }
            }
        }
        while i < n
            invariant
                self.data@ == d,
                d == old(self).data@,
                self.version == old(self).version,
                start == old(self).pos,
                i <= n,
                start <= self.pos,
                self.pos <= d.len(),
                parse_seq(d, start, n as nat) == prefixed(views(items@), parse_seq(d, self.pos as int, (n - i) as nat)),
                all_canonical(items@),
            decreases n - i,
        {
            if self.pos >= self.data.len() {
                return Err(Error::UnexpectedEnd);
            }
            let ghost before = self.pos as int;
            let ghost done = items@;
            match self.read_term() {
                Ok(t) => {
                    items.push(t);
                    proof {
                        assert(items@.drop_last() == done);
                        lemma_prefixed_step(views(done), t@, parse_seq(d, self.pos as int, (n - i - 1) as nat));
                    }
                    i = i + 1;
                },
                Err(x) => return Err(x),
            }
        }
        proof {
            assert(views(items@) + Seq::<crate::term::Value>::empty() =~= views(items@));
        }
        Ok(items)
    }

    /// `n` key/value pairs in a row.
    fn read_pairs(&mut self, n: u64) -> (r: Result<Vec<(Term, Term)>>)
        requires
            old(self).pos <= old(self).data@.len(),
        ensures
            final(self).data@ == old(self).data@,
            final(self).version == old(self).version,
            match r {
                Ok(items) => parse_pairs(old(self).data@, old(self).pos as int, n as nat)
                    == Ok::<_, Error>((pair_views(items@), final(self).pos as int)) && pairs_canonical(items@)
                    && old(self).pos <= final(self).pos <= old(self).data@.len(),
                Err(x) => parse_pairs(old(self).data@, old(self).pos as int, n as nat) == Err::<(Seq<(crate::term::Value, crate::term::Value)>, int), _>(x),
            },
        decreases old(self).data@.len() - old(self).pos, n + 1,
    {
        let ghost d = self.data@;
        let ghost start = self.pos as int;
        let mut items: Vec<(Term, Term)> = Vec::new();
        let mut i: u64 = 0;
        proof {
            assert(prefixed(pair_views(items@), parse_pairs(d, start, n as nat)) == parse_pairs(d, start, n as nat)) by {
                if let Ok((v, e)) = parse_pairs(d, start, n as nat) {
                    assert(Seq::<(crate::term::Value, crate::term::Value)>::empty() + v =~= v);
                }
            }
        }
        while i < n
            invariant
                self.data@ == d,
                d == old(self).data@,
                self.version == old(self).version,
                start == old(self).pos,
                i <= n,
                start <= self.pos,
                self.pos <= d.len(),
                parse_pairs(d, start, n as nat) == prefixed(pair_views(items@), parse_pairs(d, self.pos as int, (n - i) as nat)),
                pairs_canonical(items@),
            decreases n - i,
        {
            if self.pos >= self.data.len() {
                return Err(Error::UnexpectedEnd);
            }
            let ghost done = items@;
            let key = match self.read_term() {
                Ok(t) => t,
                Err(x) => return Err(x),
            };
            if self.pos >= self.data.len() {
                return Err(Error::UnexpectedEnd);
            }
            let value = match self.read_term() {
                Ok(t) => t,
                Err(x) => return Err(x),
            };
            let ghost pair = (key@, value@);
            items.push((key, value));
            proof {
                assert(items@.drop_last() == done);
                lemma_prefixed_step(pair_views(done), pair, parse_pairs(d, self.pos as int, (n - i - 1) as nat));
            }
            i = i + 1;
        }
        proof {
            assert(pair_views(items@) + Seq::<(crate::term::Value, crate::term::Value)>::empty() =~= pair_views(items@));
        }
        Ok(items)
    }

    /// One term, from its tag byte on.
    pub fn read_term(&mut self) -> (r: Result<Term>)
        ensures
            final(self).data@ == old(self).data@,
            final(self).version == old(self).version,
            match r {
                Ok(t) => parse(old(self).data@, old(self).pos as int) == Ok::<_, Error>((t@, final(self).pos as int))
                    && t.ints_canonical()
                    && old(self).pos < final(self).pos <= old(self).data@.len(),
                Err(x) => parse(old(self).data@, old(self).pos as int) == Err::<(crate::term::Value, int), _>(x),
            },
        decreases old(self).data@.len() - old(self).pos, 0nat,
    {
        let tag = match self.read_u8() {
            Ok(b) => b,
            Err(x) => return Err(x),
        };
        proof {
            lemma_be_value_bound(bytes_at(self.data@, self.pos as int, 1));
            lemma_be_value_bound(bytes_at(self.data@, self.pos as int, 2));
            lemma_be_value_bound(bytes_at(self.data@, self.pos as int, 4));
            lemma_be_value_bound(bytes_at(self.data@, self.pos as int, 8));
            lemma_pow256_values();
        }
        if tag == SMALL_INTEGER {
            match self.read_u8() {
                Ok(b) => Ok(Term::Integer(BigInt::from_u64(b as u64))),
                Err(x) => Err(x),
            }
        } else if tag == INTEGER {
            match self.read_field(4) {
                Ok(u) => if u >= 0x8000_0000 {
                    Ok(Term::Integer(BigInt::from_i64(u as i64 - 0x1_0000_0000)))
                } else {
                    Ok(Term::Integer(BigInt::from_u64(u)))
                },
                Err(x) => Err(x),
            }
        } else if tag == SMALL_BIG {
            match self.read_u8() {
                Ok(n) => self.read_bignum(n as u64),
                Err(x) => Err(x),
            }
        } else if tag == LARGE_BIG {
            match self.read_field(4) {
                Ok(n) => self.read_bignum(n),
                Err(x) => Err(x),
            }
        } else if tag == FLOAT {
            match self.read_field(8) {
                Ok(bits) => Ok(Term::Float(bits)),
                Err(x) => Err(x),
            }
        } else if tag == SMALL_ATOM || tag == SMALL_ATOM_UTF8 {
            match self.read_u8() {
                Ok(n) => self.read_atom(n as u64),
                Err(x) => Err(x),
            }
        } else if tag == ATOM || tag == ATOM_UTF8 {
            match self.read_field(2) {
                Ok(n) => self.read_atom(n),
                Err(x) => Err(x),
            }
        } else if tag == SMALL_TUPLE || tag == LARGE_TUPLE {
            let w: usize = if tag == SMALL_TUPLE { 1 } else { 4 };
            match self.read_field(w) {
                Ok(n) => match self.read_terms(n) {
                    Ok(items) => Ok(Term::Tuple(items)),
                    Err(x) => Err(x),
                },
                Err(x) => Err(x),
            }
        } else if tag == MAP {
            match self.read_field(4) {
                Ok(n) => match self.read_pairs(n) {
                    Ok(items) => Ok(Term::Dict(items)),
                    Err(x) => Err(x),
                },
                Err(x) => Err(x),
            }
        } else if tag == NIL {
            Ok(Term::Nil)
        } else if tag == LIST {
            match self.read_field(4) {
                Ok(n) => match self.read_terms(n) {
                    Ok(items) => match self.read_term() {
                        Ok(tail) => Ok(Term::List(items, Box::new(tail))),
                        Err(x) => Err(x),
                    },
                    Err(x) => Err(x),
                },
                Err(x) => Err(x),
            }
        } else if tag == SHORT_BINARY || tag == BINARY {
            let w: usize = if tag == SHORT_BINARY { 2 } else { 4 };
            match self.read_field(w) {
                Ok(n) => match self.read_buffer(n) {
                    Ok(b) => Ok(Term::Binary(b)),
                    Err(x) => Err(x),
                },
                Err(x) => Err(x),
            }
        } else {
            Err(Error::UnknownTermType(tag))
        }
    }
}

} // verus!
