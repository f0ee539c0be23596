use crate::bytes::{
    be_bytes, le_bytes, le_value, lemma_le_bytes_canonical, lemma_le_value_bound,
    lemma_le_value_high, lemma_le_value_high_zero, lemma_pow256_monotonic, lemma_pow256_values,
    pow256, write_be,
};
use crate::error::{Error, Result};
use crate::format::{
    encoding, encoding_pairs, encoding_seq, int_encoding, lemma_encoding_pairs_none,
    lemma_encoding_seq_none, magnitude, message, sign_byte, ATOM_UTF8,
    BINARY, FLOAT, INTEGER, LARGE_BIG, LARGE_TUPLE, LIST, MAP, NIL, SMALL_ATOM_UTF8, SMALL_BIG,
    SMALL_INTEGER, SMALL_TUPLE, U32_LIMIT, VERSION,
};
use crate::term::{lemma_pair_views, lemma_views, pair_views, views, BigInt, Term};
use vstd::prelude::*;

verus! {

/// Appends `b` to `out`.
fn push_all(out: &mut Vec<u8>, b: &[u8])
    ensures
        final(out)@ == old(out)@ + b@,
{
    let mut i: usize = 0;
    while i < b.len()
        invariant
            i <= b@.len(),
            out@ == old(out)@ + b@.subrange(0, i as int),
        decreases b@.len() - i,
    {
        out.push(b[i]);
        i = i + 1;
        assert(out@ =~= old(out)@ + b@.subrange(0, i as int));
    }
    assert(b@.subrange(0, i as int) =~= b@);
}

/// Builds one message.
pub struct Encoder {
    pub data: Vec<u8>,
}

impl Encoder {
    pub fn new() -> (r: Self)
        ensures
            r.data@ == Seq::<u8>::empty(),
    {
        Encoder { data: Vec::new() }
    }

    /// The version marker, then the canonical encoding of `term`, after what
    /// the encoder already holds.
    pub fn encode(self, term: &Term) -> (r: Result<Vec<u8>>)
        ensures
            match message(term@) {
                Some(b) => r is Ok && r->Ok_0@ == self.data@ + b,
                None => r == Err::<Vec<u8>, Error>(Error::TooLarge),
            },
    {
        let ghost start = self.data@;
        let mut encoder = self;
        encoder.data.push(VERSION);
        match encoder.encode_term(term) {
            Ok(()) => {
                proof {
                    let b = encoding(term@)->0;
                    assert(encoder.data@ =~= start + (seq![VERSION] + b));
                }
                Ok(encoder.data)
            },
            Err(x) => Err(x),
        }
    }

    fn push_be(&mut self, n: u64, k: usize)
        requires
            1 <= k <= 8,
            n < pow256(k as nat),
        ensures
            final(self).data@ == old(self).data@ + be_bytes(n as nat, k as nat),
    {
        let b = write_be(n, k);
        push_all(&mut self.data, b.as_slice());
    }

    /// The magnitude bytes of `n` below its highest byte that is not zero.
    fn significant_len(n: &BigInt) -> (len: usize)
        ensures
            len <= n.magnitude@.len(),
            le_value(n.magnitude@.subrange(0, len as int)) == le_value(n.magnitude@),
            len == 0 || n.magnitude@[len - 1] != 0,
    {
        let mut len: usize = n.magnitude.len();
        assert(n.magnitude@.subrange(0, len as int) =~= n.magnitude@);
        while len > 0 && n.magnitude[len - 1] == 0
            invariant
                len <= n.magnitude@.len(),
                le_value(n.magnitude@.subrange(0, len as int)) == le_value(n.magnitude@),
            decreases len,
        {
            proof {
                let s = n.magnitude@.subrange(0, len as int);
                lemma_le_value_high_zero(s);
                assert(s.drop_last() =~= n.magnitude@.subrange(0, len - 1));
            }
            len = len - 1;
        }
        len
    }

    /// The number spelled by the first `len` magnitude bytes, at most four.
    fn small_value(n: &BigInt, len: usize) -> (v: u64)
        requires
            len <= 4,
            len <= n.magnitude@.len(),
        ensures
            v == le_value(n.magnitude@.subrange(0, len as int)),
            v < 0x1_0000_0000,
    {
        let ghost s = n.magnitude@.subrange(0, len as int);
        let mut v: u64 = 0;
        let mut p: u64 = 1;
        let mut i: usize = 0;
        proof {
            lemma_pow256_values();
            assert(s.subrange(0, 0) =~= Seq::<u8>::empty());
        }
        while i < len
            invariant
                i <= len <= 4,
                len <= n.magnitude@.len(),
                s == n.magnitude@.subrange(0, len as int),
                p == pow256(i as nat),
                v == le_value(s.subrange(0, i as int)),
                p <= 0x1_0000_0000,
            decreases len - i,
        {
            proof {
                lemma_le_value_bound(s.subrange(0, i as int));
                assert(s.subrange(0, i + 1).drop_last() =~= s.subrange(0, i as int));
                lemma_pow256_monotonic(i as nat, 3);
                lemma_pow256_values();
            }
            let b = n.magnitude[i] as u64;
            assert(v + p * b < 256 * p) by (nonlinear_arith)
                requires
                    v < p,
                    b < 256,
            ;
            v = v + p * b;
            p = p * 256;
            i = i + 1;
        }
        proof {
            lemma_le_value_bound(s);
            lemma_pow256_monotonic(len as nat, 4);
            assert(s.subrange(0, len as int) =~= s);
        }
        v
    }

    fn encode_integer(&mut self, n: &BigInt) -> (r: Result<()>)
        ensures
            match int_encoding(n@) {
                Some(b) => r is Ok && final(self).data@ == old(self).data@ + b,
                None => r == Err::<(), Error>(Error::TooLarge),
            },
    {
        let len = Encoder::significant_len(n);
        let ghost s = n.magnitude@.subrange(0, len as int);
        let ghost m = le_value(s);
        proof {
            lemma_le_bytes_canonical(s);
            lemma_pow256_values();
            assert(magnitude(n@) == m);
        }
        if len <= 4 {
            let v = Encoder::small_value(n, len);
            let negative = n.negative && v != 0;
            if !negative && v < 256 {
                self.data.push(SMALL_INTEGER);
                self.data.push(v as u8);
                return Ok(());
            }
            if (!negative && v < 0x8000_0000) || (negative && v <= 0x8000_0000) {
                self.data.push(INTEGER);
                let u: u64 = if negative { U32_LIMIT - v } else { v };
                self.push_be(u, 4);
                return Ok(());
            }
        } else {
            proof {
                lemma_le_value_high(s);
                lemma_pow256_monotonic(4, (len - 1) as nat);
            }
        }
        let sign: u8 = if n.negative && len > 0 { 1 } else { 0 };
        assert(sign == sign_byte(n@));
        let bytes = vstd::slice::slice_subrange(n.magnitude.as_slice(), 0, len);
        assert(bytes@ == le_bytes(magnitude(n@)));
        if len < 256 {
            self.data.push(SMALL_BIG);
            self.data.push(len as u8);
            self.data.push(sign);
        } else if (len as u64) < U32_LIMIT {
            self.data.push(LARGE_BIG);
            self.push_be(len as u64, 4);
            self.data.push(sign);
        } else {
            return Err(Error::TooLarge);
        }
        push_all(&mut self.data, bytes);
        Ok(())
    }

    /// The encodings of `items`, one after another.
    fn encode_terms(&mut self, items: &Vec<Term>) -> (r: Result<()>)
        ensures
            match encoding_seq(views(items@)) {
                Some(b) => r is Ok && final(self).data@ == old(self).data@ + b,
                None => r == Err::<(), Error>(Error::TooLarge),
            },
        decreases items,
    {
        let ghost vs = views(items@);
        proof {
            lemma_views(items@);
            assert(vs.subrange(0, 0) =~= Seq::<crate::term::Value>::empty());
        }
        let mut i: usize = 0;
        while i < items.len()
            invariant
                vs == views(items@),
                vs.len() == items@.len(),
                forall|j: int| 0 <= j < items@.len() ==> #[trigger] vs[j] == items@[j].model(),
                i <= items@.len(),
                encoding_seq(vs.subrange(0, i as int)) is Some,
                self.data@ == old(self).data@ + encoding_seq(vs.subrange(0, i as int))->0,
            decreases items@.len() - i,
        {
            let ghost before = self.data@;
            proof {
                assert(vs.subrange(0, i + 1).drop_last() =~= vs.subrange(0, i as int));
            }
            match self.encode_term(&items[i]) {
                Ok(()) => {
                    proof {
                        let a = encoding_seq(vs.subrange(0, i as int))->0;
                        let b = encoding(vs[i as int])->0;
                        assert(self.data@ =~= old(self).data@ + (a + b));
                    }
                    i = i + 1;
                },
                Err(x) => {
                    proof {
                        lemma_encoding_seq_none(vs, i + 1);
                    }
                    return Err(x);
                },
            }
        }
        proof {
            assert(vs.subrange(0, i as int) =~= vs);
        }
        Ok(())
    }

    /// The encodings of each key and value of `pairs`, one after another.
    fn encode_pairs(&mut self, pairs: &Vec<(Term, Term)>) -> (r: Result<()>)
        ensures
            match encoding_pairs(pair_views(pairs@)) {
                Some(b) => r is Ok && final(self).data@ == old(self).data@ + b,
                None => r == Err::<(), Error>(Error::TooLarge),
            },
        decreases pairs,
    {
        let ghost vs = pair_views(pairs@);
        proof {
            lemma_pair_views(pairs@);
            assert(vs.subrange(0, 0) =~= Seq::<(crate::term::Value, crate::term::Value)>::empty());
        }
        let mut i: usize = 0;
        while i < pairs.len()
            invariant
                vs == pair_views(pairs@),
                vs.len() == pairs@.len(),
                forall|j: int| 0 <= j < pairs@.len() ==> #[trigger] vs[j] == (pairs@[j].0.model(), pairs@[j].1.model()),
                i <= pairs@.len(),
                encoding_pairs(vs.subrange(0, i as int)) is Some,
                self.data@ == old(self).data@ + encoding_pairs(vs.subrange(0, i as int))->0,
            decreases pairs@.len() - i,
        {
            proof {
                assert(vs.subrange(0, i + 1).drop_last() =~= vs.subrange(0, i as int));
            }
            let pair = &pairs[i];
            let ghost a = encoding_pairs(vs.subrange(0, i as int))->0;
            match self.encode_term(&pair.0) {
                Ok(()) => {},
                Err(x) => {
                    proof {
                        lemma_encoding_pairs_none(vs, i + 1);
                    }
                    return Err(x);
                },
            }
            match self.encode_term(&pair.1) {
                Ok(()) => {
                    proof {
                        let k = encoding(vs[i as int].0)->0;
                        let v = encoding(vs[i as int].1)->0;
                        assert(self.data@ =~= old(self).data@ + (a + k + v));
                    }
                    i = i + 1;
                },
                Err(x) => {
                    proof {
                        lemma_encoding_pairs_none(vs, i + 1);
                    }
                    return Err(x);
                },
            }
        }
        proof {
            assert(vs.subrange(0, i as int) =~= vs);
        }
        Ok(())
    }

    fn encode_term(&mut self, term: &Term) -> (r: Result<()>)
        ensures
            match encoding(term@) {
                Some(b) => r is Ok && final(self).data@ == old(self).data@ + b,
                None => r == Err::<(), Error>(Error::TooLarge),
            },
        decreases term,
    {
        proof {
            lemma_pow256_values();
        }
        match term {
            Term::Integer(n) => self.encode_integer(n),
            Term::Float(bits) => {
                self.data.push(FLOAT);
                self.push_be(*bits, 8);
                Ok(())
            },
            Term::Atom(text) => {
                let bytes = text.as_str().as_bytes();
                let len = bytes.len();
                if len < 256 {
                    self.data.push(SMALL_ATOM_UTF8);
                    self.data.push(len as u8);
                } else if len < 0x1_0000 {
                    self.data.push(ATOM_UTF8);
                    self.push_be(len as u64, 2);
                } else {
                    return Err(Error::TooLarge);
                }
                push_all(&mut self.data, bytes);
                Ok(())
            },
            Term::Tuple(items) => {
                let len = items.len();
                proof {
                    lemma_views(items@);
                }
                if len < 256 {
                    self.data.push(SMALL_TUPLE);
                    self.data.push(len as u8);
                } else if (len as u64) < U32_LIMIT {
                    self.data.push(LARGE_TUPLE);
                    self.push_be(len as u64, 4);
                } else {
                    return Err(Error::TooLarge);
                }
                let ghost head = self.data@;
                match self.encode_terms(items) {
                    Ok(()) => {
                        proof {
                            assert(self.data@ =~= old(self).data@ + (head.subrange(old(self).data@.len() as int, head.len() as int) + encoding_seq(views(items@))->0));
                        }
                        Ok(())
                    },
                    Err(x) => Err(x),
                }
            },
            Term::Dict(pairs) => {
                let len = pairs.len();
                proof {
                    lemma_pair_views(pairs@);
                }
                if (len as u64) < U32_LIMIT {
                    self.data.push(MAP);
                    self.push_be(len as u64, 4);
                } else {
                    return Err(Error::TooLarge);
                }
                let ghost head = self.data@;
                match self.encode_pairs(pairs) {
                    Ok(()) => {
                        proof {
                            assert(self.data@ =~= old(self).data@ + (head.subrange(old(self).data@.len() as int, head.len() as int) + encoding_pairs(pair_views(pairs@))->0));
                        }
                        Ok(())
                    },
                    Err(x) => Err(x),
                }
            },
            Term::Nil => {
                self.data.push(NIL);
                Ok(())
            },
            Term::List(items, tail) => {
                let len = items.len();
                proof {
                    lemma_views(items@);
                }
                if (len as u64) < U32_LIMIT {
                    self.data.push(LIST);
                    self.push_be(len as u64, 4);
                } else {
                    return Err(Error::TooLarge);
                }
                let ghost head = self.data@;
                match self.encode_terms(items) {
                    Ok(()) => {},
                    Err(x) => return Err(x),
                }
                let ghost middle = self.data@;
                match self.encode_term(tail) {
                    Ok(()) => {
                        proof {
                            assert(self.data@ =~= old(self).data@ + (head.subrange(old(self).data@.len() as int, head.len() as int) + encoding_seq(views(items@))->0 + encoding(tail@)->0));
                        }
                        Ok(())
                    },
                    Err(x) => Err(x),
                }
            },
            Term::Binary(b) => {
                let len = b.len();
                if (len as u64) < U32_LIMIT {
                    self.data.push(BINARY);
                    self.push_be(len as u64, 4);
                } else {
                    return Err(Error::TooLarge);
                }
                push_all(&mut self.data, b.as_slice());
                Ok(())
            },
        }
    }
}

} // verus!
