//! What holds between decoding and encoding.
use crate::bytes::{
    be_bytes, be_value, le_bytes, lemma_be_round_trip, lemma_le_bytes_value, lemma_pow256_values,
};
use crate::error::Error;
use crate::format::{
    bytes_at, encoding, encoding_pairs, encoding_seq, int_encoding, is_known_tag, magnitude,
    message, parse, parse_message, parse_pairs, parse_seq, sign_byte, LARGE_BIG, SMALL_BIG,
    SMALL_INTEGER, VERSION,
};
use crate::term::Value;
use vstd::prelude::*;
use vstd::utf8::{encode_utf8, encode_utf8_decode_utf8, encode_utf8_valid_utf8};

verus! {

/// `s` holds the bytes `b` from position `p` on.
pub open spec fn holds_at(s: Seq<u8>, p: int, b: Seq<u8>) -> bool {
    &&& 0 <= p
    &&& p + b.len() <= s.len()
    &&& s.subrange(p, p + b.len()) == b
}

proof fn lemma_holds_index(s: Seq<u8>, p: int, b: Seq<u8>, i: int)
    requires
        holds_at(s, p, b),
        0 <= i < b.len(),
    ensures
        s[p + i] == b[i],
{
    assert(s.subrange(p, p + b.len())[i] == s[p + i]);
}

proof fn lemma_holds_split(s: Seq<u8>, p: int, a: Seq<u8>, b: Seq<u8>)
    requires
        holds_at(s, p, a + b),
    ensures
        holds_at(s, p, a),
        holds_at(s, p + a.len(), b),
{
    assert forall|i: int| 0 <= i < a.len() implies #[trigger] s.subrange(p, p + a.len())[i] == a[i] by {
        lemma_holds_index(s, p, a + b, i);
    }
    assert(s.subrange(p, p + a.len()) =~= a);
    assert forall|i: int| 0 <= i < b.len() implies #[trigger] s.subrange(p + a.len(), p + a.len() + b.len())[i] == b[i] by {
        lemma_holds_index(s, p, a + b, a.len() + i);
    }
    assert(s.subrange(p + a.len(), p + a.len() + b.len()) =~= b);
}

proof fn lemma_encoding_seq_cons(x: Value, rest: Seq<Value>)
    ensures
        encoding_seq(seq![x] + rest) == match (encoding(x), encoding_seq(rest)) {
            (Some(a), Some(b)) => Some(a + b),
            _ => None,
        },
    decreases rest.len(),
{
    let t = seq![x] + rest;
    assert(encoding_seq(t) == match (encoding_seq(t.drop_last()), encoding(t.last())) {
        (Some(a), Some(b)) => Some(a + b),
        _ => None::<Seq<u8>>,
    });
    if rest.len() == 0 {
        assert(t.drop_last() =~= Seq::<Value>::empty());
        assert(encoding_seq(Seq::<Value>::empty()) == Some(Seq::<u8>::empty()));
        assert(t.last() == x);
        if let Some(a) = encoding(x) {
            assert(Seq::<u8>::empty() + a =~= a + Seq::<u8>::empty());
        }
    } else {
        assert(t.drop_last() =~= seq![x] + rest.drop_last());
        assert(t.last() == rest.last());
        assert(encoding_seq(rest) == match (encoding_seq(rest.drop_last()), encoding(rest.last())) {
            (Some(a), Some(b)) => Some(a + b),
            _ => None::<Seq<u8>>,
        });
        lemma_encoding_seq_cons(x, rest.drop_last());
        if let (Some(a), Some(b), Some(c)) = (encoding(x), encoding_seq(rest.drop_last()), encoding(rest.last())) {
            assert(a + b + c =~= a + (b + c));
        }
    }
}

proof fn lemma_encoding_pairs_cons(x: (Value, Value), rest: Seq<(Value, Value)>)
    ensures
        encoding_pairs(seq![x] + rest) == match (encoding(x.0), encoding(x.1), encoding_pairs(rest)) {
            (Some(k), Some(v), Some(b)) => Some(k + v + b),
            _ => None,
        },
    decreases rest.len(),
{
    let t = seq![x] + rest;
    assert(encoding_pairs(t) == match (encoding_pairs(t.drop_last()), encoding(t.last().0), encoding(t.last().1)) {
        (Some(a), Some(k), Some(v)) => Some(a + k + v),
        _ => None::<Seq<u8>>,
    });
    if rest.len() == 0 {
        assert(t.drop_last() =~= Seq::<(Value, Value)>::empty());
        assert(encoding_pairs(Seq::<(Value, Value)>::empty()) == Some(Seq::<u8>::empty()));
        assert(t.last() == x);
        if let (Some(k), Some(v)) = (encoding(x.0), encoding(x.1)) {
            assert(Seq::<u8>::empty() + k + v =~= k + v + Seq::<u8>::empty());
        }
    } else {
        assert(t.drop_last() =~= seq![x] + rest.drop_last());
        assert(t.last() == rest.last());
        assert(encoding_pairs(rest) == match (encoding_pairs(rest.drop_last()), encoding(rest.last().0), encoding(rest.last().1)) {
            (Some(a), Some(k), Some(v)) => Some(a + k + v),
            _ => None::<Seq<u8>>,
        });
        lemma_encoding_pairs_cons(x, rest.drop_last());
        if let (Some(k), Some(v), Some(b), Some(c), Some(d)) = (
            encoding(x.0),
            encoding(x.1),
            encoding_pairs(rest.drop_last()),
            encoding(rest.last().0),
            encoding(rest.last().1),
        ) {
            assert(k + v + b + c + d =~= k + v + (b + c + d));
        }
    }
}

proof fn lemma_encoding_nonempty(v: Value)
    requires
        encoding(v) is Some,
    ensures
        encoding(v)->0.len() >= 1,
        encoding(v)->0[0] == (match v {
            Value::Integer(n) => int_encoding(n)->0[0],
            _ => encoding(v)->0[0],
        }),
{
}

proof fn lemma_one_byte(b: u8)
    ensures
        be_value(seq![b]) == b,
{
    assert(seq![b].drop_last() =~= Seq::<u8>::empty());
    assert(be_value(Seq::<u8>::empty()) == 0);
    assert(be_value(seq![b]) == be_value(seq![b].drop_last()) * 256 + b as nat);
}

proof fn lemma_parse_int(n: int, s: Seq<u8>, p: int)
    requires
        int_encoding(n) is Some,
        holds_at(s, p, int_encoding(n)->0),
    ensures
        parse(s, p) == Ok::<(Value, int), Error>((Value::Integer(n), p + int_encoding(n)->0.len())),
{
    let b = int_encoding(n)->0;
    lemma_pow256_values();
    lemma_holds_index(s, p, b, 0);
    let q = p + 1;
    if 0 <= n < 256 {
        lemma_holds_index(s, p, b, 1);
    } else if -0x8000_0000 <= n < 0x8000_0000 {
        let u = if n < 0 { n + 0x1_0000_0000 } else { n };
        lemma_be_round_trip(u as nat, 4);
        lemma_holds_split(s, p, seq![crate::format::INTEGER], be_bytes(u as nat, 4));
        assert(bytes_at(s, q, 4) == be_bytes(u as nat, 4));
    } else {
        let m = le_bytes(magnitude(n));
        lemma_le_bytes_value(magnitude(n));
        if m.len() < 256 {
            let h = seq![crate::format::SMALL_BIG, m.len() as u8, sign_byte(n)];
            lemma_holds_split(s, p, h, m);
            lemma_holds_index(s, p, b, 1);
            lemma_holds_index(s, p, b, 2);
            assert(bytes_at(s, q + 2, m.len() as int) == m);
        } else {
            let h = seq![crate::format::LARGE_BIG] + be_bytes(m.len(), 4);
            lemma_be_round_trip(m.len(), 4);
            lemma_holds_split(s, p, h + seq![sign_byte(n)], m);
            lemma_holds_split(s, p, h, seq![sign_byte(n)]);
            lemma_holds_split(s, p, seq![crate::format::LARGE_BIG], be_bytes(m.len(), 4));
            lemma_holds_index(s, p + 5, seq![sign_byte(n)], 0);
            assert(bytes_at(s, q, 4) == be_bytes(m.len(), 4));
            assert(bytes_at(s, q + 5, m.len() as int) == m);
        }
    }
}

/// Decoding the canonical encoding of a value, wherever it stands, gives the
/// value back and ends right after it.
pub proof fn lemma_parse_encoding(v: Value, s: Seq<u8>, p: int)
    requires
        encoding(v) is Some,
        holds_at(s, p, encoding(v)->0),
    ensures
        parse(s, p) == Ok::<(Value, int), Error>((v, p + encoding(v)->0.len())),
    decreases v,
{
    let b = encoding(v)->0;
    lemma_pow256_values();
    lemma_encoding_nonempty(v);
    lemma_holds_index(s, p, b, 0);
    let q = p + 1;
    match v {
        Value::Integer(n) => {
            lemma_parse_int(n, s, p);
        },
        Value::Float(bits) => {
            lemma_be_round_trip(bits as nat, 8);
            lemma_holds_split(s, p, seq![crate::format::FLOAT], be_bytes(bits as nat, 8));
            assert(bytes_at(s, q, 8) == be_bytes(bits as nat, 8));
        },
        Value::Atom(text) => {
            let u = encode_utf8(text);
            encode_utf8_valid_utf8(text);
            encode_utf8_decode_utf8(text);
            if u.len() < 256 {
                lemma_holds_index(s, p, b, 1);
                lemma_holds_split(s, p, seq![crate::format::SMALL_ATOM_UTF8, u.len() as u8], u);
                assert(bytes_at(s, q + 1, u.len() as int) == u);
            } else {
                lemma_be_round_trip(u.len(), 2);
                lemma_holds_split(s, p, seq![crate::format::ATOM_UTF8] + be_bytes(u.len(), 2), u);
                lemma_holds_split(s, p, seq![crate::format::ATOM_UTF8], be_bytes(u.len(), 2));
                assert(bytes_at(s, q, 2) == be_bytes(u.len(), 2));
                assert(bytes_at(s, q + 2, u.len() as int) == u);
            }
        },
        Value::Tuple(items) => {
            let e = encoding_seq(items)->0;
            if items.len() < 256 {
                let h = seq![crate::format::SMALL_TUPLE, items.len() as u8];
                lemma_holds_split(s, p, h, e);
                lemma_holds_index(s, p, b, 1);
                assert(bytes_at(s, q, 1) =~= seq![items.len() as u8]);
                lemma_one_byte(items.len() as u8);
                lemma_parse_encoding_seq(items, s, q + 1);
            } else {
                let h = seq![crate::format::LARGE_TUPLE] + be_bytes(items.len(), 4);
                lemma_be_round_trip(items.len(), 4);
                lemma_holds_split(s, p, h, e);
                lemma_holds_split(s, p, seq![crate::format::LARGE_TUPLE], be_bytes(items.len(), 4));
                assert(bytes_at(s, q, 4) == be_bytes(items.len(), 4));
                lemma_parse_encoding_seq(items, s, q + 4);
            }
        },
        Value::Dict(pairs) => {
            let e = encoding_pairs(pairs)->0;
            let h = seq![crate::format::MAP] + be_bytes(pairs.len(), 4);
            lemma_be_round_trip(pairs.len(), 4);
            lemma_holds_split(s, p, h, e);
            lemma_holds_split(s, p, seq![crate::format::MAP], be_bytes(pairs.len(), 4));
            assert(bytes_at(s, q, 4) == be_bytes(pairs.len(), 4));
            lemma_parse_encoding_pairs(pairs, s, q + 4);
        },
        Value::Nil => {},
        Value::List(items, tail) => {
            let e = encoding_seq(items)->0;
            let t = encoding(*tail)->0;
            let h = seq![crate::format::LIST] + be_bytes(items.len(), 4);
            lemma_be_round_trip(items.len(), 4);
            lemma_holds_split(s, p, h + e, t);
            lemma_holds_split(s, p, h, e);
            lemma_holds_split(s, p, seq![crate::format::LIST], be_bytes(items.len(), 4));
            assert(bytes_at(s, q, 4) == be_bytes(items.len(), 4));
            lemma_parse_encoding_seq(items, s, q + 4);
            lemma_parse_encoding(*tail, s, q + 4 + e.len());
            lemma_encoding_nonempty(*tail);
        },
        Value::Binary(data) => {
            let h = seq![crate::format::BINARY] + be_bytes(data.len(), 4);
            lemma_be_round_trip(data.len(), 4);
            lemma_holds_split(s, p, h, data);
            lemma_holds_split(s, p, seq![crate::format::BINARY], be_bytes(data.len(), 4));
            assert(bytes_at(s, q, 4) == be_bytes(data.len(), 4));
            assert(bytes_at(s, q + 4, data.len() as int) == data);
        },
    }
}

/// Decoding the encodings of `items`, one after another, gives them back.
pub proof fn lemma_parse_encoding_seq(items: Seq<Value>, s: Seq<u8>, p: int)
    requires
        encoding_seq(items) is Some,
        holds_at(s, p, encoding_seq(items)->0),
    ensures
        parse_seq(s, p, items.len()) == Ok::<(Seq<Value>, int), Error>((items, p + encoding_seq(items)->0.len())),
    decreases items,
{
    if items.len() > 0 {
        let x = items[0];
        let rest = items.drop_first();
        assert(items =~= seq![x] + rest);
        lemma_encoding_seq_cons(x, rest);
        let a = encoding(x)->0;
        let b = encoding_seq(rest)->0;
        lemma_holds_split(s, p, a, b);
        lemma_encoding_nonempty(x);
        lemma_parse_encoding(x, s, p);
        lemma_parse_encoding_seq(rest, s, p + a.len());
        assert(rest.len() == (items.len() - 1) as nat);
    } else {
        assert(items =~= Seq::<Value>::empty());
    }
}

/// Decoding the encodings of each key and value of `pairs` gives them back.
pub proof fn lemma_parse_encoding_pairs(pairs: Seq<(Value, Value)>, s: Seq<u8>, p: int)
    requires
        encoding_pairs(pairs) is Some,
        holds_at(s, p, encoding_pairs(pairs)->0),
    ensures
        parse_pairs(s, p, pairs.len()) == Ok::<(Seq<(Value, Value)>, int), Error>((pairs, p + encoding_pairs(pairs)->0.len())),
    decreases pairs,
{
    if pairs.len() > 0 {
        let x = pairs[0];
        let rest = pairs.drop_first();
        assert(pairs =~= seq![x] + rest);
        lemma_encoding_pairs_cons(x, rest);
        let k = encoding(x.0)->0;
        let v = encoding(x.1)->0;
        let b = encoding_pairs(rest)->0;
        lemma_holds_split(s, p, k + v, b);
        lemma_holds_split(s, p, k, v);
        lemma_encoding_nonempty(x.0);
        lemma_encoding_nonempty(x.1);
        lemma_parse_encoding(x.0, s, p);
        lemma_parse_encoding(x.1, s, p + k.len());
        lemma_parse_encoding_pairs(rest, s, p + k.len() + v.len());
        assert(rest.len() == (pairs.len() - 1) as nat);
    } else {
        assert(pairs =~= Seq::<(Value, Value)>::empty());
    }
}

/// Round trip: every value that can be encoded decodes back from its
/// encoding.
pub proof fn lemma_round_trip(v: Value)
    requires
        message(v) is Some,
    ensures
        parse_message(message(v)->0) == Ok::<Value, Error>(v),
{
    let s = message(v)->0;
    let b = encoding(v)->0;
    assert(s.subrange(1, 1 + b.len() as int) =~= b);
    lemma_parse_encoding(v, s, 1);
}

/// `s` holds a proper prefix of `b` from `p` on, up to its own end.
pub open spec fn cut_at(s: Seq<u8>, p: int, b: Seq<u8>) -> bool {
    &&& 0 <= p <= s.len()
    &&& s.len() < p + b.len()
    &&& s.subrange(p, s.len() as int) == b.subrange(0, s.len() - p)
}

proof fn lemma_cut_index(s: Seq<u8>, p: int, b: Seq<u8>, i: int)
    requires
        cut_at(s, p, b),
        0 <= i < s.len() - p,
    ensures
        s[p + i] == b[i],
{
    assert(s.subrange(p, s.len() as int)[i] == s[p + i]);
    assert(b.subrange(0, s.len() - p)[i] == b[i]);
}

/// Where `a + b` is cut, either `a` is cut, or `a` is whole and `b` is cut.
proof fn lemma_cut_split(s: Seq<u8>, p: int, a: Seq<u8>, b: Seq<u8>)
    requires
        cut_at(s, p, a + b),
    ensures
        s.len() < p + a.len() ==> cut_at(s, p, a),
        s.len() >= p + a.len() ==> holds_at(s, p, a) && cut_at(s, p + a.len(), b),
{
    if s.len() < p + a.len() {
        assert forall|i: int| 0 <= i < s.len() - p implies #[trigger] s.subrange(p, s.len() as int)[i] == a.subrange(0, s.len() - p)[i] by {
            lemma_cut_index(s, p, a + b, i);
        }
        assert(s.subrange(p, s.len() as int) =~= a.subrange(0, s.len() - p));
    } else {
        assert forall|i: int| 0 <= i < a.len() implies #[trigger] s.subrange(p, p + a.len())[i] == a[i] by {
            lemma_cut_index(s, p, a + b, i);
        }
        assert(s.subrange(p, p + a.len()) =~= a);
        let q = p + a.len();
        assert forall|i: int| 0 <= i < s.len() - q implies #[trigger] s.subrange(q, s.len() as int)[i] == b.subrange(0, s.len() - q)[i] by {
            lemma_cut_index(s, p, a + b, a.len() + i);
        }
        assert(s.subrange(q, s.len() as int) =~= b.subrange(0, s.len() - q));
    }
}

proof fn lemma_cut_int(n: int, s: Seq<u8>, p: int)
    requires
        int_encoding(n) is Some,
        cut_at(s, p, int_encoding(n)->0),
    ensures
        parse(s, p) == Err::<(Value, int), Error>(Error::UnexpectedEnd),
{
    let b = int_encoding(n)->0;
    lemma_pow256_values();
    if p < s.len() {
        lemma_cut_index(s, p, b, 0);
        if 0 <= n < 256 {
        } else if -0x8000_0000 <= n < 0x8000_0000 {
            let u = if n < 0 { n + 0x1_0000_0000 } else { n };
            lemma_be_round_trip(u as nat, 4);
        } else {
            let m = le_bytes(magnitude(n));
            if m.len() < 256 {
                let h = seq![SMALL_BIG, m.len() as u8, sign_byte(n)];
                lemma_cut_split(s, p, h, m);
                if p + 1 < s.len() {
                    lemma_cut_index(s, p, b, 1);
                }

            } else {
                let h = seq![LARGE_BIG] + be_bytes(m.len(), 4);
                lemma_be_round_trip(m.len(), 4);
                lemma_cut_split(s, p, h + seq![sign_byte(n)], m);
                if s.len() >= p + 5 {
                    assert(h + seq![sign_byte(n)] + m =~= h + (seq![sign_byte(n)] + m));
                    lemma_cut_split(s, p, h, seq![sign_byte(n)] + m);
                    lemma_holds_split(s, p, seq![LARGE_BIG], be_bytes(m.len(), 4));
                    assert(bytes_at(s, p + 1, 4) == be_bytes(m.len(), 4));
                }
            }
        }
    }
}

/// A message cut short anywhere inside a term's canonical encoding fails with
/// the end of input.
pub proof fn lemma_parse_cut(v: Value, s: Seq<u8>, p: int)
    requires
        encoding(v) is Some,
        cut_at(s, p, encoding(v)->0),
    ensures
        parse(s, p) == Err::<(Value, int), Error>(Error::UnexpectedEnd),
    decreases v,
{
    let b = encoding(v)->0;
    lemma_pow256_values();
    if p < s.len() {
        lemma_cut_index(s, p, b, 0);
        let q = p + 1;
        match v {
            Value::Integer(n) => {
                lemma_cut_int(n, s, p);
            },
            Value::Float(bits) => {
                lemma_be_round_trip(bits as nat, 8);
            },
            Value::Atom(text) => {
                let u = encode_utf8(text);
                if u.len() < 256 {
                    lemma_cut_split(s, p, seq![crate::format::SMALL_ATOM_UTF8, u.len() as u8], u);
                    if q < s.len() {
                        lemma_cut_index(s, p, b, 1);
                    }
                } else {
                    lemma_be_round_trip(u.len(), 2);
                    lemma_cut_split(s, p, seq![crate::format::ATOM_UTF8] + be_bytes(u.len(), 2), u);
                    if s.len() >= q + 2 {
                        lemma_holds_split(s, p, seq![crate::format::ATOM_UTF8], be_bytes(u.len(), 2));
                        assert(bytes_at(s, q, 2) == be_bytes(u.len(), 2));
                    }
                }
            },
            Value::Tuple(items) => {
                let e = encoding_seq(items)->0;
                if items.len() < 256 {
                    let h = seq![crate::format::SMALL_TUPLE, items.len() as u8];
                    lemma_cut_split(s, p, h, e);
                    if s.len() >= q + 1 {
                        lemma_holds_index(s, p, h, 1);
                        assert(bytes_at(s, q, 1) =~= seq![items.len() as u8]);
                        lemma_one_byte(items.len() as u8);
                        lemma_parse_cut_seq(items, s, q + 1);
                    }
                } else {
                    let h = seq![crate::format::LARGE_TUPLE] + be_bytes(items.len(), 4);
                    lemma_be_round_trip(items.len(), 4);
                    lemma_cut_split(s, p, h, e);
                    if s.len() >= q + 4 {
                        lemma_holds_split(s, p, seq![crate::format::LARGE_TUPLE], be_bytes(items.len(), 4));
                        assert(bytes_at(s, q, 4) == be_bytes(items.len(), 4));
                        lemma_parse_cut_seq(items, s, q + 4);
                    }
                }
            },
            Value::Dict(pairs) => {
                let e = encoding_pairs(pairs)->0;
                let h = seq![crate::format::MAP] + be_bytes(pairs.len(), 4);
                lemma_be_round_trip(pairs.len(), 4);
                lemma_cut_split(s, p, h, e);
                if s.len() >= q + 4 {
                    lemma_holds_split(s, p, seq![crate::format::MAP], be_bytes(pairs.len(), 4));
                    assert(bytes_at(s, q, 4) == be_bytes(pairs.len(), 4));
                    lemma_parse_cut_pairs(pairs, s, q + 4);
                }
            },
            Value::Nil => {},
            Value::List(items, tail) => {
                let e = encoding_seq(items)->0;
                let t = encoding(*tail)->0;
                let h = seq![crate::format::LIST] + be_bytes(items.len(), 4);
                lemma_be_round_trip(items.len(), 4);
                lemma_cut_split(s, p, h + e, t);
                if s.len() >= q + 4 {
                    assert(h + e + t =~= h + (e + t));
                    lemma_cut_split(s, p, h, e + t);
                    lemma_holds_split(s, p, seq![crate::format::LIST], be_bytes(items.len(), 4));
                    assert(bytes_at(s, q, 4) == be_bytes(items.len(), 4));
                    if s.len() < q + 4 + e.len() {
                        lemma_cut_split(s, p, h, e);
                        lemma_parse_cut_seq(items, s, q + 4);
                    } else {
                        lemma_holds_split(s, p, h, e);
                        lemma_parse_encoding_seq(items, s, q + 4);
                        lemma_parse_cut(*tail, s, q + 4 + e.len());
                    }
                }
            },
            Value::Binary(data) => {
                let h = seq![crate::format::BINARY] + be_bytes(data.len(), 4);
                lemma_be_round_trip(data.len(), 4);
                lemma_cut_split(s, p, h, data);
                if s.len() >= q + 4 {
                    lemma_holds_split(s, p, seq![crate::format::BINARY], be_bytes(data.len(), 4));
                    assert(bytes_at(s, q, 4) == be_bytes(data.len(), 4));
                }
            },
        }
    }
}

/// Terms in a row, cut short, fail with the end of input.
pub proof fn lemma_parse_cut_seq(items: Seq<Value>, s: Seq<u8>, p: int)
    requires
        encoding_seq(items) is Some,
        cut_at(s, p, encoding_seq(items)->0),
    ensures
        parse_seq(s, p, items.len()) == Err::<(Seq<Value>, int), Error>(Error::UnexpectedEnd),
    decreases items,
{
    if items.len() == 0 {
        assert(items =~= Seq::<Value>::empty());
    } else {
        let x = items[0];
        let rest = items.drop_first();
        assert(items =~= seq![x] + rest);
        lemma_encoding_seq_cons(x, rest);
        let a = encoding(x)->0;
        lemma_cut_split(s, p, a, encoding_seq(rest)->0);
        lemma_encoding_nonempty(x);
        assert(rest.len() == (items.len() - 1) as nat);
        if s.len() < p + a.len() {
            lemma_parse_cut(x, s, p);
        } else {
            lemma_parse_encoding(x, s, p);
            lemma_parse_cut_seq(rest, s, p + a.len());
        }
    }
}

/// Key/value pairs in a row, cut short, fail with the end of input.
pub proof fn lemma_parse_cut_pairs(pairs: Seq<(Value, Value)>, s: Seq<u8>, p: int)
    requires
        encoding_pairs(pairs) is Some,
        cut_at(s, p, encoding_pairs(pairs)->0),
    ensures
        parse_pairs(s, p, pairs.len()) == Err::<(Seq<(Value, Value)>, int), Error>(Error::UnexpectedEnd),
    decreases pairs,
{
    if pairs.len() == 0 {
        assert(pairs =~= Seq::<(Value, Value)>::empty());
    } else {
        let x = pairs[0];
        let rest = pairs.drop_first();
        assert(pairs =~= seq![x] + rest);
        lemma_encoding_pairs_cons(x, rest);
        let k = encoding(x.0)->0;
        let v = encoding(x.1)->0;
        let b = encoding_pairs(rest)->0;
        lemma_cut_split(s, p, k + v, b);
        lemma_encoding_nonempty(x.0);
        lemma_encoding_nonempty(x.1);
        assert(rest.len() == (pairs.len() - 1) as nat);
        if s.len() < p + k.len() + v.len() {
            assert(k + v + b =~= k + (v + b));
            lemma_cut_split(s, p, k, v + b);
            if s.len() < p + k.len() {
                lemma_parse_cut(x.0, s, p);
            } else {
                lemma_parse_encoding(x.0, s, p);
                lemma_cut_split(s, p + k.len(), v, b);
                lemma_parse_cut(x.1, s, p + k.len());
            }
        } else {
            lemma_holds_split(s, p, k, v);
            lemma_parse_encoding(x.0, s, p);
            lemma_parse_encoding(x.1, s, p + k.len());
            lemma_parse_cut_pairs(rest, s, p + k.len() + v.len());
        }
    }
}

/// Truncation: every proper prefix of a canonical message fails with the end
/// of input, never with a value.
pub proof fn lemma_truncated(v: Value, k: int)
    requires
        message(v) is Some,
        0 <= k < message(v)->0.len(),
    ensures
        parse_message(message(v)->0.subrange(0, k)) == Err::<Value, Error>(Error::UnexpectedEnd),
{
    let m = message(v)->0;
    let s = m.subrange(0, k);
    let b = encoding(v)->0;
    if k >= 1 {
        assert(s[0] == VERSION);
        assert(s.subrange(1, s.len() as int) =~= b.subrange(0, s.len() - 1));
        lemma_parse_cut(v, s, 1);
    }
}

/// A parsed term ends after its start and within the input; terms in a row
/// end where they started when there are none, else after it.
pub proof fn lemma_parse_ends(s: Seq<u8>, p: int)
    ensures
        parse(s, p) matches Ok((_, e)) ==> p < e <= s.len(),
    decreases s.len() - p, 0int,
{
    if 0 <= p < s.len() {
        let tag = s[p];
        let q = p + 1;
        if tag == crate::format::SMALL_TUPLE || tag == crate::format::LARGE_TUPLE {
            let w: int = if tag == crate::format::SMALL_TUPLE { 1 } else { 4 };
            if q + w <= s.len() {
                lemma_parse_seq_ends(s, q + w, be_value(bytes_at(s, q, w)));
            }
        } else if tag == crate::format::MAP {
            if q + 4 <= s.len() {
                lemma_parse_pairs_ends(s, q + 4, be_value(bytes_at(s, q, 4)));
            }
        } else if tag == crate::format::LIST {
            if q + 4 <= s.len() {
                let n = be_value(bytes_at(s, q, 4));
                lemma_parse_seq_ends(s, q + 4, n);
                if let Ok((_, e)) = parse_seq(s, q + 4, n) {
                    if p < e <= s.len() {
                        lemma_parse_ends(s, e);
                    }
                }
            }
        }
    }
}

/// Where `n` terms in a row end.
pub proof fn lemma_parse_seq_ends(s: Seq<u8>, p: int, n: nat)
    ensures
        parse_seq(s, p, n) matches Ok((items, e)) ==> items.len() == n && (n == 0 ==> e == p)
            && (n > 0 ==> p < e <= s.len()),
    decreases s.len() - p, n,
{
    if n > 0 && p < s.len() {
        lemma_parse_ends(s, p);
        if let Ok((_, e)) = parse(s, p) {
            if p < e <= s.len() {
                lemma_parse_seq_ends(s, e, (n - 1) as nat);
            }
        }
    }
}

/// Where `n` key/value pairs in a row end.
pub proof fn lemma_parse_pairs_ends(s: Seq<u8>, p: int, n: nat)
    ensures
        parse_pairs(s, p, n) matches Ok((items, e)) ==> items.len() == n && (n == 0 ==> e == p)
            && (n > 0 ==> p < e <= s.len()),
    decreases s.len() - p, n,
{
    if n > 0 && p < s.len() {
        lemma_parse_ends(s, p);
        if let Ok((_, e)) = parse(s, p) {
            if p < e < s.len() {
                lemma_parse_ends(s, e);
                if let Ok((_, f)) = parse(s, e) {
                    if e < f <= s.len() {
                        lemma_parse_pairs_ends(s, f, (n - 1) as nat);
                    }
                }
            }
        }
    }
}

/// Terms in a row are read one after another: the first where the run
/// starts, each next one where the one before it ends, and the first error
/// met is the error of the run.
pub proof fn lemma_parse_seq_step(s: Seq<u8>, p: int, n: nat)
    requires
        n > 0,
    ensures
        parse_seq(s, p, n) == match parse(s, p) {
            Ok((first, e)) => match parse_seq(s, e, (n - 1) as nat) {
                Ok((rest, f)) => Ok((seq![first] + rest, f)),
                Err(x) => Err(x),
            },
            Err(x) => Err::<(Seq<Value>, int), Error>(x),
        },
{
    lemma_parse_ends(s, p);
}

/// Key/value pairs in a row are read one after another, key first; every
/// pair is kept, repeated keys included.
pub proof fn lemma_parse_pairs_step(s: Seq<u8>, p: int, n: nat)
    requires
        n > 0,
    ensures
        parse_pairs(s, p, n) == match parse(s, p) {
            Ok((key, e)) => match parse(s, e) {
                Ok((value, f)) => match parse_pairs(s, f, (n - 1) as nat) {
                    Ok((rest, g)) => Ok((seq![(key, value)] + rest, g)),
                    Err(x) => Err(x),
                },
                Err(x) => Err(x),
            },
            Err(x) => Err::<(Seq<(Value, Value)>, int), Error>(x),
        },
{
    lemma_parse_ends(s, p);
    if let Ok((_, e)) = parse(s, p) {
        lemma_parse_ends(s, e);
    }
}

/// Byte fidelity: a message in canonical form decodes to a value whose
/// encoding is that same message, byte for byte.
pub proof fn lemma_canonical_bytes(s: Seq<u8>, v: Value)
    requires
        message(v) == Some(s),
    ensures
        parse_message(s) == Ok::<Value, Error>(v),
        message(parse_message(s)->Ok_0) == Some(s),
{
    lemma_round_trip(v);
}

/// Zero takes the one-byte form; a negative integer never does, and one
/// below the four-byte range is a bignum whose sign byte is `1`.
pub proof fn lemma_integer_sign(n: int)
    requires
        int_encoding(n) is Some,
    ensures
        n == 0 ==> int_encoding(n) == Some(seq![SMALL_INTEGER, 0u8]),
        n < 0 ==> int_encoding(n)->0[0] != SMALL_INTEGER,
        n < -0x8000_0000 ==> {
            let b = int_encoding(n)->0;
            ||| b[0] == SMALL_BIG && b[2] == 1
            ||| b[0] == LARGE_BIG && b[5] == 1
        },
{
    lemma_pow256_values();
    if n < -0x8000_0000 {
        let m = le_bytes(magnitude(n));
        if m.len() >= 256 {
            lemma_be_round_trip(m.len(), 4);
        }
    }
}

/// A tag byte that names no term type is refused as such.
pub proof fn lemma_unknown_tag(s: Seq<u8>)
    requires
        s.len() >= 2,
        s[0] == VERSION,
        !is_known_tag(s[1]),
    ensures
        parse_message(s) == Err::<Value, Error>(Error::UnknownTermType(s[1])),
{
}

} // verus!
