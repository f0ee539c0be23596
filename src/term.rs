use crate::bytes::{le_value, pow256};
use vstd::prelude::*;

verus! {

/// An integer of any size: a sign and a magnitude, least significant byte first.
#[derive(Debug, PartialEq, Eq)]
pub struct BigInt {
    pub negative: bool,
    pub magnitude: Vec<u8>,
}

impl View for BigInt {
    type V = int;

    open spec fn view(&self) -> int {
        if self.negative {
            -le_value(self.magnitude@)
        } else {
            le_value(self.magnitude@) as int
        }
    }
}

/// An integer written as `negative` and `magnitude` is canonical when the
/// magnitude has no high zero byte and zero is not negative.
pub open spec fn canonical(negative: bool, magnitude: Seq<u8>) -> bool {
    &&& magnitude.len() == 0 || magnitude.last() != 0
    &&& magnitude.len() == 0 ==> !negative
}

impl BigInt {
    pub open spec fn is_canonical(&self) -> bool {
        canonical(self.negative, self.magnitude@)
    }

    /// The integer with the given sign and little-endian magnitude; high zero
    /// bytes are dropped.
    pub fn from_bytes_le(negative: bool, bytes: Vec<u8>) -> (r: BigInt)
        ensures
            r@ == (if negative { -le_value(bytes@) } else { le_value(bytes@) as int }),
            r.is_canonical(),
    {
        let mut magnitude = bytes;
        while magnitude.len() > 0 && magnitude[magnitude.len() - 1] == 0
            invariant
                le_value(magnitude@) == le_value(bytes@),
            decreases magnitude.len(),
        {
            let ghost before = magnitude@;
            magnitude.pop();
            assert(magnitude@ == before.drop_last());
        }
        let negative = negative && magnitude.len() > 0;
        BigInt { negative, magnitude }
    }

    /// The integer `n`.
    pub fn from_u64(n: u64) -> (r: BigInt)
        ensures
            r@ == n as int,
            r.is_canonical(),
    {
        let mut magnitude: Vec<u8> = Vec::new();
        let mut rest: u64 = n;
        assert(pow256(0) == 1 && le_value(magnitude@) == 0);
        while rest > 0
            invariant
                n == le_value(magnitude@) + pow256(magnitude@.len()) * rest,
                rest == 0 ==> magnitude@.len() == 0 || magnitude@.last() != 0,
            decreases rest,
        {
            let ghost before = magnitude@;
            let byte = (rest % 256) as u8;
            magnitude.push(byte);
            assert(magnitude@.drop_last() == before);
            let ghost p = pow256(before.len());
            assert(p * (rest as int) == p * (rest % 256) as int + (256 * p) * (rest / 256) as int)
                by (nonlinear_arith);
            rest = rest / 256;
        }
        BigInt { negative: false, magnitude }
    }

    /// The integer `n`.
    pub fn from_i64(n: i64) -> (r: BigInt)
        ensures
            r@ == n as int,
            r.is_canonical(),
    {
        if n >= 0 {
            BigInt::from_u64(n as u64)
        } else {
            let m = BigInt::from_u64((-(n + 1)) as u64 + 1);
            BigInt { negative: true, magnitude: m.magnitude }
        }
    }
}

/// One term of the format.
#[derive(Debug, PartialEq)]
pub enum Term {
    Integer(BigInt),
    /// A 64-bit IEEE-754 double, held as its bit pattern.
    Float(u64),
    Atom(String),
    Tuple(Vec<Term>),
    /// Key/value pairs in order, repeated keys kept (a map on the wire; the
    /// name `Map` is reserved by the verifier's prelude).
    Dict(Vec<(Term, Term)>),
    Nil,
    List(Vec<Term>, Box<Term>),
    Binary(Vec<u8>),
}

/// The mathematical value of a term.
pub enum Value {
    Integer(int),
    Float(u64),
    Atom(Seq<char>),
    Tuple(Seq<Value>),
    Dict(Seq<(Value, Value)>),
    Nil,
    List(Seq<Value>, Box<Value>),
    Binary(Seq<u8>),
}

pub open spec fn views(s: Seq<Term>) -> Seq<Value>
    decreases s,
{
    if s.len() == 0 {
        Seq::empty()
    } else {
        views(s.drop_last()).push(s.last().model())
    }
}

pub open spec fn pair_views(s: Seq<(Term, Term)>) -> Seq<(Value, Value)>
    decreases s,
{
    if s.len() == 0 {
        Seq::empty()
    } else {
        pair_views(s.drop_last()).push((s.last().0.model(), s.last().1.model()))
    }
}

pub proof fn lemma_views(s: Seq<Term>)
    ensures
        views(s).len() == s.len(),
        forall|i: int| 0 <= i < s.len() ==> #[trigger] views(s)[i] == s[i].model(),
    decreases s.len(),
{
    if s.len() > 0 {
        lemma_views(s.drop_last());
    }
}

pub proof fn lemma_pair_views(s: Seq<(Term, Term)>)
    ensures
        pair_views(s).len() == s.len(),
        forall|i: int| 0 <= i < s.len() ==> #[trigger] pair_views(s)[i] == (s[i].0.model(), s[i].1.model()),
    decreases s.len(),
{
    if s.len() > 0 {
        lemma_pair_views(s.drop_last());
    }
}

/// Every integer in `s` is in canonical form.
pub open spec fn all_canonical(s: Seq<Term>) -> bool
    decreases s,
{
    s.len() == 0 || (all_canonical(s.drop_last()) && s.last().ints_canonical())
}

/// Every integer in the keys and values of `s` is in canonical form.
pub open spec fn pairs_canonical(s: Seq<(Term, Term)>) -> bool
    decreases s,
{
    s.len() == 0 || (pairs_canonical(s.drop_last()) && s.last().0.ints_canonical()
        && s.last().1.ints_canonical())
}

impl Term {
    /// Every integer in this term is in canonical form: no high zero byte,
    /// and zero is not negative.
    pub open spec fn ints_canonical(&self) -> bool
        decreases self,
    {
        match self {
            Term::Integer(n) => n.is_canonical(),
            Term::Tuple(v) => all_canonical(v@),
            Term::Dict(v) => pairs_canonical(v@),
            Term::List(v, tail) => all_canonical(v@) && tail.ints_canonical(),
            _ => true,
        }
    }

    /// The value this term stands for.
    pub open spec fn model(&self) -> Value
        decreases self,
    {
        match self {
            Term::Integer(n) => Value::Integer(n@),
            Term::Float(bits) => Value::Float(*bits),
            Term::Atom(s) => Value::Atom(s@),
            Term::Tuple(v) => Value::Tuple(views(v@)),
            Term::Dict(v) => Value::Dict(pair_views(v@)),
            Term::Nil => Value::Nil,
            Term::List(v, tail) => Value::List(views(v@), Box::new(tail.model())),
            Term::Binary(b) => Value::Binary(b@),
        }
    }
}

impl View for Term {
    type V = Value;

    open spec fn view(&self) -> Value {
        self.model()
    }
}

} // verus!
