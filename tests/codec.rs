use erlpack::{pack, unpack, BigInt, Encoder, Error, Reader, Term};

fn integer(n: i64) -> Term {
    Term::Integer(BigInt::from_i64(n))
}

fn atom(s: &str) -> Term {
    Term::Atom(s.to_string())
}

fn round_trip(t: &Term) -> Vec<u8> {
    let bytes = pack(t).unwrap();
    assert_eq!(&unpack(&bytes).unwrap(), t);
    bytes
}

#[test]
fn decodes_small_integer() {
    assert_eq!(Term::from_bytes(&[131, 97, 14]).unwrap(), integer(14));
}

#[test]
fn decodes_float() {
    assert_eq!(
        Term::from_bytes(&[131, 70, 64, 43, 5, 30, 184, 81, 235, 133]).unwrap(),
        Term::Float(13.51f64.to_bits())
    );
}

#[test]
fn decodes_atom() {
    assert_eq!(Term::from_bytes(&[131, 100, 0, 4, 116, 114, 117, 101]).unwrap(), atom("true"));
}

#[test]
fn decodes_tuple() {
    assert_eq!(
        Term::from_bytes(&[131, 104, 2, 97, 1, 97, 2]).unwrap(),
        Term::Tuple(vec![integer(1), integer(2)])
    );
}

#[test]
fn decodes_map() {
    assert_eq!(
        Term::from_bytes(&[
            131, 116, 0, 0, 0, 2, 100, 0, 1, 97, 100, 0, 1, 65, 100, 0, 1, 98, 100, 0, 1, 66
        ])
        .unwrap(),
        Term::Dict(vec![(atom("a"), atom("A")), (atom("b"), atom("B"))])
    );
}

#[test]
fn decodes_nil_and_reencodes_it() {
    assert_eq!(Term::from_bytes(&[131, 106]).unwrap(), Term::Nil);
    assert_eq!(Term::Nil.to_bytes().unwrap(), vec![131, 106]);
}

#[test]
fn decodes_list() {
    assert_eq!(
        Term::from_bytes(&[131, 108, 0, 0, 0, 1, 100, 0, 1, 97, 106]).unwrap(),
        Term::List(vec![atom("a")], Box::new(Term::Nil))
    );
}

#[test]
fn decodes_binary() {
    let mut bytes = vec![131, 109, 0, 0, 0, 20];
    bytes.extend_from_slice(b"strings are binaries");
    assert_eq!(
        Term::from_bytes(&bytes).unwrap(),
        Term::Binary(b"strings are binaries".to_vec())
    );
    assert_eq!(Term::Binary(b"strings are binaries".to_vec()).to_bytes().unwrap(), bytes);
}

#[test]
fn decodes_short_binary() {
    assert_eq!(unpack(&[131, 107, 0, 2, 1, 2]).unwrap(), Term::Binary(vec![1, 2]));
    assert_eq!(pack(&Term::Binary(vec![1, 2])).unwrap(), vec![131, 109, 0, 0, 0, 2, 1, 2]);
}

#[test]
fn decodes_medium_integers_with_sign() {
    assert_eq!(unpack(&[131, 98, 255, 255, 255, 254]).unwrap(), integer(-2));
    assert_eq!(unpack(&[131, 98, 0, 0, 1, 0]).unwrap(), integer(256));
    assert_eq!(unpack(&[131, 98, 128, 0, 0, 0]).unwrap(), integer(-2147483648));
}

#[test]
fn decodes_bignum_with_high_zero_bytes() {
    assert_eq!(unpack(&[131, 110, 2, 0, 5, 0]).unwrap(), integer(5));
    assert_eq!(unpack(&[131, 110, 1, 1, 0]).unwrap(), integer(0));
    assert_eq!(unpack(&[131, 111, 0, 0, 0, 1, 1, 7]).unwrap(), integer(-7));
}

#[test]
fn encodes_integer_boundaries() {
    assert_eq!(round_trip(&integer(0)), vec![131, 97, 0]);
    assert_eq!(round_trip(&integer(255)), vec![131, 97, 255]);
    assert_eq!(round_trip(&integer(256)), vec![131, 98, 0, 0, 1, 0]);
    assert_eq!(round_trip(&integer(-1)), vec![131, 98, 255, 255, 255, 255]);
    assert_eq!(round_trip(&integer(2147483647)), vec![131, 98, 127, 255, 255, 255]);
    assert_eq!(round_trip(&integer(2147483648)), vec![131, 110, 4, 0, 0, 0, 0, 128]);
    assert_eq!(round_trip(&integer(-2147483648)), vec![131, 98, 128, 0, 0, 0]);
    assert_eq!(round_trip(&integer(-2147483649)), vec![131, 110, 4, 1, 1, 0, 0, 128]);
}

#[test]
fn encodes_negative_zero_as_small_integer() {
    let t = Term::Integer(BigInt { negative: true, magnitude: vec![0, 0] });
    assert_eq!(pack(&t).unwrap(), vec![131, 97, 0]);
}

#[test]
fn bignum_sign_round_trips() {
    let mut big = vec![0u8; 255];
    big[254] = 9;
    let t = Term::Integer(BigInt { negative: true, magnitude: big.clone() });
    let bytes = round_trip(&t);
    assert_eq!(&bytes[..4], &[131, 110, 255, 1]);

    let mut larger = vec![3u8; 256];
    larger[255] = 1;
    let t = Term::Integer(BigInt { negative: true, magnitude: larger });
    let bytes = round_trip(&t);
    assert_eq!(&bytes[..7], &[131, 111, 0, 0, 1, 0, 1]);
    assert_eq!(bytes.len(), 7 + 256);

    let t = Term::Integer(BigInt { negative: false, magnitude: vec![1, 2, 3, 4, 5] });
    assert_eq!(round_trip(&t), vec![131, 110, 5, 0, 1, 2, 3, 4, 5]);
}

#[test]
fn encodes_atom_boundaries() {
    let short = "a".repeat(255);
    let bytes = round_trip(&atom(&short));
    assert_eq!(&bytes[..3], &[131, 119, 255]);
    let long = "a".repeat(256);
    let bytes = round_trip(&atom(&long));
    assert_eq!(&bytes[..4], &[131, 118, 1, 0]);
    assert_eq!(pack(&atom("ok")).unwrap(), vec![131, 119, 2, 111, 107]);
    assert_eq!(pack(&atom(&"a".repeat(65536))), Err(Error::TooLarge));
}

#[test]
fn encodes_tuple_boundaries() {
    let small = Term::Tuple((0..255).map(|_| Term::Nil).collect());
    assert_eq!(&round_trip(&small)[..3], &[131, 104, 255]);
    let large = Term::Tuple((0..256).map(|_| Term::Nil).collect());
    assert_eq!(&round_trip(&large)[..6], &[131, 105, 0, 0, 1, 0]);
}

#[test]
fn round_trips_nested_terms() {
    let t = Term::Dict(vec![
        (atom("k"), Term::List(vec![integer(1), integer(-300)], Box::new(atom("tail")))),
        (integer(7), Term::Tuple(vec![Term::Float(2.5f64.to_bits()), Term::Binary(vec![0, 255])])),
        (integer(7), Term::Nil),
    ]);
    round_trip(&t);
}

#[test]
fn truncated_messages_fail_with_unexpected_end() {
    let terms = vec![
        integer(14),
        integer(-5),
        integer(2147483648),
        Term::Integer(BigInt { negative: false, magnitude: vec![1; 300] }),
        Term::Float(1.5f64.to_bits()),
        atom("abc"),
        atom(&"é".repeat(200)),
        Term::Tuple(vec![integer(1), atom("x")]),
        Term::Tuple((0..300).map(|_| Term::Nil).collect()),
        Term::Dict(vec![(integer(1), integer(2))]),
        Term::List(vec![integer(1)], Box::new(Term::Nil)),
        Term::Binary(vec![1, 2, 3]),
    ];
    for t in &terms {
        let bytes = pack(t).unwrap();
        for k in 0..bytes.len() {
            assert_eq!(unpack(&bytes[..k]), Err(Error::UnexpectedEnd));
        }
    }
    assert_eq!(unpack(&[131, 107, 0, 3, 1]), Err(Error::UnexpectedEnd));
    assert_eq!(unpack(&[131, 109, 255, 255, 255, 255, 0]), Err(Error::UnexpectedEnd));
}

#[test]
fn unknown_tag_is_refused() {
    assert_eq!(unpack(&[131, 255]), Err(Error::UnknownTermType(255)));
    assert_eq!(unpack(&[131, 104, 1, 99]), Err(Error::UnknownTermType(99)));
}

#[test]
fn wrong_version_is_refused() {
    assert_eq!(unpack(&[130, 97, 1]), Err(Error::UnknownFormatVersion(130)));
}

#[test]
fn invalid_utf8_atom_is_refused() {
    assert_eq!(unpack(&[131, 119, 1, 0xff]), Err(Error::InvalidUtf8));
    assert_eq!(unpack(&[131, 100, 0, 2, 0xc3, 0x28]), Err(Error::InvalidUtf8));
}

#[test]
fn decodes_utf8_atom() {
    assert_eq!(unpack(&[131, 119, 2, 0xc3, 0xa9]).unwrap(), atom("é"));
    assert_eq!(pack(&atom("é")).unwrap(), vec![131, 119, 2, 0xc3, 0xa9]);
}

#[test]
fn trailing_bytes_are_not_read() {
    assert_eq!(unpack(&[131, 97, 1, 42, 42]).unwrap(), integer(1));
}

#[test]
fn reader_reads_buffers_and_terms() {
    let data = [1u8, 2, 3, 106];
    let mut reader = Reader::new(&data);
    assert_eq!(reader.read_buffer(3).unwrap(), vec![1, 2, 3]);
    assert_eq!(reader.read_term().unwrap(), Term::Nil);
    assert_eq!(reader.read_buffer(1), Err(Error::UnexpectedEnd));
    let mut reader = Reader::new(&[131, 97, 3]);
    assert_eq!(reader.read().unwrap(), integer(3));
    assert_eq!(reader.version, Some(131));
}

#[test]
fn encoder_writes_version_then_term() {
    assert_eq!(Encoder::new().encode(&integer(1)).unwrap(), vec![131, 97, 1]);
    let t = Term::List(Vec::new(), Box::new(Term::Nil));
    assert_eq!(Encoder::new().encode(&t).unwrap(), vec![131, 108, 0, 0, 0, 0, 106]);
}

#[test]
fn big_integers_from_machine_integers() {
    assert_eq!(BigInt::from_i64(-256), BigInt { negative: true, magnitude: vec![0, 1] });
    assert_eq!(BigInt::from_u64(u64::MAX).magnitude, vec![255; 8]);
    assert_eq!(BigInt::from_i64(i64::MIN).magnitude, vec![0, 0, 0, 0, 0, 0, 0, 128]);
    assert_eq!(BigInt::from_bytes_le(true, vec![0, 0]), BigInt::from_i64(0));
}

#[test]
fn empty_list_still_reads_its_tail() {
    assert_eq!(
        unpack(&[131, 108, 0, 0, 0, 0, 106]).unwrap(),
        Term::List(Vec::new(), Box::new(Term::Nil))
    );
    assert_eq!(unpack(&[131, 106]).unwrap(), Term::Nil);
    assert_eq!(unpack(&[131, 108, 0, 0, 0, 0]), Err(Error::UnexpectedEnd));
}

#[test]
fn map_keeps_repeated_keys() {
    let bytes = [131, 116, 0, 0, 0, 2, 97, 1, 97, 2, 97, 1, 97, 3];
    let t = Term::Dict(vec![(integer(1), integer(2)), (integer(1), integer(3))]);
    assert_eq!(unpack(&bytes).unwrap(), t);
    assert_eq!(pack(&t).unwrap(), bytes.to_vec());
}

#[test]
fn reader_sets_version_only_on_marker() {
    let mut reader = Reader::new(&[]);
    assert_eq!(reader.read(), Err(Error::UnexpectedEnd));
    assert_eq!(reader.version, None);
    let mut reader = Reader::new(&[130, 97, 1]);
    assert_eq!(reader.read(), Err(Error::UnknownFormatVersion(130)));
    assert_eq!(reader.version, None);
    let mut reader = Reader::new(&[131, 106]);
    assert_eq!(reader.read().unwrap(), Term::Nil);
    assert_eq!(reader.version, Some(131));
    assert_eq!(reader.pos, 2);
}

#[test]
fn decoded_bignums_are_canonical() {
    match unpack(&[131, 110, 3, 1, 9, 0, 0]).unwrap() {
        Term::Integer(n) => {
            assert!(n.negative);
            assert_eq!(n.magnitude, vec![9]);
        }
        other => panic!("unexpected term {:?}", other),
    }
}
