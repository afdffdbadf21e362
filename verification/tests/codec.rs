//! Round-trip and wire-format tests for the term codec.

use erl_ext::{BigNum, BitBinary, Decoder, Encoder, ErlTermTag, Error, Eterm, Export, Fun, NewFun, Pid, Port, Reference};
use num::bigint;
use num::traits::FromPrimitive;

fn term_to_binary(term: Eterm) -> Result<Vec<u8>, Error> {
    let mut encoder = Encoder::new(Vec::new(), false, false, true);
    encoder.write_prelude()?;
    encoder.encode_term(term)?;
    Ok(encoder.wrtr)
}

fn binary_to_term(binary: Vec<u8>) -> Result<Eterm, Error> {
    let mut decoder = Decoder::new(&binary);
    assert!(matches!(decoder.read_prelude(), Ok(true)));
    decoder.decode_term()
}

/// Encodes the term, decodes the bytes back, and compares the result with
/// the original.
fn codec_eq(orig: Eterm) {
    let teleported = binary_to_term(term_to_binary(orig.clone()).unwrap()).unwrap();
    assert_eq!(orig, teleported);
}

fn big_num(n: bigint::BigInt) -> Eterm {
    let (sign, magnitude) = n.to_bytes_le();
    Eterm::BigNum(BigNum { negative: sign == bigint::Sign::Minus, magnitude })
}

#[test]
fn codec_small_integer() {
    codec_eq(Eterm::SmallInteger(0));
    codec_eq(Eterm::SmallInteger(255));
}

#[test]
fn codec_integer() {
    codec_eq(Eterm::Integer(-2147483647));
    codec_eq(Eterm::Integer(-1));
    codec_eq(Eterm::Integer(256));
    codec_eq(Eterm::Integer(2147483647));
}

#[test]
fn codec_float() {
    codec_eq(Eterm::Float((-111111.11f64).to_bits()));
    codec_eq(Eterm::Float((0.0f64).to_bits()));
    codec_eq(Eterm::Float((111111.11f64).to_bits()));
}

#[test]
fn codec_atom() {
    codec_eq(Eterm::Atom(String::from("hello_world")));
}

#[test]
fn codec_reference() {
    codec_eq({
        Eterm::Reference(Reference {
            node: String::from("my_node"),
            id: vec![0, 1, 2, 3],
            creation: 0,
        })
    });
}

#[test]
fn codec_port() {
    codec_eq({
        Eterm::Port(Port { node: String::from("my_node"), id: 4294967295, creation: 0 })
    });
}

#[test]
fn codec_pid() {
    codec_eq({
        Eterm::Pid(Pid { node: String::from("my_node"), id: 4294967295, serial: 1, creation: 0 })
    });
}

#[test]
fn codec_tuple() {
    codec_eq(Eterm::Tuple(vec![Eterm::SmallInteger(0), Eterm::Nil]));
}

#[test]
fn codec_map() {
    codec_eq({
        let mut map: Vec<(Eterm, Eterm)> = Vec::new();
        map.push((Eterm::SmallInteger(0), Eterm::Tuple(vec![])));
        map.push((Eterm::Float((0.0f64).to_bits()), Eterm::Integer(-1)));
        Eterm::EMap(map)
    });
}

#[test]
fn codec_nil() {
    codec_eq(Eterm::Nil);
}

#[test]
fn codec_string() {
    codec_eq({
        let vec: Vec<u8> = (0..255u8).collect();
        Eterm::String(vec)
    });
}

#[test]
fn codec_list() {
    codec_eq(Eterm::List(vec![Eterm::Tuple(vec![]), Eterm::SmallInteger(1), Eterm::Nil]));
}

#[test]
fn codec_binary() {
    codec_eq({
        let mut vec: Vec<u8> = Vec::with_capacity(1024);
        for i in 0..1024 {
            vec.push((i % 255) as u8);
        }
        Eterm::Binary(vec)
    });
}

#[test]
fn codec_big_num() {
    codec_eq(big_num(bigint::BigInt::new(bigint::Sign::Plus, vec![1, 1, 1, 1, 1, 1])));
    codec_eq(big_num(bigint::BigInt::new(bigint::Sign::Minus, vec![1, 1, 1, 1, 1, 1])));
    codec_eq(big_num(FromPrimitive::from_i64(i64::max_value()).unwrap()));
    codec_eq({
        let vec: Vec<u32> = (0..256u32).collect();
        big_num(bigint::BigInt::new(bigint::Sign::Plus, vec))
    });
}

#[test]
fn codec_fun() {
    codec_eq({
        let pid = Pid { node: String::from("my_node"), id: 4294967295, serial: 1, creation: 0 };
        Eterm::Fun(Fun {
            pid,
            module: String::from("my_mod"),
            index: 1,
            uniq: u32::max_value(),
            free_vars: vec![Eterm::Nil],
        })
    });
}

#[test]
fn codec_new_fun() {
    codec_eq({
        let pid = Pid {
            node: String::from("my_node"),
            id: u32::max_value(),
            serial: 1,
            creation: 0,
        };
        let vec: Vec<u8> = (0..16u8).collect();
        Eterm::NewFun(NewFun {
            arity: 128,
            uniq: vec,
            index: u32::max_value(),
            module: String::from("my_mod"),
            old_index: u32::max_value(),
            old_uniq: u32::max_value(),
            pid,
            free_vars: vec![Eterm::Nil],
        })
    });
}

#[test]
fn codec_export() {
    codec_eq({
        Eterm::Export(Export {
            module: String::from("my_mod"),
            function: String::from("my_fun"),
            arity: u8::max_value(),
        })
    });
}

#[test]
fn codec_bit_binary() {
    codec_eq(Eterm::BitBinary(BitBinary { bits: 1, data: vec![255, 255] }));
}

#[test]
fn small_integer_wire_bytes() {
    let bytes = term_to_binary(Eterm::SmallInteger(5)).unwrap();
    assert_eq!(bytes, vec![131, 97, 5]);
    let term = binary_to_term(vec![131, 97, 5]).unwrap();
    assert!(matches!(term, Eterm::SmallInteger(5)));
}

#[test]
fn list_wire_bytes() {
    let bytes = term_to_binary(Eterm::List(vec![Eterm::SmallInteger(1), Eterm::Nil])).unwrap();
    assert_eq!(bytes, vec![131, 108, 0, 0, 0, 1, 97, 1, 106]);
}

#[test]
fn new_float_wire_bytes() {
    let bytes = term_to_binary(Eterm::Float((1.5f64).to_bits())).unwrap();
    assert_eq!(bytes, vec![131, 70, 0x3f, 0xf8, 0, 0, 0, 0, 0, 0]);
    let term = binary_to_term(vec![131, 70, 0x3f, 0xf8, 0, 0, 0, 0, 0, 0]).unwrap();
    match term {
        Eterm::Float(bits) => assert_eq!(f64::from_bits(bits), 1.5),
        other => panic!("expected a float, got {:?}", other),
    }
}

#[test]
fn byte_exact_round_trip() {
    let original = vec![
        131, 104, 3, 97, 7, 108, 0, 0, 0, 1, 107, 0, 2, 104, 105, 106, 109, 0, 0, 0, 3, 1, 2, 3,
    ];
    let term = binary_to_term(original.clone()).unwrap();
    let again = term_to_binary(term).unwrap();
    assert_eq!(again, original);
}

#[test]
fn unknown_tag_is_rejected() {
    assert!(matches!(binary_to_term(vec![131, 96, 0]), Err(Error::UnknownTag(96))));
    assert!(matches!(binary_to_term(vec![131, 94]), Err(Error::UnknownTag(94))));
    assert!(matches!(binary_to_term(vec![131, 120]), Err(Error::UnknownTag(120))));
    assert!(matches!(binary_to_term(vec![131, 0]), Err(Error::UnknownTag(0))));
}

#[test]
fn truncated_input_is_rejected() {
    assert!(matches!(
        binary_to_term(vec![131, 98, 0, 0]),
        Err(Error::ByteorderUnexpectedEOF)
    ));
    assert!(matches!(binary_to_term(vec![131]), Err(Error::ByteorderUnexpectedEOF)));
    assert!(matches!(
        binary_to_term(vec![131, 109, 0, 0, 0, 9, 1, 2]),
        Err(Error::ByteorderUnexpectedEOF)
    ));
}

#[test]
fn legacy_float_text_is_rejected() {
    let mut bytes = vec![131, 99];
    let text = b"1.00000000000000000000e+00";
    bytes.extend_from_slice(text);
    while bytes.len() < 2 + 31 {
        bytes.push(0);
    }
    assert!(matches!(binary_to_term(bytes), Err(Error::BadFloat)));
}

#[test]
fn invalid_atom_text_is_rejected() {
    assert!(matches!(binary_to_term(vec![131, 100, 0, 2, 0xff, 0xfe]), Err(Error::Io)));
}

#[test]
fn required_pid_tag_is_enforced() {
    // A legacy closure whose process-identifier slot holds a Nil record.
    let bytes = vec![131, 117, 0, 0, 0, 0, 106];
    assert!(matches!(
        binary_to_term(bytes),
        Err(Error::UnexpectedTerm(ErlTermTag::NIL_EXT))
    ));
}

#[test]
fn required_atom_tag_is_enforced() {
    // A port whose node slot holds a small integer record.
    let bytes = vec![131, 102, 97, 5, 0, 0, 0, 1, 0];
    assert!(matches!(
        binary_to_term(bytes),
        Err(Error::UnexpectedTerm(ErlTermTag::SMALL_INTEGER_EXT))
    ));
}

#[test]
fn empty_list_is_a_caller_error() {
    assert!(matches!(term_to_binary(Eterm::List(vec![])), Err(Error::BadTerm)));
}

#[test]
fn short_closure_digest_is_a_caller_error() {
    let pid = Pid { node: String::from("n"), id: 1, serial: 1, creation: 0 };
    let term = Eterm::NewFun(NewFun {
        arity: 0,
        uniq: vec![1, 2, 3],
        index: 0,
        module: String::from("m"),
        old_index: 0,
        old_uniq: 0,
        pid,
        free_vars: vec![],
    });
    assert!(matches!(term_to_binary(term), Err(Error::BadTerm)));
}

#[test]
fn oversized_atom_is_a_caller_error() {
    let long = "a".repeat(70000);
    assert!(matches!(term_to_binary(Eterm::Atom(long)), Err(Error::BadTerm)));
}

#[test]
fn atom_family_selection() {
    let short_atom = || Eterm::Atom(String::from("ok"));
    let long_atom = || Eterm::Atom("x".repeat(300));

    let mut enc = Encoder::new(Vec::new(), false, true, true);
    enc.encode_term(short_atom()).unwrap();
    assert_eq!(enc.wrtr[0], 115);
    assert_eq!(enc.wrtr[1], 2);

    let mut enc = Encoder::new(Vec::new(), true, true, true);
    enc.encode_term(short_atom()).unwrap();
    assert_eq!(enc.wrtr[0], 119);

    // Length over 255 falls back to the two-byte-length family even with
    // the short-atom option on.
    let mut enc = Encoder::new(Vec::new(), false, true, true);
    enc.encode_term(long_atom()).unwrap();
    assert_eq!(enc.wrtr[0], 100);
    assert_eq!(&enc.wrtr[1..3], &[1, 44]);

    let mut enc = Encoder::new(Vec::new(), true, true, true);
    enc.encode_term(long_atom()).unwrap();
    assert_eq!(enc.wrtr[0], 118);

    let mut enc = Encoder::new(Vec::new(), false, false, true);
    enc.encode_term(short_atom()).unwrap();
    assert_eq!(enc.wrtr[0], 100);
}

#[test]
fn multibyte_atom_text_round_trips() {
    // Five characters, six UTF-8 bytes: the length field counts bytes.
    let mut enc = Encoder::new(Vec::new(), true, false, true);
    enc.encode_term(Eterm::Atom(String::from("h\u{e9}llo"))).unwrap();
    assert_eq!(enc.wrtr[0], 118);
    assert_eq!(&enc.wrtr[1..3], &[0, 6]);
    let mut bytes = vec![131];
    bytes.extend_from_slice(&enc.wrtr);
    match binary_to_term(bytes).unwrap() {
        Eterm::Atom(s) => assert_eq!(s, "h\u{e9}llo"),
        other => panic!("expected an atom, got {:?}", other),
    }
}

#[test]
fn new_fun_size_policies_agree_on_the_term() {
    let make = || {
        let pid = Pid { node: String::from("n"), id: 1, serial: 2, creation: 3 };
        Eterm::NewFun(NewFun {
            arity: 2,
            uniq: (0..16u8).collect(),
            index: 9,
            module: String::from("m"),
            old_index: 7,
            old_uniq: 8,
            pid,
            free_vars: vec![Eterm::SmallInteger(1), Eterm::Nil],
        })
    };
    let mut fair = Encoder::new(Vec::new(), false, false, true);
    fair.encode_term(make()).unwrap();
    let mut lazy = Encoder::new(Vec::new(), false, false, false);
    lazy.encode_term(make()).unwrap();

    // Same bytes except the four-byte size field after the tag.
    assert_eq!(fair.wrtr.len(), lazy.wrtr.len());
    assert_eq!(&lazy.wrtr[1..5], &[0, 0, 0, 0]);
    assert_eq!(&fair.wrtr[1..5], &[0, 0, 0, (fair.wrtr.len() - 1) as u8]);
    assert_ne!(&fair.wrtr[1..5], &lazy.wrtr[1..5]);
    assert_eq!(&fair.wrtr[5..], &lazy.wrtr[5..]);

    // Both decode to the same closure.
    let mut with_prelude_fair = vec![131];
    with_prelude_fair.extend_from_slice(&fair.wrtr);
    let mut with_prelude_lazy = vec![131];
    with_prelude_lazy.extend_from_slice(&lazy.wrtr);
    let t1 = binary_to_term(with_prelude_fair).unwrap();
    let t2 = binary_to_term(with_prelude_lazy).unwrap();
    assert_eq!(t1, t2);
    assert_eq!(t1, make());
}

#[test]
fn big_num_family_selection() {
    let small = big_num(bigint::BigInt::from_i64(77).unwrap());
    let bytes = term_to_binary(small).unwrap();
    assert_eq!(bytes, vec![131, 110, 1, 0, 77]);

    let digits: Vec<u32> = (0..80u32).map(|i| i + 1).collect();
    let large = big_num(bigint::BigInt::new(bigint::Sign::Minus, digits));
    let bytes = term_to_binary(large).unwrap();
    // 80 base-2^32 digits are 320 magnitude bytes less the high digit's
    // stripped zero bytes: more than 255 either way, so the four-byte tag.
    assert_eq!(bytes[1], 111);
    assert_eq!(bytes[6], 1);
}

#[test]
fn new_fun_size_field_is_ignored_on_decode() {
    let make = || {
        let pid = Pid { node: String::from("n"), id: 1, serial: 2, creation: 3 };
        Eterm::NewFun(NewFun {
            arity: 1,
            uniq: (0..16u8).collect(),
            index: 4,
            module: String::from("m"),
            old_index: 5,
            old_uniq: 6,
            pid,
            free_vars: vec![Eterm::Nil],
        })
    };
    let mut enc = Encoder::new(Vec::new(), false, false, false);
    enc.encode_term(make()).unwrap();
    let mut garbled = enc.wrtr.clone();
    garbled[1] = 0xde;
    garbled[2] = 0xad;
    garbled[3] = 0xbe;
    garbled[4] = 0xef;
    let mut bytes = vec![131];
    bytes.extend_from_slice(&garbled);
    assert_eq!(binary_to_term(bytes).unwrap(), make());
}

#[test]
fn big_num_boundary_magnitudes() {
    // A magnitude of exactly 255 bytes still fits the one-byte length field.
    let mut mag = vec![7u8; 255];
    mag[254] = 1;
    let bytes = term_to_binary(Eterm::BigNum(BigNum { negative: false, magnitude: mag.clone() }))
        .unwrap();
    assert_eq!(bytes[1], 110);
    assert_eq!(bytes[2], 255);
    let again = term_to_binary(binary_to_term(bytes.clone()).unwrap()).unwrap();
    assert_eq!(again, bytes);

    // One byte more takes the four-byte length field.
    let mut mag = vec![7u8; 256];
    mag[255] = 1;
    let bytes = term_to_binary(Eterm::BigNum(BigNum { negative: true, magnitude: mag })).unwrap();
    assert_eq!(bytes[1], 111);
    assert_eq!(&bytes[2..6], &[0, 0, 1, 0]);
}

#[test]
fn prelude_byte_is_checked() {
    let mut decoder = Decoder::new(&[0, 97, 5]);
    assert!(matches!(decoder.read_prelude(), Ok(false)));
    let empty: [u8; 0] = [];
    let mut decoder = Decoder::new(&empty);
    assert!(matches!(decoder.read_prelude(), Err(Error::ByteorderUnexpectedEOF)));
    let mut encoder = Encoder::new(Vec::new(), false, false, false);
    encoder.write_prelude().unwrap();
    assert_eq!(encoder.wrtr, vec![131]);
}

#[test]
fn error_descriptions_are_fixed_texts() {
    assert_eq!(Error::UnknownTag(9).description(), "Unknown term tag ID");
    assert_eq!(
        Error::ByteorderUnexpectedEOF.description(),
        "Not enough bytes to parse multibyte value"
    );
}
