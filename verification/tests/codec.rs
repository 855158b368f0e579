use etf_codec::decoder::Decoder;
use etf_codec::deflate::is_safe_to_inflate;
use etf_codec::encoder::{can_be_encoded_as_byte_string, float_is_finite, Encoder};
use etf_codec::errors::CodecError;
use etf_codec::integer::Integer;
use etf_codec::reader::{ReadError, Reader};
use etf_codec::term::Term;
use etf_codec::{binary_to_term, binary_to_term_2, term_to_binary, term_to_binary_2};

fn num(v: i64) -> Term {
    Term::Integer(Integer::from_i64(v))
}

fn text(s: &str) -> Term {
    Term::Str(s.to_string())
}

fn atom(s: &str) -> Term {
    Term::Atom(s.to_string())
}

fn proper(elements: Vec<Term>) -> Term {
    Term::List { elements, tail: None }
}

fn enc(t: &Term) -> Vec<u8> {
    term_to_binary_2(t).unwrap()
}

fn dec(b: &[u8]) -> Term {
    let (term, rest) = binary_to_term_2(b, None, None).unwrap();
    assert!(rest.is_empty());
    term
}

fn truncated() -> CodecError {
    CodecError::ReadError(ReadError::BufferTooShort)
}

fn assert_round_trip(t: Term) {
    let bytes = enc(&t);
    assert_eq!(dec(&bytes), t);
    let mut message = vec![131u8];
    message.extend_from_slice(&bytes);
    assert_eq!(term_to_binary(&t).unwrap(), message);
    assert_eq!(binary_to_term(&message, None, None).unwrap(), (t, vec![]));
}

fn assert_every_prefix_is_truncated(bytes: &[u8]) {
    for k in 0..bytes.len() {
        assert_eq!(binary_to_term_2(&bytes[..k], None, None), Err(truncated()), "prefix {}", k);
    }
}

#[test]
fn wrong_version_byte_is_refused() {
    assert_eq!(binary_to_term(&[130, 97, 1], None, None), Err(CodecError::UnsupportedETFVersion));
    assert_eq!(binary_to_term(&[0], None, None), Err(CodecError::UnsupportedETFVersion));
    assert_eq!(binary_to_term(&[97, 1], None, None), Err(CodecError::UnsupportedETFVersion));
    for first in 0..=255u8 {
        if first != 131 {
            assert_eq!(
                binary_to_term(&[first, 106], None, None),
                Err(CodecError::UnsupportedETFVersion)
            );
        }
    }
}

#[test]
fn empty_message_is_truncated() {
    assert_eq!(binary_to_term(&[], None, None), Err(truncated()));
    assert_eq!(binary_to_term(&[131], None, None), Err(truncated()));
    assert_eq!(binary_to_term_2(&[], None, None), Err(truncated()));
}

#[test]
fn message_hands_out_the_rest() {
    assert_eq!(binary_to_term(&[131, 97, 7, 1, 2, 3], None, None), Ok((num(7), vec![1, 2, 3])));
    assert_eq!(binary_to_term_2(&[106, 9], None, None), Ok((proper(vec![]), vec![9])));
}

#[test]
fn every_prefix_of_a_term_is_truncated() {
    assert_every_prefix_is_truncated(&enc(&num(5)));
    assert_every_prefix_is_truncated(&enc(&num(-70000)));
    assert_every_prefix_is_truncated(&enc(&num(1 << 40)));
    assert_every_prefix_is_truncated(&enc(&Term::Float(3.5f64.to_bits())));
    assert_every_prefix_is_truncated(&enc(&atom("hello")));
    assert_every_prefix_is_truncated(&enc(&text("hello")));
    assert_every_prefix_is_truncated(&enc(&Term::Binary(vec![1, 2, 3])));
    assert_every_prefix_is_truncated(&enc(&Term::BitString { bytes: vec![1, 2], last_byte_bits: 5 }));
    assert_every_prefix_is_truncated(&enc(&proper(vec![num(1), num(2), num(3)])));
    assert_every_prefix_is_truncated(&enc(&Term::List {
        elements: vec![num(1), atom("x")],
        tail: Some(Box::new(num(4))),
    }));
    assert_every_prefix_is_truncated(&enc(&Term::Tuple(vec![atom("ok"), proper(vec![num(300)])])));
    assert_every_prefix_is_truncated(&enc(&Term::Dict(vec![(text("a"), num(1)), (text("b"), num(2))])));
    assert_every_prefix_is_truncated(&enc(&Term::Pid {
        node: Box::new(text("n@h")),
        id: 1,
        serial: 2,
        creation: 3,
    }));
    assert_every_prefix_is_truncated(&enc(&Term::Reference {
        node: Box::new(text("n@h")),
        creation: 1,
        id: vec![1, 2, 3, 4, 5, 6, 7, 8],
    }));
    assert_every_prefix_is_truncated(&fun_bytes());
    assert_every_prefix_is_truncated(&[103, 100, 0, 1, 110, 0, 0, 0, 1, 0, 0, 0, 2, 3]);
    assert_every_prefix_is_truncated(&[114, 0, 1, 115, 1, 110, 9, 1, 2, 3, 4]);
}

#[test]
fn every_prefix_of_a_message_is_truncated() {
    let message = term_to_binary(&Term::Tuple(vec![num(1), text("two"), atom("three")])).unwrap();
    for k in 0..message.len() {
        assert_eq!(binary_to_term(&message[..k], None, None), Err(truncated()));
    }
}

#[test]
fn round_trip_integers() {
    assert_round_trip(num(0));
    assert_round_trip(num(255));
    assert_round_trip(num(256));
    assert_round_trip(num(2147483647));
    assert_round_trip(num(-2147483648));
    assert_round_trip(num(1 << 40));
    assert_round_trip(num(-(1 << 40)));
    assert_round_trip(num(-1));
    assert_round_trip(num(i64::MAX));
    assert_round_trip(num(i64::MIN));
    let mut digits = vec![7u8; 300];
    digits[299] = 1;
    assert_round_trip(Term::Integer(Integer::from_le_bytes(true, &digits)));
}

#[test]
fn round_trip_float() {
    assert_round_trip(Term::Float(3.5f64.to_bits()));
    assert_round_trip(Term::Float((-0.0f64).to_bits()));
    assert_round_trip(Term::Float(f64::MAX.to_bits()));
    assert_round_trip(Term::Float(f64::MIN_POSITIVE.to_bits()));
}

#[test]
fn round_trip_atoms() {
    assert_round_trip(atom("hello"));
    assert_round_trip(atom(""));
    assert_round_trip(atom("h\u{e9}llo \u{8a9e}"));
    assert_round_trip(atom(&"a".repeat(255)));
    assert_round_trip(atom(&"a".repeat(256)));
    assert_round_trip(atom(&"a".repeat(65535)));
}

#[test]
fn round_trip_sentinel_atoms() {
    assert_round_trip(Term::Bool(true));
    assert_round_trip(Term::Bool(false));
    assert_round_trip(Term::Undefined);
    assert_eq!(dec(&enc(&atom("true"))), Term::Bool(true));
    assert_eq!(dec(&enc(&atom("false"))), Term::Bool(false));
    assert_eq!(dec(&enc(&atom("undefined"))), Term::Undefined);
}

#[test]
fn round_trip_binary_and_bit_string() {
    assert_round_trip(Term::Binary(vec![1, 2, 3]));
    assert_round_trip(Term::Binary(vec![]));
    assert_round_trip(Term::BitString { bytes: vec![0xab, 0xf8], last_byte_bits: 5 });
}

#[test]
fn round_trip_text() {
    assert_round_trip(text("hello"));
    assert_round_trip(text(""));
}

#[test]
fn round_trip_lists() {
    assert_round_trip(proper(vec![num(1), num(2), num(3)]));
    assert_round_trip(proper(vec![]));
    assert_round_trip(Term::List { elements: vec![num(1), num(2), num(3)], tail: Some(Box::new(num(4))) });
    assert_round_trip(Term::List {
        elements: vec![num(1)],
        tail: Some(Box::new(proper(vec![]))),
    });
    assert_round_trip(proper(vec![proper(vec![proper(vec![])]), Term::Tuple(vec![])]));
}

#[test]
fn round_trip_tuples() {
    assert_round_trip(Term::Tuple(vec![atom("ok"), num(1)]));
    assert_round_trip(Term::Tuple(vec![]));
    assert_round_trip(Term::Tuple((0..255).map(num).collect()));
    assert_round_trip(Term::Tuple((0..256).map(num).collect()));
    assert_round_trip(Term::Tuple((0..300).map(num).collect()));
}

#[test]
fn round_trip_map() {
    assert_round_trip(Term::Dict(vec![(text("a"), num(1)), (text("b"), num(2))]));
    assert_round_trip(Term::Dict(vec![]));
    assert_round_trip(Term::Dict(vec![(num(1), Term::Dict(vec![(atom("k"), proper(vec![]))]))]));
}

#[test]
fn round_trip_pid_and_reference() {
    assert_round_trip(Term::Pid { node: Box::new(text("node@host")), id: 77, serial: 3, creation: 0x01020304 });
    assert_round_trip(Term::Reference {
        node: Box::new(text("node@host")),
        creation: 0xfffffffe,
        id: vec![0, 1, 2, 3, 4, 5, 6, 7, 8, 9, 10, 11],
    });
    assert_round_trip(Term::Reference { node: Box::new(text("n")), creation: 0, id: vec![] });
}

#[test]
fn integer_forms() {
    assert_eq!(enc(&num(-1)), vec![98, 0xff, 0xff, 0xff, 0xff]);
    assert_eq!(enc(&num(255)), vec![97, 0xff]);
    assert_eq!(enc(&num(256)), vec![98, 0, 0, 1, 0]);
    assert_eq!(enc(&num(0)), vec![97, 0]);
    assert_eq!(enc(&num(2147483647)), vec![98, 0x7f, 0xff, 0xff, 0xff]);
    assert_eq!(enc(&num(-2147483648)), vec![98, 0x80, 0, 0, 0]);
    assert_eq!(enc(&num(2147483648)), vec![110, 4, 0, 0, 0, 0, 0x80]);
    assert_eq!(enc(&num(-2147483649)), vec![110, 4, 1, 1, 0, 0, 0x80]);
    assert_eq!(enc(&num(1 << 40)), vec![110, 6, 0, 0, 0, 0, 0, 0, 1]);
    assert_eq!(enc(&num(-(1 << 40))), vec![110, 6, 1, 0, 0, 0, 0, 0, 1]);
    assert_eq!(enc(&num((1 << 40) - 1)), vec![110, 5, 0, 0xff, 0xff, 0xff, 0xff, 0xff]);
}

#[test]
fn large_big_integer_form() {
    let mut digits = vec![0u8; 256];
    digits[255] = 9;
    let bytes = enc(&Term::Integer(Integer::from_le_bytes(false, &digits)));
    assert_eq!(&bytes[..6], &[111, 0, 0, 1, 0, 0]);
    assert_eq!(&bytes[6..], &digits[..]);
    let mut small = vec![0u8; 255];
    small[254] = 9;
    let bytes = enc(&Term::Integer(Integer::from_le_bytes(true, &small)));
    assert_eq!(&bytes[..3], &[110, 255, 1]);
    assert_eq!(&bytes[3..], &small[..]);
}

#[test]
fn duplicate_map_keys_keep_the_later_value() {
    let bytes = [116, 0, 0, 0, 2, 107, 0, 1, 97, 97, 1, 107, 0, 1, 97, 97, 2];
    assert_eq!(dec(&bytes), Term::Dict(vec![(text("a"), num(2))]));
}

#[test]
fn duplicate_map_keys_keep_their_place() {
    let bytes = [116, 0, 0, 0, 3, 97, 1, 97, 10, 97, 2, 97, 20, 97, 1, 97, 30];
    assert_eq!(dec(&bytes), Term::Dict(vec![(num(1), num(30)), (num(2), num(20))]));
    // The same number in another form is the same key.
    let bytes = [116, 0, 0, 0, 2, 97, 1, 97, 10, 98, 0, 0, 0, 1, 97, 30];
    assert_eq!(dec(&bytes), Term::Dict(vec![(num(1), num(30))]));
}

#[test]
fn encoder_writes_duplicate_keys_as_they_are() {
    let twice = Term::Dict(vec![(num(1), num(2)), (num(1), num(3))]);
    assert_eq!(enc(&twice), vec![116, 0, 0, 0, 2, 97, 1, 97, 2, 97, 1, 97, 3]);
}

#[test]
fn compressed_message() {
    let stored = [
        131, 80, 0, 0, 0, 12, 120, 1, 1, 12, 0, 243, 255, 108, 0, 0, 0, 3, 97, 1, 97, 2, 97, 3, 106,
        11, 97, 2, 3,
    ];
    let expected = proper(vec![num(1), num(2), num(3)]);
    assert_eq!(binary_to_term(&stored, None, None), Ok((dec(&enc(&expected)), vec![])));
    let deflated = [
        131, 80, 0, 0, 0, 12, 120, 156, 203, 97, 96, 96, 96, 78, 100, 76, 100, 74, 100, 206, 2, 0,
        11, 97, 2, 3,
    ];
    assert_eq!(binary_to_term(&deflated, None, None), Ok((expected, vec![])));
    let repeated = [
        131, 80, 0, 0, 0, 65, 120, 218, 203, 101, 96, 96, 176, 73, 76, 74, 38, 27, 1, 0, 230, 188,
        23, 162,
    ];
    let (term, rest) = binary_to_term(&repeated, None, None).unwrap();
    assert_eq!(term, Term::Binary(b"abcabcabcabc".repeat(5)));
    assert!(rest.is_empty());
}

#[test]
fn compressed_size_mismatch() {
    let declares_too_much = [
        131, 80, 0, 0, 0, 13, 120, 156, 203, 97, 96, 96, 96, 78, 100, 76, 100, 74, 100, 206, 2, 0,
        11, 97, 2, 3,
    ];
    assert_eq!(binary_to_term(&declares_too_much, None, None), Err(CodecError::CompressedSizeMismatch));
    let declares_too_little = [
        131, 80, 0, 0, 0, 11, 120, 156, 203, 97, 96, 96, 96, 78, 100, 76, 100, 74, 100, 206, 2, 0,
        11, 97, 2, 3,
    ];
    assert_eq!(binary_to_term(&declares_too_little, None, None), Err(CodecError::CompressedSizeMismatch));
}

#[test]
fn inflated_bytes_are_checked_against_the_declared_size() {
    let mut decoder = Decoder::new(None, None).unwrap();
    assert_eq!(decoder.decode_inflated(3, &[97, 1]), Err(CodecError::CompressedSizeMismatch));
    assert_eq!(decoder.decode_inflated(1, &[97, 1]), Err(CodecError::CompressedSizeMismatch));
    assert_eq!(decoder.decode_inflated(2, &[97, 1]), Ok((num(1), vec![])));
    assert_eq!(decoder.decode_inflated(3, &[97, 1, 9]), Ok((num(1), vec![9])));
    assert_eq!(decoder.decode_inflated(0, &[]), Err(truncated()));
    assert_eq!(decoder.decode_inflated(1, &[131]), Err(CodecError::UnknownTermTagByte { b: 131 }));
}

#[test]
fn broken_compressed_stream() {
    assert_eq!(binary_to_term(&[131, 80, 0, 0, 0, 1, 1, 2, 3, 4], None, None), Err(CodecError::IOError));
    assert_eq!(binary_to_term(&[131, 80, 0, 0, 0, 1], None, None), Err(CodecError::IOError));
    assert_eq!(binary_to_term(&[131, 80, 0, 0], None, None), Err(truncated()));
}

#[test]
fn compressed_tag_inside_a_term_is_no_tag() {
    assert_eq!(binary_to_term_2(&[80, 0, 0, 0, 1], None, None), Err(CodecError::UnknownTermTagByte { b: 80 }));
    assert_eq!(binary_to_term(&[131, 104, 1, 80], None, None), Err(CodecError::UnknownTermTagByte { b: 80 }));
}

#[test]
fn non_finite_float_is_refused() {
    for value in [f64::NAN, f64::INFINITY, f64::NEG_INFINITY] {
        let bits = value.to_bits();
        assert!(!float_is_finite(bits));
        let mut encoder = Encoder::new();
        encoder.data.push(1);
        encoder.data.push(2);
        assert_eq!(encoder.encode(&Term::Float(bits)), Err(CodecError::NonFiniteFloat { bits }));
        assert_eq!(encoder.data, vec![1, 2]);
        assert_eq!(encoder.encode_default(&Term::Float(bits)), Err(CodecError::NonFiniteFloat { bits }));
        assert_eq!(encoder.data, vec![1, 2]);
        assert_eq!(term_to_binary(&Term::Float(bits)), Err(CodecError::NonFiniteFloat { bits }));
    }
    assert!(float_is_finite(3.5f64.to_bits()));
    assert!(float_is_finite(0));
    assert!(float_is_finite(f64::MAX.to_bits()));
}

#[test]
fn failure_inside_a_container_leaves_the_buffer() {
    let bits = f64::NAN.to_bits();
    let bad = Term::Float(bits);
    let mut encoder = Encoder::new();
    encoder.encode(&num(1)).unwrap();
    let before = encoder.data.clone();
    let nested = vec![
        proper(vec![num(1), Term::Float(bits)]),
        Term::List { elements: vec![num(1)], tail: Some(Box::new(Term::Float(bits))) },
        Term::Tuple(vec![atom("a"), Term::Tuple(vec![Term::Float(bits)])]),
        Term::Dict(vec![(num(1), num(2)), (num(3), Term::Float(bits))]),
        Term::Dict(vec![(Term::Float(bits), num(2))]),
    ];
    for term in nested.iter() {
        assert_eq!(encoder.encode(term), Err(CodecError::NonFiniteFloat { bits }));
        assert_eq!(encoder.data, before);
    }
    assert_eq!(encoder.encode(&bad), Err(CodecError::NonFiniteFloat { bits }));
    encoder.encode(&num(2)).unwrap();
    assert_eq!(encoder.data, vec![97, 1, 97, 2]);
}

#[test]
fn float_form() {
    assert_eq!(enc(&Term::Float(3.5f64.to_bits())), vec![70, 0x40, 0x0c, 0, 0, 0, 0, 0, 0]);
    assert_eq!(dec(&[70, 0x40, 0x0c, 0, 0, 0, 0, 0, 0]), Term::Float(3.5f64.to_bits()));
    assert_eq!(dec(&[70, 0x7f, 0xf0, 0, 0, 0, 0, 0, 0]), Term::Float(f64::INFINITY.to_bits()));
}

#[test]
fn old_float_form_is_no_tag() {
    assert_eq!(binary_to_term_2(&[99, 0, 0], None, None), Err(CodecError::UnknownTermTagByte { b: 99 }));
    assert_eq!(binary_to_term_2(&[0], None, None), Err(CodecError::UnknownTermTagByte { b: 0 }));
    assert_eq!(binary_to_term_2(&[255], None, None), Err(CodecError::UnknownTermTagByte { b: 255 }));
}

#[test]
fn atom_forms() {
    assert_eq!(enc(&atom("hello")), vec![119, 5, 104, 101, 108, 108, 111]);
    assert_eq!(enc(&Term::Bool(true)), vec![119, 4, 116, 114, 117, 101]);
    assert_eq!(enc(&Term::Bool(false)), vec![119, 5, 102, 97, 108, 115, 101]);
    assert_eq!(enc(&Term::Undefined), vec![119, 9, 117, 110, 100, 101, 102, 105, 110, 101, 100]);
    assert_eq!(enc(&atom("\u{e9}")), vec![119, 2, 0xc3, 0xa9]);
    let long = enc(&atom(&"x".repeat(256)));
    assert_eq!(&long[..3], &[118, 1, 0]);
    assert_eq!(long.len(), 259);
    let short = enc(&atom(&"x".repeat(255)));
    assert_eq!(&short[..2], &[119, 255]);
    assert_eq!(short.len(), 257);
}

#[test]
fn atom_too_long() {
    assert_eq!(term_to_binary_2(&atom(&"x".repeat(65536))), Err(CodecError::AtomTooLong));
    assert_eq!(term_to_binary_2(&atom(&"\u{e9}".repeat(32768))), Err(CodecError::AtomTooLong));
    assert!(term_to_binary_2(&atom(&"x".repeat(65535))).is_ok());
    let pid = Term::Pid { node: Box::new(text(&"x".repeat(65536))), id: 0, serial: 0, creation: 0 };
    let mut encoder = Encoder::new();
    encoder.data.push(5);
    assert_eq!(encoder.encode(&pid), Err(CodecError::AtomTooLong));
    assert_eq!(encoder.data, vec![5]);
    let reference = Term::Reference { node: Box::new(text(&"x".repeat(65536))), creation: 0, id: vec![] };
    assert_eq!(encoder.encode(&reference), Err(CodecError::AtomTooLong));
    assert_eq!(encoder.data, vec![5]);
}

#[test]
fn decoded_atom_forms() {
    assert_eq!(dec(&[100, 0, 2, 111, 107]), atom("ok"));
    assert_eq!(dec(&[118, 0, 2, 111, 107]), atom("ok"));
    assert_eq!(dec(&[115, 2, 111, 107]), atom("ok"));
    assert_eq!(dec(&[119, 2, 111, 107]), atom("ok"));
    assert_eq!(dec(&[115, 0]), atom(""));
    // One byte for each character: a byte above 127 is that code point.
    assert_eq!(dec(&[115, 2, 0xe9, 0x41]), atom("\u{e9}A"));
    assert_eq!(dec(&[100, 0, 1, 0xff]), atom("\u{ff}"));
    // In UTF-8 the same bytes are no text.
    assert_eq!(binary_to_term_2(&[119, 2, 0xe9, 0x41], None, None), Err(CodecError::EncodingError));
    assert_eq!(binary_to_term_2(&[118, 0, 1, 0xff], None, None), Err(CodecError::EncodingError));
    assert_eq!(dec(&[119, 2, 0xc3, 0xa9]), atom("\u{e9}"));
}

#[test]
fn decoded_sentinel_atoms() {
    assert_eq!(dec(&[115, 4, 116, 114, 117, 101]), Term::Bool(true));
    assert_eq!(dec(&[100, 0, 5, 102, 97, 108, 115, 101]), Term::Bool(false));
    assert_eq!(dec(&[118, 0, 9, 117, 110, 100, 101, 102, 105, 110, 101, 100]), Term::Undefined);
    for option in ["bytes", "str", "Atom", "StrictAtom"] {
        let (term, _) = binary_to_term_2(&[119, 4, 116, 114, 117, 101], Some(option), None).unwrap();
        assert_eq!(term, Term::Bool(true));
    }
    assert_eq!(dec(&[119, 4, 84, 114, 117, 101]), atom("True"));
}

#[test]
fn atom_representations() {
    let bytes = [119, 2, 0xc3, 0xa9];
    assert_eq!(binary_to_term_2(&bytes, Some("bytes"), None), Ok((Term::Binary(vec![0xc3, 0xa9]), vec![])));
    assert_eq!(binary_to_term_2(&bytes, Some("str"), None), Ok((text("\u{e9}"), vec![])));
    assert_eq!(binary_to_term_2(&bytes, Some("Atom"), None), Ok((atom("\u{e9}"), vec![])));
    assert_eq!(binary_to_term_2(&bytes, Some("StrictAtom"), None), Ok((atom("\u{e9}"), vec![])));
    // One byte for each character, handed out as bytes in UTF-8.
    assert_eq!(binary_to_term_2(&[115, 1, 0xe9], Some("bytes"), None), Ok((Term::Binary(vec![0xc3, 0xa9]), vec![])));
}

#[test]
fn byte_string_representations() {
    let bytes = [107, 0, 3, 97, 98, 99];
    assert_eq!(binary_to_term_2(&bytes, None, None), Ok((text("abc"), vec![])));
    assert_eq!(binary_to_term_2(&bytes, None, Some("str")), Ok((text("abc"), vec![])));
    assert_eq!(binary_to_term_2(&bytes, None, Some("bytes")), Ok((Term::Binary(vec![97, 98, 99]), vec![])));
    assert_eq!(
        binary_to_term_2(&bytes, None, Some("int_list")),
        Ok((proper(vec![num(97), num(98), num(99)]), vec![]))
    );
    assert_eq!(binary_to_term_2(&[107, 0, 1, 0xe9], None, Some("str")), Err(CodecError::EncodingError));
    assert_eq!(binary_to_term_2(&[107, 0, 1, 0xe9], None, Some("int_list")), Ok((proper(vec![num(233)]), vec![])));
    assert_eq!(binary_to_term_2(&[107, 0, 0], None, Some("int_list")), Ok((proper(vec![]), vec![])));
}

#[test]
fn text_forms() {
    assert_eq!(enc(&text("abc")), vec![107, 0, 3, 97, 98, 99]);
    assert_eq!(enc(&text("")), vec![107, 0, 0]);
    // One byte for each character up to code point 255.
    assert_eq!(enc(&text("\u{e9}")), vec![107, 0, 1, 0xe9]);
    // A character above 255 makes the text a list of code points.
    assert_eq!(enc(&text("\u{8a9e}")), vec![108, 0, 0, 0, 1, 98, 0, 0, 0x8a, 0x9e, 106]);
    assert_eq!(
        enc(&text("a\u{e9}\u{8a9e}")),
        vec![108, 0, 0, 0, 3, 97, 97, 97, 0xe9, 98, 0, 0, 0x8a, 0x9e, 106]
    );
    assert_eq!(enc(&text("\u{10ffff}")), vec![108, 0, 0, 0, 1, 98, 0, 0x10, 0xff, 0xff, 106]);
    assert_eq!(dec(&enc(&text("\u{8a9e}"))), proper(vec![num(0x8a9e)]));
}

#[test]
fn long_text_is_a_list() {
    let fits = "a".repeat(65535);
    let bytes = enc(&text(&fits));
    assert_eq!(&bytes[..3], &[107, 0xff, 0xff]);
    assert_eq!(bytes.len(), 3 + 65535);
    let too_long = "a".repeat(65536);
    let bytes = enc(&text(&too_long));
    assert_eq!(&bytes[..7], &[108, 0, 1, 0, 0, 97, 97]);
    assert_eq!(bytes.len(), 5 + 2 * 65536 + 1);
    assert_eq!(bytes[bytes.len() - 1], 106);
    assert!(can_be_encoded_as_byte_string(&fits));
    assert!(!can_be_encoded_as_byte_string(&too_long));
    assert!(can_be_encoded_as_byte_string("\u{ff}"));
    assert!(!can_be_encoded_as_byte_string("\u{100}"));
    assert!(can_be_encoded_as_byte_string(""));
}

#[test]
fn decoded_integers() {
    assert_eq!(dec(&[97, 200]), num(200));
    assert_eq!(dec(&[98, 0xff, 0xff, 0xff, 0xfe]), num(-2));
    assert_eq!(dec(&[98, 0x80, 0, 0, 0]), num(-2147483648));
    assert_eq!(dec(&[110, 1, 0, 5]), num(5));
    assert_eq!(dec(&[110, 2, 1, 0, 1]), num(-256));
    // Any sign byte but zero is minus.
    assert_eq!(dec(&[110, 2, 7, 0, 1]), num(-256));
    // Leading zeros and minus zero do not make another number.
    assert_eq!(dec(&[110, 4, 0, 5, 0, 0, 0]), num(5));
    assert_eq!(dec(&[110, 0, 1]), num(0));
    assert_eq!(dec(&[110, 2, 1, 0, 0]), num(0));
    assert_eq!(dec(&[111, 0, 0, 0, 8, 0, 0, 0, 0, 0, 0, 0, 0, 0x80]), Term::Integer(Integer::from_le_bytes(false, &[0, 0, 0, 0, 0, 0, 0, 0x80])));
}

#[test]
fn decoded_binary_and_bit_string() {
    assert_eq!(dec(&[109, 0, 0, 0, 2, 8, 9]), Term::Binary(vec![8, 9]));
    assert_eq!(dec(&[77, 0, 0, 0, 2, 5, 0xab, 0xf8]), Term::BitString { bytes: vec![0xab, 0xf8], last_byte_bits: 5 });
    assert_eq!(enc(&Term::Binary(vec![8, 9])), vec![109, 0, 0, 0, 2, 8, 9]);
    assert_eq!(
        enc(&Term::BitString { bytes: vec![0xab, 0xf8], last_byte_bits: 5 }),
        vec![77, 0, 0, 0, 2, 5, 0xab, 0xf8]
    );
}

#[test]
fn decoded_lists() {
    assert_eq!(dec(&[106]), proper(vec![]));
    assert_eq!(dec(&[108, 0, 0, 0, 0, 106]), proper(vec![]));
    assert_eq!(dec(&[108, 0, 0, 0, 2, 97, 1, 106, 106]), proper(vec![num(1), proper(vec![])]));
    assert_eq!(
        dec(&[108, 0, 0, 0, 1, 97, 1, 97, 2]),
        Term::List { elements: vec![num(1)], tail: Some(Box::new(num(2))) }
    );
    assert_eq!(binary_to_term_2(&[108, 0, 0, 0, 1, 97, 1], None, None), Err(truncated()));
    assert_eq!(binary_to_term_2(&[108, 0, 0, 0, 1, 97, 1, 1], None, None), Err(CodecError::UnknownTermTagByte { b: 1 }));
    assert_eq!(binary_to_term_2(&[108, 0xff, 0xff, 0xff, 0xff, 97, 1], None, None), Err(truncated()));
}

#[test]
fn list_forms() {
    assert_eq!(enc(&proper(vec![])), vec![108, 0, 0, 0, 0, 106]);
    assert_eq!(enc(&proper(vec![num(1), num(2), num(3)])), vec![108, 0, 0, 0, 3, 97, 1, 97, 2, 97, 3, 106]);
    assert_eq!(
        enc(&Term::List { elements: vec![num(1), num(2), num(3)], tail: Some(Box::new(num(4))) }),
        vec![108, 0, 0, 0, 3, 97, 1, 97, 2, 97, 3, 97, 4]
    );
}

#[test]
fn tuple_forms() {
    assert_eq!(enc(&Term::Tuple(vec![num(1), num(2)])), vec![104, 2, 97, 1, 97, 2]);
    assert_eq!(enc(&Term::Tuple(vec![])), vec![104, 0]);
    let small = enc(&Term::Tuple((0..255).map(|_| num(0)).collect()));
    assert_eq!(&small[..2], &[104, 255]);
    let large = enc(&Term::Tuple((0..256).map(|_| num(0)).collect()));
    assert_eq!(&large[..5], &[105, 0, 0, 1, 0]);
    assert_eq!(dec(&[104, 1, 106]), Term::Tuple(vec![proper(vec![])]));
    assert_eq!(dec(&[105, 0, 0, 0, 1, 106]), Term::Tuple(vec![proper(vec![])]));
    assert_eq!(binary_to_term_2(&[104, 2, 106], None, None), Err(truncated()));
}

#[test]
fn map_forms() {
    assert_eq!(
        enc(&Term::Dict(vec![(text("a"), num(1)), (text("b"), num(2))])),
        vec![116, 0, 0, 0, 2, 107, 0, 1, 97, 97, 1, 107, 0, 1, 98, 97, 2]
    );
    assert_eq!(dec(&[116, 0, 0, 0, 0]), Term::Dict(vec![]));
    assert_eq!(binary_to_term_2(&[116, 0, 0, 0, 1, 97, 1], None, None), Err(truncated()));
}

#[test]
fn pid_forms() {
    let pid = Term::Pid { node: Box::new(text("n@h")), id: 1, serial: 2, creation: 3 };
    let current = vec![88, 119, 3, 110, 64, 104, 0, 0, 0, 1, 0, 0, 0, 2, 0, 0, 0, 3];
    assert_eq!(enc(&pid), current);
    assert_eq!(dec(&current), pid);
    // A node that is an atom goes out as the same bytes.
    assert_eq!(enc(&Term::Pid { node: Box::new(atom("n@h")), id: 1, serial: 2, creation: 3 }), current);
    // The old form has one byte of creation.
    assert_eq!(dec(&[103, 100, 0, 3, 110, 64, 104, 0, 0, 0, 1, 0, 0, 0, 2, 3]), pid);
    // The node comes out as text whatever the option for atoms says.
    for option in ["bytes", "str", "Atom", "StrictAtom"] {
        assert_eq!(binary_to_term_2(&current, Some(option), None), Ok((dec(&current), vec![])));
    }
    // The option holds again behind the node.
    let pair = [104, 2, 88, 119, 1, 110, 0, 0, 0, 1, 0, 0, 0, 2, 0, 0, 0, 3, 119, 1, 97];
    assert_eq!(
        binary_to_term_2(&pair, Some("bytes"), None),
        Ok((
            Term::Tuple(vec![
                Term::Pid { node: Box::new(text("n")), id: 1, serial: 2, creation: 3 },
                Term::Binary(vec![97]),
            ]),
            vec![]
        ))
    );
}

#[test]
fn reference_forms() {
    let reference = Term::Reference { node: Box::new(text("n@h")), creation: 0x01020304, id: vec![9, 8, 7, 6] };
    let current = vec![90, 0, 1, 119, 3, 110, 64, 104, 1, 2, 3, 4, 9, 8, 7, 6];
    assert_eq!(enc(&reference), current);
    assert_eq!(dec(&current), reference);
    assert_eq!(
        dec(&[114, 0, 2, 115, 1, 110, 7, 1, 2, 3, 4, 5, 6, 7, 8]),
        Term::Reference { node: Box::new(text("n")), creation: 7, id: vec![1, 2, 3, 4, 5, 6, 7, 8] }
    );
    assert_eq!(binary_to_term_2(&[114, 0, 2, 115, 1, 110, 7, 1, 2, 3, 4, 5, 6, 7], None, None), Err(truncated()));
}

#[test]
fn node_may_be_any_term() {
    assert_eq!(
        dec(&[88, 97, 5, 0, 0, 0, 1, 0, 0, 0, 2, 0, 0, 0, 3]),
        Term::Pid { node: Box::new(num(5)), id: 1, serial: 2, creation: 3 }
    );
    assert_eq!(
        dec(&[103, 115, 4, 116, 114, 117, 101, 0, 0, 0, 1, 0, 0, 0, 2, 3]),
        Term::Pid { node: Box::new(Term::Bool(true)), id: 1, serial: 2, creation: 3 }
    );
}

#[test]
fn node_without_a_name_has_no_encoding() {
    let pid = Term::Pid { node: Box::new(num(5)), id: 1, serial: 2, creation: 3 };
    assert_eq!(term_to_binary_2(&pid), Err(CodecError::UnsupportedTerm));
    let reference = Term::Reference { node: Box::new(Term::Bool(true)), creation: 1, id: vec![] };
    assert_eq!(term_to_binary_2(&reference), Err(CodecError::UnsupportedTerm));
}

#[test]
fn reference_id_is_whole_words() {
    for len in [1usize, 2, 3, 5, 7] {
        let reference = Term::Reference { node: Box::new(text("n")), creation: 1, id: vec![0; len] };
        assert_eq!(term_to_binary_2(&reference), Err(CodecError::LengthOutOfRange));
    }
    let longest = Term::Reference { node: Box::new(text("n")), creation: 1, id: vec![0; 4 * 65535] };
    let bytes = enc(&longest);
    assert_eq!(&bytes[..3], &[90, 0xff, 0xff]);
    let too_long = Term::Reference { node: Box::new(text("n")), creation: 1, id: vec![0; 4 * 65536] };
    let mut encoder = Encoder::new();
    encoder.data.push(9);
    assert_eq!(encoder.encode(&too_long), Err(CodecError::LengthOutOfRange));
    assert_eq!(encoder.data, vec![9]);
}

fn fun_bytes() -> Vec<u8> {
    let mut bytes = vec![112, 0, 0, 0, 99, 2];
    bytes.extend_from_slice(&[1, 2, 3, 4, 5, 6, 7, 8, 9, 10, 11, 12, 13, 14, 15, 16]);
    bytes.extend_from_slice(&[0, 0, 0, 7]);
    bytes.extend_from_slice(&[0, 0, 0, 2]);
    bytes.extend_from_slice(&[119, 1, 109]);
    bytes.extend_from_slice(&[97, 3]);
    bytes.extend_from_slice(&[97, 4]);
    bytes.extend_from_slice(&[88, 119, 1, 110, 0, 0, 0, 1, 0, 0, 0, 2, 0, 0, 0, 3]);
    bytes.extend_from_slice(&[97, 10, 106]);
    bytes
}

fn fun_term() -> Term {
    Term::Fun {
        module: Box::new(atom("m")),
        arity: 2,
        pid: Box::new(Term::Pid { node: Box::new(text("n")), id: 1, serial: 2, creation: 3 }),
        index: 7,
        uniq: vec![1, 2, 3, 4, 5, 6, 7, 8, 9, 10, 11, 12, 13, 14, 15, 16],
        old_index: Box::new(num(3)),
        old_uniq: Box::new(num(4)),
        free_vars: vec![num(10), proper(vec![])],
    }
}

#[test]
fn decoded_fun() {
    assert_eq!(dec(&fun_bytes()), fun_term());
    let mut no_free = fun_bytes();
    no_free[29] = 0;
    let (term, rest) = binary_to_term_2(&no_free, None, None).unwrap();
    assert_eq!(rest, vec![97, 10, 106]);
    match term {
        Term::Fun { free_vars, .. } => assert!(free_vars.is_empty()),
        other => panic!("not a fun: {:?}", other),
    }
}

#[test]
fn fun_has_no_encoding() {
    let mut encoder = Encoder::new();
    assert_eq!(encoder.encode(&fun_term()), Err(CodecError::UnsupportedTerm));
    assert!(encoder.data.is_empty());
    assert_eq!(encoder.encode(&proper(vec![num(1), fun_term()])), Err(CodecError::UnsupportedTerm));
    assert!(encoder.data.is_empty());
}

#[test]
fn encoder_appends() {
    let mut encoder = Encoder::new();
    assert!(encoder.data.is_empty());
    encoder.encode(&num(1)).unwrap();
    encoder.encode_default(&atom("a")).unwrap();
    encoder.encode(&proper(vec![])).unwrap();
    assert_eq!(encoder.data, vec![97, 1, 119, 1, 97, 108, 0, 0, 0, 0, 106]);
}

#[test]
fn message_starts_with_the_version() {
    assert_eq!(term_to_binary(&num(1)), Ok(vec![131, 97, 1]));
    assert_eq!(term_to_binary_2(&num(1)), Ok(vec![97, 1]));
}

#[test]
fn decoder_moves_the_reader() {
    let bytes = [97, 1, 97, 2, 119, 1, 97];
    let mut reader = Reader::new(&bytes);
    let mut decoder = Decoder::new(None, None).unwrap();
    assert_eq!(decoder.decode(&mut reader), Ok(num(1)));
    assert_eq!(reader.rest(), &[97, 2, 119, 1, 97]);
    assert_eq!(decoder.decode_and_wrap(&mut reader), Ok((num(2), vec![119, 1, 97])));
    assert_eq!(decoder.decode(&mut reader), Ok(atom("a")));
    assert_eq!(decoder.decode(&mut reader), Err(truncated()));
}

#[test]
fn decode_message_from_a_reader() {
    let bytes = [0, 131, 97, 1, 5];
    let mut reader = Reader::new(&bytes);
    reader.read_u8().unwrap();
    let mut decoder = Decoder::new(None, None).unwrap();
    assert_eq!(decoder.decode_with_131tag(&mut reader), Ok((num(1), vec![5])));
}

#[test]
fn terms_compare_by_value() {
    assert!(num(5).equals(&num(5)));
    assert!(!num(5).equals(&num(6)));
    assert!(!num(1).equals(&Term::Bool(true)));
    assert!(!text("a").equals(&atom("a")));
    assert!(proper(vec![num(1)]).equals(&proper(vec![num(1)])));
    assert!(!proper(vec![num(1)]).equals(&proper(vec![num(1), num(1)])));
    assert!(!proper(vec![num(1)]).equals(&Term::List { elements: vec![num(1)], tail: Some(Box::new(proper(vec![]))) }));
    assert!(!Term::Float(0.0f64.to_bits()).equals(&Term::Float((-0.0f64).to_bits())));
    assert!(fun_term().equals(&fun_term()));
    assert!(Term::Dict(vec![(num(1), num(2))]).equals(&Term::Dict(vec![(num(1), num(2))])));
    assert!(!Term::Dict(vec![(num(1), num(2))]).equals(&Term::Dict(vec![(num(1), num(3))])));
}

#[test]
fn four_byte_form_has_a_range() {
    let mut encoder = Encoder::new();
    assert_eq!(encoder.write_4byte_int(2147483648), Err(CodecError::IntegerEncodingRange { i: 2147483648 }));
    assert_eq!(encoder.write_4byte_int(-2147483649), Err(CodecError::IntegerEncodingRange { i: -2147483649 }));
    assert!(encoder.data.is_empty());
    assert_eq!(encoder.write_4byte_int(2147483647), Ok(()));
    assert_eq!(encoder.write_4byte_int(-2147483648), Ok(()));
    assert_eq!(encoder.write_4byte_int(7), Ok(()));
    assert_eq!(encoder.data, vec![98, 0x7f, 0xff, 0xff, 0xff, 98, 0x80, 0, 0, 0, 97, 7]);
}

fn message_with_codes_of_its_own() -> Vec<u8> {
    vec![
        131, 80, 0, 0, 1, 40, 120, 218, 181, 206, 197, 14, 194, 64, 20, 133, 97, 120, 147, 155, 176,
        37, 4, 119, 119, 215, 226, 90, 153, 182, 83, 155, 186, 61, 61, 243, 8, 108, 88, 159, 63,
        249, 142, 158, 72, 36, 83, 140, 140, 192, 242, 48, 175, 2, 103, 147, 192, 0, 145, 132, 160,
        120, 186, 233, 0, 241, 145, 13, 46, 157, 53, 54, 142, 64, 32, 82, 6, 254, 23, 103, 115,
        249, 66, 177, 84, 174, 84, 107, 245, 70, 179, 213, 238, 116, 123, 253, 193, 112, 52, 158,
        76, 103, 243, 197, 114, 181, 222, 108, 119, 251, 3, 115, 60, 157, 47, 215, 219, 253, 241,
        124, 189, 63, 44, 199, 11, 72, 148, 100, 172, 168, 154, 110, 16, 211, 178, 29, 215, 243,
        131, 48, 50, 89, 42, 234, 17, 112, 148, 11, 176, 43, 131, 136, 125, 68, 145, 24, 25, 160,
        97, 203, 35, 54, 125, 33, 57, 105, 248, 57, 252, 2, 227, 70, 103, 30,
    ]
}

#[test]
fn compressed_message_with_codes_of_its_own() {
    let mut expected = b"The quick brown fox jumps over the lazy dog. ".repeat(3);
    expected.extend(48u8..122);
    expected.extend_from_slice(&b"pack my box with five dozen liquor jugs, ".repeat(2));
    let message = message_with_codes_of_its_own();
    assert!(is_safe_to_inflate(&message[6..]));
    assert_eq!(binary_to_term(&message, None, None), Ok((Term::Binary(expected), vec![])));
}

#[test]
fn streams_that_are_handed_to_the_decoder() {
    // Stored, with the fixed codes, and with the fixed codes and matches.
    assert!(is_safe_to_inflate(&[
        120, 1, 1, 12, 0, 243, 255, 108, 0, 0, 0, 3, 97, 1, 97, 2, 97, 3, 106, 11, 97, 2, 3
    ]));
    assert!(is_safe_to_inflate(&[
        120, 156, 203, 97, 96, 96, 96, 78, 100, 76, 100, 74, 100, 206, 2, 0, 11, 97, 2, 3
    ]));
    assert!(is_safe_to_inflate(&[
        120, 218, 203, 101, 96, 96, 176, 73, 76, 74, 38, 27, 1, 0, 230, 188, 23, 162
    ]));
    // A stream that ends too soon is left to the decoder to report.
    assert!(is_safe_to_inflate(&[]));
    assert!(is_safe_to_inflate(&[120]));
    assert!(is_safe_to_inflate(&[120, 156]));
    assert!(is_safe_to_inflate(&[120, 156, 203]));
    assert!(is_safe_to_inflate(&[1, 2, 3, 4]));
    // A block of no kind, and a stored block whose length is not matched.
    assert!(is_safe_to_inflate(&[120, 1, 7, 0, 0, 0, 0]));
    assert!(is_safe_to_inflate(&[120, 1, 1, 1, 0, 0, 0, 9]));
}

#[test]
fn streams_that_are_kept_from_the_decoder() {
    // A block with the fixed codes that uses the length code 286.
    assert!(!is_safe_to_inflate(&[0x78, 0x01, 0x1b, 0x03]));
    // The same behind a stored block, and behind a block with the fixed
    // codes that holds one byte.
    assert!(!is_safe_to_inflate(&[0x78, 0x01, 0, 1, 0, 0xfe, 0xff, 65, 0x1b, 0x03]));
    assert!(!is_safe_to_inflate(&[0x78, 0x01, 0x72, 0x04, 0x6c, 0x0c]));
    // A block with codes of its own whose header repeats a length past
    // the end of the table: the first length is written once, then
    // repeated six times over, 53 times.
    assert!(!is_safe_to_inflate(&header_that_overruns()));
    // The length code 285 is let through.
    assert!(is_safe_to_inflate(&[0x78, 0x01, 0x1b, 0x05, 0, 0, 0, 0]));
}

#[test]
fn message_whose_stream_is_kept_from_the_decoder() {
    assert_eq!(
        binary_to_term(&[131, 80, 0, 0, 0, 0, 0x78, 0x01, 0x1b, 0x03], None, None),
        Err(CodecError::IOError)
    );
    let mut message = vec![131, 80, 0, 0, 0, 1];
    message.extend_from_slice(&header_that_overruns());
    assert_eq!(binary_to_term(&message, None, None), Err(CodecError::IOError));
}

fn header_that_overruns() -> Vec<u8> {
    let mut stream = vec![0x78, 0x9c, 237, 29, 2, 196];
    stream.extend_from_slice(&[255; 19]);
    stream.push(31);
    stream
}

#[test]
fn header_that_fills_the_table_to_its_end() {
    // As above, but the last repeat writes three lengths and ends at the
    // last place of the table. No code has a length, so the decoder
    // reports the block as broken.
    let mut stream = vec![0x78, 0x9c, 237, 29, 2, 196];
    stream.extend_from_slice(&[255; 19]);
    stream.extend_from_slice(&[7, 0, 0, 0, 0, 0]);
    assert!(is_safe_to_inflate(&stream));
    let mut message = vec![131, 80, 0, 0, 0, 1];
    message.extend_from_slice(&stream);
    assert_eq!(binary_to_term(&message, None, None), Err(CodecError::IOError));
}

fn words(n: usize, a: usize, b: usize) -> Vec<u8> {
    let table: [&[u8]; 11] = [
        b"alpha", b"beta", b"gamma", b"delta", b"epsilon", b"zeta", b"eta", b"theta", b"iota",
        b"kappa", b"lambda",
    ];
    let mut out = Vec::new();
    let mut i = 0;
    while out.len() < n {
        out.extend_from_slice(table[(i * i * a + i * b + i / 5) % 11]);
        out.push(b' ');
        i += 1;
    }
    out.truncate(n);
    out
}

#[test]
fn compressed_message_with_many_codes_and_a_far_match() {
    // One block with 286 codes for bytes and lengths and 27 for
    // distances.
    let message: Vec<u8> = vec![
        131, 80, 0, 0, 35, 245, 120, 218, 237, 218, 177, 14, 130, 48, 16, 128, 97, 31, 133, 196, 39,
        33, 146, 16, 136, 27, 137, 139, 36, 164, 70, 130, 32, 173, 77, 236, 2, 79, 237, 35, 136,
        189, 162, 104, 28, 220, 253, 7, 74, 185, 94, 239, 218, 111, 70, 175, 86, 235, 91, 156, 21,
        149, 78, 118, 93, 90, 13, 101, 172, 114, 179, 207, 93, 83, 22, 219, 52, 217, 36, 233, 182,
        40, 27, 151, 239, 77, 174, 226, 114, 168, 210, 110, 151, 232, 170, 200, 98, 103, 141, 177,
        238, 15, 55, 170, 222, 158, 84, 84, 219, 107, 219, 95, 76, 212, 43, 125, 56, 170, 200, 157,
        106, 55, 5, 167, 167, 189, 76, 131, 228, 140, 143, 239, 195, 99, 8, 89, 18, 110, 148, 214,
        146, 235, 215, 206, 202, 218, 121, 12, 121, 146, 33, 53, 143, 117, 239, 230, 72, 216, 25,
        90, 251, 78, 178, 236, 11, 73, 117, 63, 157, 83, 164, 234, 50, 242, 124, 191, 78, 245, 217,
        69, 230, 207, 243, 249, 54, 111, 183, 147, 52, 63, 29, 151, 181, 199, 215, 117, 164, 70,
        104, 224, 51, 23, 46, 216, 97, 135, 29, 118, 216, 97, 135, 29, 118, 216, 97, 135, 29, 118,
        216, 97, 135, 29, 118, 216, 97, 135, 29, 118, 216, 97, 135, 29, 118, 216, 97, 135, 29, 118,
        216, 97, 135, 29, 118, 223, 237, 248, 135, 229, 247, 141, 119, 15, 98, 244, 99,
    ];
    let start: Vec<u8> = (0..300usize).map(|i| (65 + (i * i + 7 * i) % 57) as u8).collect();
    let mut expected = start.clone();
    expected.extend_from_slice(&words(8600, 1, 3));
    expected.extend_from_slice(&start);
    assert!(is_safe_to_inflate(&message[6..]));
    assert_eq!(binary_to_term(&message, None, None), Ok((Term::Binary(expected), vec![])));
}

#[test]
fn compressed_message_of_two_blocks() {
    // Two blocks, the first with codes of its own.
    let message: Vec<u8> = vec![
        131, 80, 0, 0, 5, 225, 120, 218, 236, 80, 73, 14, 128, 32, 12, 228, 226, 63, 248, 90, 137,
        68, 141, 32, 77, 228, 196, 91, 125, 140, 210, 41, 74, 124, 128, 39, 15, 148, 118, 58, 157,
        46, 209, 152, 225, 160, 192, 51, 217, 60, 251, 220, 44, 144, 37, 93, 110, 160, 232, 70, 178,
        158, 247, 37, 164, 205, 78, 20, 227, 19, 105, 82, 63, 228, 86, 98, 110, 22, 8, 212, 92, 21,
        150, 167, 197, 213, 7, 193, 245, 48, 216, 176, 229, 225, 140, 62, 100, 29, 169, 130, 208,
        111, 53, 72, 190, 201, 216, 165, 113, 68, 75, 39, 69, 53, 122, 84, 88, 114, 162, 93, 238,
        80, 59, 220, 58, 253, 46, 240, 165, 160, 63, 216, 127, 194, 47, 79, 120, 110, 52, 8, 71,
        131, 112, 52, 8, 9, 4, 33, 0, 191, 15, 33, 130,
    ];
    assert_eq!(message[8] & 7, 4);
    assert!(is_safe_to_inflate(&message[6..]));
    assert_eq!(
        binary_to_term(&message, None, None),
        Ok((Term::Binary(words(1500, 2, 5)), vec![]))
    );
}

