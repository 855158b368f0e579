use etf_codec::errors::CodecError;
use etf_codec::helpers::{
    get_atom_opt, get_byte_str_opt, get_str_opt, same_text, AtomRepresentation,
    ByteStringRepresentation, VecWriteExt,
};
use etf_codec::integer::{same_bytes, Integer};
use etf_codec::reader::{ReadError, Readable, Reader};
use etf_codec::decoder::Decoder;
use etf_codec::term::Term;
use etf_codec::text::latin1_string;

#[test]
fn read_fixed_width_numbers() {
    let bytes = [1, 2, 3, 4, 5, 6, 7, 0xff, 0xff, 0xff, 0xfe, 0x40, 0x0c, 0, 0, 0, 0, 0, 0];
    let mut reader = Reader::new(&bytes);
    assert_eq!(reader.read_u8(), Ok(1));
    assert_eq!(reader.read_u16(), Ok(0x0203));
    assert_eq!(reader.read_u32(), Ok(0x04050607));
    assert_eq!(reader.read_i32(), Ok(-2));
    assert_eq!(reader.read_f64().map(f64::from_bits), Ok(3.5));
    assert_eq!(reader.read_u8(), Err(ReadError::BufferTooShort));
    assert_eq!(reader.rest(), &[] as &[u8]);
}

#[test]
fn read_signed_extremes() {
    let bytes = [0x80, 0, 0, 0, 0x7f, 0xff, 0xff, 0xff, 0xff, 0xff, 0xff, 0xff, 0, 0, 0, 0];
    let mut reader = Reader::new(&bytes);
    assert_eq!(reader.read_i32(), Ok(i32::MIN));
    assert_eq!(reader.read_i32(), Ok(i32::MAX));
    assert_eq!(reader.read_i32(), Ok(-1));
    assert_eq!(reader.read_i32(), Ok(0));
    let mut reader = Reader::new(&bytes);
    assert_eq!(reader.read_u32(), Ok(0x8000_0000));
    assert_eq!(reader.read_u16(), Ok(0x7fff));
    assert_eq!(reader.read_u16(), Ok(0xffff));
    assert_eq!(reader.read_f64(), Ok(0xffff_ffff_0000_0000));
}

#[test]
fn read_bytes_and_rest() {
    let bytes = [1, 2, 3, 4, 5];
    let mut reader = Reader::from(&bytes[..]);
    assert_eq!(reader.rest(), &[1, 2, 3, 4, 5]);
    assert_eq!(reader.read(0), Ok(&[] as &[u8]));
    assert_eq!(reader.read(2), Ok(&[1u8, 2][..]));
    assert_eq!(reader.rest(), &[3, 4, 5]);
    assert_eq!(reader.read(3), Ok(&[3u8, 4, 5][..]));
    assert_eq!(reader.read(0), Ok(&[] as &[u8]));
    assert_eq!(reader.read(1), Err(ReadError::BufferTooShort));
}

#[test]
fn failed_read_does_not_move() {
    let bytes = [1, 2, 3];
    let mut reader = Reader::new(&bytes);
    assert_eq!(reader.read_u32(), Err(ReadError::BufferTooShort));
    assert_eq!(reader.read(4), Err(ReadError::BufferTooShort));
    assert_eq!(reader.read(usize::MAX), Err(ReadError::BufferTooShort));
    assert_eq!(reader.read_f64(), Err(ReadError::BufferTooShort));
    assert_eq!(reader.read_u16(), Ok(0x0102));
    assert_eq!(reader.read_u16(), Err(ReadError::BufferTooShort));
    assert_eq!(reader.read_i32(), Err(ReadError::BufferTooShort));
    assert_eq!(reader.read_u8(), Ok(3));
}

#[test]
fn peek_does_not_move() {
    let bytes = [7, 8];
    let mut reader = Reader::new(&bytes);
    assert_eq!(reader.peek(), Ok(7));
    assert_eq!(reader.peek(), Ok(7));
    assert_eq!(reader.read_u8(), Ok(7));
    assert_eq!(reader.peek(), Ok(8));
    assert_eq!(reader.read_u8(), Ok(8));
    assert_eq!(reader.peek(), Err(ReadError::BufferTooShort));
    assert_eq!(Reader::new(&[]).peek(), Err(ReadError::BufferTooShort));
}

#[test]
fn read_with_a_type() {
    let bytes = [1, 2, 3, 4, 5, 6, 7, 0xff, 0xff, 0xff, 0xff, 9];
    let mut reader = Reader::new(&bytes);
    assert_eq!(reader.read_with::<u8>(), Ok(1));
    assert_eq!(reader.read_with::<u16>(), Ok(0x0203));
    assert_eq!(reader.read_with::<u32>(), Ok(0x04050607));
    assert_eq!(reader.read_with::<i32>(), Ok(-1));
    assert_eq!(reader.read_with::<u16>(), Err(ReadError::BufferTooShort));
    assert_eq!(u8::do_read(&mut reader), Ok(9));
    assert_eq!(u32::do_read(&mut reader), Err(ReadError::BufferTooShort));
}

#[test]
fn read_error_becomes_a_codec_error() {
    assert_eq!(CodecError::from(ReadError::BufferTooShort), CodecError::ReadError(ReadError::BufferTooShort));
    assert_eq!(
        CodecError::from(ReadError::BufferTooShortForValue),
        CodecError::ReadError(ReadError::BufferTooShortForValue)
    );
}

#[test]
fn push_fixed_width_numbers() {
    let mut buffer: Vec<u8> = vec![9];
    buffer.push_u32(0x01020304);
    buffer.push_i32(-2);
    buffer.push_u16(0x0506);
    buffer.push_f64(3.5f64.to_bits());
    buffer.push_i32(i32::MIN);
    buffer.push_i32(i32::MAX);
    buffer.push_u32(u32::MAX);
    buffer.push_u16(0);
    assert_eq!(
        buffer,
        vec![
            9, 1, 2, 3, 4, 0xff, 0xff, 0xff, 0xfe, 5, 6, 0x40, 0x0c, 0, 0, 0, 0, 0, 0, 0x80, 0, 0, 0,
            0x7f, 0xff, 0xff, 0xff, 0xff, 0xff, 0xff, 0xff, 0, 0
        ]
    );
}

#[test]
fn atom_option() {
    assert_eq!(get_atom_opt(None), Ok(AtomRepresentation::TermAtom));
    assert_eq!(get_atom_opt(Some("Atom")), Ok(AtomRepresentation::TermAtom));
    assert_eq!(get_atom_opt(Some("StrictAtom")), Ok(AtomRepresentation::TermStrictAtom));
    assert_eq!(get_atom_opt(Some("bytes")), Ok(AtomRepresentation::Bytes));
    assert_eq!(get_atom_opt(Some("str")), Ok(AtomRepresentation::Str));
    assert_eq!(
        get_atom_opt(Some("atom")),
        Err(CodecError::BadOptions {
            txt: "'atom' option is 'atom' while expected: bytes, str, Atom, StrictAtom".to_string()
        })
    );
    assert_eq!(
        get_atom_opt(Some("")),
        Err(CodecError::BadOptions {
            txt: "'atom' option is '' while expected: bytes, str, Atom, StrictAtom".to_string()
        })
    );
}

#[test]
fn byte_string_option() {
    assert_eq!(get_byte_str_opt(None), Ok(ByteStringRepresentation::Str));
    assert_eq!(get_byte_str_opt(Some("str")), Ok(ByteStringRepresentation::Str));
    assert_eq!(get_byte_str_opt(Some("bytes")), Ok(ByteStringRepresentation::Bytes));
    assert_eq!(get_byte_str_opt(Some("int_list")), Ok(ByteStringRepresentation::IntList));
    assert_eq!(
        get_byte_str_opt(Some("Atom")),
        Err(CodecError::BadOptions { txt: "'byte_string' option is 'Atom' while expected: bytes, str".to_string() })
    );
}

#[test]
fn option_default() {
    assert_eq!(get_str_opt(None, "x"), "x");
    assert_eq!(get_str_opt(Some("y"), "x"), "y");
    assert_eq!(get_str_opt(Some(""), "x"), "");
}

#[test]
fn decoder_options() {
    let decoder = Decoder::new(None, None).unwrap();
    assert_eq!(decoder.atom_representation, AtomRepresentation::TermAtom);
    assert_eq!(decoder.bytestring_repr, ByteStringRepresentation::Str);
    let decoder = Decoder::new(Some("bytes"), Some("int_list")).unwrap();
    assert_eq!(decoder.atom_representation, AtomRepresentation::Bytes);
    assert_eq!(decoder.bytestring_repr, ByteStringRepresentation::IntList);
    // Of two bad options the one for atoms is reported.
    match Decoder::new(Some("x"), Some("y")) {
        Err(CodecError::BadOptions { txt }) => {
            assert_eq!(txt, "'atom' option is 'x' while expected: bytes, str, Atom, StrictAtom")
        }
        _ => panic!("bad options were accepted"),
    }
    match Decoder::new(Some("str"), Some("y")) {
        Err(CodecError::BadOptions { txt }) => {
            assert_eq!(txt, "'byte_string' option is 'y' while expected: bytes, str")
        }
        _ => panic!("a bad option was accepted"),
    }
}

#[test]
fn compare_text_and_bytes() {
    assert!(same_text("abc", "abc"));
    assert!(!same_text("abc", "abd"));
    assert!(!same_text("abc", "ab"));
    assert!(same_text("", ""));
    assert!(same_bytes(&[1, 2], &[1, 2]));
    assert!(!same_bytes(&[1, 2], &[1, 3]));
    assert!(!same_bytes(&[1, 2], &[1]));
}

#[test]
fn one_byte_for_each_character() {
    assert_eq!(latin1_string(&[0x41, 0xe9, 0xff, 0]), "A\u{e9}\u{ff}\u{0}");
    assert_eq!(latin1_string(&[]), "");
}

#[test]
fn integer_from_i64_and_back() {
    for v in [0i64, 1, -1, 255, 256, -256, 65535, 1 << 31, -(1 << 31), i64::MAX, i64::MIN, i64::MIN + 1] {
        let n = Integer::from_i64(v);
        assert_eq!(n.to_i64(), Some(v));
        assert_eq!(n.is_negative(), v < 0);
        assert!(n.equals(&Integer::from_i64(v)));
        assert_eq!(n.clone(), n);
    }
    assert_eq!(Integer::from_i64(0).magnitude(), &[] as &[u8]);
    assert_eq!(Integer::from_i64(-1).magnitude(), &[1]);
    assert_eq!(Integer::from_i64(0x0102).magnitude(), &[2, 1]);
    assert_eq!(Integer::from_i64(i64::MIN).magnitude(), &[0, 0, 0, 0, 0, 0, 0, 0x80]);
    assert!(!Integer::from_i64(1).equals(&Integer::from_i64(-1)));
    assert!(!Integer::from_i64(1).equals(&Integer::from_i64(257)));
}

#[test]
fn integer_from_digits() {
    assert_eq!(Integer::from_le_bytes(false, &[5]).to_i64(), Some(5));
    assert_eq!(Integer::from_le_bytes(true, &[0, 1]).to_i64(), Some(-256));
    assert_eq!(Integer::from_le_bytes(false, &[5, 0, 0]), Integer::from_i64(5));
    assert_eq!(Integer::from_le_bytes(true, &[0, 0]), Integer::from_i64(0));
    assert_eq!(Integer::from_le_bytes(true, &[]), Integer::from_i64(0));
    assert!(!Integer::from_le_bytes(true, &[0]).is_negative());
    assert_eq!(Integer::from_le_bytes(false, &[0, 0, 0, 0, 0, 0, 0, 0x80]).to_i64(), None);
    assert_eq!(Integer::from_le_bytes(true, &[0, 0, 0, 0, 0, 0, 0, 0x80]).to_i64(), Some(i64::MIN));
    assert_eq!(Integer::from_le_bytes(true, &[1, 0, 0, 0, 0, 0, 0, 0x80]).to_i64(), None);
    assert_eq!(Integer::from_le_bytes(false, &[0xff, 0xff, 0xff, 0xff, 0xff, 0xff, 0xff, 0x7f]).to_i64(), Some(i64::MAX));
    assert_eq!(Integer::from_le_bytes(false, &[0, 0, 0, 0, 0, 0, 0, 0, 1]).to_i64(), None);
    assert_eq!(Integer::from_le_bytes(false, &[1, 0, 0, 0, 0, 0, 0, 0, 0, 0]).to_i64(), Some(1));
    assert_eq!(Integer::from_le_bytes(false, &[0, 0, 0, 0, 0, 0, 0, 0, 1]).magnitude(), &[0, 0, 0, 0, 0, 0, 0, 0, 1]);
}

#[test]
fn copy_of_a_term() {
    let term = Term::Tuple(vec![
        Term::Integer(Integer::from_i64(-5)),
        Term::Float(3.5f64.to_bits()),
        Term::Atom("a".to_string()),
        Term::Bool(true),
        Term::Undefined,
        Term::Binary(vec![1, 2]),
        Term::BitString { bytes: vec![3], last_byte_bits: 2 },
        Term::Str("s".to_string()),
        Term::List { elements: vec![Term::Undefined], tail: Some(Box::new(Term::Bool(false))) },
        Term::Dict(vec![(Term::Str("k".to_string()), Term::List { elements: vec![], tail: None })]),
        Term::Pid { node: Box::new(Term::Str("n".to_string())), id: 1, serial: 2, creation: 3 },
        Term::Reference { node: Box::new(Term::Str("n".to_string())), creation: 1, id: vec![1, 2, 3, 4] },
        Term::Fun {
            module: Box::new(Term::Atom("m".to_string())),
            arity: 1,
            pid: Box::new(Term::Undefined),
            index: 2,
            uniq: vec![0; 16],
            old_index: Box::new(Term::Integer(Integer::from_i64(1))),
            old_uniq: Box::new(Term::Integer(Integer::from_i64(2))),
            free_vars: vec![Term::Bool(true)],
        },
    ]);
    assert_eq!(term.clone(), term);
    assert_eq!(term.duplicate(), term);
    assert!(term.duplicate().equals(&term));
}

#[test]
fn reader_over_a_vector() {
    let bytes: Vec<u8> = vec![1, 2, 3];
    let mut reader = Reader::from(&bytes);
    assert_eq!(reader.read_u16(), Ok(0x0102));
    assert_eq!(reader.rest(), &[3]);
    let mut reader = Reader::from(&bytes[..]);
    assert_eq!(reader.read_u8(), Ok(1));
}
