use dragonwing::error::Error;
use dragonwing::proto::{
    from_words32, from_words64, parse_packed_doubles, parse_packed_floats, parse_packed_int64, text_or_error,
    to_words32, to_words64, FieldData, ProtoReader, WireType,
};

fn parse_text<T>(r: Result<T, Error>) -> String {
    match r {
        Err(Error::Parse(text)) => text,
        Err(e) => panic!("another error: {}", e.message()),
        Ok(_) => panic!("no error"),
    }
}

#[test]
fn test_varint_simple() {
    // 0x01 = 1
    let mut reader = ProtoReader::new(&[0x01]);
    assert_eq!(reader.read_varint().unwrap(), 1);
}

#[test]
fn test_varint_multi_byte() {
    // 0x96 0x01 = 150
    let mut reader = ProtoReader::new(&[0x96, 0x01]);
    assert_eq!(reader.read_varint().unwrap(), 150);
}

#[test]
fn test_field_parsing() {
    // Field 1, wire type 0 (varint), value 150
    let data = [0x08, 0x96, 0x01];
    let mut reader = ProtoReader::new(&data);
    let field = reader.read_field().unwrap().unwrap();
    assert_eq!(field.field_number, 1);
    assert_eq!(field.wire_type, WireType::Varint);
    assert_eq!(field.data.as_varint().unwrap(), 150);
}

#[test]
fn test_length_delimited() {
    // Field 2, wire type 2 (length-delimited), string "testing"
    let data = [0x12, 0x07, b't', b'e', b's', b't', b'i', b'n', b'g'];
    let mut reader = ProtoReader::new(&data);
    let field = reader.read_field().unwrap().unwrap();
    assert_eq!(field.field_number, 2);
    assert_eq!(field.wire_type, WireType::LengthDelimited);
    assert_eq!(field.data.as_string().unwrap(), "testing");
}

#[test]
fn varints_of_every_length() {
    for shift in 0..64u32 {
        let value: u64 = 1 << shift;
        let mut bytes = Vec::new();
        let mut rest = value;
        while rest >= 0x80 {
            bytes.push((rest & 0x7f) as u8 | 0x80);
            rest >>= 7;
        }
        bytes.push(rest as u8);
        let mut reader = ProtoReader::new(&bytes);
        assert_eq!(reader.read_varint().unwrap(), value);
        assert!(!reader.has_remaining());
    }
    let mut reader = ProtoReader::new(&[0xff, 0xff, 0xff, 0xff, 0xff, 0xff, 0xff, 0xff, 0xff, 0x01]);
    assert_eq!(reader.read_varint().unwrap(), u64::MAX);
}

#[test]
fn broken_varints_are_refused() {
    let mut reader = ProtoReader::new(&[0x80]);
    assert!(reader.read_varint().is_err());
    let mut reader = ProtoReader::new(&[0x80; 11]);
    assert!(reader.read_varint().is_err());
}

#[test]
fn every_wire_type_is_read() {
    let data = [
        0x08, 0x05, // 1: varint
        0x11, 1, 0, 0, 0, 0, 0, 0, 0x80, // 2: eight bytes
        0x1d, 0, 0, 0x80, 0x3f, // 3: four bytes
        0x22, 0x02, 0x08, 0x01, // 4: a message
    ];
    let mut reader = ProtoReader::new(&data);
    let a = reader.read_field().unwrap().unwrap();
    assert_eq!(a.data.as_int64().unwrap(), 5);
    let b = reader.read_field().unwrap().unwrap();
    assert_eq!(b.wire_type, WireType::Fixed64);
    assert_eq!(b.data.as_double().unwrap(), 0x8000_0000_0000_0001);
    let c = reader.read_field().unwrap().unwrap();
    assert_eq!(c.wire_type, WireType::Fixed32);
    assert_eq!(c.data.as_float().unwrap(), 1.0f32.to_bits());
    let d = reader.read_field().unwrap().unwrap();
    let mut inner = d.data.as_message().unwrap();
    let e = inner.read_field().unwrap().unwrap();
    assert!(e.data.as_bool().unwrap());
    assert!(reader.read_field().unwrap().is_none());
}

#[test]
fn unknown_wire_types_are_refused() {
    for wire in [3u8, 4, 6, 7] {
        let data = [0x08 | wire, 0];
        let mut reader = ProtoReader::new(&data);
        assert!(reader.read_field().is_err());
    }
}

#[test]
fn fields_beyond_the_end_are_refused() {
    for data in [&[0x0a, 0x05, 1, 2][..], &[0x09, 1, 2, 3][..], &[0x0d, 1][..], &[0x08][..]] {
        let mut reader = ProtoReader::new(data);
        assert!(reader.read_field().is_err());
    }
}

#[test]
fn skipping_leaves_nothing() {
    let mut reader = ProtoReader::new(&[1, 2, 3]);
    assert!(reader.has_remaining());
    reader.skip_to_end();
    assert!(!reader.has_remaining());
}

#[test]
fn signed_fields() {
    // Zigzag: 0, -1, 1, -2.
    let expected = [0i64, -1, 1, -2, 2];
    for i in 0..5u64 {
        assert_eq!(FieldData::Varint(i).as_sint64().unwrap(), expected[i as usize]);
    }
    assert_eq!(FieldData::Varint(u64::MAX).as_sint64().unwrap(), i64::MIN);
    assert_eq!(FieldData::Varint(u64::MAX).as_int64().unwrap(), -1);
    assert_eq!(FieldData::Varint(u64::MAX).as_int32().unwrap(), -1);
}

#[test]
fn fields_of_the_wrong_kind_are_refused() {
    let bytes = [1u8, 2];
    let text = FieldData::LengthDelimited(&bytes);
    assert!(text.as_varint().is_err());
    assert!(text.as_float().is_err());
    assert!(text.as_double().is_err());
    assert!(FieldData::Varint(1).as_bytes().is_err());
    assert!(FieldData::Varint(1).as_string().is_err());
    assert!(FieldData::Varint(1).as_message().is_err());
}

#[test]
fn broken_utf8_is_reported_as_std_does() {
    let bytes = [b'a', 0xff, b'b'];
    let expected = format!("{}", std::str::from_utf8(&bytes).unwrap_err());
    let text = parse_text(FieldData::LengthDelimited(&bytes).as_string());
    assert!(text.contains(&expected), "{}", text);
    assert_eq!(FieldData::LengthDelimited("äöü".as_bytes()).as_string().unwrap(), "äöü");
}

#[test]
fn text_that_does_not_decode_is_an_error() {
    assert_eq!(text_or_error(Ok("abc")).unwrap(), "abc");
    assert_eq!(parse_text(text_or_error(Err("odd byte".into()))), "invalid UTF-8: odd byte");
}

#[test]
fn packed_numbers() {
    assert_eq!(parse_packed_int64(&[0x01, 0x96, 0x01]).unwrap(), vec![1, 150]);
    assert!(parse_packed_int64(&[0x96]).is_err());
    let f = [1.5f32.to_le_bytes(), (-2.0f32).to_le_bytes()].concat();
    assert_eq!(parse_packed_floats(&f).unwrap(), vec![1.5f32.to_bits(), (-2.0f32).to_bits()]);
    assert_eq!(parse_text(parse_packed_floats(&f[1..])), "packed floats length not multiple of 4");
    let d = 1.5f64.to_le_bytes();
    assert_eq!(parse_packed_doubles(&d).unwrap(), vec![1.5f64.to_bits()]);
    assert!(parse_packed_doubles(&d[1..]).is_err());
}

#[test]
fn words_come_back_from_their_bytes() {
    let w = vec![0u32, 1, 0x1234_5678, u32::MAX];
    assert_eq!(from_words32(&w)[8..12], [0x78, 0x56, 0x34, 0x12]);
    assert_eq!(to_words32(&from_words32(&w)), w);
    let v = vec![0u64, 0x0102_0304_0506_0708, u64::MAX];
    assert_eq!(from_words64(&v)[8], 8);
    assert_eq!(to_words64(&from_words64(&v)), v);
}
