use gridsync::binary_io::{InputStream, OutputStream};

fn encode<T: gridsync::binary_io::IOAble>(v: T) -> Vec<u8> {
    let mut out = OutputStream::new();
    out.write(v);
    out.bytes
}

fn decode<T: gridsync::binary_io::IOAble>(bytes: Vec<u8>) -> Option<T> {
    let mut input = InputStream::new(bytes);
    input.read::<T>()
}

#[test]
fn read_byte_consumes_from_front() {
    let mut input = InputStream::new(vec![7, 8]);
    assert_eq!(input.read_byte(), Some(7));
    assert_eq!(input.read_byte(), Some(8));
    assert_eq!(input.read_byte(), None);
}

#[test]
fn write_byte_appends() {
    let mut out = OutputStream::new();
    out.write_byte(1);
    out.write_byte(2);
    assert_eq!(out.bytes, vec![1, 2]);
}

#[test]
fn integers_are_big_endian() {
    assert_eq!(encode(0x1234u16), vec![0x12, 0x34]);
    assert_eq!(encode(-2i16), vec![0xff, 0xfe]);
    assert_eq!(encode(0x01020304u32), vec![1, 2, 3, 4]);
    assert_eq!(encode(-1i32), vec![0xff, 0xff, 0xff, 0xff]);
    assert_eq!(encode(0x0102030405060708u64), vec![1, 2, 3, 4, 5, 6, 7, 8]);
    assert_eq!(encode(i64::MIN), vec![0x80, 0, 0, 0, 0, 0, 0, 0]);
    assert_eq!(encode(-5i8), vec![0xfb]);
    assert_eq!(encode(200u8), vec![200]);
}

#[test]
fn integers_read_back() {
    assert_eq!(decode::<u16>(vec![0x12, 0x34]), Some(0x1234));
    assert_eq!(decode::<i16>(vec![0xff, 0xfe]), Some(-2));
    assert_eq!(decode::<u32>(vec![0xff, 0xff, 0xff, 0xff]), Some(u32::MAX));
    assert_eq!(decode::<i32>(vec![0x80, 0, 0, 0]), Some(i32::MIN));
    assert_eq!(decode::<u64>(vec![0xff; 8]), Some(u64::MAX));
    assert_eq!(decode::<i64>(vec![0xff; 8]), Some(-1));
    assert_eq!(decode::<i8>(vec![0x80]), Some(-128));
}

#[test]
fn short_input_fails() {
    assert_eq!(decode::<u16>(vec![1]), None);
    assert_eq!(decode::<u32>(vec![1, 2, 3]), None);
    assert_eq!(decode::<i64>(vec![0; 7]), None);
    assert_eq!(decode::<u8>(vec![]), None);
    assert_eq!(decode::<bool>(vec![]), None);
}

#[test]
fn bool_encoding() {
    assert_eq!(encode(true), vec![1]);
    assert_eq!(encode(false), vec![0]);
    assert_eq!(decode::<bool>(vec![0]), Some(false));
    assert_eq!(decode::<bool>(vec![7]), Some(true));
}

#[test]
fn string_encoding() {
    assert_eq!(encode(String::from("wire")), vec![0, 0, 0, 4, b'w', b'i', b'r', b'e']);
    assert_eq!(encode("ab"), vec![0, 0, 0, 2, b'a', b'b']);
    assert_eq!(encode(String::new()), vec![0, 0, 0, 0]);
    let s = String::from("h\u{e9}llo \u{1F600}");
    assert_eq!(decode::<String>(encode(s.clone())), Some(s));
}

#[test]
fn string_decode_checks_utf8_and_length() {
    assert_eq!(decode::<String>(vec![0, 0, 0, 2, b'o', b'k', 9]), Some(String::from("ok")));
    assert_eq!(decode::<String>(vec![0, 0, 0, 2, 0xff, 0xfe]), None);
    assert_eq!(decode::<String>(vec![0, 0, 0, 3, b'a', b'b']), None);
    assert_eq!(decode::<String>(vec![0, 0, 0]), None);
    assert_eq!(decode::<&str>(vec![0, 0, 0, 0]), None);
}

#[test]
fn string_read_leaves_the_rest() {
    let mut input = InputStream::new(vec![0, 0, 0, 1, b'x', 42]);
    assert_eq!(input.read::<String>(), Some(String::from("x")));
    assert_eq!(input.read::<u8>(), Some(42));
}

#[test]
fn vec_encoding() {
    assert_eq!(encode(vec![1u16, 2u16]), vec![0, 0, 0, 2, 0, 1, 0, 2]);
    assert_eq!(decode::<Vec<u16>>(vec![0, 0, 0, 2, 0, 1, 0, 2]), Some(vec![1, 2]));
    assert_eq!(decode::<Vec<u8>>(vec![0, 0, 0, 0]), Some(vec![]));
    assert_eq!(decode::<Vec<u8>>(vec![0xff, 0xff, 0xff, 0xff]), None);
    assert_eq!(decode::<Vec<u16>>(vec![0, 0, 0, 2, 0, 1, 0]), None);
    let words = vec![String::from("a"), String::from("bc")];
    assert_eq!(decode::<Vec<String>>(encode(words.clone())), Some(words));
}

#[test]
fn option_encoding() {
    assert_eq!(encode(Some(3u8)), vec![1, 3]);
    assert_eq!(encode(None::<u8>), vec![0]);
    assert_eq!(decode::<Option<u16>>(vec![1, 0, 9]), Some(Some(9)));
    assert_eq!(decode::<Option<u16>>(vec![0]), Some(None));
    assert_eq!(decode::<Option<u16>>(vec![5, 0]), None);
    assert_eq!(decode::<Option<u16>>(vec![]), None);
}

#[test]
fn reference_writes_the_value() {
    let v = 0x0a0bu16;
    assert_eq!(encode(&v), vec![0x0a, 0x0b]);
    let s = String::from("q");
    assert_eq!(encode(&s), vec![0, 0, 0, 1, b'q']);
    assert_eq!(decode::<&u16>(vec![0, 1]), None);
}

#[test]
fn negative_vec_count_fails() {
    assert_eq!(decode::<Vec<u8>>(vec![0x80, 0, 0, 0, 1]), None);
    assert_eq!(decode::<Vec<u8>>(vec![0x7f, 0xff, 0xff, 0xff]), None);
}

#[test]
fn signed_extremes() {
    assert_eq!(encode(i16::MIN), vec![0x80, 0]);
    assert_eq!(encode(i32::MIN), vec![0x80, 0, 0, 0]);
    assert_eq!(encode(-1i64), vec![0xff; 8]);
    assert_eq!(encode(i8::MIN), vec![0x80]);
    assert_eq!(decode::<i64>(vec![0x80, 0, 0, 0, 0, 0, 0, 0]), Some(i64::MIN));
    assert_eq!(decode::<i16>(vec![0x7f, 0xff]), Some(i16::MAX));
    assert_eq!(decode::<i8>(vec![0xff]), Some(-1));
}
