use fastanvil::coerce::{
    to_bool, to_byte_buf, to_i128, to_i16, to_i8, to_u128, to_u16, to_u32, to_u8,
};
use fastanvil::error::Error;
use fastanvil::nbt::{byte_buf, decode_document, from_bytes, read_str, skip_payload, Value};
use fastanvil::section::Block;
use fastanvil::strings::{decode_str, write_str};
use fastanvil::tag::Tag;

struct Builder {
    payload: Vec<u8>,
}

impl Builder {
    fn new() -> Self {
        Builder { payload: Vec::new() }
    }

    fn tag(mut self, t: Tag) -> Self {
        self.payload.push(t.to_byte());
        self
    }

    fn name(mut self, name: &str) -> Self {
        let bytes = cesu8::to_java_cesu8(name);
        self.payload.extend_from_slice(&(bytes.len() as u16).to_be_bytes());
        self.payload.extend_from_slice(&bytes);
        self
    }

    fn raw_len(mut self, len: usize) -> Self {
        self.payload.extend_from_slice(&(len as u16).to_be_bytes());
        self
    }

    fn raw_bytes(mut self, bytes: &[u8]) -> Self {
        self.payload.extend_from_slice(bytes);
        self
    }

    fn start_compound(self, name: &str) -> Self {
        self.tag(Tag::Compound).name(name)
    }

    fn end_compound(self) -> Self {
        self.tag(Tag::End)
    }

    fn start_list(self, name: &str, element: Tag, len: i32) -> Self {
        self.tag(Tag::List).name(name).tag(element).int_payload(len)
    }

    fn byte_payload(mut self, b: i8) -> Self {
        self.payload.push(b as u8);
        self
    }

    fn short_payload(mut self, v: i16) -> Self {
        self.payload.extend_from_slice(&v.to_be_bytes());
        self
    }

    fn int_payload(mut self, v: i32) -> Self {
        self.payload.extend_from_slice(&v.to_be_bytes());
        self
    }

    fn long_payload(mut self, v: i64) -> Self {
        self.payload.extend_from_slice(&v.to_be_bytes());
        self
    }

    fn string_payload(self, s: &str) -> Self {
        self.name(s)
    }

    fn int_array_payload(mut self, vs: &[i32]) -> Self {
        for v in vs {
            self.payload.extend_from_slice(&v.to_be_bytes());
        }
        self
    }

    fn byte(self, name: &str, v: i8) -> Self {
        self.tag(Tag::Byte).name(name).byte_payload(v)
    }

    fn short(self, name: &str, v: i16) -> Self {
        self.tag(Tag::Short).name(name).short_payload(v)
    }

    fn int_entry(self, name: &str, v: i32) -> Self {
        self.tag(Tag::Int).name(name).int_payload(v)
    }

    fn long(self, name: &str, v: i64) -> Self {
        self.tag(Tag::Long).name(name).long_payload(v)
    }

    fn float(mut self, name: &str, v: f32) -> Self {
        self = self.tag(Tag::Float).name(name);
        self.payload.extend_from_slice(&v.to_be_bytes());
        self
    }

    fn double(mut self, name: &str, v: f64) -> Self {
        self = self.tag(Tag::Double).name(name);
        self.payload.extend_from_slice(&v.to_be_bytes());
        self
    }

    fn string(self, name: &str, v: &str) -> Self {
        self.tag(Tag::String).name(name).string_payload(v)
    }

    fn byte_array(mut self, name: &str, bs: &[i8]) -> Self {
        self = self.tag(Tag::ByteArray).name(name).int_payload(bs.len() as i32);
        for b in bs {
            self.payload.push(*b as u8);
        }
        self
    }

    fn int_array(self, name: &str, vs: &[i32]) -> Self {
        self.tag(Tag::IntArray).name(name).int_payload(vs.len() as i32).int_array_payload(vs)
    }

    fn build(self) -> Vec<u8> {
        self.payload
    }
}

fn field<'a>(v: &'a Value, name: &str) -> &'a Value {
    v.get(name).unwrap()
}

fn items(v: &Value) -> &Vec<Value> {
    match v {
        Value::List(_, items) => items,
        _ => panic!("not a list: {:?}", v),
    }
}

#[test]
fn error_impls_sync_send() {
    fn i<T: Clone + Send + Sync + 'static>(_: T) {}
    i(Error::invalid_tag(1));
}

#[test]
fn descriptive_error_on_gzip_magic() {
    let r = from_bytes(&[0x1f, 0x8b]);
    assert!(matches!(r, Result::Err(_)));
    let e = r.unwrap_err();
    assert!(e.message().to_lowercase().contains("gzip"));
    assert!(matches!(e, Error::GzipInput));
}

#[test]
fn simple_byte() {
    let payload = Builder::new()
        .tag(Tag::Compound)
        .name("object")
        .tag(Tag::Byte)
        .name("abc")
        .byte_payload(123)
        .tag(Tag::Byte)
        .name("def")
        .byte_payload(111)
        .tag(Tag::End)
        .build();

    let v = from_bytes(payload.as_slice()).unwrap();
    assert_eq!(to_i8(field(&v, "abc")).unwrap(), 123);
    assert_eq!(to_i8(field(&v, "def")).unwrap(), 111);
}

#[test]
fn struct_with_one_byte_field() {
    let input = [0x0A, 0x00, 0x00, 0x01, 0x00, 0x03, b'a', b'b', b'c', 0x7B, 0x00];
    let v = from_bytes(&input).unwrap();
    assert_eq!(to_i8(field(&v, "abc")).unwrap(), 123);
}

#[test]
fn bool_from_integral() {
    let payload = Builder::new()
        .start_compound("object")
        .byte("byte_true", 1)
        .byte("byte_false", 0)
        .short("short", 2)
        .int_entry("int", 3)
        .long("long", 4)
        .tag(Tag::End)
        .build();

    let v = from_bytes(payload.as_slice()).unwrap();
    assert!(to_bool(field(&v, "byte_true")).unwrap());
    assert!(!to_bool(field(&v, "byte_false")).unwrap());
    assert!(to_bool(field(&v, "short")).unwrap());
    assert!(to_bool(field(&v, "int")).unwrap());
    assert!(to_bool(field(&v, "long")).unwrap());
}

#[test]
fn bool_from_none_integral() {
    let payload = Builder::new()
        .start_compound("object")
        .string("_b", "true")
        .tag(Tag::End)
        .build();

    let v = from_bytes(payload.as_slice()).unwrap();
    assert!(to_bool(field(&v, "_b")).is_err());
}

#[test]
fn i128_from_int_array() {
    let payload = Builder::new()
        .start_compound("object")
        .tag(Tag::IntArray)
        .name("max")
        .int_payload(4)
        .int_array_payload(&[u32::MAX as i32; 4])
        .tag(Tag::IntArray)
        .name("min")
        .int_payload(4)
        .int_array_payload(&[1 << 31, 0, 0, 0])
        .tag(Tag::IntArray)
        .name("zero")
        .int_payload(4)
        .int_array_payload(&[0; 4])
        .tag(Tag::IntArray)
        .name("counting")
        .int_payload(4)
        .int_array_payload(&[1, 2, 3, 4])
        .tag(Tag::End)
        .build();

    let v = from_bytes(payload.as_slice()).unwrap();
    assert_eq!(to_u128(field(&v, "max")).unwrap(), u128::MAX);
    assert_eq!(to_i128(field(&v, "min")).unwrap(), i128::MIN);
    assert_eq!(to_i128(field(&v, "zero")).unwrap(), 0);
    assert_eq!(to_u128(field(&v, "counting")).unwrap(), 79228162551157825753847955460);
}

#[test]
fn i128_from_invalid_int_array() {
    let payload = Builder::new()
        .start_compound("object")
        .tag(Tag::IntArray)
        .name("_i")
        .int_payload(3)
        .int_array_payload(&[1, 2, 3])
        .tag(Tag::End)
        .build();
    let v = from_bytes(payload.as_slice()).unwrap();
    assert!(matches!(to_i128(field(&v, "_i")), Err(Error::InvalidLength)));

    let payload = Builder::new()
        .start_compound("object")
        .tag(Tag::ByteArray)
        .name("_i")
        .int_payload(16)
        .int_array_payload(&[1; 16])
        .tag(Tag::End)
        .build();
    match from_bytes(payload.as_slice()) {
        Ok(v) => assert!(to_i128(field(&v, "_i")).is_err()),
        Err(_) => {}
    }
}

#[test]
fn simple_short_to_i16() {
    let payload = Builder::new()
        .tag(Tag::Compound)
        .name("object")
        .tag(Tag::Short)
        .name("abc")
        .short_payload(256)
        .tag(Tag::End)
        .build();
    let v = from_bytes(payload.as_slice()).unwrap();
    assert_eq!(to_i16(field(&v, "abc")).unwrap(), 256);
}

#[test]
fn simple_short_to_u16() {
    let payload = Builder::new()
        .tag(Tag::Compound)
        .name("object")
        .tag(Tag::Short)
        .name("abc")
        .short_payload(256)
        .tag(Tag::End)
        .build();
    let v = from_bytes(payload.as_slice()).unwrap();
    assert_eq!(to_u16(field(&v, "abc")).unwrap(), 256);
}

#[test]
fn short_to_u16_out_of_range_errors() {
    let payload = Builder::new()
        .tag(Tag::Compound)
        .name("object")
        .tag(Tag::Short)
        .name("_abc")
        .short_payload(-123)
        .tag(Tag::End)
        .build();
    let v = from_bytes(payload.as_slice()).unwrap();
    assert!(matches!(to_u16(field(&v, "_abc")), Err(Error::RangeError)));
}

#[test]
fn multiple_fields() {
    let payload = Builder::new()
        .tag(Tag::Compound)
        .name("object")
        .tag(Tag::Byte)
        .name("a")
        .byte_payload(123)
        .tag(Tag::Short)
        .name("b")
        .short_payload(1024)
        .tag(Tag::End)
        .build();
    let v = from_bytes(payload.as_slice()).unwrap();
    assert_eq!(to_u8(field(&v, "a")).unwrap(), 123);
    assert_eq!(to_u16(field(&v, "b")).unwrap(), 1024);
}

#[test]
fn numbers_into_u32() {
    let payload = Builder::new()
        .tag(Tag::Compound)
        .name("object")
        .tag(Tag::Byte)
        .name("a")
        .byte_payload(123)
        .tag(Tag::Short)
        .name("b")
        .short_payload(2 << 8)
        .tag(Tag::Int)
        .name("c")
        .int_payload(2 << 24)
        .tag(Tag::End)
        .build();
    let v = from_bytes(payload.as_slice()).unwrap();
    assert_eq!(to_u32(field(&v, "a")).unwrap(), 123);
    assert_eq!(to_u32(field(&v, "b")).unwrap(), 2 << 8);
    assert_eq!(to_u32(field(&v, "c")).unwrap(), 2 << 24);
}

#[test]
fn string_into_string() {
    let payload = Builder::new()
        .tag(Tag::Compound)
        .name("object")
        .tag(Tag::String)
        .name("a")
        .string_payload("hello")
        .tag(Tag::End)
        .build();
    let v = from_bytes(payload.as_slice()).unwrap();
    match field(&v, "a") {
        Value::String(s) => assert_eq!("hello", s),
        other => panic!("{:?}", other),
    }
}

#[test]
fn nested_compound() {
    let payload = Builder::new()
        .tag(Tag::Compound)
        .name("object")
        .tag(Tag::Byte)
        .name("a")
        .byte_payload(123)
        .tag(Tag::Compound)
        .name("nested")
        .tag(Tag::Byte)
        .name("b")
        .byte_payload(1)
        .tag(Tag::End)
        .tag(Tag::End)
        .build();
    let v = from_bytes(payload.as_slice()).unwrap();
    assert_eq!(to_u32(field(&v, "a")).unwrap(), 123);
    assert_eq!(to_u32(field(field(&v, "nested"), "b")).unwrap(), 1);
}

#[test]
fn simple_hashmap() {
    let payload = Builder::new()
        .start_compound("object")
        .int_entry("a", 1)
        .int_entry("b", 2)
        .end_compound()
        .build();

    let v = from_bytes(payload.as_slice()).unwrap();
    assert!(matches!(field(&v, "a"), Value::Int(1)));
    assert!(matches!(field(&v, "b"), Value::Int(2)));
}

#[test]
fn simple_list() {
    let payload = Builder::new()
        .start_compound("object")
        .start_list("a", Tag::Byte, 3)
        .byte_payload(1)
        .byte_payload(2)
        .byte_payload(3)
        .end_compound()
        .build();
    let v = from_bytes(payload.as_slice()).unwrap();
    let a: Vec<u32> = items(field(&v, "a")).iter().map(|i| to_u32(i).unwrap()).collect();
    assert_eq!(a, [1, 2, 3]);
}

#[test]
fn list_of_compounds() {
    let payload = Builder::new()
        .start_compound("object")
        .start_list("inner", Tag::Compound, 3)
        .byte("a", 1)
        .start_compound("ignored")
        .end_compound()
        .end_compound()
        .byte("a", 2)
        .end_compound()
        .byte("a", 3)
        .end_compound()
        .byte("after", 123)
        .end_compound()
        .build();
    let v = from_bytes(payload.as_slice()).unwrap();
    let a: Vec<u32> =
        items(field(&v, "inner")).iter().map(|i| to_u32(field(i, "a")).unwrap()).collect();
    assert_eq!(a, [1, 2, 3]);
    assert_eq!(to_i8(field(&v, "after")).unwrap(), 123);
}

#[test]
fn unwanted_primative_payloads() {
    let payload = Builder::new()
        .start_compound("object")
        .byte("a", 123)
        .short("b", 1)
        .int_entry("c", 2)
        .long("d", 3)
        .string("e", "test")
        .float("f", 1.23)
        .double("g", 2.34)
        .end_compound()
        .build();
    let v = from_bytes(payload.as_slice()).unwrap();
    assert_eq!(to_u32(field(&v, "a")).unwrap(), 123);
}

#[test]
fn ignore_list_of_compound() {
    let payload = Builder::new()
        .start_compound("object")
        .start_list("ignored", Tag::Compound, 2)
        .byte("a", 1)
        .end_compound()
        .end_compound()
        .byte("a", 123)
        .end_compound()
        .build();
    // Stepping over the list lands on the next entry's tag.
    let list_payload = 1 + 2 + "object".len() + 1 + 2 + "ignored".len();
    let end = skip_payload(&payload, list_payload, Tag::List).unwrap();
    assert_eq!(payload[end], Tag::Byte.to_byte());
    let v = from_bytes(payload.as_slice()).unwrap();
    assert_eq!(to_u8(field(&v, "a")).unwrap(), 123);
}

#[test]
fn byte_array_from_nbt_short_list() {
    let payload = Builder::new()
        .start_compound("object")
        .start_list("arr", Tag::Short, 3)
        .short_payload(1)
        .short_payload(2)
        .short_payload(3)
        .end_compound()
        .build();
    let at = 1 + 2 + "object".len() + 1 + 2 + "arr".len();
    let (bytes, _) = byte_buf(&payload, at, Tag::List).unwrap();
    assert_eq!(bytes, [0, 1, 0, 2, 0, 3]);
}

#[test]
fn byte_array_from_nbt_long_list() {
    let payload = Builder::new()
        .start_compound("object")
        .start_list("arr", Tag::Long, 2)
        .long_payload(1)
        .long_payload(2)
        .end_compound()
        .build();
    let at = 1 + 2 + "object".len() + 1 + 2 + "arr".len();
    let (bytes, _) = byte_buf(&payload, at, Tag::List).unwrap();
    assert_eq!(bytes, [0, 0, 0, 0, 0, 0, 0, 1, 0, 0, 0, 0, 0, 0, 0, 2]);
}

#[test]
fn type_mismatch_string() {
    let payload = Builder::new().start_compound("object").int_entry("_a", 123).end_compound().build();
    let v = from_bytes(payload.as_slice()).unwrap();
    assert!(!matches!(field(&v, "_a"), Value::String(_)));
}

#[test]
fn basic_palette_item() {
    let payload = Builder::new()
        .start_compound("object")
        .start_compound("Properties")
        .string("lit", "false")
        .end_compound()
        .string("Name", "minecraft:redstone_ore")
        .end_compound()
        .build();
    let v = from_bytes(payload.as_slice()).unwrap();
    let block = Block::from_value(&v).unwrap();
    assert_eq!(block.name, "minecraft:redstone_ore");
    assert_eq!(block.properties, vec![("lit".to_owned(), "false".to_owned())]);
}

#[test]
fn palette_item_without_name() {
    let payload = Builder::new().start_compound("object").end_compound().build();
    let v = from_bytes(payload.as_slice()).unwrap();
    assert!(matches!(Block::from_value(&v), Err(Error::MissingField(_))));
}

#[test]
fn integrals_in_fullvalue() {
    let payload = Builder::new()
        .start_compound("object")
        .int_entry("a", 1)
        .int_entry("b", 2)
        .end_compound()
        .build();

    let v = from_bytes(payload.as_slice()).unwrap();
    match v {
        Value::Compound(_) => {
            let a = field(&v, "a");
            match a {
                Value::Int(i) => assert_eq!(*i, 1),
                _ => panic!("{:?}", a),
            }
        }
        _ => panic!(),
    }
}

#[test]
fn floating_in_fullvalue() {
    let payload = Builder::new()
        .start_compound("object")
        .float("a", 1.0)
        .double("b", 2.0)
        .float("c", 3.0)
        .end_compound()
        .build();

    let val = from_bytes(payload.as_slice()).unwrap();
    let a = field(&val, "a");
    match a {
        Value::Float(f) => assert_eq!(f32::from_bits(*f), 1.0),
        _ => panic!("{:?}", a),
    }
    let b = field(&val, "b");
    match b {
        Value::Double(f) => assert_eq!(f64::from_bits(*f), 2.0),
        _ => panic!("{:?}", b),
    }
    let c = field(&val, "c");
    match c {
        Value::Float(f) => assert_eq!(f32::from_bits(*f), 3.0),
        _ => panic!("{:?}", c),
    }
}

#[test]
fn byte_array_in_fullvalue() {
    let payload = Builder::new().start_compound("object").byte_array("a", &[1, 2, 3]).end_compound().build();
    let v = from_bytes(payload.as_slice()).unwrap();
    match field(&v, "a") {
        Value::ByteArray(arr) => assert!(arr.iter().eq(&[1, 2, 3])),
        a => panic!("{:?}", a),
    }
}

#[test]
fn int_array_in_fullvalue() {
    let payload = Builder::new().start_compound("object").int_array("a", &[1, 2, 3]).end_compound().build();
    let v = from_bytes(payload.as_slice()).unwrap();
    match field(&v, "a") {
        Value::IntArray(arr) => assert_eq!(&**arr, &[1, 2, 3]),
        a => panic!("incorrect value: {:?}", a),
    }
}

#[test]
fn trailing_bytes() {
    let mut input = Builder::new().start_compound("").end_compound().build();
    input.push(1);
    let (_, _, end) = decode_document(&input).unwrap();
    assert_eq!(end, input.len() - 1);
}

#[test]
fn large_list() {
    let input = [10, 0, 0, 9, 0, 0, 10, 4, 0, 5, 252];
    let v = from_bytes(&input);
    assert!(v.is_err());
}

#[test]
fn truncated_document_errors() {
    let input = Builder::new().start_compound("").int_entry("a", 1).build();
    assert!(from_bytes(&input).is_err());
}

#[test]
fn non_compound_root_errors() {
    let input = Builder::new().int_entry("a", 1).build();
    assert!(matches!(from_bytes(&input), Err(Error::NonRootCompound)));
}

#[test]
fn invalid_tag_errors() {
    let input = [10, 0, 0, 13, 0, 0, 0];
    assert!(matches!(from_bytes(&input), Err(Error::InvalidTag(13))));
}

#[test]
fn cesu8_string_in_nbt() {
    let modified_unicode_str = cesu8::to_java_cesu8("😈");
    let input = Builder::new()
        .start_compound("")
        .tag(Tag::String)
        .name("hello")
        .raw_len(modified_unicode_str.len())
        .raw_bytes(&modified_unicode_str)
        .end_compound()
        .build();
    let v = from_bytes(&input).unwrap();
    match field(&v, "hello") {
        Value::String(s) => assert_eq!(s, "😈"),
        other => panic!("{:?}", other),
    }
}

#[test]
fn cannot_borrow_cesu8_if_diff_repr() {
    let modified_unicode_str = cesu8::to_java_cesu8("😈");
    assert!(matches!(decode_str(&modified_unicode_str, true), Err(Error::CannotBorrowCesu8)));
    let owned = decode_str(&modified_unicode_str, false).unwrap();
    assert!(!owned.borrowed);
    assert_eq!(owned.text, "😈");
}

#[test]
fn can_borrow_cesu8_if_same_repr() {
    let modified_unicode_str = cesu8::to_java_cesu8("abc");
    let v = decode_str(&modified_unicode_str, true).unwrap();
    assert!(v.borrowed);
    assert_eq!("abc", v.text);
}

#[test]
fn embedded_nul_is_owned() {
    let modified = cesu8::to_java_cesu8("a\0b");
    assert_eq!(&*modified, &[b'a', 0xc0, 0x80, b'b']);
    let v = decode_str(&modified, false).unwrap();
    assert!(!v.borrowed);
    assert_eq!(v.text, "a\0b");
}

#[test]
fn invalid_cesu8_errors() {
    assert!(matches!(decode_str(&[0xff, 0xfe], false), Err(Error::InvalidCesu8)));
}

#[test]
fn duplicate_names_last_wins() {
    let payload = Builder::new().start_compound("").int_entry("a", 1).int_entry("a", 2).end_compound().build();
    let v = from_bytes(&payload).unwrap();
    assert!(matches!(field(&v, "a"), Value::Int(2)));
}

#[test]
fn byte_array_from_list_bytes() {
    let payload = Builder::new()
        .start_compound("object")
        .start_list("arr", Tag::Byte, 3)
        .byte_payload(1)
        .byte_payload(2)
        .byte_payload(3)
        .end_compound()
        .build();
    let v = from_bytes(payload.as_slice()).unwrap();
    assert_eq!(to_byte_buf(field(&v, "arr")).unwrap(), [1, 2, 3]);
}

#[test]
fn byte_array_from_nbt_int_list() {
    let payload = Builder::new()
        .start_compound("object")
        .start_list("arr", Tag::Int, 2)
        .int_payload(1)
        .int_payload(2)
        .end_compound()
        .build();
    let v = from_bytes(payload.as_slice()).unwrap();
    assert_eq!(to_byte_buf(field(&v, "arr")).unwrap(), [0, 0, 0, 1, 0, 0, 0, 2]);
}

#[test]
fn byte_buf_of_shorts_and_longs_from_values() {
    let payload = Builder::new()
        .start_compound("object")
        .start_list("s", Tag::Short, 2)
        .short_payload(-2)
        .short_payload(258)
        .start_list("l", Tag::Long, 1)
        .long_payload(1)
        .byte_array("b", &[-1, 2])
        .end_compound()
        .build();
    let v = from_bytes(payload.as_slice()).unwrap();
    assert_eq!(to_byte_buf(field(&v, "s")).unwrap(), [0xff, 0xfe, 1, 2]);
    assert_eq!(to_byte_buf(field(&v, "l")).unwrap(), [0, 0, 0, 0, 0, 0, 0, 1]);
    assert_eq!(to_byte_buf(field(&v, "b")).unwrap(), [0xff, 2]);
}

#[test]
fn blockstates() {
    let payload = Builder::new()
        .start_compound("object")
        .tag(Tag::LongArray)
        .name("states")
        .int_payload(3)
        .long_payload(1)
        .long_payload(2)
        .long_payload(3)
        .end_compound()
        .build();
    let at = 1 + 2 + "object".len() + 1 + 2 + "states".len();
    let (bytes, _) = byte_buf(&payload, at, Tag::LongArray).unwrap();
    assert_eq!(
        [0, 0, 0, 0, 0, 0, 0, 1, 0, 0, 0, 0, 0, 0, 0, 2, 0, 0, 0, 0, 0, 0, 0, 3],
        bytes.as_slice()
    );
}

#[test]
fn string_list_is_no_byte_buf() {
    let payload = Builder::new()
        .start_compound("object")
        .start_list("arr", Tag::String, 1)
        .string_payload("x")
        .end_compound()
        .build();
    let v = from_bytes(payload.as_slice()).unwrap();
    assert!(matches!(to_byte_buf(field(&v, "arr")), Err(Error::TypeMismatch { .. })));
}

#[test]
fn borrowed_read_from_stream() {
    let mut bytes = Vec::new();
    write_str(&mut bytes, "😈").unwrap();
    assert_eq!(bytes[..2], [0, 6]);
    assert!(matches!(read_str(&bytes, 0, true), Err(Error::CannotBorrowCesu8)));
    let (owned, end) = read_str(&bytes, 0, false).unwrap();
    assert!(!owned.borrowed);
    assert_eq!(owned.text, "😈");
    assert_eq!(end, 8);

    let mut plain = Vec::new();
    write_str(&mut plain, "abc").unwrap();
    let (borrowed, _) = read_str(&plain, 0, true).unwrap();
    assert!(borrowed.borrowed);
    assert_eq!(borrowed.text, "abc");
}

#[test]
fn written_nul_uses_two_bytes() {
    let mut bytes = Vec::new();
    write_str(&mut bytes, "a\0").unwrap();
    assert_eq!(bytes, [0, 3, b'a', 0xc0, 0x80]);
}
