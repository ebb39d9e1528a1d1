use crate::error::Error;
use crate::strings::{decode_str, java_cesu8_decoded, java_cesu8_encoded, DecodedStr};
use vstd::utf8::valid_utf8;
use crate::tag::{tag_of_byte, Tag};
use vstd::prelude::*;

verus! {

/// Big-endian unsigned 16-bit value at `p`.
pub open spec fn be_u16(s: Seq<u8>, p: int) -> nat {
    s[p] as nat * 256 + s[p + 1] as nat
}

/// Big-endian signed 32-bit value at `p`.
pub open spec fn be_i32(s: Seq<u8>, p: int) -> int {
    let u = s[p] as int * 16777216 + s[p + 1] as int * 65536 + s[p + 2] as int * 256 + s[p + 3] as int;
    if u >= 0x8000_0000 {
        u - 0x1_0000_0000
    } else {
        u
    }
}

/// Bytes of one element of an integer array or a fixed-width payload.
pub open spec fn fixed_width(t: Tag) -> int {
    match t {
        Tag::Byte => 1,
        Tag::Short => 2,
        Tag::Int => 4,
        Tag::Long => 8,
        Tag::Float => 4,
        Tag::Double => 8,
        Tag::ByteArray => 1,
        Tag::IntArray => 4,
        Tag::LongArray => 8,
        _ => 0,
    }
}

/// Where a length-prefixed modified UTF-8 string that starts at `pos` ends,
/// if it is complete and valid.
pub open spec fn string_end(s: Seq<u8>, pos: int) -> Option<int> {
    if pos < 0 || pos + 2 > s.len() {
        None
    } else {
        let n = be_u16(s, pos) as int;
        if pos + 2 + n > s.len() {
            None
        } else if java_cesu8_decoded(s.subrange(pos + 2, pos + 2 + n)) is None {
            None
        } else {
            Some(pos + 2 + n)
        }
    }
}

/// Where the payload of a value of tag `t` that starts at `pos` ends, if it
/// is well formed: complete, with known tags, lengths that are not negative
/// and valid strings.
pub open spec fn payload_end(s: Seq<u8>, pos: int, t: Tag) -> Option<int>
    decreases s.len() - pos, 1int,
{
    if pos < 0 || pos > s.len() {
        None
    } else {
        match t {
            Tag::End => None,
            Tag::String => string_end(s, pos),
            Tag::Compound => entries_end(s, pos),
            Tag::List => if pos + 5 > s.len() {
                None
            } else {
                match tag_of_byte(s[pos]) {
                    None => None,
                    Some(et) => {
                        let n = be_i32(s, pos + 1);
                        if n < 0 || (et == Tag::End && n > 0) {
                            None
                        } else {
                            items_end(s, pos + 5, et, n)
                        }
                    },
                }
            },
            Tag::ByteArray | Tag::IntArray | Tag::LongArray => if pos + 4 > s.len() {
                None
            } else {
                let n = be_i32(s, pos);
                if n < 0 || pos + 4 + n * fixed_width(t) > s.len() {
                    None
                } else {
                    Some(pos + 4 + n * fixed_width(t))
                }
            },
            _ => if pos + fixed_width(t) > s.len() {
                None
            } else {
                Some(pos + fixed_width(t))
            },
        }
    }
}

/// Where `n` payloads of tag `t`, the first at `pos`, end.
pub open spec fn items_end(s: Seq<u8>, pos: int, t: Tag, n: int) -> Option<int>
    decreases s.len() - pos, 2int, n,
{
    if pos < 0 || pos > s.len() {
        None
    } else if n <= 0 {
        Some(pos)
    } else {
        match payload_end(s, pos, t) {
            None => None,
            Some(p) => if p <= pos || p > s.len() {
                None
            } else {
                items_end(s, p, t, n - 1)
            },
        }
    }
}

/// Where the named entries of a compound, the first at `pos`, end: just
/// after the End tag of the compound.
pub open spec fn entries_end(s: Seq<u8>, pos: int) -> Option<int>
    decreases s.len() - pos, 0int,
{
    if pos < 0 || pos >= s.len() {
        None
    } else {
        match tag_of_byte(s[pos]) {
            None => None,
            Some(Tag::End) => Some(pos + 1),
            Some(t) => match string_end(s, pos + 1) {
                None => None,
                Some(q) => if q <= pos || q > s.len() {
                    None
                } else {
                    match payload_end(s, q, t) {
                        None => None,
                        Some(p) => if p <= pos || p > s.len() {
                            None
                        } else {
                            entries_end(s, p)
                        },
                    }
                },
            },
        }
    }
}

/// The input starts with the magic bytes of gzip.
pub open spec fn gzip_magic(s: Seq<u8>) -> bool {
    s.len() >= 2 && s[0] == 0x1f && s[1] == 0x8b
}

/// Where a document ends: a compound tag, its name, and its entries.
pub open spec fn document_end(s: Seq<u8>) -> Option<int> {
    if s.len() == 0 || s[0] != 10 {
        None
    } else {
        match string_end(s, 1) {
            None => None,
            Some(q) => entries_end(s, q),
        }
    }
}

/// Reads the big-endian unsigned 16-bit value at `p`.
pub fn read_u16(s: &[u8], p: usize) -> (r: u16)
    requires
        p + 2 <= s@.len(),
    ensures
        r as nat == be_u16(s@, p as int),
{
    (s[p] as u16) * 256 + (s[p + 1] as u16)
}

/// Reads the big-endian signed 32-bit value at `p`.
pub fn read_i32(s: &[u8], p: usize) -> (r: i32)
    requires
        p + 4 <= s@.len(),
    ensures
        r as int == be_i32(s@, p as int),
{
    let hi = s[p];
    let u: u32 = ((hi & 0x7f) as u32) * 16777216 + (s[p + 1] as u32) * 65536 + (s[p + 2] as u32)
        * 256 + (s[p + 3] as u32);
    assert(hi as int == (hi & 0x7f) as int + if hi >= 128 { 128int } else { 0int }) by (bit_vector);
    if hi >= 128 {
        (u as i32) - 0x7fff_ffff - 1
    } else {
        u as i32
    }
}

/// Where the string that starts at `pos` ends; fails on a short input or
/// bytes that are not modified UTF-8.
fn skip_string(s: &[u8], pos: usize) -> (r: Result<usize, Error>)
    requires
        pos <= s@.len(),
    ensures
        r is Ok <==> string_end(s@, pos as int) is Some,
        r matches Ok(e) ==> string_end(s@, pos as int) == Some(e as int),
{
    if s.len() - pos < 2 {
        return Err(Error::UnexpectedEof);
    }
    let n = read_u16(s, pos) as usize;
    if s.len() - pos - 2 < n {
        return Err(Error::UnexpectedEof);
    }
    match decode_str(&s[pos + 2..pos + 2 + n], false) {
        Ok(_) => Ok(pos + 2 + n),
        Err(e) => Err(e),
    }
}

/// Steps over the payload of a value of tag `t` that starts at `pos`
/// without building it, and tells where it ends.
pub fn skip_payload(s: &[u8], pos: usize, t: Tag) -> (r: Result<usize, Error>)
    requires
        pos <= s@.len(),
    ensures
        r is Ok <==> payload_end(s@, pos as int, t) is Some,
        r matches Ok(e) ==> payload_end(s@, pos as int, t) == Some(e as int),
    decreases s@.len() - pos, 1int,
{
    let len = s.len();
    match t {
        Tag::End => Err(Error::InvalidTag(0)),
        Tag::String => skip_string(s, pos),
        Tag::Compound => skip_entries(s, pos),
        Tag::List => {
            if len - pos < 5 {
                return Err(Error::UnexpectedEof);
            }
            let et = match Tag::from_byte(s[pos]) {
                Some(et) => et,
                None => {
                    return Err(Error::InvalidTag(s[pos]));
                },
            };
            let n = read_i32(s, pos + 1);
            if n < 0 || (et == Tag::End && n > 0) {
                return Err(Error::InvalidLength);
            }
            let mut cur = pos + 5;
            let mut i: i32 = 0;
            while i < n
                invariant
                    pos + 5 <= cur <= len,
                    len == s@.len(),
                    payload_end(s@, pos as int, t) == items_end(s@, pos as int + 5, et, n as int),
                    0 <= i <= n,
                    items_end(s@, pos as int + 5, et, n as int) == items_end(
                        s@,
                        cur as int,
                        et,
                        (n - i) as int,
                    ),
                decreases n - i,
            {
                let next = skip_payload(s, cur, et);
                assert(items_end(s@, cur as int, et, (n - i) as int) == match payload_end(
                    s@,
                    cur as int,
                    et,
                ) {
                    None => None,
                    Some(p) => if p <= cur || p > s@.len() {
                        None
                    } else {
                        items_end(s@, p, et, (n - i) as int - 1)
                    },
                });
                match next {
                    Ok(p) => {
                        if p <= cur || p > len {
                            return Err(Error::InvalidLength);
                        }
                        cur = p;
                    },
                    Err(e) => {
                        return Err(e);
                    },
                }
                i = i + 1;
            }
            Ok(cur)
        },
        Tag::ByteArray | Tag::IntArray | Tag::LongArray => {
            if len - pos < 4 {
                return Err(Error::UnexpectedEof);
            }
            let n = read_i32(s, pos);
            if n < 0 {
                return Err(Error::InvalidLength);
            }
            let w: usize = match t {
                Tag::ByteArray => 1,
                Tag::IntArray => 4,
                _ => 8,
            };
            if (n as usize) > (len - pos - 4) / w {
                return Err(Error::UnexpectedEof);
            }
            Ok(pos + 4 + (n as usize) * w)
        },
        _ => {
            let w: usize = match t {
                Tag::Byte => 1,
                Tag::Short => 2,
                Tag::Int => 4,
                Tag::Float => 4,
                _ => 8,
            };
            if len - pos < w {
                return Err(Error::UnexpectedEof);
            }
            Ok(pos + w)
        },
    }
}

/// Steps over the named entries of a compound, the first at `pos`, and
/// tells where the compound ends.
pub fn skip_entries(s: &[u8], pos: usize) -> (r: Result<usize, Error>)
    requires
        pos <= s@.len(),
    ensures
        r is Ok <==> entries_end(s@, pos as int) is Some,
        r matches Ok(e) ==> entries_end(s@, pos as int) == Some(e as int),
    decreases s@.len() - pos, 0int,
{
    let len = s.len();
    let mut cur = pos;
    loop
        invariant
            pos <= cur <= len,
            len == s@.len(),
            entries_end(s@, pos as int) == entries_end(s@, cur as int),
        decreases len - cur,
    {
        if cur >= len {
            return Err(Error::UnexpectedEof);
        }
        let t = match Tag::from_byte(s[cur]) {
            Some(t) => t,
            None => {
                return Err(Error::InvalidTag(s[cur]));
            },
        };
        if t == Tag::End {
            return Ok(cur + 1);
        }
        let q = match skip_string(s, cur + 1) {
            Ok(q) => q,
            Err(e) => {
                return Err(e);
            },
        };
        if q <= cur || q > len {
            return Err(Error::UnexpectedEof);
        }
        let p = match skip_payload(s, q, t) {
            Ok(p) => p,
            Err(e) => {
                return Err(e);
            },
        };
        if p <= cur || p > len {
            return Err(Error::UnexpectedEof);
        }
        cur = p;
    }
}

/// `s2` starts with all of `s`.
pub open spec fn extends(s: Seq<u8>, s2: Seq<u8>) -> bool {
    s2.len() >= s.len() && forall|i: int| 0 <= i < s.len() ==> #[trigger] s2[i] == s[i]
}

/// A string that ends within `s` ends at the same place in anything that
/// starts with `s`.
pub proof fn lemma_string_end_extends(s: Seq<u8>, s2: Seq<u8>, pos: int)
    requires
        extends(s, s2),
    ensures
        string_end(s, pos) matches Some(e) ==> string_end(s2, pos) == Some(e),
{
    if let Some(e) = string_end(s, pos) {
        assert(s2[pos] == s[pos] && s2[pos + 1] == s[pos + 1]);
        assert(s2.subrange(pos + 2, e) =~= s.subrange(pos + 2, e));
    }
}

/// A payload that ends within `s` ends at the same place in anything that
/// starts with `s`.
pub proof fn lemma_payload_end_extends(s: Seq<u8>, s2: Seq<u8>, pos: int, t: Tag)
    requires
        extends(s, s2),
    ensures
        payload_end(s, pos, t) matches Some(e) ==> payload_end(s2, pos, t) == Some(e),
    decreases s.len() - pos, 1int,
{
    if let Some(e) = payload_end(s, pos, t) {
        match t {
            Tag::String => lemma_string_end_extends(s, s2, pos),
            Tag::Compound => lemma_entries_end_extends(s, s2, pos),
            Tag::List => {
                assert(s2[pos] == s[pos]);
                assert(s2[pos + 1] == s[pos + 1] && s2[pos + 2] == s[pos + 2] && s2[pos + 3]
                    == s[pos + 3] && s2[pos + 4] == s[pos + 4]);
                let et = tag_of_byte(s[pos]).unwrap();
                lemma_items_end_extends(s, s2, pos + 5, et, be_i32(s, pos + 1));
            },
            Tag::ByteArray | Tag::IntArray | Tag::LongArray => {
                assert(s2[pos] == s[pos] && s2[pos + 1] == s[pos + 1] && s2[pos + 2] == s[pos + 2]
                    && s2[pos + 3] == s[pos + 3]);
            },
            _ => {},
        }
    }
}

/// Items that end within `s` end at the same place in anything that starts
/// with `s`.
pub proof fn lemma_items_end_extends(s: Seq<u8>, s2: Seq<u8>, pos: int, t: Tag, n: int)
    requires
        extends(s, s2),
    ensures
        items_end(s, pos, t, n) matches Some(e) ==> items_end(s2, pos, t, n) == Some(e),
    decreases s.len() - pos, 2int, n,
{
    if let Some(e) = items_end(s, pos, t, n) {
        if n > 0 {
            lemma_payload_end_extends(s, s2, pos, t);
            let p = payload_end(s, pos, t).unwrap();
            lemma_payload_end_bounds(s, pos, t);
            lemma_items_end_extends(s, s2, p, t, n - 1);
        }
    }
}

/// Entries that end within `s` end at the same place in anything that
/// starts with `s`.
pub proof fn lemma_entries_end_extends(s: Seq<u8>, s2: Seq<u8>, pos: int)
    requires
        extends(s, s2),
    ensures
        entries_end(s, pos) matches Some(e) ==> entries_end(s2, pos) == Some(e),
    decreases s.len() - pos, 0int,
{
    if let Some(e) = entries_end(s, pos) {
        assert(s2[pos] == s[pos]);
        let t = tag_of_byte(s[pos]).unwrap();
        if t != Tag::End {
            lemma_string_end_extends(s, s2, pos + 1);
            let q = string_end(s, pos + 1).unwrap();
            lemma_payload_end_extends(s, s2, q, t);
            let p = payload_end(s, q, t).unwrap();
            lemma_entries_end_extends(s, s2, p);
        }
    }
}

/// Bytes after the end of a document change nothing about it: a document
/// that ends within `b` ends at the same place, and holds the same root
/// compound, with anything appended.
pub proof fn lemma_trailing_bytes_ignored(b: Seq<u8>, trailing: Seq<u8>, v: Value)
    ensures
        document_end(b) matches Some(e) ==> document_end(b + trailing) == Some(e),
        document_value(b, v) ==> document_value(b + trailing, v),
{
    if document_value(b, v) {
        let s2 = b + trailing;
        assert(extends(b, s2));
        lemma_string_end_extends(b, s2, 1);
        let q = string_end(b, 1).unwrap();
        lemma_decodes_to_extends(b, s2, q, Tag::Compound, v);
    }
    let s2 = b + trailing;
    assert(extends(b, s2));
    if let Some(e) = document_end(b) {
        assert(s2[0] == b[0]);
        lemma_string_end_extends(b, s2, 1);
        let q = string_end(b, 1).unwrap();
        lemma_entries_end_extends(b, s2, q);
    }
}

/// A value of any tag, as the stream describes it. Floating-point payloads
/// are kept as their IEEE-754 bit patterns.
#[derive(Debug)]
pub enum Value {
    Byte(i8),
    Short(i16),
    Int(i32),
    Long(i64),
    Float(u32),
    Double(u64),
    ByteArray(Vec<i8>),
    String(String),
    List(Tag, Vec<Value>),
    Compound(Vec<(String, Value)>),
    IntArray(Vec<i32>),
    LongArray(Vec<i64>),
}

/// The tag under which a value is stored.
pub open spec fn value_tag(v: Value) -> Tag {
    match v {
        Value::Byte(_) => Tag::Byte,
        Value::Short(_) => Tag::Short,
        Value::Int(_) => Tag::Int,
        Value::Long(_) => Tag::Long,
        Value::Float(_) => Tag::Float,
        Value::Double(_) => Tag::Double,
        Value::ByteArray(_) => Tag::ByteArray,
        Value::String(_) => Tag::String,
        Value::List(_, _) => Tag::List,
        Value::Compound(_) => Tag::Compound,
        Value::IntArray(_) => Tag::IntArray,
        Value::LongArray(_) => Tag::LongArray,
    }
}

/// Big-endian unsigned 32-bit value at `p`.
pub open spec fn be_u32(s: Seq<u8>, p: int) -> nat {
    s[p] as nat * 16777216 + s[p + 1] as nat * 65536 + s[p + 2] as nat * 256 + s[p + 3] as nat
}

/// Big-endian unsigned 64-bit value at `p`.
pub open spec fn be_u64(s: Seq<u8>, p: int) -> nat {
    be_u32(s, p) * 0x1_0000_0000 + be_u32(s, p + 4)
}

/// The text of the string stored at `pos`, when it is valid.
pub open spec fn string_text(s: Seq<u8>, pos: int) -> Option<Seq<char>> {
    java_cesu8_decoded(s.subrange(pos + 2, pos + 2 + be_u16(s, pos)))
}

/// `v` is what the payload of tag `t` at `pos` holds: the same tag, the same
/// numbers, the same text, and for lists and compounds the same elements in
/// stored order.
pub open spec fn decodes_to(s: Seq<u8>, pos: int, t: Tag, v: Value) -> bool
    decreases s.len() - pos, 1int, 0int,
{
    if pos < 0 || payload_end(s, pos, t) is None {
        false
    } else {
        match t {
            Tag::Byte => v == Value::Byte(s[pos] as i8),
            Tag::Short => v == Value::Short(be_u16(s, pos) as i16),
            Tag::Int => v == Value::Int(be_i32(s, pos) as i32),
            Tag::Long => v == Value::Long(be_u64(s, pos) as i64),
            Tag::Float => v == Value::Float(be_u32(s, pos) as u32),
            Tag::Double => v == Value::Double(be_u64(s, pos) as u64),
            Tag::String => v matches Value::String(x) && string_text(s, pos) == Some(x@),
            Tag::ByteArray => v matches Value::ByteArray(a) && a@.len() == be_i32(s, pos) && forall|
                i: int,
            | 0 <= i < a@.len() ==> #[trigger] a@[i] == s[pos + 4 + i] as i8,
            Tag::IntArray => v matches Value::IntArray(a) && a@.len() == be_i32(s, pos) && forall|
                i: int,
            | 0 <= i < a@.len() ==> #[trigger] a@[i] == be_i32(s, pos + 4 + 4 * i) as i32,
            Tag::LongArray => v matches Value::LongArray(a) && a@.len() == be_i32(s, pos) && forall|
                i: int,
            | 0 <= i < a@.len() ==> #[trigger] a@[i] == be_u64(s, pos + 4 + 8 * i) as i64,
            Tag::List => v matches Value::List(et, items) && tag_of_byte(s[pos]) == Some(et)
                && items@.len() == be_i32(s, pos + 1) && items_decode(s, pos + 5, et, items@)
                == payload_end(s, pos, t),
            Tag::Compound => v matches Value::Compound(es) && entries_decode(s, pos, es@) matches Some(
                p,
            ) && 0 <= p < s.len() && s[p] == 0 && payload_end(s, pos, t) == Some(p + 1),
            Tag::End => false,
        }
    }
}

/// Where the payloads of `items`, each of tag `t` and the first at `start`,
/// end, if each is what the stream holds there.
pub open spec fn items_decode(s: Seq<u8>, start: int, t: Tag, items: Seq<Value>) -> Option<int>
    decreases s.len() - start, 2int, items.len(),
{
    if items.len() == 0 {
        Some(start)
    } else {
        match items_decode(s, start, t, items.drop_last()) {
            None => None,
            Some(p) => if p < start || p > s.len() {
                None
            } else if decodes_to(s, p, t, items.last()) {
                payload_end(s, p, t)
            } else {
                None
            },
        }
    }
}

/// Where the named entries `es` of a compound, the first at `start`, end,
/// if each is what the stream holds there: its tag, its name, its value.
pub open spec fn entries_decode(s: Seq<u8>, start: int, es: Seq<(String, Value)>) -> Option<int>
    decreases s.len() - start, 0int, es.len(),
{
    if es.len() == 0 {
        Some(start)
    } else {
        match entries_decode(s, start, es.drop_last()) {
            None => None,
            Some(p) => if p < start || p >= s.len() {
                None
            } else {
                match tag_of_byte(s[p]) {
                    None => None,
                    Some(Tag::End) => None,
                    Some(t) => match string_end(s, p + 1) {
                        None => None,
                        Some(q) => if q <= start || q > s.len() || string_text(s, p + 1) != Some(
                            es.last().0@,
                        ) {
                            None
                        } else if decodes_to(s, q, t, es.last().1) {
                            payload_end(s, q, t)
                        } else {
                            None
                        },
                    },
                }
            },
        }
    }
}

/// The text of a string that ends within `s` is the same in anything that
/// starts with `s`.
proof fn lemma_string_text_extends(s: Seq<u8>, s2: Seq<u8>, pos: int)
    requires
        extends(s, s2),
        string_end(s, pos) is Some,
    ensures
        string_text(s2, pos) == string_text(s, pos),
        string_end(s2, pos) == string_end(s, pos),
{
    lemma_string_end_extends(s, s2, pos);
    let e = string_end(s, pos).unwrap();
    assert(s2[pos] == s[pos] && s2[pos + 1] == s[pos + 1]);
    assert(s2.subrange(pos + 2, e) =~= s.subrange(pos + 2, e));
}

/// A value that the bytes of `s` hold at `pos` is held there in anything
/// that starts with `s`.
pub proof fn lemma_decodes_to_extends(s: Seq<u8>, s2: Seq<u8>, pos: int, t: Tag, v: Value)
    requires
        extends(s, s2),
        decodes_to(s, pos, t, v),
    ensures
        decodes_to(s2, pos, t, v),
    decreases s.len() - pos, 1int, 0int,
{
    lemma_payload_end_extends(s, s2, pos, t);
    lemma_payload_end_bounds(s, pos, t);
    let e = payload_end(s, pos, t).unwrap();
    assert forall|j: int| pos <= j < e implies s2[j] == s[j] by {}
    match t {
        Tag::String => lemma_string_text_extends(s, s2, pos),
        Tag::List => {
            let et = tag_of_byte(s[pos]).unwrap();
            let items = v->List_1;
            lemma_items_decode_extends(s, s2, pos + 5, et, items@);
        },
        Tag::Compound => {
            let es = v->Compound_0;
            lemma_entries_decode_extends(s, s2, pos, es@);
        },
        Tag::ByteArray => {
            let a = v->ByteArray_0;
            assert forall|i: int| 0 <= i < a@.len() implies #[trigger] a@[i] == s2[pos + 4
                + i] as i8 by {
                assert(s2[pos + 4 + i] == s[pos + 4 + i]);
            }
        },
        Tag::IntArray => {
            let a = v->IntArray_0;
            assert forall|i: int| 0 <= i < a@.len() implies #[trigger] a@[i] == be_i32(
                s2,
                pos + 4 + 4 * i,
            ) as i32 by {
                assert(pos + 4 + 4 * i + 4 <= pos + 4 + a@.len() * 4) by (nonlinear_arith)
                    requires
                        0 <= i < a@.len(),
                ;
                let q = pos + 4 + 4 * i;
                assert(s2[q] == s[q] && s2[q + 1] == s[q + 1] && s2[q + 2] == s[q + 2] && s2[q + 3]
                    == s[q + 3]);
            }
        },
        Tag::LongArray => {
            let a = v->LongArray_0;
            assert forall|i: int| 0 <= i < a@.len() implies #[trigger] a@[i] == be_u64(
                s2,
                pos + 4 + 8 * i,
            ) as i64 by {
                assert(pos + 4 + 8 * i + 8 <= pos + 4 + a@.len() * 8) by (nonlinear_arith)
                    requires
                        0 <= i < a@.len(),
                ;
                let q = pos + 4 + 8 * i;
                assert(s2[q] == s[q] && s2[q + 1] == s[q + 1] && s2[q + 2] == s[q + 2] && s2[q + 3]
                    == s[q + 3]);
                assert(s2[q + 4] == s[q + 4] && s2[q + 5] == s[q + 5] && s2[q + 6] == s[q + 6]
                    && s2[q + 7] == s[q + 7]);
            }
        },
        _ => {},
    }
}

/// Items that the bytes of `s` hold are held the same way in anything that
/// starts with `s`.
pub proof fn lemma_items_decode_extends(
    s: Seq<u8>,
    s2: Seq<u8>,
    start: int,
    t: Tag,
    items: Seq<Value>,
)
    requires
        extends(s, s2),
    ensures
        items_decode(s, start, t, items) matches Some(e) ==> items_decode(s2, start, t, items)
            == Some(e),
    decreases s.len() - start, 2int, items.len(),
{
    if items.len() > 0 {
        if let Some(e) = items_decode(s, start, t, items) {
            lemma_items_decode_extends(s, s2, start, t, items.drop_last());
            let p = items_decode(s, start, t, items.drop_last()).unwrap();
            lemma_decodes_to_extends(s, s2, p, t, items.last());
            lemma_payload_end_extends(s, s2, p, t);
        }
    }
}

/// Entries that the bytes of `s` hold are held the same way in anything
/// that starts with `s`.
pub proof fn lemma_entries_decode_extends(
    s: Seq<u8>,
    s2: Seq<u8>,
    start: int,
    es: Seq<(String, Value)>,
)
    requires
        extends(s, s2),
        0 <= start,
    ensures
        entries_decode(s, start, es) matches Some(e) ==> entries_decode(s2, start, es) == Some(e),
    decreases s.len() - start, 0int, es.len(),
{
    if es.len() > 0 {
        if let Some(e) = entries_decode(s, start, es) {
            lemma_entries_decode_extends(s, s2, start, es.drop_last());
            let p = entries_decode(s, start, es.drop_last()).unwrap();
            assert(s2[p] == s[p]);
            let t = tag_of_byte(s[p]).unwrap();
            lemma_string_text_extends(s, s2, p + 1);
            let q = string_end(s, p + 1).unwrap();
            lemma_decodes_to_extends(s, s2, q, t, es.last().1);
            lemma_payload_end_extends(s, s2, q, t);
        }
    }
}

/// Reads the big-endian unsigned 64-bit value at `p`.
fn read_u64(s: &[u8], p: usize) -> (r: u64)
    requires
        p + 8 <= s@.len(),
    ensures
        r as nat == be_u64(s@, p as int),
{
    let hi = read_u32(s, p) as u64;
    // The slice length is a usize, which bounds the index below.
    let _n = s.len();
    let lo = read_u32(s, p + 4) as u64;
    assert(hi * 0x1_0000_0000 + lo <= u64::MAX) by (nonlinear_arith)
        requires
            hi <= u32::MAX,
            lo <= u32::MAX,
    ;
    hi * 0x1_0000_0000 + lo
}

/// Reads the big-endian unsigned 32-bit value at `p`.
fn read_u32(s: &[u8], p: usize) -> (r: u32)
    requires
        p + 4 <= s@.len(),
    ensures
        r as nat == be_u32(s@, p as int),
{
    (s[p] as u32) * 16777216 + (s[p + 1] as u32) * 65536 + (s[p + 2] as u32) * 256 + (s[p
        + 3] as u32)
}

/// Reads a string that starts at `pos`: its text and where it ends.
fn read_string(s: &[u8], pos: usize) -> (r: Result<(String, usize), Error>)
    requires
        pos <= s@.len(),
    ensures
        r is Ok <==> string_end(s@, pos as int) is Some,
        r matches Ok((_, e)) ==> string_end(s@, pos as int) == Some(e as int),
        r matches Ok((text, _)) ==> string_text(s@, pos as int) == Some(text@),
{
    if s.len() - pos < 2 {
        return Err(Error::UnexpectedEof);
    }
    let n = read_u16(s, pos) as usize;
    if s.len() - pos - 2 < n {
        return Err(Error::UnexpectedEof);
    }
    match decode_str(&s[pos + 2..pos + 2 + n], false) {
        Ok(d) => Ok((d.text, pos + 2 + n)),
        Err(e) => Err(e),
    }
}

/// A string stored the way `write_str` stores it reads back as the text
/// written, and ends where the stored bytes end.
pub proof fn lemma_written_str_reads_back(prefix: Seq<u8>, text: Seq<char>)
    requires
        java_cesu8_encoded(text).len() <= 0xffff,
        java_cesu8_decoded(java_cesu8_encoded(text)) == Some(text),
    ensures
        ({
            let enc = java_cesu8_encoded(text);
            let s = prefix + seq![(enc.len() / 256) as u8, (enc.len() % 256) as u8] + enc;
            string_end(s, prefix.len() as int) == Some(s.len() as int) && string_text(
                s,
                prefix.len() as int,
            ) == Some(text)
        }),
{
    let enc = java_cesu8_encoded(text);
    let n = enc.len();
    let s = prefix + seq![(n / 256) as u8, (n % 256) as u8] + enc;
    let p = prefix.len() as int;
    assert(s[p] == (n / 256) as u8 && s[p + 1] == (n % 256) as u8);
    assert(be_u16(s, p) == n) by (nonlinear_arith)
        requires
            s[p] == (n / 256) as u8,
            s[p + 1] == (n % 256) as u8,
            n <= 0xffff,
            be_u16(s, p) == s[p] as nat * 256 + s[p + 1] as nat,
    ;
    assert(s.subrange(p + 2, p + 2 + n) =~= enc);
}

/// Reads the string payload that starts at `pos`, as a borrow when
/// `need_borrow` is set: then a string whose stored bytes are not its UTF-8
/// bytes is refused. Also tells where the string ends.
pub fn read_str(s: &[u8], pos: usize, need_borrow: bool) -> (r: Result<(DecodedStr, usize), Error>)
    requires
        pos <= s@.len(),
    ensures
        r is Ok <==> string_end(s@, pos as int) is Some && !(need_borrow && !valid_utf8(
            s@.subrange(pos + 2, pos + 2 + be_u16(s@, pos as int)),
        )),
        r matches Ok((d, e)) ==> string_end(s@, pos as int) == Some(e as int) && string_text(
            s@,
            pos as int,
        ) == Some(d.text@) && (d.borrowed <==> valid_utf8(s@.subrange(pos + 2, e as int))),
        string_end(s@, pos as int) is Some && need_borrow && !valid_utf8(
            s@.subrange(pos + 2, pos + 2 + be_u16(s@, pos as int)),
        ) ==> (r matches Err(e) && e is CannotBorrowCesu8),
{
    if s.len() - pos < 2 {
        return Err(Error::UnexpectedEof);
    }
    let n = read_u16(s, pos) as usize;
    if s.len() - pos - 2 < n {
        return Err(Error::UnexpectedEof);
    }
    let bytes = &s[pos + 2..pos + 2 + n];
    assert(bytes@ == s@.subrange(pos + 2, pos + 2 + be_u16(s@, pos as int)));
    match decode_str(bytes, need_borrow) {
        Ok(d) => Ok((d, pos + 2 + n)),
        Err(e) => Err(e),
    }
}

/// Decodes the payload of a value of tag `t` that starts at `pos`, and tells
/// where it ends. Succeeds exactly on a well-formed payload, and then gives
/// what the stream holds.
pub fn decode_payload(s: &[u8], pos: usize, t: Tag) -> (r: Result<(Value, usize), Error>)
    requires
        pos <= s@.len(),
    ensures
        r is Ok <==> payload_end(s@, pos as int, t) is Some,
        r matches Ok((v, e)) ==> payload_end(s@, pos as int, t) == Some(e as int) && value_tag(v)
            == t && decodes_to(s@, pos as int, t, v),
    decreases s@.len() - pos, 1int,
{
    match t {
        Tag::End => Err(Error::InvalidTag(0)),
        Tag::String => match read_string(s, pos) {
            Ok((text, e)) => Ok((Value::String(text), e)),
            Err(e) => Err(e),
        },
        Tag::Compound => match decode_entries(s, pos) {
            Ok((entries, e)) => Ok((Value::Compound(entries), e)),
            Err(e) => Err(e),
        },
        Tag::List => decode_list(s, pos, t),
        Tag::ByteArray | Tag::IntArray | Tag::LongArray => decode_array(s, pos, t),
        _ => decode_fixed(s, pos, t),
    }
}

/// Decodes a list payload that starts at `pos`.
fn decode_list(s: &[u8], pos: usize, t: Tag) -> (r: Result<(Value, usize), Error>)
    requires
        pos <= s@.len(),
        t == Tag::List,
    ensures
        r is Ok <==> payload_end(s@, pos as int, t) is Some,
        r matches Ok((v, e)) ==> payload_end(s@, pos as int, t) == Some(e as int) && value_tag(v)
            == t && decodes_to(s@, pos as int, t, v),
    decreases s@.len() - pos, 0int,
{
    let len = s.len();
    if len - pos < 5 {
        return Err(Error::UnexpectedEof);
    }
    let et = match Tag::from_byte(s[pos]) {
        Some(et) => et,
        None => {
            return Err(Error::InvalidTag(s[pos]));
        },
    };
    let n = read_i32(s, pos + 1);
    if n < 0 || (et == Tag::End && n > 0) {
        return Err(Error::InvalidLength);
    }
    let mut items: Vec<Value> = Vec::new();
    let mut cur = pos + 5;
    let mut i: i32 = 0;
    while i < n
        invariant
            pos + 5 <= cur <= len,
            len == s@.len(),
            payload_end(s@, pos as int, t) == items_end(s@, pos as int + 5, et, n as int),
            0 <= i <= n,
            items_end(s@, pos as int + 5, et, n as int) == items_end(
                s@,
                cur as int,
                et,
                (n - i) as int,
            ),
            items@.len() == i,
            items_decode(s@, pos as int + 5, et, items@) == Some(cur as int),
            tag_of_byte(s@[pos as int]) == Some(et),
            n as int == be_i32(s@, pos as int + 1),
        decreases n - i,
    {
        let next = decode_payload(s, cur, et);
        assert(items_end(s@, cur as int, et, (n - i) as int) == match payload_end(
            s@,
            cur as int,
            et,
        ) {
            None => None,
            Some(p) => if p <= cur || p > s@.len() {
                None
            } else {
                items_end(s@, p, et, (n - i) as int - 1)
            },
        });
        match next {
            Ok((v, p)) => {
                if p <= cur || p > len {
                    return Err(Error::InvalidLength);
                }
                let ghost before = items@;
                items.push(v);
                assert(items@.drop_last() =~= before);
                cur = p;
            },
            Err(e) => {
                return Err(e);
            },
        }
        i = i + 1;
    }
    Ok((Value::List(et, items), cur))
}

/// Decodes an array payload of bytes, ints or longs that starts at `pos`.
fn decode_array(s: &[u8], pos: usize, t: Tag) -> (r: Result<(Value, usize), Error>)
    requires
        pos <= s@.len(),
        t is ByteArray || t is IntArray || t is LongArray,
    ensures
        r is Ok <==> payload_end(s@, pos as int, t) is Some,
        r matches Ok((v, e)) ==> payload_end(s@, pos as int, t) == Some(e as int) && value_tag(v)
            == t && decodes_to(s@, pos as int, t, v),
{
    let len = s.len();
    if len - pos < 4 {
        return Err(Error::UnexpectedEof);
    }
    let n = read_i32(s, pos);
    if n < 0 {
        return Err(Error::InvalidLength);
    }
    let w: usize = match t {
        Tag::ByteArray => 1,
        Tag::IntArray => 4,
        _ => 8,
    };
    assert(w as int == fixed_width(t));
    if (n as usize) > (len - pos - 4) / w {
        assert(pos + 4 + n * w > len) by (nonlinear_arith)
            requires
                n > (len - pos - 4) / (w as int),
                w >= 1,
                len >= pos + 4,
        ;
        return Err(Error::UnexpectedEof);
    }
    let count = n as usize;
    let start = pos + 4;
    assert(count * w <= len - pos - 4) by (nonlinear_arith)
        requires
            count <= (len - pos - 4) / (w as int),
            w >= 1,
            len >= pos + 4,
    ;
    match t {
        Tag::ByteArray => {
            let mut out: Vec<i8> = Vec::new();
            let mut i: usize = 0;
            while i < count
                invariant
                    i <= count,
                    len == s@.len(),
                    start + count <= len,
                    out@.len() == i,
                    forall|j: int| 0 <= j < i ==> #[trigger] out@[j] == s@[start + j] as i8,
                decreases count - i,
            {
                out.push(#[verifier::truncate] (s[start + i] as i8));
                i = i + 1;
            }
            Ok((Value::ByteArray(out), start + count))
        },
        Tag::IntArray => {
            let mut out: Vec<i32> = Vec::new();
            let mut i: usize = 0;
            while i < count
                invariant
                    i <= count,
                    len == s@.len(),
                    start + count * 4 <= len,
                    out@.len() == i,
                    forall|j: int|
                        0 <= j < i ==> #[trigger] out@[j] == be_i32(s@, start + 4 * j) as i32,
                decreases count - i,
            {
                assert(start + i * 4 + 4 <= start + count * 4) by (nonlinear_arith)
                    requires
                        i < count,
                ;
                out.push(read_i32(s, start + i * 4));
                i = i + 1;
            }
            Ok((Value::IntArray(out), start + count * 4))
        },
        _ => {
            let mut out: Vec<i64> = Vec::new();
            let mut i: usize = 0;
            while i < count
                invariant
                    i <= count,
                    len == s@.len(),
                    start + count * 8 <= len,
                    out@.len() == i,
                    forall|j: int|
                        0 <= j < i ==> #[trigger] out@[j] == be_u64(s@, start + 8 * j) as i64,
                decreases count - i,
            {
                assert(start + i * 8 + 8 <= start + count * 8) by (nonlinear_arith)
                    requires
                        i < count,
                ;
                out.push(#[verifier::truncate] (read_u64(s, start + i * 8) as i64));
                i = i + 1;
            }
            Ok((Value::LongArray(out), start + count * 8))
        },
    }
}

/// Decodes a fixed-width payload: a byte, short, int, long, float or
/// double.
fn decode_fixed(s: &[u8], pos: usize, t: Tag) -> (r: Result<(Value, usize), Error>)
    requires
        pos <= s@.len(),
        t is Byte || t is Short || t is Int || t is Long || t is Float || t is Double,
    ensures
        r is Ok <==> payload_end(s@, pos as int, t) is Some,
        r matches Ok((v, e)) ==> payload_end(s@, pos as int, t) == Some(e as int) && value_tag(v)
            == t && decodes_to(s@, pos as int, t, v),
{
    let len = s.len();
    let w: usize = match t {
        Tag::Byte => 1,
        Tag::Short => 2,
        Tag::Int => 4,
        Tag::Float => 4,
        _ => 8,
    };
    if len - pos < w {
        return Err(Error::UnexpectedEof);
    }
    let v = match t {
        Tag::Byte => Value::Byte(#[verifier::truncate] (s[pos] as i8)),
        Tag::Short => Value::Short(#[verifier::truncate] (read_u16(s, pos) as i16)),
        Tag::Int => Value::Int(read_i32(s, pos)),
        Tag::Float => Value::Float(read_u32(s, pos)),
        Tag::Long => Value::Long(#[verifier::truncate] (read_u64(s, pos) as i64)),
        _ => Value::Double(read_u64(s, pos)),
    };
    Ok((v, pos + w))
}

/// Decodes the named entries of a compound, the first at `pos`, in stored
/// order, and tells where the compound ends.
pub fn decode_entries(s: &[u8], pos: usize) -> (r: Result<(Vec<(String, Value)>, usize), Error>)
    requires
        pos <= s@.len(),
    ensures
        r is Ok <==> entries_end(s@, pos as int) is Some,
        r matches Ok((_, e)) ==> entries_end(s@, pos as int) == Some(e as int),
        r matches Ok((es, e)) ==> entries_decode(s@, pos as int, es@) == Some(e - 1) && 0 <= e - 1
            < s@.len() && s@[e - 1] == 0,
    decreases s@.len() - pos, 0int,
{
    let len = s.len();
    let mut entries: Vec<(String, Value)> = Vec::new();
    let mut cur = pos;
    loop
        invariant
            pos <= cur <= len,
            len == s@.len(),
            entries_end(s@, pos as int) == entries_end(s@, cur as int),
            entries_decode(s@, pos as int, entries@) == Some(cur as int),
        decreases len - cur,
    {
        if cur >= len {
            return Err(Error::UnexpectedEof);
        }
        let t = match Tag::from_byte(s[cur]) {
            Some(t) => t,
            None => {
                return Err(Error::InvalidTag(s[cur]));
            },
        };
        if t == Tag::End {
            return Ok((entries, cur + 1));
        }
        let (name, q) = match read_string(s, cur + 1) {
            Ok(x) => x,
            Err(e) => {
                return Err(e);
            },
        };
        if q <= cur || q > len {
            return Err(Error::UnexpectedEof);
        }
        let (v, p) = match decode_payload(s, q, t) {
            Ok(x) => x,
            Err(e) => {
                return Err(e);
            },
        };
        if p <= cur || p > len {
            return Err(Error::UnexpectedEof);
        }
        let ghost before = entries@;
        entries.push((name, v));
        assert(entries@.drop_last() =~= before);
        cur = p;
    }
}

/// `v` is the root compound of the document `s`.
pub open spec fn document_value(s: Seq<u8>, v: Value) -> bool {
    &&& s.len() > 0
    &&& s[0] == 10
    &&& string_end(s, 1) matches Some(q) && decodes_to(s, q, Tag::Compound, v)
}

/// Decodes a whole document: the root compound's name, its value, and where
/// it ends. Bytes after the root compound are left alone. Succeeds exactly
/// on a well-formed document.
pub fn decode_document(input: &[u8]) -> (r: Result<(String, Value, usize), Error>)
    ensures
        r is Ok <==> document_end(input@) is Some,
        r matches Ok((_, v, e)) ==> document_end(input@) == Some(e as int) && v is Compound
            && document_value(input@, v),
        r matches Ok((name, _, _)) ==> string_text(input@, 1) == Some(name@),
        gzip_magic(input@) ==> (r matches Err(e) && e is GzipInput),
        !gzip_magic(input@) && input@.len() > 0 && input@[0] != 10 ==> (r matches Err(e)
            && e is NonRootCompound),
{
    if input.len() >= 2 && input[0] == 0x1f && input[1] == 0x8b {
        return Err(Error::GzipInput);
    }
    if input.len() == 0 {
        return Err(Error::UnexpectedEof);
    }
    if input[0] != 10 {
        return Err(Error::NonRootCompound);
    }
    let (name, q) = match read_string(input, 1) {
        Ok(x) => x,
        Err(e) => {
            return Err(e);
        },
    };
    match decode_entries(input, q) {
        Ok((entries, e)) => Ok((name, Value::Compound(entries), e)),
        Err(e) => Err(e),
    }
}

/// Decodes the root compound of a document into a value.
pub fn from_bytes(input: &[u8]) -> (r: Result<Value, Error>)
    ensures
        r is Ok <==> document_end(input@) is Some,
        r matches Ok(v) ==> v is Compound && document_value(input@, v),
        gzip_magic(input@) ==> (r matches Err(e) && e is GzipInput),
        !gzip_magic(input@) && input@.len() > 0 && input@[0] != 10 ==> (r matches Err(e)
            && e is NonRootCompound),
{
    match decode_document(input) {
        Ok((_, v, _)) => Ok(v),
        Err(e) => Err(e),
    }
}

/// Position of the last entry named `name`, if any.
pub open spec fn last_named(es: Seq<(String, Value)>, name: Seq<char>) -> Option<int>
    decreases es.len(),
{
    if es.len() == 0 {
        None
    } else if es.last().0@ == name {
        Some(es.len() - 1)
    } else {
        last_named(es.drop_last(), name)
    }
}

impl Value {
    /// The value stored under `name` in a compound; where a name repeats,
    /// the last entry wins. Any other value has no entries.
    pub fn get(&self, name: &str) -> (r: Option<&Value>)
        ensures
            match self {
                Value::Compound(es) => match last_named(es@, name@) {
                    Some(i) => r == Some(&es@[i].1),
                    None => r is None,
                },
                _ => r is None,
            },
    {
        match self {
            Value::Compound(es) => {
                let key = name.to_owned();
                let mut i = es.len();
                assert(es@.subrange(0, i as int) =~= es@);
                while i > 0
                    invariant
                        i <= es@.len(),
                        *self == Value::Compound(*es),
                        key@ == name@,
                        last_named(es@, name@) == last_named(es@.subrange(0, i as int), name@),
                    decreases i,
                {
                    assert(es@.subrange(0, i as int).drop_last() =~= es@.subrange(0, i - 1));
                    i = i - 1;
                    if es[i].0 == key {
                        return Some(&es[i].1);
                    }
                }
                None
            },
            _ => None,
        }
    }
}

/// A run of list items ends within the input, not before it starts.
pub proof fn lemma_items_end_bounds(s: Seq<u8>, pos: int, t: Tag, n: int)
    ensures
        items_end(s, pos, t, n) matches Some(e) ==> pos <= e <= s.len(),
    decreases s.len() - pos, n,
{
    if 0 <= pos <= s.len() && n > 0 {
        if let Some(p) = payload_end(s, pos, t) {
            if pos < p <= s.len() {
                lemma_items_end_bounds(s, p, t, n - 1);
            }
        }
    }
}

/// The entries of a compound end within the input, after they start.
pub proof fn lemma_entries_end_bounds(s: Seq<u8>, pos: int)
    ensures
        entries_end(s, pos) matches Some(e) ==> pos < e <= s.len(),
    decreases s.len() - pos,
{
    if 0 <= pos < s.len() {
        match tag_of_byte(s[pos]) {
            Some(Tag::End) => {},
            Some(t) => {
                if let Some(q) = string_end(s, pos + 1) {
                    if pos < q <= s.len() {
                        if let Some(p) = payload_end(s, q, t) {
                            if pos < p <= s.len() {
                                lemma_entries_end_bounds(s, p);
                            }
                        }
                    }
                }
            },
            None => {},
        }
    }
}

/// A payload ends within the input, after its length fields.
pub proof fn lemma_payload_end_bounds(s: Seq<u8>, pos: int, t: Tag)
    ensures
        payload_end(s, pos, t) matches Some(e) ==> pos <= e <= s.len(),
        (t is ByteArray || t is IntArray || t is LongArray) ==> (payload_end(s, pos, t) matches Some(
            e) ==> pos + 4 <= e),
        t is List ==> (payload_end(s, pos, t) matches Some(e) ==> pos + 5 <= e),
{
    if 0 <= pos <= s.len() {
        match t {
            Tag::Compound => lemma_entries_end_bounds(s, pos),
            Tag::List => {
                if pos + 5 <= s.len() {
                    if let Some(et) = tag_of_byte(s[pos]) {
                        lemma_items_end_bounds(s, pos + 5, et, be_i32(s, pos + 1));
                    }
                }
            },
            Tag::ByteArray | Tag::IntArray | Tag::LongArray => {
                if pos + 4 <= s.len() {
                    let n = be_i32(s, pos);
                    if n >= 0 {
                        assert(n * fixed_width(t) >= 0) by (nonlinear_arith)
                            requires
                                n >= 0,
                                fixed_width(t) >= 1,
                        ;
                    }
                }
            },
            _ => {},
        }
    }
}

/// The bytes of an array, or of a list of integral elements, whose payload
/// starts at `pos`: the first byte past the length field, and the end.
pub open spec fn byte_buf_range(s: Seq<u8>, pos: int, t: Tag) -> Option<(int, int)> {
    match payload_end(s, pos, t) {
        None => None,
        Some(e) => match t {
            Tag::ByteArray | Tag::IntArray | Tag::LongArray => Some((pos + 4, e)),
            Tag::List => match tag_of_byte(s[pos]) {
                Some(Tag::Byte) | Some(Tag::Short) | Some(Tag::Int) | Some(Tag::Long) => Some(
                    (pos + 5, e),
                ),
                _ => None,
            },
            _ => None,
        },
    }
}

/// The raw big-endian bytes of an integral array, or of a list of bytes,
/// shorts, ints or longs, whose payload starts at `pos`: the elements one
/// after another with no padding. Also tells where the payload ends.
pub fn byte_buf(s: &[u8], pos: usize, t: Tag) -> (r: Result<(Vec<u8>, usize), Error>)
    requires
        pos <= s@.len(),
    ensures
        r is Ok <==> byte_buf_range(s@, pos as int, t) is Some,
        r matches Ok((b, e)) ==> byte_buf_range(s@, pos as int, t) matches Some((a, e2)) && e2
            == e && b@ == s@.subrange(a, e2),
{
    let e = match skip_payload(s, pos, t) {
        Ok(e) => e,
        Err(err) => {
            return Err(err);
        },
    };
    proof {
        lemma_payload_end_bounds(s@, pos as int, t);
    }
    let a = match t {
        Tag::ByteArray | Tag::IntArray | Tag::LongArray => pos + 4,
        Tag::List => match Tag::from_byte(s[pos]) {
            Some(Tag::Byte) | Some(Tag::Short) | Some(Tag::Int) | Some(Tag::Long) => pos + 5,
            _ => {
                return Err(Error::TypeMismatch { expected: Tag::ByteArray, found: t });
            },
        },
        _ => {
            return Err(Error::TypeMismatch { expected: Tag::ByteArray, found: t });
        },
    };
    let mut out: Vec<u8> = Vec::new();
    let mut i = a;
    while i < e
        invariant
            a <= i <= e,
            e <= s@.len(),
            out@ == s@.subrange(a as int, i as int),
        decreases e - i,
    {
        out.push(s[i]);
        i = i + 1;
        assert(out@ =~= s@.subrange(a as int, i as int));
    }
    Ok((out, e))
}

} // verus!
