use crate::error::Error;
use crate::nbt::{value_tag, Value};
use crate::tag::Tag;
use vstd::prelude::*;

verus! {

/// The number that an integral value holds: a byte, short, int or long.
pub open spec fn integral_value(v: Value) -> Option<int> {
    match v {
        Value::Byte(b) => Some(b as int),
        Value::Short(x) => Some(x as int),
        Value::Int(x) => Some(x as int),
        Value::Long(x) => Some(x as int),
        _ => None,
    }
}

/// What reading `v` as an integer in `lo ..= hi` gives: the number when it
/// fits, a range error when it does not, and a type mismatch, naming
/// `expected`, for a value that is not integral.
pub open spec fn integer_in(v: Value, lo: int, hi: int, expected: Tag) -> Result<int, Error> {
    match integral_value(v) {
        Some(n) => if lo <= n <= hi {
            Ok(n)
        } else {
            Err(Error::RangeError)
        },
        None => Err(Error::TypeMismatch { expected, found: value_tag(v) }),
    }
}

/// Reads an integral value, whatever its width.
fn integral(v: &Value, expected: Tag) -> (r: Result<i64, Error>)
    ensures
        match integral_value(*v) {
            Some(n) => r == Ok::<i64, Error>(n as i64),
            None => r == Err::<i64, Error>(Error::TypeMismatch { expected, found: value_tag(*v) }),
        },
{
    match v {
        Value::Byte(b) => Ok(*b as i64),
        Value::Short(x) => Ok(*x as i64),
        Value::Int(x) => Ok(*x as i64),
        Value::Long(x) => Ok(*x),
        Value::Float(_) => Err(Error::TypeMismatch { expected, found: Tag::Float }),
        Value::Double(_) => Err(Error::TypeMismatch { expected, found: Tag::Double }),
        Value::ByteArray(_) => Err(Error::TypeMismatch { expected, found: Tag::ByteArray }),
        Value::String(_) => Err(Error::TypeMismatch { expected, found: Tag::String }),
        Value::List(_, _) => Err(Error::TypeMismatch { expected, found: Tag::List }),
        Value::Compound(_) => Err(Error::TypeMismatch { expected, found: Tag::Compound }),
        Value::IntArray(_) => Err(Error::TypeMismatch { expected, found: Tag::IntArray }),
        Value::LongArray(_) => Err(Error::TypeMismatch { expected, found: Tag::LongArray }),
    }
}

/// Reads `v` as an `i8`.
pub fn to_i8(v: &Value) -> (r: Result<i8, Error>)
    ensures
        match integer_in(*v, i8::MIN as int, i8::MAX as int, Tag::Byte) {
            Ok(n) => r == Ok::<i8, Error>(n as i8),
            Err(e) => r == Err::<i8, Error>(e),
        },
{
    match integral(v, Tag::Byte) {
        Ok(n) => if i8::MIN as i64 <= n && n <= i8::MAX as i64 {
            Ok(n as i8)
        } else {
            Err(Error::RangeError)
        },
        Err(e) => Err(e),
    }
}

/// Reads `v` as a `u8`.
pub fn to_u8(v: &Value) -> (r: Result<u8, Error>)
    ensures
        match integer_in(*v, 0, u8::MAX as int, Tag::Byte) {
            Ok(n) => r == Ok::<u8, Error>(n as u8),
            Err(e) => r == Err::<u8, Error>(e),
        },
{
    match integral(v, Tag::Byte) {
        Ok(n) => if 0 <= n && n <= u8::MAX as i64 {
            Ok(n as u8)
        } else {
            Err(Error::RangeError)
        },
        Err(e) => Err(e),
    }
}

/// Reads `v` as an `i16`.
pub fn to_i16(v: &Value) -> (r: Result<i16, Error>)
    ensures
        match integer_in(*v, i16::MIN as int, i16::MAX as int, Tag::Short) {
            Ok(n) => r == Ok::<i16, Error>(n as i16),
            Err(e) => r == Err::<i16, Error>(e),
        },
{
    match integral(v, Tag::Short) {
        Ok(n) => if i16::MIN as i64 <= n && n <= i16::MAX as i64 {
            Ok(n as i16)
        } else {
            Err(Error::RangeError)
        },
        Err(e) => Err(e),
    }
}

/// Reads `v` as a `u16`.
pub fn to_u16(v: &Value) -> (r: Result<u16, Error>)
    ensures
        match integer_in(*v, 0, u16::MAX as int, Tag::Int) {
            Ok(n) => r == Ok::<u16, Error>(n as u16),
            Err(e) => r == Err::<u16, Error>(e),
        },
{
    match integral(v, Tag::Int) {
        Ok(n) => if 0 <= n && n <= u16::MAX as i64 {
            Ok(n as u16)
        } else {
            Err(Error::RangeError)
        },
        Err(e) => Err(e),
    }
}

/// Reads `v` as an `i32`.
pub fn to_i32(v: &Value) -> (r: Result<i32, Error>)
    ensures
        match integer_in(*v, i32::MIN as int, i32::MAX as int, Tag::Int) {
            Ok(n) => r == Ok::<i32, Error>(n as i32),
            Err(e) => r == Err::<i32, Error>(e),
        },
{
    match integral(v, Tag::Int) {
        Ok(n) => if i32::MIN as i64 <= n && n <= i32::MAX as i64 {
            Ok(n as i32)
        } else {
            Err(Error::RangeError)
        },
        Err(e) => Err(e),
    }
}

/// Reads `v` as a `u32`.
pub fn to_u32(v: &Value) -> (r: Result<u32, Error>)
    ensures
        match integer_in(*v, 0, u32::MAX as int, Tag::Long) {
            Ok(n) => r == Ok::<u32, Error>(n as u32),
            Err(e) => r == Err::<u32, Error>(e),
        },
{
    match integral(v, Tag::Long) {
        Ok(n) => if 0 <= n && n <= u32::MAX as i64 {
            Ok(n as u32)
        } else {
            Err(Error::RangeError)
        },
        Err(e) => Err(e),
    }
}

/// Reads `v` as an `i64`.
pub fn to_i64(v: &Value) -> (r: Result<i64, Error>)
    ensures
        match integer_in(*v, i64::MIN as int, i64::MAX as int, Tag::Long) {
            Ok(n) => r == Ok::<i64, Error>(n as i64),
            Err(e) => r == Err::<i64, Error>(e),
        },
{
    integral(v, Tag::Long)
}

/// Reads `v` as a `u64`.
pub fn to_u64(v: &Value) -> (r: Result<u64, Error>)
    ensures
        match integer_in(*v, 0, u64::MAX as int, Tag::Long) {
            Ok(n) => r == Ok::<u64, Error>(n as u64),
            Err(e) => r == Err::<u64, Error>(e),
        },
{
    match integral(v, Tag::Long) {
        Ok(n) => if 0 <= n {
            Ok(n as u64)
        } else {
            Err(Error::RangeError)
        },
        Err(e) => Err(e),
    }
}

/// Reads `v` as a `bool`: any integral value, true when it is not zero.
pub fn to_bool(v: &Value) -> (r: Result<bool, Error>)
    ensures
        match integral_value(*v) {
            Some(n) => r == Ok::<bool, Error>(n != 0),
            None => r == Err::<bool, Error>(
                Error::TypeMismatch { expected: Tag::Byte, found: value_tag(*v) },
            ),
        },
{
    match integral(v, Tag::Byte) {
        Ok(n) => Ok(n != 0),
        Err(e) => Err(e),
    }
}

/// The unsigned 128-bit number whose 32-bit words, most significant first,
/// are the four ints of `a`.
pub open spec fn u128_of_words(a: Seq<i32>) -> int {
    (a[0] as u32) as int * 0x1_0000_0000_0000_0000_0000_0000 + (a[1] as u32) as int
        * 0x1_0000_0000_0000_0000 + (a[2] as u32) as int * 0x1_0000_0000 + (a[3] as u32) as int
}

/// What reading `v` as a 128-bit number gives: an int array of exactly four
/// elements, most significant first.
pub open spec fn words_of(v: Value) -> Result<Seq<i32>, Error> {
    match v {
        Value::IntArray(a) => if a@.len() == 4 {
            Ok(a@)
        } else {
            Err(Error::InvalidLength)
        },
        _ => Err(Error::TypeMismatch { expected: Tag::IntArray, found: value_tag(v) }),
    }
}

/// Combines four 32-bit words, most significant first.
fn combine_words(a: &Vec<i32>) -> (r: u128)
    requires
        a@.len() == 4,
    ensures
        r as int == u128_of_words(a@),
{
    let w0 = a[0] as u32 as u128;
    let w1 = a[1] as u32 as u128;
    let w2 = a[2] as u32 as u128;
    let w3 = a[3] as u32 as u128;
    w0 * 0x1_0000_0000_0000_0000_0000_0000 + w1 * 0x1_0000_0000_0000_0000 + w2 * 0x1_0000_0000 + w3
}

/// Reads `v` as a `u128`.
pub fn to_u128(v: &Value) -> (r: Result<u128, Error>)
    ensures
        match words_of(*v) {
            Ok(a) => r == Ok::<u128, Error>(u128_of_words(a) as u128),
            Err(e) => r == Err::<u128, Error>(e),
        },
{
    match v {
        Value::IntArray(a) => if a.len() == 4 {
            Ok(combine_words(a))
        } else {
            Err(Error::InvalidLength)
        },
        _ => Err(Error::TypeMismatch { expected: Tag::IntArray, found: tag_of(v) }),
    }
}

/// Reads `v` as an `i128`: the same bits as [`to_u128`], read as two's
/// complement.
pub fn to_i128(v: &Value) -> (r: Result<i128, Error>)
    ensures
        match words_of(*v) {
            Ok(a) => r == Ok::<i128, Error>(
                (if u128_of_words(a) >= 0x8000_0000_0000_0000_0000_0000_0000_0000 {
                    u128_of_words(a) - 0x1_0000_0000_0000_0000_0000_0000_0000_0000
                } else {
                    u128_of_words(a)
                }) as i128,
            ),
            Err(e) => r == Err::<i128, Error>(e),
        },
{
    match v {
        Value::IntArray(a) => if a.len() == 4 {
            let u = combine_words(a);
            if u >= 0x8000_0000_0000_0000_0000_0000_0000_0000 {
                Ok((u - 0x8000_0000_0000_0000_0000_0000_0000_0000) as i128 - i128::MAX - 1)
            } else {
                Ok(u as i128)
            }
        } else {
            Err(Error::InvalidLength)
        },
        _ => Err(Error::TypeMismatch { expected: Tag::IntArray, found: tag_of(v) }),
    }
}

/// The tag under which `v` is stored.
pub fn tag_of(v: &Value) -> (t: Tag)
    ensures
        t == value_tag(*v),
{
    match v {
        Value::Byte(_) => Tag::Byte,
        Value::Short(_) => Tag::Short,
        Value::Int(_) => Tag::Int,
        Value::Long(_) => Tag::Long,
        Value::Float(_) => Tag::Float,
        Value::Double(_) => Tag::Double,
        Value::ByteArray(_) => Tag::ByteArray,
        Value::String(_) => Tag::String,
        Value::List(_, _) => Tag::List,
        Value::Compound(_) => Tag::Compound,
        Value::IntArray(_) => Tag::IntArray,
        Value::LongArray(_) => Tag::LongArray,
    }
}

/// The big-endian bytes of an integral value, most significant first.
pub open spec fn integral_bytes(v: Value) -> Seq<u8> {
    match v {
        Value::Byte(b) => seq![b as u8],
        Value::Short(x) => seq![((x as u16) >> 8u16) as u8, (x as u16) as u8],
        Value::Int(x) => seq![
            ((x as u32) >> 24u32) as u8,
            ((x as u32) >> 16u32) as u8,
            ((x as u32) >> 8u32) as u8,
            (x as u32) as u8,
        ],
        Value::Long(x) => seq![
            ((x as u64) >> 56u64) as u8,
            ((x as u64) >> 48u64) as u8,
            ((x as u64) >> 40u64) as u8,
            ((x as u64) >> 32u64) as u8,
            ((x as u64) >> 24u64) as u8,
            ((x as u64) >> 16u64) as u8,
            ((x as u64) >> 8u64) as u8,
            (x as u64) as u8,
        ],
        _ => Seq::empty(),
    }
}

/// The bytes of the first `n` items, one after another.
pub open spec fn concat_bytes(items: Seq<Value>, n: int) -> Seq<u8>
    decreases n,
{
    if n <= 0 {
        Seq::empty()
    } else {
        concat_bytes(items, n - 1) + integral_bytes(items[n - 1])
    }
}

/// What reading `v` as a byte buffer gives: the bytes of a byte array, or
/// the big-endian bytes of every element of a list of bytes, shorts, ints or
/// longs, with no padding.
pub open spec fn byte_buf_of(v: Value) -> Result<Seq<u8>, Error> {
    match v {
        Value::ByteArray(a) => Ok(Seq::new(a@.len(), |i: int| a@[i] as u8)),
        Value::List(et, items) => if et is Byte || et is Short || et is Int || et is Long {
            if forall|i: int| 0 <= i < items@.len() ==> #[trigger] value_tag(items@[i]) == et {
                Ok(concat_bytes(items@, items@.len() as int))
            } else {
                Err(Error::TypeMismatch { expected: et, found: Tag::List })
            }
        } else {
            Err(Error::TypeMismatch { expected: Tag::ByteArray, found: Tag::List })
        },
        _ => Err(Error::TypeMismatch { expected: Tag::ByteArray, found: value_tag(v) }),
    }
}

/// Appends the big-endian bytes of an integral value.
fn push_integral(v: &Value, out: &mut Vec<u8>)
    ensures
        final(out)@ == old(out)@ + integral_bytes(*v),
{
    let ghost start = out@;
    match v {
        Value::Byte(b) => {
            out.push(*b as u8);
        },
        Value::Short(x) => {
            let u = *x as u16;
            out.push((u >> 8u16) as u8);
            out.push(u as u8);
        },
        Value::Int(x) => {
            let u = *x as u32;
            out.push((u >> 24u32) as u8);
            out.push((u >> 16u32) as u8);
            out.push((u >> 8u32) as u8);
            out.push(u as u8);
        },
        Value::Long(x) => {
            let u = *x as u64;
            out.push((u >> 56u64) as u8);
            out.push((u >> 48u64) as u8);
            out.push((u >> 40u64) as u8);
            out.push((u >> 32u64) as u8);
            out.push((u >> 24u64) as u8);
            out.push((u >> 16u64) as u8);
            out.push((u >> 8u64) as u8);
            out.push(u as u8);
        },
        _ => {},
    }
    assert(out@ =~= start + integral_bytes(*v));
}

/// Reads `v` as a byte buffer: a byte array as it is, or a list of bytes,
/// shorts, ints or longs as the big-endian bytes of its elements.
pub fn to_byte_buf(v: &Value) -> (r: Result<Vec<u8>, Error>)
    ensures
        match byte_buf_of(*v) {
            Ok(b) => r matches Ok(out) && out@ == b,
            Err(e) => r == Err::<Vec<u8>, Error>(e),
        },
{
    match v {
        Value::ByteArray(a) => {
            let mut out: Vec<u8> = Vec::new();
            let mut i: usize = 0;
            while i < a.len()
                invariant
                    i <= a@.len(),
                    out@ == Seq::new(i as nat, |j: int| a@[j] as u8),
                decreases a@.len() - i,
            {
                out.push(a[i] as u8);
                i = i + 1;
                assert(out@ =~= Seq::new(i as nat, |j: int| a@[j] as u8));
            }
            Ok(out)
        },
        Value::List(et, items) => {
            let et = *et;
            if !(et == Tag::Byte || et == Tag::Short || et == Tag::Int || et == Tag::Long) {
                return Err(Error::TypeMismatch { expected: Tag::ByteArray, found: Tag::List });
            }
            let mut out: Vec<u8> = Vec::new();
            let mut i: usize = 0;
            while i < items.len()
                invariant
                    i <= items@.len(),
                    *v == Value::List(et, *items),
                    et is Byte || et is Short || et is Int || et is Long,
                    forall|j: int| 0 <= j < i ==> #[trigger] value_tag(items@[j]) == et,
                    out@ == concat_bytes(items@, i as int),
                decreases items@.len() - i,
            {
                if tag_of(&items[i]) != et {
                    return Err(Error::TypeMismatch { expected: et, found: Tag::List });
                }
                push_integral(&items[i], &mut out);
                i = i + 1;
            }
            Ok(out)
        },
        _ => Err(Error::TypeMismatch { expected: Tag::ByteArray, found: tag_of(v) }),
    }
}

} // verus!
