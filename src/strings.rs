use crate::error::Error;
use vstd::prelude::*;
use vstd::utf8::*;

verus! {

/// What Java's modified UTF-8 bytes `b` decode to, if they are valid.
pub uninterp spec fn java_cesu8_decoded(b: Seq<u8>) -> Option<Seq<char>>;

/// Relies on cesu8::from_java_cesu8: it decodes Java's modified UTF-8, and
/// hands back the input itself (a borrow), read as UTF-8, exactly when the
/// input is already valid UTF-8.
#[verifier::external_body]
fn from_java_cesu8(b: &[u8]) -> (r: Option<(String, bool)>)
    ensures
        r is Some <==> java_cesu8_decoded(b@) is Some,
        r matches Some((s, borrowed)) ==> java_cesu8_decoded(b@) == Some(s@) && (borrowed
            <==> valid_utf8(b@)),
        valid_utf8(b@) ==> r is Some && r->Some_0.1 && r->Some_0.0@ == decode_utf8(b@),
{
    match cesu8::from_java_cesu8(b) {
        Ok(std::borrow::Cow::Borrowed(s)) => Some((s.to_owned(), true)),
        Ok(std::borrow::Cow::Owned(s)) => Some((s, false)),
        Err(_) => None,
    }
}

/// The modified UTF-8 bytes that Java writes for the text `s`.
pub uninterp spec fn java_cesu8_encoded(s: Seq<char>) -> Seq<u8>;

/// Relies on cesu8::to_java_cesu8: it writes Java's modified UTF-8, which
/// cesu8::from_java_cesu8 reads back as the same text.
#[verifier::external_body]
fn to_java_cesu8(s: &str) -> (r: Vec<u8>)
    ensures
        r@ == java_cesu8_encoded(s@),
        java_cesu8_decoded(r@) == Some(s@),
{
    cesu8::to_java_cesu8(s).into_owned()
}

/// Appends a string as it is stored: a big-endian 16-bit byte count, then
/// the modified UTF-8 bytes. Fails, leaving `out` alone, when the bytes do
/// not fit the count.
pub fn write_str(out: &mut Vec<u8>, text: &str) -> (r: Result<(), Error>)
    ensures
        r is Ok <==> java_cesu8_encoded(text@).len() <= 0xffff,
        r is Err ==> final(out)@ == old(out)@,
        r is Ok ==> final(out)@ == old(out)@ + seq![
            (java_cesu8_encoded(text@).len() / 256) as u8,
            (java_cesu8_encoded(text@).len() % 256) as u8,
        ] + java_cesu8_encoded(text@),
        r is Ok ==> java_cesu8_decoded(java_cesu8_encoded(text@)) == Some(text@),
{
    let bytes = to_java_cesu8(text);
    let n = bytes.len();
    if n > 0xffff {
        return Err(Error::InvalidLength);
    }
    let ghost start = out@;
    out.push((n / 256) as u8);
    out.push((n % 256) as u8);
    let mut i: usize = 0;
    while i < n
        invariant
            i <= n,
            n == bytes@.len(),
            out@ == start + seq![(n / 256) as u8, (n % 256) as u8] + bytes@.subrange(0, i as int),
        decreases n - i,
    {
        out.push(bytes[i]);
        i = i + 1;
        assert(out@ =~= start + seq![(n / 256) as u8, (n % 256) as u8] + bytes@.subrange(
            0,
            i as int,
        ));
    }
    assert(bytes@.subrange(0, n as int) =~= bytes@);
    Ok(())
}

/// A decoded string, with whether it could be handed out as a borrow of the
/// input: that is so exactly when its stored bytes are its UTF-8 bytes.
#[derive(Clone, Debug)]
pub struct DecodedStr {
    pub text: String,
    pub borrowed: bool,
}

/// Decodes the stored bytes of a string. When `need_borrow` is set, a string
/// whose stored form differs from its UTF-8 form is refused.
pub fn decode_str(b: &[u8], need_borrow: bool) -> (r: Result<DecodedStr, Error>)
    ensures
        match java_cesu8_decoded(b@) {
            None => r matches Err(e) && e is InvalidCesu8,
            Some(chars) => if need_borrow && !valid_utf8(b@) {
                r matches Err(e) && e is CannotBorrowCesu8
            } else {
                r matches Ok(d) && d.text@ == chars && (d.borrowed <==> valid_utf8(b@))
            },
        },
        valid_utf8(b@) ==> (r matches Ok(d) && d.borrowed && d.text@ == decode_utf8(b@)),
{
    match from_java_cesu8(b) {
        None => Err(Error::InvalidCesu8),
        Some((text, borrowed)) => {
            if need_borrow && !borrowed {
                Err(Error::CannotBorrowCesu8)
            } else {
                Ok(DecodedStr { text, borrowed })
            }
        },
    }
}

/// Bytes that modified UTF-8 uses and UTF-8 does not: the two-byte form
/// `C0 ..` of NUL, or a surrogate half `ED A0..BF ..` of a character beyond
/// the basic plane.
pub open spec fn java_only_at(b: Seq<u8>, i: int) -> bool {
    ||| b[i] == 0xc0
    ||| (b[i] == 0xed && i + 1 < b.len() && 0xa0 <= b[i + 1])
}

/// Valid UTF-8 holds neither the two-byte NUL nor a surrogate half.
pub proof fn lemma_utf8_has_no_java_forms(b: Seq<u8>, i: int)
    requires
        valid_utf8(b),
        0 <= i < b.len(),
    ensures
        !java_only_at(b, i),
    decreases b.len(),
{
    let n = length_of_first_scalar(b);
    let b0 = b[0];
    if b0 == 0xc0 {
        let b1 = b[1];
        assert(((((b0 & 0x1f) as u32) << 6u32) | ((b1 & 0x3f) as u32)) < 0x80u32) by (bit_vector)
            requires
                b0 == 0xc0u8,
        ;
    }
    if b0 == 0xed && b.len() > 1 && b[1] >= 0xa0 {
        let b1 = b[1];
        let b2 = b[2];
        assert(0xd800u32 <= ((((b0 & 0x0f) as u32) << 12u32) | (((b1 & 0x3f) as u32) << 6u32) | ((
        b2 & 0x3f) as u32)) <= 0xdfffu32) by (bit_vector)
            requires
                b0 == 0xedu8,
                0xa0u8 <= b1 <= 0xbfu8,
        ;
    }
    if i >= n {
        let rest = pop_first_scalar(b);
        assert(rest[i - n] == b[i]);
        if i + 1 < b.len() {
            assert(rest[i - n + 1] == b[i + 1]);
        }
        lemma_utf8_has_no_java_forms(rest, i - n);
    }
}

/// Stored strings with a NUL or a character beyond the basic plane, in
/// their modified UTF-8 form, are decoded into a new string, and a request
/// to borrow them fails.
pub proof fn lemma_java_forms_are_owned(b: Seq<u8>, i: int)
    requires
        0 <= i < b.len(),
        java_only_at(b, i),
    ensures
        !valid_utf8(b),
{
    if valid_utf8(b) {
        lemma_utf8_has_no_java_forms(b, i);
    }
}

} // verus!
