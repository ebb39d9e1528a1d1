use vstd::prelude::*;

verus! {

/// What a zlib stream inflates to, if it is a valid stream.
pub uninterp spec fn zlib_inflated(b: Seq<u8>) -> Option<Seq<u8>>;

/// What a gzip stream inflates to, if it is a valid stream.
pub uninterp spec fn gzip_inflated(b: Seq<u8>) -> Option<Seq<u8>>;

/// The zlib stream that flate2 writes for `b` at its default level.
pub uninterp spec fn zlib_deflated(b: Seq<u8>) -> Seq<u8>;

/// The gzip stream that flate2 writes for `b` at its default level, with
/// the default header (no time stamp, no name).
pub uninterp spec fn gzip_deflated(b: Seq<u8>) -> Seq<u8>;

/// Relies on flate2::read::ZlibDecoder: reading it to the end inflates a
/// zlib stream, or fails on a stream that is not valid.
#[verifier::external_body]
pub(crate) fn inflate_zlib(b: &[u8]) -> (r: Option<Vec<u8>>)
    ensures
        r is Some <==> zlib_inflated(b@) is Some,
        r matches Some(v) ==> zlib_inflated(b@) == Some(v@),
{
    let mut out = Vec::new();
    let mut d = flate2::read::ZlibDecoder::new(b);
    match std::io::Read::read_to_end(&mut d, &mut out) {
        Ok(_) => Some(out),
        Err(_) => None,
    }
}

/// Relies on flate2::read::GzDecoder: reading it to the end inflates a gzip
/// stream, or fails on a stream that is not valid.
#[verifier::external_body]
pub(crate) fn inflate_gzip(b: &[u8]) -> (r: Option<Vec<u8>>)
    ensures
        r is Some <==> gzip_inflated(b@) is Some,
        r matches Some(v) ==> gzip_inflated(b@) == Some(v@),
{
    let mut out = Vec::new();
    let mut d = flate2::read::GzDecoder::new(b);
    match std::io::Read::read_to_end(&mut d, &mut out) {
        Ok(_) => Some(out),
        Err(_) => None,
    }
}

/// Relies on flate2::write::ZlibEncoder: writing `b` into it and finishing
/// gives a zlib stream that inflates back to `b`; writing into a `Vec` does
/// not fail.
#[verifier::external_body]
pub(crate) fn deflate_zlib(b: &[u8]) -> (r: Vec<u8>)
    ensures
        r@ == zlib_deflated(b@),
        zlib_inflated(r@) == Some(b@),
{
    let mut e = flate2::write::ZlibEncoder::new(Vec::new(), flate2::Compression::default());
    let _ = std::io::Write::write_all(&mut e, b);
    e.finish().unwrap_or_default()
}

/// Relies on flate2::write::GzEncoder: writing `b` into it and finishing
/// gives a gzip stream that inflates back to `b`; writing into a `Vec` does
/// not fail.
#[verifier::external_body]
pub(crate) fn deflate_gzip(b: &[u8]) -> (r: Vec<u8>)
    ensures
        r@ == gzip_deflated(b@),
        gzip_inflated(r@) == Some(b@),
{
    let mut e = flate2::write::GzEncoder::new(Vec::new(), flate2::Compression::default());
    let _ = std::io::Write::write_all(&mut e, b);
    e.finish().unwrap_or_default()
}

} // verus!
