//! zlib decompression of object data.
use vstd::prelude::*;

verus! {

/// What `miniz_oxide::inflate::decompress_to_vec_zlib_with_limit` gives for
/// `input` with output limit `limit`: the decompressed bytes, or the failure
/// status code together with the output buffer as it stood at the failure
/// (the bytes decompressed so far, possibly followed by unused zeros).
pub uninterp spec fn zlib_inflate(input: Seq<u8>, limit: usize) -> Result<Seq<u8>, (i8, Seq<u8>)>;

/// Decompresses a zlib stream at the start of `input` with
/// `miniz_oxide::inflate::decompress_to_vec_zlib_with_limit`. Its result is
/// named by [`zlib_inflate`]; the crate's source shows that a successful
/// output is never longer than `limit` (the buffer is capped at it) and that
/// a failure never carries the `Done` status (code 0), which is the success
/// case. Bytes after the end of the stream are ignored.
#[verifier::external_body]
pub(crate) fn inflate_zlib(input: &[u8], limit: usize) -> (r: Result<Vec<u8>, (i8, Vec<u8>)>)
    ensures
        r is Ok <==> zlib_inflate(input@, limit) is Ok,
        r matches Ok(v) ==> (zlib_inflate(input@, limit) matches Ok(w) && w == v@) && v.len() <= limit,
        r matches Err(e) ==> (zlib_inflate(input@, limit) matches Err(f) && f.0 == e.0 && f.1 == e.1@) && e.0 != 0,
{
    match miniz_oxide::inflate::decompress_to_vec_zlib_with_limit(input, limit) {
        Ok(v) => Ok(v),
        Err(e) => Err((e.status as i8, e.output)),
    }
}

} // verus!
