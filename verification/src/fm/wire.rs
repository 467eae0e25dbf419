//! The two headers as `bincode` writes and reads them: fixed-width
//! integers in little-endian order, field after field, which is the
//! encoding that the headers' own `encode` and `decode` describe.

use crate::fm::fm_file_header::FileHeader;
use crate::fm::fm_page_header::PageHeader;
use bincode::Options;
use vstd::prelude::*;

verus! {

#[verifier::external_type_specification]
#[verifier::external_body]
pub struct ExBincodeErrorKind(bincode::ErrorKind);

/// `bincode::Options::serialize` with fixed-width integers in little-endian
/// order, applied to the three fields of a page header. Trusted: it returns
/// `Ok`, and the bytes are the fields' little-endian images one after the
/// other, 12 bytes in all.
#[verifier::external_body]
pub(crate) fn serialize_page_header(h: &PageHeader) -> (r: Result<Vec<u8>, bincode::Error>)
    ensures
        match r {
            Ok(bytes) => bytes@ == h.encode(),
            Err(_) => false,
        },
{
    bincode::DefaultOptions::new()
        .with_fixint_encoding()
        .with_little_endian()
        .allow_trailing_bytes()
        .serialize(&(h.next_free_page, h.prev_free_page, h.free_bytes))
}

/// `bincode::Options::deserialize` with fixed-width integers in
/// little-endian order and trailing bytes allowed, reading the three fields
/// of a page header. Trusted: with at least 12 bytes it returns the header
/// that the first 12 spell; with fewer it returns an error.
#[verifier::external_body]
pub(crate) fn deserialize_page_header(bytes: &[u8]) -> (r: Result<PageHeader, bincode::Error>)
    ensures
        match r {
            Ok(h) => bytes@.len() >= 12 && h == PageHeader::decode(bytes@),
            Err(_) => bytes@.len() < 12,
        },
{
    let fields = bincode::DefaultOptions::new()
        .with_fixint_encoding()
        .with_little_endian()
        .allow_trailing_bytes()
        .deserialize::<(i32, i32, u32)>(bytes);
    match fields {
        Ok(t) => Ok(PageHeader { next_free_page: t.0, prev_free_page: t.1, free_bytes: t.2 }),
        Err(e) => Err(e),
    }
}

/// `bincode::Options::serialize` with fixed-width integers in little-endian
/// order, applied to the four fields of a file header. Trusted: it returns
/// `Ok`, and the bytes are the fields' little-endian images one after the
/// other, 16 bytes in all.
#[verifier::external_body]
pub(crate) fn serialize_file_header(h: &FileHeader) -> (r: Result<Vec<u8>, bincode::Error>)
    ensures
        match r {
            Ok(bytes) => bytes@ == h.encode(),
            Err(_) => false,
        },
{
    bincode::DefaultOptions::new()
        .with_fixint_encoding()
        .with_little_endian()
        .allow_trailing_bytes()
        .serialize(&(h.blk_cnt, h.first_free_hole, h.pre_f, h.next_f))
}

} // verus!
