//! The form in which adapters travel: compressed, then in base64.
use vstd::prelude::*;

verus! {

/// The bytes that `base64`'s standard engine reads from a text.
pub uninterp spec fn base64_bytes(text: Seq<char>) -> Option<Seq<u8>>;

/// The text that `base64`'s standard engine writes for bytes.
pub uninterp spec fn base64_text(bytes: Seq<u8>) -> Seq<char>;

/// The bytes that `flate2`'s gzip encoder makes of bytes at its fast level, none where it fails.
pub uninterp spec fn gzip_bytes(bytes: Seq<u8>) -> Option<Seq<u8>>;

/// `base64::engine::general_purpose::STANDARD.decode`: the bytes that a text stands for, none
/// where it is not base64.
#[verifier::external_body]
pub(crate) fn decode_base64(text: &str) -> (r: Option<Vec<u8>>)
    ensures
        match r {
            Some(b) => base64_bytes(text@) == Some(b@),
            None => base64_bytes(text@) is None,
        },
{
    base64::Engine::decode(&base64::engine::general_purpose::STANDARD, text).ok()
}

/// `base64::engine::general_purpose::STANDARD.encode`: decoding gives the bytes back. Inputs
/// whose encoded length would not fit in a `usize` are left out.
#[verifier::external_body]
pub(crate) fn encode_base64(bytes: &Vec<u8>) -> (r: String)
    requires
        bytes@.len() <= usize::MAX / 2,
    ensures
        r@ == base64_text(bytes@),
        base64_bytes(r@) == Some(bytes@),
{
    base64::Engine::encode(&base64::engine::general_purpose::STANDARD, bytes)
}

/// `flate2::write::GzEncoder` at `Compression::fast` over a vector: the compressed bytes, none
/// where writing fails.
#[verifier::external_body]
pub(crate) fn gzip_fast(bytes: &Vec<u8>) -> (r: Option<Vec<u8>>)
    ensures
        match r {
            Some(b) => gzip_bytes(bytes@) == Some(b@),
            None => gzip_bytes(bytes@) is None,
        },
{
    let mut encoder = flate2::write::GzEncoder::new(Vec::new(), flate2::Compression::fast());
    std::io::Write::write_all(&mut encoder, bytes.as_slice()).ok()?;
    encoder.finish().ok()
}

/// Why an adapter cannot be sent.
#[derive(Debug, Clone, Copy, PartialEq, Eq, Structural)]
pub enum EncodeError {
    /// The compressor failed.
    Compression,
    /// The compressed adapter is too large to be encoded.
    TooLarge,
}

/// Compressed bytes in base64; too many of them are an error.
pub fn encode_compressed(compressed: &Vec<u8>) -> (r: Result<String, EncodeError>)
    ensures
        match r {
            Ok(s) => compressed@.len() <= usize::MAX / 2 && s@ == base64_text(compressed@)
                && base64_bytes(s@) == Some(compressed@),
            Err(e) => compressed@.len() > usize::MAX / 2 && e == EncodeError::TooLarge,
        },
{
    if compressed.len() > usize::MAX / 2 {
        return Err(EncodeError::TooLarge);
    }
    Ok(encode_base64(compressed))
}

/// The text in which an adapter is submitted. It decodes to the compressed adapter.
pub fn encode_adapter(adapter: &Vec<u8>) -> (r: Result<String, EncodeError>)
    ensures
        match r {
            Ok(s) => gzip_bytes(adapter@) matches Some(z) && z.len() <= usize::MAX / 2 && s@
                == base64_text(z) && base64_bytes(s@) == Some(z),
            Err(EncodeError::TooLarge) => gzip_bytes(adapter@) matches Some(z) && z.len()
                > usize::MAX / 2,
            Err(EncodeError::Compression) => gzip_bytes(adapter@) is None,
        },
{
    match gzip_fast(adapter) {
        None => Err(EncodeError::Compression),
        Some(compressed) => encode_compressed(&compressed),
    }
}

/// The bytes of a submitted adapter; none if the text is not base64.
pub fn decode_adapter(adapter_base64: &str) -> (r: Option<Vec<u8>>)
    ensures
        match r {
            Some(b) => base64_bytes(adapter_base64@) == Some(b@),
            None => base64_bytes(adapter_base64@) is None,
        },
{
    decode_base64(adapter_base64)
}

} // verus!
