//! Conversion between the legacy encoding of the image, Shift_JIS, and text.

use crate::error::CodecError;
use vstd::prelude::*;
use vstd::string::StringSliceAdditionalSpecFns;

verus! {

/// What `encoding_rs::SHIFT_JIS.decode_without_bom_handling` makes of
/// `bytes`: the text, and whether a malformed sequence was met.
pub uninterp spec fn shift_jis_decoded(bytes: Seq<u8>) -> (Seq<char>, bool);

/// What `encoding_rs::SHIFT_JIS.encode` makes of `text`: the bytes, and
/// whether a character without a mapping was met.
pub uninterp spec fn shift_jis_encoded(text: Seq<char>) -> (Seq<u8>, bool);

/// Longest input, in bytes, that is handed to the codec.
pub const CODEC_LIMIT: usize = usize::MAX / 64;

/// `encoding_rs::Encoding::decode_without_bom_handling` on `SHIFT_JIS`: the
/// bytes are read as Shift_JIS whatever they start with, and the text and
/// the flag for malformed input are a function of the bytes alone. It panics
/// where the size of its buffer, three times the input's length rounded up
/// to a power of two, overflows; the precondition keeps the input far below
/// that.
#[verifier::external_body]
fn shift_jis_decode(bytes: &[u8]) -> (r: (String, bool))
    requires
        bytes@.len() <= CODEC_LIMIT,
    ensures
        (r.0@, r.1) == shift_jis_decoded(bytes@),
{
    let (text, malformed) = encoding_rs::SHIFT_JIS.decode_without_bom_handling(bytes);
    (text.into_owned(), malformed)
}

/// `encoding_rs::Encoding::encode` on `SHIFT_JIS`, with the encoding it
/// reports dropped: the bytes and the flag for unmappable characters are a
/// function of the text alone. It panics where the size of its buffer, which
/// grows with the length of the text in UTF-8, overflows; the precondition
/// keeps the text far below that.
#[verifier::external_body]
fn shift_jis_encode(text: &str) -> (r: (Vec<u8>, bool))
    requires
        text.spec_bytes().len() <= CODEC_LIMIT,
    ensures
        (r.0@, r.1) == shift_jis_encoded(text@),
{
    let (bytes, _, unmappable) = encoding_rs::SHIFT_JIS.encode(text);
    (bytes.into_owned(), unmappable)
}

/// The text that `bytes` stand for, or why there is none.
pub open spec fn spec_decode(bytes: Seq<u8>) -> Result<Seq<char>, CodecError> {
    if bytes.len() > CODEC_LIMIT {
        Err(CodecError::TooLong)
    } else if shift_jis_decoded(bytes).1 {
        Err(CodecError::Malformed)
    } else {
        Ok(shift_jis_decoded(bytes).0)
    }
}

/// The bytes that stand for `text`, or why there are none. A text has an
/// encoding only where the bytes, read back, give the same text: a
/// character that the encoder would write as the bytes of another counts as
/// one without a mapping.
pub open spec fn spec_encode(text: Seq<char>) -> Result<Seq<u8>, CodecError> {
    if vstd::utf8::encode_utf8(text).len() > CODEC_LIMIT {
        Err(CodecError::TooLong)
    } else if shift_jis_encoded(text).1 {
        Err(CodecError::Unmappable)
    } else if shift_jis_encoded(text).0.len() > CODEC_LIMIT {
        Err(CodecError::TooLong)
    } else if shift_jis_decoded(shift_jis_encoded(text).0) != (text, false) {
        Err(CodecError::Unmappable)
    } else {
        Ok(shift_jis_encoded(text).0)
    }
}

/// Decoding the encoding of a text gives the text.
pub proof fn lemma_decode_of_encode(text: Seq<char>)
    requires
        spec_encode(text) is Ok,
    ensures
        spec_decode(spec_encode(text)->Ok_0) == Ok::<Seq<char>, CodecError>(text),
{
}

/// `got` is the text or the error that `want` asks for.
pub open spec fn is_text_result(
    got: Result<String, CodecError>,
    want: Result<Seq<char>, CodecError>,
) -> bool {
    match got {
        Ok(s) => want == Ok::<Seq<char>, CodecError>(s@),
        Err(e) => want == Err::<Seq<char>, CodecError>(e),
    }
}

/// `got` holds the bytes or the error that `want` asks for.
pub open spec fn is_bytes_result(
    got: Result<Vec<u8>, CodecError>,
    want: Result<Seq<u8>, CodecError>,
) -> bool {
    match got {
        Ok(v) => want == Ok::<Seq<u8>, CodecError>(v@),
        Err(e) => want == Err::<Seq<u8>, CodecError>(e),
    }
}

/// Decoding fails on malformed input; nothing is replaced in silence.
pub fn decode_outcome(text: String, malformed: bool) -> (r: Result<String, CodecError>)
    ensures
        malformed ==> r == Err::<String, CodecError>(CodecError::Malformed),
        !malformed ==> r == Ok::<String, CodecError>(text),
{
    if malformed {
        Err(CodecError::Malformed)
    } else {
        Ok(text)
    }
}

/// Encoding fails on a character without a mapping; nothing is replaced in
/// silence.
pub fn encode_outcome(bytes: Vec<u8>, unmappable: bool) -> (r: Result<Vec<u8>, CodecError>)
    ensures
        unmappable ==> r == Err::<Vec<u8>, CodecError>(CodecError::Unmappable),
        !unmappable ==> r == Ok::<Vec<u8>, CodecError>(bytes),
{
    if unmappable {
        Err(CodecError::Unmappable)
    } else {
        Ok(bytes)
    }
}

/// Encoding fails unless the bytes, read back, give the text: `back` and
/// `malformed` are what decoding `bytes` came to.
pub fn confirm_encoding(text: &str, bytes: Vec<u8>, back: String, malformed: bool) -> (r: Result<
    Vec<u8>,
    CodecError,
>)
    ensures
        !malformed && back@ == text@ ==> r == Ok::<Vec<u8>, CodecError>(bytes),
        malformed || back@ != text@ ==> r == Err::<Vec<u8>, CodecError>(CodecError::Unmappable),
{
    if malformed {
        return Err(CodecError::Unmappable);
    }
    let wanted = text.to_owned();
    if back == wanted {
        Ok(bytes)
    } else {
        Err(CodecError::Unmappable)
    }
}

/// Reads `bytes` as text in the legacy encoding.
pub fn decode(bytes: &[u8]) -> (r: Result<String, CodecError>)
    ensures
        is_text_result(r, spec_decode(bytes@)),
{
    if bytes.len() > CODEC_LIMIT {
        return Err(CodecError::TooLong);
    }
    let (text, malformed) = shift_jis_decode(bytes);
    decode_outcome(text, malformed)
}

/// Writes `text` in the legacy encoding. It succeeds only where reading the
/// bytes back gives `text` again.
pub fn encode(text: &str) -> (r: Result<Vec<u8>, CodecError>)
    ensures
        is_bytes_result(r, spec_encode(text@)),
        r matches Ok(b) ==> spec_decode(b@) == Ok::<Seq<char>, CodecError>(text@),
{
    if text.as_bytes().len() > CODEC_LIMIT {
        return Err(CodecError::TooLong);
    }
    let (bytes, unmappable) = shift_jis_encode(text);
    let bytes = match encode_outcome(bytes, unmappable) {
        Err(e) => {
            return Err(e);
        },
        Ok(bytes) => bytes,
    };
    if bytes.len() > CODEC_LIMIT {
        return Err(CodecError::TooLong);
    }
    let (back, malformed) = shift_jis_decode(bytes.as_slice());
    confirm_encoding(text, bytes, back, malformed)
}

/// Bytes that survive a trip through text: they are valid in the legacy
/// encoding, and writing the text back gives the same bytes.
pub open spec fn bytes_round_trip(bytes: Seq<u8>) -> bool {
    &&& spec_decode(bytes) is Ok
    &&& spec_encode(spec_decode(bytes)->Ok_0) == Ok::<Seq<u8>, CodecError>(bytes)
}

/// Whether `a` and `b` hold the same bytes.
pub fn same_bytes(a: &[u8], b: &[u8]) -> (r: bool)
    ensures
        r == (a@ == b@),
{
    if a.len() != b.len() {
        return false;
    }
    let mut i: usize = 0;
    while i < a.len()
        invariant
            a@.len() == b@.len(),
            i <= a@.len(),
            forall|j: int| 0 <= j < i ==> a@[j] == b@[j],
        decreases a@.len() - i,
    {
        if a[i] != b[i] {
            return false;
        }
        i += 1;
    }
    assert(a@ =~= b@);
    true
}

/// Whether the bytes survive a trip through text.
pub fn round_trips(bytes: &[u8]) -> (r: bool)
    ensures
        r == bytes_round_trip(bytes@),
{
    match decode(bytes) {
        Err(_) => false,
        Ok(text) => match encode(text.as_str()) {
            Err(_) => false,
            Ok(again) => same_bytes(again.as_slice(), bytes),
        },
    }
}

} // verus!
