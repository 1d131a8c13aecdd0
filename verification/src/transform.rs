//! The reversible transform pipeline. Decoding applies, in order: XOR with a
//! fixed single-byte key, URL-safe base64 decoding, gzip inflation. Encoding
//! is the mirror composition. The XOR stage is plain obfuscation and is
//! implemented and verified here; base64 and gzip are done by outside crates
//! behind trusted wrappers.

use vstd::prelude::*;

use crate::error::DeError;

verus! {

/// The fixed obfuscation key the save format XORs every byte with.
pub const XOR_KEY: u8 = 11;

/// Byte-wise XOR of a stream with a single-byte key.
pub open spec fn xor_key_spec(s: Seq<u8>, key: u8) -> Seq<u8> {
    Seq::new(s.len(), |i: int| s[i] ^ key)
}

/// Applying the same single-byte XOR twice gives back the input.
pub proof fn lemma_xor_involutive(s: Seq<u8>, key: u8)
    ensures
        xor_key_spec(xor_key_spec(s, key), key) == s,
{
    assert forall|i: int| 0 <= i < s.len() implies xor_key_spec(
        xor_key_spec(s, key),
        key,
    )[i] == s[i] by {
        let b = s[i];
        assert((b ^ key) ^ key == b) by (bit_vector);
    }
    assert(xor_key_spec(xor_key_spec(s, key), key) =~= s);
}

/// XOR every byte of `data` with `key`.
pub fn xor_with_key(data: &Vec<u8>, key: u8) -> (r: Vec<u8>)
    ensures
        r@ == xor_key_spec(data@, key),
{
    let mut out: Vec<u8> = Vec::new();
    let mut i: usize = 0;
    while i < data.len()
        invariant
            i <= data@.len(),
            out@.len() == i,
            forall|j: int| 0 <= j < i ==> out@[j] == data@[j] ^ key,
        decreases data@.len() - i,
    {
        out.push(data[i] ^ key);
        i += 1;
    }
    proof {
        assert(out@ =~= xor_key_spec(data@, key));
    }
    out
}

/// What URL-safe base64 decoding returns on a byte string: a function of the
/// input alone, left uninterpreted.
pub uninterp spec fn b64_url_decode(s: Seq<u8>) -> Result<Seq<u8>, ()>;

/// What gzip inflation returns on a byte string: a function of the input
/// alone, left uninterpreted.
pub uninterp spec fn gzip_inflate(s: Seq<u8>) -> Result<Seq<u8>, ()>;

/// Relies on base64's `URL_SAFE` engine: `Engine::decode` computes a function
/// of the input bytes alone and fails exactly on input that is not valid
/// padded URL-safe base64.
#[verifier::external_body]
fn base64_decode(b: &Vec<u8>) -> (r: Result<Vec<u8>, DeError>)
    ensures
        match r {
            Ok(v) => b64_url_decode(b@) == Ok::<Seq<u8>, ()>(v@),
            Err(e) => b64_url_decode(b@) is Err && e == DeError::Transform,
        },
{
    match base64::Engine::decode(&base64::engine::general_purpose::URL_SAFE, b.as_slice()) {
        Ok(v) => Ok(v),
        Err(_) => Err(DeError::Transform),
    }
}

/// Relies on base64's `URL_SAFE` engine: `Engine::decode` inverts
/// `Engine::encode` of the same engine. The length bound keeps the encoder's
/// internal output-size computation from overflowing.
#[verifier::external_body]
fn base64_encode(b: &Vec<u8>) -> (r: Vec<u8>)
    requires
        b@.len() <= usize::MAX as nat / 4,
    ensures
        match b64_url_decode(r@) {
            Ok(v) => v == b@,
            Err(_) => false,
        },
{
    base64::Engine::encode(&base64::engine::general_purpose::URL_SAFE, b.as_slice()).into_bytes()
}

/// Relies on libflate's `gzip::Decoder`: inflating computes a function of the
/// input bytes alone and fails exactly on input that is not a well-formed
/// gzip member.
#[verifier::external_body]
fn gzip_decode(b: &Vec<u8>) -> (r: Result<Vec<u8>, DeError>)
    ensures
        match r {
            Ok(v) => gzip_inflate(b@) == Ok::<Seq<u8>, ()>(v@),
            Err(e) => gzip_inflate(b@) is Err && e == DeError::Transform,
        },
{
    let mut out: Vec<u8> = Vec::new();
    match libflate::gzip::Decoder::new(b.as_slice()) {
        Ok(mut dec) => match std::io::Read::read_to_end(&mut dec, &mut out) {
            Ok(_) => Ok(out),
            Err(_) => Err(DeError::Transform),
        },
        Err(_) => Err(DeError::Transform),
    }
}

/// Relies on libflate's `gzip::Encoder`: its own `gzip::Decoder` inverts
/// it, and with an in-memory vector as the sink (whose writes cannot fail)
/// compression always succeeds. The compressed bytes themselves are not
/// pinned down (the encoder stamps a timestamp into the member header),
/// only that they inflate back.
#[verifier::external_body]
fn gzip_encode(b: &Vec<u8>) -> (r: Result<Vec<u8>, DeError>)
    ensures
        match r {
            Ok(v) => gzip_inflate(v@) == Ok::<Seq<u8>, ()>(b@),
            Err(_) => false,
        },
{
    let mut enc = match libflate::gzip::Encoder::new(Vec::new()) {
        Ok(e) => e,
        Err(_) => return Err(DeError::Transform),
    };
    if std::io::Write::write_all(&mut enc, b.as_slice()).is_err() {
        return Err(DeError::Transform);
    }
    match enc.finish().into_result() {
        Ok(v) => Ok(v),
        Err(_) => Err(DeError::Transform),
    }
}

/// What decoding the full transform stack yields on a raw save-file byte
/// string: XOR, then base64, then gzip; a stage failure is a transform error.
pub open spec fn spec_transform_decode(s: Seq<u8>) -> Result<Seq<u8>, DeError> {
    match b64_url_decode(xor_key_spec(s, XOR_KEY)) {
        Err(_) => Err(DeError::Transform),
        Ok(z) => match gzip_inflate(z) {
            Err(_) => Err(DeError::Transform),
            Ok(x) => Ok(x),
        },
    }
}

/// Decode raw save-file bytes into the plain markup text they carry.
pub fn transform_decode(b: &Vec<u8>) -> (r: Result<Vec<u8>, DeError>)
    ensures
        match r {
            Ok(v) => spec_transform_decode(b@) == Ok::<Seq<u8>, DeError>(v@),
            Err(e) => spec_transform_decode(b@) == Err::<Seq<u8>, DeError>(e),
        },
{
    let unmasked = xor_with_key(b, XOR_KEY);
    let packed = match base64_decode(&unmasked) {
        Ok(v) => v,
        Err(e) => return Err(e),
    };
    gzip_decode(&packed)
}

/// Encode an already-compressed payload into raw save-file bytes: base64,
/// then XOR. Succeeds exactly when the payload is small enough for the
/// base64 stage's output-size computation, and whatever comes back unmasks
/// and decodes to the payload again.
pub fn encode_compressed(packed: &Vec<u8>) -> (r: Result<Vec<u8>, DeError>)
    ensures
        match r {
            Ok(v) => b64_url_decode(xor_key_spec(v@, XOR_KEY)) == Ok::<Seq<u8>, ()>(packed@),
            Err(e) => e == DeError::Transform && packed@.len() > usize::MAX as nat / 4,
        },
{
    if packed.len() > usize::MAX / 4 {
        return Err(DeError::Transform);
    }
    let encoded = base64_encode(packed);
    let masked = xor_with_key(&encoded, XOR_KEY);
    proof {
        lemma_xor_involutive(encoded@, XOR_KEY);
    }
    Ok(masked)
}

/// Encode plain markup text into raw save-file bytes: gzip, then base64,
/// then XOR. Whatever comes back decodes to the input again; the one
/// failure left is a compressed payload too large for the base64 stage,
/// reported as a transform error.
pub fn transform_encode(b: &Vec<u8>) -> (r: Result<Vec<u8>, DeError>)
    ensures
        r matches Ok(v) ==> spec_transform_decode(v@) == Ok::<Seq<u8>, DeError>(b@),
        r matches Err(e) ==> e == DeError::Transform,
{
    let packed = match gzip_encode(b) {
        Ok(v) => v,
        Err(e) => return Err(e),
    };
    encode_compressed(&packed)
}

} // verus!
