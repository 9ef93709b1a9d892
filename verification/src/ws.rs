//! WebSocket protocol helpers: the handshake accept key and the minimal
//! single-frame writer for server-to-client text pushes.
use vstd::prelude::*;

use sha1::Digest;

verus! {

use vstd::utf8::encode_utf8;

/// The fixed GUID that RFC 6455 appends to the client-supplied key before
/// hashing.
pub open spec fn ws_guid_chars() -> Seq<char> {
    "258EAFA5-E914-47DA-95CA-C5AB0DC85B11"@
}

/// The SHA-1 digest of a byte sequence, named: it is a pure function of the
/// bytes, computed by the outside hash implementation.
pub uninterp spec fn sha1_of(data: Seq<u8>) -> Seq<u8>;

/// The standard base64 encoding (with padding) of a byte sequence, named:
/// it is a pure function of the bytes, computed by the outside encoder.
pub uninterp spec fn base64_of(data: Seq<u8>) -> Seq<char>;

/// Relies on `sha1::Sha1::digest` (sha1 crate): the 20-byte SHA-1 digest of
/// exactly the input bytes, a pure function of them.
#[verifier::external_body]
fn sha1_digest(data: &Vec<u8>) -> (r: Vec<u8>)
    ensures
        r@ == sha1_of(data@),
        r@.len() == 20,
{
    sha1::Sha1::digest(data.as_slice()).to_vec()
}

/// Relies on `base64::encode` (base64 crate): the standard-alphabet,
/// padded base64 rendering of the bytes, a pure function of them.
#[verifier::external_body]
fn base64_string(data: &Vec<u8>) -> (r: String)
    ensures
        r@ == base64_of(data@),
{
    base64::encode(data.as_slice())
}

/// The accept key derived from a client key: base64 of the SHA-1 digest of
/// the key followed by the fixed GUID.
pub open spec fn accept_key_of(key: Seq<char>) -> Seq<char> {
    base64_of(sha1_of(encode_utf8(key) + encode_utf8(ws_guid_chars())))
}

/// Compute the `Sec-WebSocket-Accept` value answering a client's
/// `Sec-WebSocket-Key`.
pub fn handle_handshake(key: &String) -> (r: String)
    ensures
        r@ == accept_key_of(key@),
{
    let mut data: Vec<u8> = Vec::new();
    crate::text::push_bytes(&mut data, key.as_str().as_bytes());
    crate::text::push_bytes(&mut data, "258EAFA5-E914-47DA-95CA-C5AB0DC85B11".as_bytes());
    let digest = sha1_digest(&data);
    base64_string(&digest)
}

/// The exact bytes of a minimal frame: final-fragment bit with the text
/// opcode, the declared length, then the payload verbatim.
pub open spec fn frame_bytes(payload: Seq<u8>, length: u8) -> Seq<u8> {
    seq![0x81u8, length] + payload
}

/// Build a single final, unmasked text frame carrying `data`, whose second
/// header byte is the caller-declared length. Lengths above 125 would need
/// the extended-length forms, which are out of scope, so they are refused.
/// The payload is moved out of `data` into the frame.
pub fn handle_write(data: &mut Vec<u8>, length: u8) -> (r: Vec<u8>)
    requires
        length <= 125,
    ensures
        r@ == frame_bytes(old(data)@, length),
        final(data)@.len() == 0,
{
    let mut response: Vec<u8> = Vec::with_capacity(length as usize + 2);

    let fin: u8 = 0x80;
    let byte1: u8 = fin | 1;
    assert(0x80u8 | 1u8 == 0x81u8) by (bit_vector);

    // The mask bit stays clear: this frame travels server-to-client.
    let byte2: u8 = 0 | length;
    assert(0u8 | length == length) by (bit_vector);

    response.push(byte1);
    response.push(byte2);
    response.append(data);
    proof {
        assert(response@ =~= frame_bytes(old(data)@, length));
    }
    response
}

} // verus!
