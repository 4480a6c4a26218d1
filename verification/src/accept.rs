use vstd::prelude::*;

use crypto::digest::Digest;
use crypto::sha1::Sha1;
use rustc_serialize::base64::{CharacterSet, Config, Newline, ToBase64};
use vstd::utf8::encode_utf8;

verus! {

/// The GUID that RFC 6455 appends to the client's key before hashing it.
pub const WS_MAGIC_GUID: &'static str = "258EAFA5-E914-47DA-95CA-C5AB0DC85B11";

/// Longest challenge, in characters, whose accept value is computed.
pub const MAX_CHALLENGE_CHARS: u64 = 0x0100_0000_0000_0000;

/// The SHA-1 digest of `data`.
pub uninterp spec fn sha1(data: Seq<u8>) -> Seq<u8>;

/// The character that stands for the 6-bit value `v` in the standard base64 alphabet.
pub open spec fn base64_digit(v: int) -> char {
    if v < 26 {
        (65 + v) as char
    } else if v < 52 {
        (97 + (v - 26)) as char
    } else if v < 62 {
        (48 + (v - 52)) as char
    } else if v == 62 {
        '+'
    } else {
        '/'
    }
}

/// Standard base64 (RFC 4648 alphabet, `=` padding, no line breaks).
pub open spec fn base64_encode(data: Seq<u8>) -> Seq<char>
    decreases data.len(),
{
    if data.len() == 0 {
        seq![]
    } else if data.len() == 1 {
        let a = data[0] as int;
        seq![base64_digit(a / 4), base64_digit((a % 4) * 16), '=', '=']
    } else if data.len() == 2 {
        let a = data[0] as int;
        let b = data[1] as int;
        seq![base64_digit(a / 4), base64_digit((a % 4) * 16 + b / 16), base64_digit((b % 16) * 4), '=']
    } else {
        let a = data[0] as int;
        let b = data[1] as int;
        let c = data[2] as int;
        seq![
            base64_digit(a / 4),
            base64_digit((a % 4) * 16 + b / 16),
            base64_digit((b % 16) * 4 + c / 64),
            base64_digit(c % 64),
        ] + base64_encode(data.skip(3))
    }
}

/// The `Sec-WebSocket-Accept` value for the client's key `challenge`.
pub open spec fn accept_key(challenge: Seq<char>) -> Seq<char> {
    base64_encode(sha1(encode_utf8(challenge + WS_MAGIC_GUID@)))
}

/// Calls `crypto::sha1::Sha1` (`new`, `input`, `result`): the 20-byte SHA-1 digest of `data`.
/// The contract names the digest `sha1(data)`; `input` panics once the message length in
/// bits overflows a `u64`, which `requires` rules out.
#[verifier::external_body]
fn sha1_digest(data: &[u8]) -> (out: [u8; 20])
    requires
        data@.len() * 8 <= u64::MAX,
    ensures
        out@ == sha1(data@),
{
    let mut hasher = Sha1::new();
    hasher.input(data);
    let mut out = [0u8; 20];
    hasher.result(&mut out);
    out
}

/// Calls `rustc_serialize::base64::ToBase64::to_base64` on the bytes, with the standard
/// alphabet, padding and no line length: the result is `base64_encode` of the bytes.
#[verifier::external_body]
fn base64_standard(data: &[u8; 20]) -> (s: String)
    ensures
        s@ == base64_encode(data@),
{
    data[..].to_base64(
        Config {
            char_set: CharacterSet::Standard,
            line_length: None,
            newline: Newline::CRLF,
            pad: true,
        },
    )
}

/// The accept value for a SHA-1 digest: its standard base64 form.
pub fn accept_from_digest(digest: &[u8; 20]) -> (s: String)
    ensures
        s@ == base64_encode(digest@),
{
    base64_standard(digest)
}

proof fn lemma_utf8_len(s: Seq<char>)
    ensures
        encode_utf8(s).len() <= 4 * s.len(),
    decreases s.len(),
{
    if s.len() > 0 {
        lemma_utf8_len(s.drop_first());
    }
}

/// Base64 turns every three bytes, and a last partial group, into four characters.
pub proof fn law_base64_len(data: Seq<u8>)
    ensures
        base64_encode(data).len() == 4 * ((data.len() + 2) / 3),
    decreases data.len(),
{
    if data.len() > 2 {
        law_base64_len(data.skip(3));
    }
}

/// Every accept value is 28 characters long: the base64 form of a 20-byte digest.
pub proof fn law_accept_len(digest: Seq<u8>)
    requires
        digest.len() == 20,
    ensures
        base64_encode(digest).len() == 28,
{
    law_base64_len(digest);
}

proof fn lemma_utf8_concat(a: Seq<char>, b: Seq<char>)
    ensures
        encode_utf8(a + b) == encode_utf8(a) + encode_utf8(b),
    decreases a.len(),
{
    if a.len() > 0 {
        assert((a + b).drop_first() =~= a.drop_first() + b);
        assert((a + b)[0] == a[0]);
        lemma_utf8_concat(a.drop_first(), b);
    } else {
        assert(a + b =~= b);
    }
}

/// The accept value is the standard base64 form of the SHA-1 digest of exactly the key's
/// own UTF-8 bytes followed by the bytes of the GUID, for every key.
pub proof fn law_accept_hashes_key_then_guid(challenge: Seq<char>)
    ensures
        accept_key(challenge) == base64_encode(
            sha1(encode_utf8(challenge) + encode_utf8(WS_MAGIC_GUID@)),
        ),
{
    lemma_utf8_concat(challenge, WS_MAGIC_GUID@);
}

/// The `Sec-WebSocket-Accept` value for the client's key.
pub fn challenge_response(challenge: &String) -> (s: String)
    requires
        challenge@.len() <= MAX_CHALLENGE_CHARS,
    ensures
        s@ == accept_key(challenge@),
        s@ == base64_encode(sha1(encode_utf8(challenge@) + encode_utf8(WS_MAGIC_GUID@))),
        s@.len() == 28,
{
    let mut local = challenge.clone();
    local.append(WS_MAGIC_GUID);
    let bytes = local.as_str().as_bytes();
    proof {
        reveal_strlit("258EAFA5-E914-47DA-95CA-C5AB0DC85B11");
        lemma_utf8_len(local@);
    }
    let digest = sha1_digest(bytes);
    proof {
        law_accept_len(digest@);
        law_accept_hashes_key_then_guid(challenge@);
    }
    accept_from_digest(&digest)
}

} // verus!
