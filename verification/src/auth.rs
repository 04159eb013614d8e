//! Shared-secret challenge-response authentication for the control
//! channel: the client answers a server challenge with the lower-hex
//! HMAC-SHA256 of the challenge bytes under the shared secret.

use vstd::prelude::*;
use vstd::string::*;

verus! {

/// The HMAC-SHA256 tag of a message under a key: a function of the key
/// and message alone.  Opaque to the verifier; `hmac_sha256_tag` below is
/// its only source of facts.
pub uninterp spec fn hmac_sha256(key: Seq<u8>, msg: Seq<u8>) -> Seq<u8>;

/// Relies on hmac's `Hmac<Sha256>`: the tag is 32 bytes (SHA-256 output
/// size) and depends on the key and message alone; keys of any length
/// are accepted.
#[verifier::external_body]
fn hmac_sha256_tag(key: &Vec<u8>, msg: &Vec<u8>) -> (r: Vec<u8>)
    ensures
        r@ == hmac_sha256(key@, msg@),
        r@.len() == 32,
{
    let mut mac = <hmac::Hmac<sha2::Sha256> as hmac::KeyInit>::new_from_slice(
        key.as_slice(),
    ).expect("HMAC accepts keys of any length");
    hmac::Mac::update(&mut mac, msg.as_slice());
    hmac::Mac::finalize(mac).into_bytes().as_slice().to_vec()
}

/// The ASCII code of `n`'s lower-hex digit, for `n` below 16.
pub open spec fn hex_digit(n: u8) -> u8 {
    if n < 10 {
        (48 + n) as u8
    } else {
        (87 + n) as u8
    }
}

/// The lower-hex ASCII encoding of a byte string: two digits per byte,
/// high nibble first.
pub open spec fn hex_of(bytes: Seq<u8>) -> Seq<u8>
    decreases bytes.len(),
{
    if bytes.len() == 0 {
        Seq::empty()
    } else {
        hex_of(bytes.drop_last()) + seq![
            hex_digit(bytes.last() / 16),
            hex_digit(bytes.last() % 16),
        ]
    }
}

proof fn lemma_hex_len(bytes: Seq<u8>)
    ensures
        hex_of(bytes).len() == 2 * bytes.len(),
    decreases bytes.len(),
{
    if bytes.len() > 0 {
        lemma_hex_len(bytes.drop_last());
    }
}

/// Encode bytes as lower-hex ASCII.
pub fn hex_encode(bytes: &Vec<u8>) -> (r: Vec<u8>)
    ensures
        r@ == hex_of(bytes@),
        r@.len() == 2 * bytes@.len(),
{
    let n = bytes.len();
    let mut out: Vec<u8> = Vec::new();
    proof {
        assert(bytes@.take(0) =~= Seq::<u8>::empty());
    }
    for i in 0..n
        invariant
            n == bytes@.len(),
            out@ =~= hex_of(bytes@.take(i as int)),
    {
        let b = bytes[i];
        let hi = b / 16;
        let lo = b % 16;
        out.push(if hi < 10 {
            48 + hi
        } else {
            87 + hi
        });
        out.push(if lo < 10 {
            48 + lo
        } else {
            87 + lo
        });
        proof {
            let t = bytes@.take(i + 1);
            assert(t.drop_last() =~= bytes@.take(i as int));
            assert(t.last() == bytes@[i as int]);
        }
    }
    proof {
        assert(bytes@.take(n as int) =~= bytes@);
        lemma_hex_len(bytes@);
    }
    out
}

/// The client side of the control-channel authentication: holds the
/// shared secret and answers server challenges.
pub struct Authenticator {
    key: Vec<u8>,
}

impl Authenticator {
    /// The bytes of the shared secret.
    pub closed spec fn spec_key(self) -> Seq<u8> {
        self.key@
    }

    /// Create an authenticator from the shared secret.
    pub fn new(secret: &str) -> (a: Authenticator)
        ensures
            a.spec_key() == secret.spec_bytes(),
    {
        Authenticator { key: secret.as_bytes_vec() }
    }

    /// The reply to a server challenge: the lower-hex HMAC-SHA256 of the
    /// challenge bytes under the shared secret — always 64 hex digits.
    pub fn answer(&self, challenge: &Vec<u8>) -> (r: Vec<u8>)
        ensures
            r@ == hex_of(hmac_sha256(self.spec_key(), challenge@)),
            r@.len() == 64,
    {
        let tag = hmac_sha256_tag(&self.key, challenge);
        hex_encode(&tag)
    }
}

} // verus!
