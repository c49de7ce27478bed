//! Trusted wrappers around the outside cryptography crates, and the verified
//! hex decoding between them.
//!
//! Each digest or signature is given a name (an uninterpreted spec function);
//! the wrappers state of the outside call only what its documentation
//! promises: result lengths, determinism, and that a signature made with a
//! secret key verifies under the derived public key.

use vstd::prelude::*;

verus! {

/// The 64 hex characters that `sha256::digest` returns for the given bytes.
pub uninterp spec fn sha256_hex_of(data: Seq<u8>) -> Seq<char>;

/// The 20 bytes that RIPEMD-160 returns for the given bytes.
pub uninterp spec fn ripemd160_of(data: Seq<u8>) -> Seq<u8>;

/// The Ed25519 verifying key derived from a 32-byte secret.
pub uninterp spec fn ed25519_pk_of(secret: Seq<u8>) -> Seq<u8>;

/// The deterministic Ed25519 signature of a message under a secret key.
pub uninterp spec fn ed25519_sig_of(secret: Seq<u8>, msg: Seq<u8>) -> Seq<u8>;

/// Whether 32 bytes are accepted as an Ed25519 verifying key.
pub uninterp spec fn ed25519_key_ok(pk: Seq<u8>) -> bool;

/// Whether a signature verifies under a key and message.
pub uninterp spec fn ed25519_sig_ok(pk: Seq<u8>, msg: Seq<u8>, sig: Seq<u8>) -> bool;

/// Whether `c` is a lower-case hexadecimal digit.
pub open spec fn is_hex_char(c: char) -> bool {
    (('0' as u32) <= (c as u32) && (c as u32) <= ('9' as u32)) || (('a' as u32) <= (c as u32) && (
    c as u32) <= ('f' as u32))
}

/// Relies on `sha256::digest`: the 64 lower-case hex characters of the
/// SHA-256 digest, a function of the input bytes alone.
#[verifier::external_body]
pub fn sha256_hex(data: &Vec<u8>) -> (r: String)
    ensures
        r@ == sha256_hex_of(data@),
        r@.len() == 64,
        forall|i: int| 0 <= i < 64 ==> is_hex_char(#[trigger] r@[i]),
{
    sha256::digest(data)
}

/// Relies on `ripemd::Ripemd160` (one new/update/finalize round): the
/// 20-byte digest, a function of the input bytes alone.
#[verifier::external_body]
pub fn ripemd160_bytes(data: &Vec<u8>) -> (r: Vec<u8>)
    ensures
        r@ == ripemd160_of(data@),
        r@.len() == 20,
{
    let mut hasher = <ripemd::Ripemd160 as ripemd::Digest>::new();
    ripemd::Digest::update(&mut hasher, data.as_slice());
    ripemd::Digest::finalize(hasher).to_vec()
}

/// The numeric value of a lower-case hex digit.
pub open spec fn hex_val(c: char) -> u8 {
    if (c as u32) >= 97 {
        ((c as u32) - 87) as u8
    } else {
        ((c as u32) - 48) as u8
    }
}

/// The bytes a string of hex-digit pairs spells.
pub open spec fn hex_bytes_of(s: Seq<char>) -> Seq<u8> {
    Seq::new((s.len() / 2) as nat, |i: int| (hex_val(s[2 * i]) * 16 + hex_val(s[2 * i + 1])) as u8)
}

/// The value of one lower-case hex digit, executable.
fn hex_digit_value(c: char) -> (r: u8)
    requires
        is_hex_char(c),
    ensures
        r == hex_val(c),
        r < 16,
{
    let u = c as u32;
    if u >= 97 {
        (u - 87) as u8
    } else {
        (u - 48) as u8
    }
}

/// Decode a string of lower-case hex digits into its bytes.
pub fn hex_decode(s: &str) -> (r: Vec<u8>)
    requires
        s@.len() % 2 == 0,
        forall|i: int| 0 <= i < s@.len() ==> is_hex_char(#[trigger] s@[i]),
    ensures
        r@ == hex_bytes_of(s@),
{
    let n = s.unicode_len();
    let mut out: Vec<u8> = Vec::new();
    let mut j: usize = 0;
    while j < n / 2
        invariant
            n == s@.len(),
            s@.len() % 2 == 0,
            forall|i: int| 0 <= i < s@.len() ==> is_hex_char(#[trigger] s@[i]),
            j <= n / 2,
            out@.len() == j,
            forall|q: int| 0 <= q < j ==> out@[q] == hex_bytes_of(s@)[q],
        decreases n / 2 - j,
    {
        let hi = hex_digit_value(s.get_char(2 * j));
        let lo = hex_digit_value(s.get_char(2 * j + 1));
        out.push(hi * 16 + lo);
        j = j + 1;
    }
    proof {
        assert(out@ =~= hex_bytes_of(s@));
    }
    out
}

/// Relies on rand's `OsRng::fill_bytes`: 32 bytes from the operating
/// system's generator; nothing is promised of their values.
#[verifier::external_body]
pub fn random_seed() -> (r: Vec<u8>)
    ensures
        r@.len() == 32,
{
    let mut seed = [0u8; 32];
    rand::RngCore::fill_bytes(&mut rand::rngs::OsRng, &mut seed);
    seed.to_vec()
}

/// Relies on `ed25519_dalek::SigningKey::verifying_key`: the verifying key
/// is a function of the 32-byte secret alone and is always a valid key.
#[verifier::external_body]
pub fn ed25519_public_key(secret: &Vec<u8>) -> (r: Vec<u8>)
    requires
        secret@.len() == 32,
    ensures
        r@ == ed25519_pk_of(secret@),
        r@.len() == 32,
        ed25519_key_ok(r@),
{
    let bytes: &[u8; 32] = secret.as_slice().try_into().unwrap();
    let sk = ed25519_dalek::SigningKey::from_bytes(bytes);
    sk.verifying_key().to_bytes().to_vec()
}

/// Relies on `ed25519_dalek`'s deterministic signing (RFC 8032): the 64-byte
/// signature is a function of secret and message alone, and verifies under
/// the verifying key derived from the secret.
#[verifier::external_body]
pub fn ed25519_sign(secret: &Vec<u8>, msg: &Vec<u8>) -> (r: Vec<u8>)
    requires
        secret@.len() == 32,
    ensures
        r@ == ed25519_sig_of(secret@, msg@),
        r@.len() == 64,
        ed25519_sig_ok(ed25519_pk_of(secret@), msg@, r@),
{
    let bytes: &[u8; 32] = secret.as_slice().try_into().unwrap();
    let sk = ed25519_dalek::SigningKey::from_bytes(bytes);
    let sig = ed25519_dalek::Signer::sign(&sk, msg.as_slice());
    sig.to_bytes().to_vec()
}

/// Relies on `ed25519_dalek::VerifyingKey`: `from_bytes` accepts a fixed set
/// of 32-byte strings, and `verify`'s outcome is a function of key, message
/// and signature alone. `None` reports a rejected key.
#[verifier::external_body]
pub fn ed25519_verify(pk: &Vec<u8>, msg: &Vec<u8>, sig: &Vec<u8>) -> (r: Option<bool>)
    requires
        pk@.len() == 32,
        sig@.len() == 64,
    ensures
        r is Some <==> ed25519_key_ok(pk@),
        r matches Some(b) ==> b == ed25519_sig_ok(pk@, msg@, sig@),
{
    let pk_bytes: &[u8; 32] = pk.as_slice().try_into().unwrap();
    let key = match ed25519_dalek::VerifyingKey::from_bytes(pk_bytes) {
        Ok(k) => k,
        Err(_) => {
            return None;
        },
    };
    let sig_bytes: &[u8; 64] = sig.as_slice().try_into().unwrap();
    let s = ed25519_dalek::Signature::from_bytes(sig_bytes);
    Some(ed25519_dalek::Verifier::verify(&key, msg.as_slice(), &s).is_ok())
}

/// Relies on chrono's `Utc::now` for the wall clock in milliseconds; nothing
/// is promised of the value.
#[verifier::external_body]
pub fn current_millis() -> (r: u128)
{
    chrono::Utc::now().timestamp_millis() as u128
}

} // verus!
