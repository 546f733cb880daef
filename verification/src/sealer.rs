//! libsodium sealed boxes for GitHub Actions secrets. GitHub requires a
//! repository secret to be encrypted client-side with the repository's
//! Curve25519 public key; only the runner can open it. A secret is never
//! transmitted unsealed: if sealing fails, nothing is sent.
use vstd::prelude::*;
use vstd::utf8::encode_utf8;
use crate::base64::{b64_decode, b64_encode, base64_decode, encode, ascii_chars, lemma_decode_encode, lemma_encode_text};
use crate::destruction::os_random;
use crate::http::{GhError, SecretSealer};

verus! {

/// What `crypto_box::PublicKey::seal` gives for a recipient key and a
/// plaintext when its ephemeral key is drawn from a ChaCha20 generator seeded
/// with `seed`.
pub uninterp spec fn box_sealed(public_key: Seq<u8>, plaintext: Seq<u8>, seed: Seq<u8>) -> Seq<u8>;

/// `crypto_box::PublicKey::seal`, its ephemeral key pair drawn from
/// `rand_chacha::ChaCha20Rng` seeded with `seed`: the ephemeral public key
/// (32 bytes), then the XSalsa20-Poly1305 ciphertext with its 16-byte tag.
/// Claimed: with no associated data and a vector buffer, sealing cannot fail
/// (the cipher refuses only associated data; growing a vector cannot fail),
/// so a box always comes back, 48 bytes longer than the plaintext, and it is
/// a function of the key, the plaintext and the seed alone. Drawing from a
/// seeded generator cannot fail either, unlike the operating system's
/// generator, which aborts when its source fails.
#[verifier::external_body]
fn sealed_box(public_key: &[u8; 32], plaintext: &[u8], seed: [u8; 32]) -> (r: Option<Vec<u8>>)
    ensures
        r is Some,
        r->0@ == box_sealed(public_key@, plaintext@, seed@),
        r->0@.len() == plaintext@.len() + 48,
{
    let mut rng: rand_chacha::ChaCha20Rng = rand_chacha::rand_core::SeedableRng::from_seed(seed);
    match crypto_box::PublicKey::from(*public_key).seal(&mut rng, plaintext) {
        Ok(v) => Some(v),
        Err(_) => None,
    }
}

/// The repository key: its base64 decodes to exactly 32 bytes.
pub open spec fn key_bytes(public_key_b64: Seq<char>) -> Option<Seq<u8>> {
    match b64_decode(encode_utf8(public_key_b64)) {
        Some(k) => if k.len() == 32 {
            Some(k)
        } else {
            None
        },
        None => None,
    }
}

/// Decode the repository's public key; `None` unless it is base64 of
/// exactly 32 bytes.
pub fn repo_key(public_key_b64: &str) -> (r: Option<[u8; 32]>)
    ensures
        match key_bytes(public_key_b64@) {
            Some(k) => r matches Some(a) && a@ == k,
            None => r is None,
        },
{
    let raw = match base64_decode(public_key_b64) {
        Some(v) => v,
        None => return None,
    };
    if raw.len() != 32 {
        return None;
    }
    let mut key = [0u8; 32];
    let mut i: usize = 0;
    while i < 32
        invariant
            raw@.len() == 32,
            0 <= i <= 32,
            forall|j: int| 0 <= j < i ==> key@[j] == raw@[j],
        decreases 32 - i,
    {
        key[i] = raw[i];
        i = i + 1;
    }
    assert(key@ =~= raw@);
    Some(key)
}

/// The first 32 bytes of `raw`, as an array.
fn first_32(raw: &Vec<u8>) -> (a: [u8; 32])
    requires
        raw@.len() == 32,
    ensures
        a@ == raw@,
{
    let mut a = [0u8; 32];
    let mut i: usize = 0;
    while i < 32
        invariant
            raw@.len() == 32,
            0 <= i <= 32,
            forall|j: int| 0 <= j < i ==> a@[j] == raw@[j],
        decreases 32 - i,
    {
        a[i] = raw[i];
        i = i + 1;
    }
    assert(a@ =~= raw@);
    a
}

/// The base64 text of a box.
pub open spec fn box_text(v: Seq<u8>) -> Seq<char> {
    ascii_chars(b64_encode(v))
}

/// Seal `plaintext` for the repository key (base64), drawing the ephemeral
/// key from `seed`, the 32 random bytes the operating system gave: the box in
/// base64; `Sealer` when the key is not base64 of 32 bytes or no seed of 32
/// bytes came.
pub fn seal_with_seed(repo_public_key_b64: &str, plaintext: &[u8], seed: Option<Vec<u8>>) -> (r: Result<String, GhError>)
    ensures
        match (key_bytes(repo_public_key_b64@), seed) {
            (Some(k), Some(sd)) => if sd@.len() == 32 {
                r matches Ok(t) && t@ == box_text(box_sealed(k, plaintext@, sd@)) && box_sealed(
                    k,
                    plaintext@,
                    sd@,
                ).len() == plaintext@.len() + 48
            } else {
                r matches Err(GhError::Sealer)
            },
            _ => r matches Err(GhError::Sealer),
        },
        r matches Ok(t) ==> b64_decode(encode_utf8(t@)) matches Some(v) && v.len() == plaintext@.len() + 48,
{
    let key = match repo_key(repo_public_key_b64) {
        Some(k) => k,
        None => return Err(GhError::Sealer),
    };
    let sd = match seed {
        Some(v) => v,
        None => return Err(GhError::Sealer),
    };
    if sd.len() != 32 {
        return Err(GhError::Sealer);
    }
    let boxed = sealed_box(&key, plaintext, first_32(&sd));
    match boxed {
        Some(v) => {
            proof {
                lemma_decode_encode(v@);
                lemma_encode_text(v@);
            }
            Ok(encode(v.as_slice()))
        },
        None => Err(GhError::Sealer),
    }
}

/// The production sealer: libsodium sealed boxes.
pub struct SodiumSealer;

impl SecretSealer for SodiumSealer {
    /// A malformed key is refused, and so is a seal for which the operating
    /// system gave no random bytes; any other answer is the box, in base64,
    /// sealed for the key with an ephemeral key drawn from some 32-byte seed.
    open spec fn may_seal(&self, repo_public_key_b64: Seq<char>, plaintext: Seq<u8>, r: Result<Seq<char>, GhError>) -> bool {
        &&& (key_bytes(repo_public_key_b64) is None ==> (r matches Err(GhError::Sealer)))
        &&& (r is Err ==> (r matches Err(GhError::Sealer)))
        &&& (r matches Ok(s) ==> (b64_decode(encode_utf8(s)) matches Some(v) && v.len() == plaintext.len() + 48))
        &&& (r matches Ok(s) ==> exists|seed: Seq<u8>|
            seed.len() == 32 && s == #[trigger] box_text(box_sealed(key_bytes(repo_public_key_b64)->0, plaintext, seed)))
    }

    /// Seal `plaintext` for the repository key and return the box in base64.
    /// The seed is asked of the operating system; a source that cannot
    /// answer means no box, never an abort.
    fn seal(&self, repo_public_key_b64: &str, plaintext: &[u8]) -> (r: Result<String, GhError>)
    {
        seal_with_seed(repo_public_key_b64, plaintext, os_random(32))
    }
}

} // verus!
