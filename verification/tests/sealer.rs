use crypto_box::{aead::OsRng, SecretKey};
use nyedarch::base64::{base64_decode, encode};
use nyedarch::http::SecretSealer;
use nyedarch::http::GhError;
use nyedarch::sealer::{seal_with_seed, SodiumSealer};

#[test]
fn sealed_box_roundtrips_and_hides_the_secret() {
    let sk = SecretKey::generate(&mut OsRng);
    let pk = sk.public_key();
    let pk_b64 = encode(pk.as_bytes());
    let secret = b"NYEDARCH_GH_TO_CLIENT_PUB=super-secret-value";
    let sealed_b64 = SodiumSealer.seal(&pk_b64, secret).expect("seal");
    assert!(!sealed_b64.contains("super-secret"));
    let raw = base64_decode(&sealed_b64).expect("b64");
    let opened = sk.unseal(&raw).expect("unseal");
    assert_eq!(opened, secret);
}

#[test]
fn a_malformed_public_key_is_refused() {
    assert!(SodiumSealer.seal("not-base64!!", b"x").is_err());
    assert!(SodiumSealer.seal("c2hvcnQ=", b"x").is_err());
}

#[test]
fn a_seeded_seal_opens_and_depends_only_on_its_inputs() {
    let sk = SecretKey::from_bytes([3u8; 32]);
    let pk_b64 = encode(sk.public_key().as_bytes());
    let a = seal_with_seed(&pk_b64, b"hello", Some(vec![7u8; 32])).expect("seal");
    let b = seal_with_seed(&pk_b64, b"hello", Some(vec![7u8; 32])).expect("seal");
    assert_eq!(a, b, "the same seed gives the same box");
    let c = seal_with_seed(&pk_b64, b"hello", Some(vec![8u8; 32])).expect("seal");
    assert_ne!(a, c, "another seed gives another box");
    let raw = base64_decode(&a).expect("b64");
    assert_eq!(raw.len(), 5 + 48);
    assert_eq!(sk.unseal(&raw).expect("unseal"), b"hello");
}

#[test]
fn no_random_bytes_means_no_box() {
    let sk = SecretKey::from_bytes([3u8; 32]);
    let pk_b64 = encode(sk.public_key().as_bytes());
    assert!(matches!(seal_with_seed(&pk_b64, b"x", None), Err(GhError::Sealer)));
    assert!(matches!(seal_with_seed(&pk_b64, b"x", Some(vec![1u8; 31])), Err(GhError::Sealer)));
}
