//! Artifact provenance. GitHub is an untrusted build environment, so the
//! client commits to a build before dispatch and verifies the returned
//! artifact against that commitment. Anything unexpected fails closed.
use vstd::prelude::*;
use vstd::utf8::{encode_utf8, decode_utf8, encode_utf8_decode_utf8};
use crate::workflow::{spec_rust_target, Target};

verus! {

/// What the client commits to before dispatching a build.
#[derive(Clone, Debug)]
pub struct BuildManifest {
    /// ULID string identifying this build.
    pub build_id: String,
    /// SHA-256 of the sealed package embedded in the runtime.
    pub package_commitment: [u8; 32],
    /// The runtime's identity commitment.
    pub runtime_commitment: [u8; 32],
    /// SHA-256 over the generated runtime source tree.
    pub source_commitment: [u8; 32],
    pub target: Target,
    pub crypto_version: u16,
}

/// What the client observes after the build.
#[derive(Clone, Debug)]
pub struct ArtifactClaim {
    pub build_id: String,
    pub target: Target,
    /// SHA-256 of the downloaded artifact bytes.
    pub artifact_digest: [u8; 32],
    /// Signature over `signed_input`, made with the build channel's key.
    pub signature: Vec<u8>,
}

#[derive(Clone, Copy, Debug, PartialEq, Eq, Structural)]
pub enum ProvenanceError {
    BuildIdMismatch,
    TargetMismatch,
    DigestMismatch,
    SignatureInvalid,
}

pub const PROVENANCE_DOMAIN: &'static str = "nyedarch:v1:artifact-provenance";

/// Little-endian bytes of a `u16`.
pub open spec fn le16(v: u16) -> Seq<u8> {
    seq![(v % 256) as u8, (v / 256) as u8]
}

/// The exact byte string a valid signature must cover. Every field is bound,
/// so a signature captured from one build cannot be replayed onto another.
pub open spec fn spec_signed_input(m: BuildManifest, digest: Seq<u8>) -> Seq<u8> {
    encode_utf8(PROVENANCE_DOMAIN@) + le16(m.crypto_version) + encode_utf8(m.build_id@) + seq![0u8]
        + encode_utf8(spec_rust_target(m.target)) + seq![0u8] + m.package_commitment@
        + m.runtime_commitment@ + m.source_commitment@ + digest
}

pub fn signed_input(m: &BuildManifest, artifact_digest: &[u8; 32]) -> (v: Vec<u8>)
    ensures
        v@ == spec_signed_input(*m, artifact_digest@),
{
    let mut v: Vec<u8> = Vec::new();
    v.extend_from_slice(PROVENANCE_DOMAIN.as_bytes());
    v.push((m.crypto_version % 256) as u8);
    v.push((m.crypto_version / 256) as u8);
    v.extend_from_slice(m.build_id.as_str().as_bytes());
    v.push(0);
    v.extend_from_slice(m.target.rust_target().as_bytes());
    v.push(0);
    v.extend_from_slice(&m.package_commitment);
    v.extend_from_slice(&m.runtime_commitment);
    v.extend_from_slice(&m.source_commitment);
    v.extend_from_slice(artifact_digest);
    assert(v@ =~= spec_signed_input(*m, artifact_digest@));
    v
}

/// Verifier for the build-to-client direction, implemented by the caller
/// with the verifying key it holds.
pub trait ArtifactVerifier {
    /// Whether this verifier accepts `signature` over `signed_input`.
    ///
    /// Code that is generic over the verifier never sees this body: to it the
    /// answer is whatever `verify` gives. An implementation that Verus checks
    /// states its own; the body here only lets unchecked implementations
    /// (test doubles, the program's own verifier) leave it out.
    closed spec fn accepts(&self, signed_input: Seq<u8>, signature: Seq<u8>) -> bool {
        true
    }

    fn verify(&self, signed_input: &[u8], signature: &[u8]) -> (r: bool)
        ensures
            r == self.accepts(signed_input@, signature@),
    ;
}

/// The outcome of the provenance check, given whether the signature verified.
pub open spec fn spec_provenance(
    m: BuildManifest,
    c: ArtifactClaim,
    expected: Seq<u8>,
    signature_ok: bool,
) -> Result<(), ProvenanceError> {
    if m.build_id@ != c.build_id@ {
        Err(ProvenanceError::BuildIdMismatch)
    } else if m.target != c.target {
        Err(ProvenanceError::TargetMismatch)
    } else if c.artifact_digest@ != expected {
        Err(ProvenanceError::DigestMismatch)
    } else if !signature_ok {
        Err(ProvenanceError::SignatureInvalid)
    } else {
        Ok(())
    }
}

/// Whether two digests are equal, compared in constant time.
pub fn digests_equal(a: &[u8; 32], b: &[u8; 32]) -> (r: bool)
    ensures
        r == (a@ == b@),
{
    let mut diff: u8 = 0;
    let mut i: usize = 0;
    assert(a@.take(0) =~= b@.take(0));
    while i < 32
        invariant
            i <= 32,
            a@.len() == 32,
            b@.len() == 32,
            (diff == 0) == (a@.take(i as int) == b@.take(i as int)),
        decreases 32 - i,
    {
        let x = a[i];
        let y = b[i];
        let d = diff;
        assert((d | (x ^ y)) == 0u8 <==> (d == 0u8 && x == y)) by (bit_vector);
        diff = d | (x ^ y);
        assert(a@.take(i + 1) =~= a@.take(i as int).push(x));
        assert(b@.take(i + 1) =~= b@.take(i as int).push(y));
        proof {
            if a@.take(i + 1) == b@.take(i + 1) {
                assert(a@.take(i + 1).drop_last() == a@.take(i as int));
                assert(b@.take(i + 1).drop_last() == b@.take(i as int));
                assert(a@.take(i + 1).last() == x);
                assert(b@.take(i + 1).last() == y);
            }
        }
        i = i + 1;
    }
    assert(a@.take(32) =~= a@);
    assert(b@.take(32) =~= b@);
    diff == 0
}

/// Apply the provenance rules to a signature verdict.
pub fn provenance_outcome(
    manifest: &BuildManifest,
    claim: &ArtifactClaim,
    expected_artifact_digest: &[u8; 32],
    signature_ok: bool,
) -> (r: Result<(), ProvenanceError>)
    ensures
        r == spec_provenance(*manifest, *claim, expected_artifact_digest@, signature_ok),
{
    if manifest.build_id != claim.build_id {
        return Err(ProvenanceError::BuildIdMismatch);
    }
    if manifest.target != claim.target {
        return Err(ProvenanceError::TargetMismatch);
    }
    if !digests_equal(&claim.artifact_digest, expected_artifact_digest) {
        return Err(ProvenanceError::DigestMismatch);
    }
    if !signature_ok {
        return Err(ProvenanceError::SignatureInvalid);
    }
    Ok(())
}

/// Establish provenance. Every check must pass; the signature is checked
/// over `signed_input(manifest, claim.artifact_digest)` only when build id,
/// target and digest all match.
pub fn verify_artifact<V: ArtifactVerifier>(
    verifier: &V,
    manifest: &BuildManifest,
    claim: &ArtifactClaim,
    expected_artifact_digest: &[u8; 32],
) -> (r: Result<(), ProvenanceError>)
    ensures
        r == spec_provenance(
            *manifest,
            *claim,
            expected_artifact_digest@,
            verifier.accepts(spec_signed_input(*manifest, claim.artifact_digest@), claim.signature@),
        ),
{
    if manifest.build_id != claim.build_id || manifest.target != claim.target
        || !digests_equal(&claim.artifact_digest, expected_artifact_digest) {
        return provenance_outcome(manifest, claim, expected_artifact_digest, false);
    }
    let input = signed_input(manifest, &claim.artifact_digest);
    let ok = verifier.verify(input.as_slice(), claim.signature.as_slice());
    provenance_outcome(manifest, claim, expected_artifact_digest, ok)
}

/// Signed inputs are build-specific: two manifests that differ only in their
/// build id never produce the same signed input, so a signature cannot be
/// replayed from one build onto another.
pub proof fn lemma_signed_input_binds_build_id(m1: BuildManifest, m2: BuildManifest, digest: Seq<u8>)
    requires
        m1.crypto_version == m2.crypto_version,
        m1.target == m2.target,
        m1.package_commitment@ == m2.package_commitment@,
        m1.runtime_commitment@ == m2.runtime_commitment@,
        m1.source_commitment@ == m2.source_commitment@,
        m1.build_id@ != m2.build_id@,
    ensures
        spec_signed_input(m1, digest) != spec_signed_input(m2, digest),
{
    let p = encode_utf8(PROVENANCE_DOMAIN@) + le16(m1.crypto_version);
    let e1 = encode_utf8(m1.build_id@);
    let e2 = encode_utf8(m2.build_id@);
    let tail = seq![0u8] + encode_utf8(spec_rust_target(m1.target)) + seq![0u8]
        + m1.package_commitment@ + m1.runtime_commitment@ + m1.source_commitment@ + digest;
    let s1 = spec_signed_input(m1, digest);
    let s2 = spec_signed_input(m2, digest);
    assert(s1 =~= p + e1 + tail);
    assert(s2 =~= p + e2 + tail);
    if s1 == s2 {
        assert(e1.len() == e2.len());
        assert(e1 =~= s1.subrange(p.len() as int, (p.len() + e1.len()) as int));
        assert(e2 =~= s2.subrange(p.len() as int, (p.len() + e2.len()) as int));
        encode_utf8_decode_utf8(m1.build_id@);
        encode_utf8_decode_utf8(m2.build_id@);
        assert(m1.build_id@ == decode_utf8(e1));
        assert(false);
    }
}

} // verus!
