//! Does this capsule still consist of the bytes it was built from?
//!
//! A binary cannot contain a hash of itself, so a field is reserved: the
//! image is hashed with that field zeroed and the result written into it; the
//! check does the same in reverse. The field is found by scanning for a magic
//! prefix, since the linker decides where it lands. An image whose field is
//! all zeroes was never sealed and still runs: a missing seal is a weaker
//! capsule, while a false positive would be a destroyed one. This is
//! detection, not the confidentiality boundary.
use vstd::prelude::*;
use vstd::utf8::encode_utf8;
use crate::provenance::digests_equal;

verus! {

/// The magic, XOR-masked so that its plain bytes never appear in the
/// library's own data (a second copy would be found instead of the field).
pub const MASKED: [u8; 16] = [0x0c, 0x1b, 0x07, 0x06, 0x03, 0x10, 0x01, 0x0a, 0x6f, 0x11, 0x07, 0x03, 0x0e, 0x34, 0x73, 0x42];

/// The magic's bytes: `NYEDARCH-SEALv1` and a zero byte.
pub open spec fn magic() -> Seq<u8> {
    seq![0x4eu8, 0x59, 0x45, 0x44, 0x41, 0x52, 0x43, 0x48, 0x2d, 0x53, 0x45, 0x41, 0x4c, 0x76, 0x31, 0x00]
}

/// Magic followed by a 32-byte digest field.
pub const SELF_SEAL_LEN: usize = 48;

/// The magic that marks the reserved field, unmasked at run time.
pub fn self_seal_magic() -> (m: [u8; 16])
    ensures
        m@ == magic(),
{
    let mut m = [0u8; 16];
    let mut i: usize = 0;
    while i < 16
        invariant
            0 <= i <= 16,
            forall|j: int| 0 <= j < i ==> m@[j] == MASKED@[j] ^ 0x42u8,
        decreases 16 - i,
    {
        m[i] = MASKED[i] ^ 0x42;
        i = i + 1;
    }
    assert(0x0cu8 ^ 0x42u8 == 0x4eu8 && 0x1bu8 ^ 0x42u8 == 0x59u8 && 0x07u8 ^ 0x42u8 == 0x45u8 && 0x06u8
        ^ 0x42u8 == 0x44u8 && 0x03u8 ^ 0x42u8 == 0x41u8 && 0x10u8 ^ 0x42u8 == 0x52u8 && 0x01u8 ^ 0x42u8
        == 0x43u8 && 0x0au8 ^ 0x42u8 == 0x48u8 && 0x6fu8 ^ 0x42u8 == 0x2du8 && 0x11u8 ^ 0x42u8 == 0x53u8
        && 0x0eu8 ^ 0x42u8 == 0x4cu8 && 0x34u8 ^ 0x42u8 == 0x76u8 && 0x73u8 ^ 0x42u8 == 0x31u8 && 0x42u8
        ^ 0x42u8 == 0x00u8) by (bit_vector);
    assert(m@ =~= magic());
    m
}

/// What a check concluded.
#[derive(Debug, Clone, Copy, PartialEq, Eq, Structural)]
pub enum SelfSeal {
    /// The image matches the digest written into it.
    Intact,
    /// The image does not match: it was modified after sealing.
    Modified,
    /// No digest was written: the capsule was never sealed.
    NotSealed,
    /// The image could not be read or the field could not be found.
    Unknown,
}

/// A field starts at `i`: the magic, with room for the digest after it.
pub open spec fn field_at(image: Seq<u8>, i: int) -> bool {
    0 <= i && i + 48 <= image.len() && image.subrange(i, i + 16) == magic()
}

/// The positions of every field from `i` on, in order.
pub open spec fn fields_from(image: Seq<u8>, i: int) -> Seq<int>
    decreases image.len() - i,
{
    if i < 0 || i + 48 > image.len() {
        Seq::empty()
    } else if field_at(image, i) {
        seq![i] + fields_from(image, i + 1)
    } else {
        fields_from(image, i + 1)
    }
}

/// Locate every reserved field in an image.
pub fn find_fields(image: &[u8]) -> (r: Vec<usize>)
    ensures
        r@.map_values(|x: usize| x as int) == fields_from(image@, 0),
{
    let mg = self_seal_magic();
    let n = image.len();
    let mut out: Vec<usize> = Vec::new();
    if n < 48 {
        assert(out@.map_values(|x: usize| x as int) =~= fields_from(image@, 0));
        return out;
    }
    let mut i: usize = 0;
    assert(out@.map_values(|x: usize| x as int) + fields_from(image@, 0) =~= fields_from(image@, 0));
    while i <= n - 48
        invariant
            n == image@.len(),
            mg@ == magic(),
            n >= 48,
            i <= n - 47,
            out@.map_values(|x: usize| x as int) + fields_from(image@, i as int) == fields_from(image@, 0),
        decreases n - i,
    {
        let mut k: usize = 0;
        while k < 16 && image[i + k] == mg[k]
            invariant
                n == image@.len(),
                i + 48 <= n,
                mg@ == magic(),
                k <= 16,
                forall|j: int| 0 <= j < k ==> image@[i + j] == mg@[j],
            decreases 16 - k,
        {
            k = k + 1;
        }
        let ghost before = out@;
        if k == 16 {
            assert(image@.subrange(i as int, i + 16) =~= magic());
            out.push(i);
            assert(out@.map_values(|x: usize| x as int) =~= before.map_values(|x: usize| x as int).push(i as int));
            assert(out@.map_values(|x: usize| x as int) + fields_from(image@, i + 1) =~= before.map_values(
                |x: usize| x as int,
            ) + fields_from(image@, i as int));
        } else {
            assert(image@.subrange(i as int, i + 16)[k as int] != magic()[k as int]);
        }
        i = i + 1;
    }
    assert(fields_from(image@, i as int) =~= Seq::<int>::empty());
    assert(out@.map_values(|x: usize| x as int) =~= fields_from(image@, 0));
    out
}

/// The first candidate field.
pub fn find_field(image: &[u8]) -> (r: Option<usize>)
    ensures
        fields_from(image@, 0).len() == 0 ==> r is None,
        fields_from(image@, 0).len() > 0 ==> (r matches Some(i) && i as int == fields_from(image@, 0)[0]),
{
    let f = find_fields(image);
    if f.len() == 0 {
        None
    } else {
        assert(f@.map_values(|x: usize| x as int)[0] == f@[0] as int);
        Some(f[0])
    }
}

/// HKDF-SHA256 of some key material under a salt and an info string.
pub uninterp spec fn hkdf_sha256(salt: Seq<u8>, ikm: Seq<u8>, info: Seq<u8>) -> Seq<u8>;

/// `hkdf::Hkdf::<sha2::Sha256>::new(Some(salt), ikm)` and `expand(info)`
/// into 32 bytes. Claimed: the output depends on the three inputs alone.
/// Expansion fails only past 255 blocks of output, which 32 bytes never
/// reach, so its result is not consulted.
#[verifier::external_body]
fn hkdf_key(salt: &[u8], ikm: &[u8], info: &[u8]) -> (r: [u8; 32])
    ensures
        r@ == hkdf_sha256(salt@, ikm@, info@),
{
    let mut okm = [0u8; 32];
    let _ = hkdf::Hkdf::<sha2::Sha256>::new(Some(salt), ikm).expand(info, &mut okm);
    okm
}

pub const SEAL_SALT: &'static str = "nyedarch:v1:self-seal";
pub const SEAL_INFO: &'static str = "image";

/// The image with the digest field of the field at `at` zeroed.
pub open spec fn zeroed_field(image: Seq<u8>, at: int) -> Seq<u8> {
    image.subrange(0, at + 16) + Seq::new(32, |i: int| 0u8) + image.subrange(at + 48, image.len() as int)
}

/// The digest an image should carry: keyed hashing of the image with its
/// digest field zeroed, under a domain of its own.
pub open spec fn spec_expected_digest(image: Seq<u8>, at: int) -> Seq<u8> {
    hkdf_sha256(encode_utf8(SEAL_SALT@), zeroed_field(image, at), encode_utf8(SEAL_INFO@))
}

/// The digest for the field at `field_at`; `None` when the field does not fit.
pub fn expected_digest(image: &[u8], field_at: usize) -> (r: Option<[u8; 32]>)
    ensures
        field_at + 48 <= image@.len() ==> (r matches Some(d) && d@ == spec_expected_digest(image@, field_at as int)),
        field_at + 48 > image@.len() ==> r is None,
{
    if field_at > image.len() || image.len() - field_at < 48 {
        return None;
    }
    let mut buf: Vec<u8> = Vec::new();
    let mut i: usize = 0;
    let n = image.len();
    while i < n
        invariant
            n == image@.len(),
            field_at + 48 <= n,
            i <= n,
            buf@ == zeroed_field(image@, field_at as int).take(i as int),
        decreases n - i,
    {
        let b = if field_at + 16 <= i && i < field_at + 48 { 0u8 } else { image[i] };
        assert(zeroed_field(image@, field_at as int)[i as int] == b);
        buf.push(b);
        assert(buf@ =~= zeroed_field(image@, field_at as int).take(i + 1));
        i = i + 1;
    }
    assert(buf@ =~= zeroed_field(image@, field_at as int));
    Some(hkdf_key(SEAL_SALT.as_bytes(), buf.as_slice(), SEAL_INFO.as_bytes()))
}

/// The 32 bytes stored in the field at `at`.
pub open spec fn stored(image: Seq<u8>, at: int) -> Seq<u8> {
    image.subrange(at + 16, at + 48)
}

pub open spec fn all_zero(b: Seq<u8>) -> bool {
    forall|i: int| 0 <= i < b.len() ==> b[i] == 0
}

/// The field at `at` verifies: something was written and it is the digest.
pub open spec fn verifies(image: Seq<u8>, at: int) -> bool {
    !all_zero(stored(image, at)) && stored(image, at) == spec_expected_digest(image, at)
}

/// What the check concludes: no field means unknown; a field that verifies
/// means intact; else a field still zeroed means never sealed; else the
/// image was modified.
pub open spec fn spec_check(image: Seq<u8>) -> SelfSeal {
    let f = fields_from(image, 0);
    if f.len() == 0 {
        SelfSeal::Unknown
    } else if exists|k: int| 0 <= k < f.len() && verifies(image, #[trigger] f[k]) {
        SelfSeal::Intact
    } else if exists|k: int| 0 <= k < f.len() && all_zero(stored(image, #[trigger] f[k])) {
        SelfSeal::NotSealed
    } else {
        SelfSeal::Modified
    }
}

proof fn lemma_fields_in_range(image: Seq<u8>, i: int)
    requires
        0 <= i,
    ensures
        forall|k: int| 0 <= k < fields_from(image, i).len() ==> field_at(image, #[trigger] fields_from(image, i)[k]),
    decreases image.len() - i,
{
    if i + 48 <= image.len() {
        lemma_fields_in_range(image, i + 1);
        let t = fields_from(image, i + 1);
        let f = fields_from(image, i);
        if field_at(image, i) {
            assert forall|k: int| 0 <= k < f.len() implies field_at(image, #[trigger] f[k]) by {
                if k > 0 {
                    assert(f[k] == t[k - 1]);
                }
            }
        }
    }
}

fn slice_to_array(s: &[u8]) -> (r: [u8; 32])
    requires
        s@.len() == 32,
    ensures
        r@ == s@,
{
    let mut out = [0u8; 32];
    let mut i: usize = 0;
    while i < 32
        invariant
            s@.len() == 32,
            0 <= i <= 32,
            forall|j: int| 0 <= j < i ==> out@[j] == s@[j],
        decreases 32 - i,
    {
        out[i] = s[i];
        i = i + 1;
    }
    assert(out@ =~= s@);
    out
}

/// Check an image against the digest it carries. Every candidate field is
/// considered: the image is intact if any verifies, unsealed if any is still
/// zeroed, and modified only when neither holds.
pub fn check_image(image: &[u8]) -> (r: SelfSeal)
    ensures
        r == spec_check(image@),
{
    let candidates = find_fields(image);
    let ghost f = fields_from(image@, 0);
    proof {
        lemma_fields_in_range(image@, 0);
    }
    assert(f.len() == candidates@.len());
    if candidates.len() == 0 {
        return SelfSeal::Unknown;
    }
    let mut saw_unsealed = false;
    let mut c: usize = 0;
    let n = image.len();
    while c < candidates.len()
        invariant
            n == image@.len(),
            c <= candidates@.len(),
            f == fields_from(image@, 0),
            f.len() == candidates@.len(),
            candidates@.map_values(|x: usize| x as int) == f,
            forall|k: int| 0 <= k < f.len() ==> field_at(image@, #[trigger] f[k]),
            forall|k: int| 0 <= k < c ==> !verifies(image@, #[trigger] f[k]),
            saw_unsealed <==> exists|k: int| 0 <= k < c && all_zero(stored(image@, #[trigger] f[k])),
        decreases candidates@.len() - c,
    {
        let at = candidates[c];
        assert(f[c as int] == at as int);
        let ghost st = stored(image@, at as int);
        let mut zero = true;
        let mut j: usize = 0;
        while j < 32
            invariant
                n == image@.len(),
                j <= 32,
                at + 48 <= image@.len(),
                st == stored(image@, at as int),
                zero <==> forall|q: int| 0 <= q < j ==> st[q] == 0,
            decreases 32 - j,
        {
            assert(st[j as int] == image@[at + 16 + j]);
            if image[at + 16 + j] != 0 {
                zero = false;
            }
            j = j + 1;
        }
        if zero {
            saw_unsealed = true;
        } else {
            let st_arr = slice_to_array(slice_range(image, at + 16, at + 48));
            match expected_digest(image, at) {
                Some(d) => {
                    if digests_equal(&d, &st_arr) {
                        return SelfSeal::Intact;
                    }
                },
                None => {},
            }
        }
        c = c + 1;
    }
    if saw_unsealed {
        return SelfSeal::NotSealed;
    }
    SelfSeal::Modified
}

/// `b[from..to]`.
fn slice_range(b: &[u8], from: usize, to: usize) -> (r: &[u8])
    requires
        from <= to <= b@.len(),
    ensures
        r@ == b@.subrange(from as int, to as int),
{
    let (head, _) = b.split_at(to);
    let (_, tail) = head.split_at(from);
    tail
}

/// The image with `d` written into the field at `at`.
pub open spec fn with_digest(image: Seq<u8>, at: int, d: Seq<u8>) -> Seq<u8> {
    image.subrange(0, at + 16) + d + image.subrange(at + 48, image.len() as int)
}

/// Write the digest into the first field; `None` when there is no field.
/// What it returns checks as intact, unless the digest it wrote happens to
/// be all zeroes, which reads as never sealed.
pub fn seal_image(image: &[u8]) -> (r: Option<Vec<u8>>)
    ensures
        r matches Some(v) ==> spec_check(v@) == SelfSeal::Intact || all_zero(
            spec_expected_digest(image@, fields_from(image@, 0)[0]),
        ),
        fields_from(image@, 0).len() == 0 ==> r is None,
        fields_from(image@, 0).len() > 0 ==> field_at(image@, fields_from(image@, 0)[0]),
        fields_from(image@, 0).len() > 0 ==> (r matches Some(v) && v@ == with_digest(
            image@,
            fields_from(image@, 0)[0],
            spec_expected_digest(image@, fields_from(image@, 0)[0]),
        )),
{
    proof {
        lemma_fields_in_range(image@, 0);
    }
    let at = match find_field(image) {
        Some(a) => a,
        None => return None,
    };
    let digest = match expected_digest(image, at) {
        Some(d) => d,
        None => return None,
    };
    let mut out: Vec<u8> = Vec::new();
    let n = image.len();
    let mut i: usize = 0;
    let ghost target = with_digest(image@, at as int, digest@);
    while i < n
        invariant
            n == image@.len(),
            at + 48 <= n,
            digest@.len() == 32,
            target == with_digest(image@, at as int, digest@),
            i <= n,
            out@ == target.take(i as int),
        decreases n - i,
    {
        let b = if at + 16 <= i && i < at + 48 { digest[i - at - 16] } else { image[i] };
        assert(target[i as int] == b);
        out.push(b);
        assert(out@ =~= target.take(i + 1));
        i = i + 1;
    }
    assert(out@ =~= target);
    proof {
        if !all_zero(digest@) {
            lemma_sealed_image_is_intact(image@);
        }
    }
    Some(out)
}

/// Sealing then checking gives `Intact`, whenever the image has a field and
/// the digest written is not all zeroes (an all-zero field reads as never
/// sealed).
proof fn lemma_sealed_image_is_intact(image: Seq<u8>)
    requires
        fields_from(image, 0).len() > 0,
        spec_expected_digest(image, fields_from(image, 0)[0]).len() == 32,
        !all_zero(spec_expected_digest(image, fields_from(image, 0)[0])),
    ensures
        spec_check(with_digest(image, fields_from(image, 0)[0], spec_expected_digest(image, fields_from(image, 0)[0])))
            == SelfSeal::Intact,
{
    lemma_fields_in_range(image, 0);
    let at = fields_from(image, 0)[0];
    let d = spec_expected_digest(image, at);
    let sealed = with_digest(image, at, d);
    assert(field_at(image, at));
    assert(sealed.len() == image.len());
    assert(sealed.subrange(at, at + 16) =~= image.subrange(at, at + 16));
    assert(field_at(sealed, at));
    assert(stored(sealed, at) =~= d);
    assert(zeroed_field(sealed, at) =~= zeroed_field(image, at));
    assert(verifies(sealed, at));
    lemma_field_listed(sealed, 0, at);
    let f = fields_from(sealed, 0);
    let k = choose|k: int| 0 <= k < f.len() && f[k] == at;
    assert(verifies(sealed, f[k]));
}

/// A field at `at` is among the fields listed from any `i <= at`.
proof fn lemma_field_listed(image: Seq<u8>, i: int, at: int)
    requires
        0 <= i <= at,
        field_at(image, at),
    ensures
        exists|k: int| 0 <= k < fields_from(image, i).len() && fields_from(image, i)[k] == at,
    decreases at - i,
{
    let f = fields_from(image, i);
    if i == at {
        assert(f[0] == at);
    } else {
        lemma_field_listed(image, i + 1, at);
        let t = fields_from(image, i + 1);
        let k = choose|k: int| 0 <= k < t.len() && t[k] == at;
        if field_at(image, i) {
            assert(f[k + 1] == at);
        } else {
            assert(f[k] == at);
        }
    }
}

} // verus!
