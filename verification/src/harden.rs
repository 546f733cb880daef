//! Anti-tamper accumulators, for the client and for the capsule runtime.
//!
//! Environment observations (a debugger, injected libraries, timing) are
//! folded into an accumulator rather than consumed as `if detected { exit }`,
//! since one patched branch would defeat that. They are not key material
//! either: they are not reproducible, and a key derived from them would lock
//! honest users out. What is deterministic (the embedded package, the
//! per-build diversifier) may take part in cryptography.
use vstd::prelude::*;

verus! {

/// The golden-ratio constant the accumulators start from and multiply by.
pub const GOLDEN: u64 = 0x9E37_79B9_7F4A_7C15;

/// The FNV-1a offset basis and prime.
pub const FNV_OFFSET: u64 = 0xCBF2_9CE4_8422_2325;
pub const FNV_PRIME: u64 = 0x1000_0000_01B3;

/// `x` rotated left by `r < 64` bits.
pub open spec fn rotl(x: u64, r: u64) -> u64 {
    if r == 0 {
        x
    } else {
        (x << r) | (x >> (64 - r))
    }
}

pub fn rotate_left(x: u64, r: u64) -> (y: u64)
    requires
        r < 64,
    ensures
        y == rotl(x, r),
{
    if r == 0 {
        x
    } else {
        (x << r) | (x >> (64 - r))
    }
}

/// One mixing step: the tag rotated by the observation, a multiply and a
/// rotation, then the observation itself. The order of steps matters.
pub open spec fn mix_step(s: u64, tag: u64, observed: u64) -> u64 {
    let s1 = s ^ rotl(tag, observed & 63);
    let s2 = rotl(vstd::wrapping::u64_specs::wrapping_mul(s1, GOLDEN), 31);
    s2 ^ observed
}

pub fn mix_value(s: u64, tag: u64, observed: u64) -> (r: u64)
    ensures
        r == mix_step(s, tag, observed),
{
    assert(observed & 63 < 64) by (bit_vector);
    let s1 = s ^ rotate_left(tag, observed & 63);
    let s2 = rotate_left(s1.wrapping_mul(GOLDEN), 31);
    s2 ^ observed
}

/// Accumulates environment observations for the client session.
pub struct ClientIntegrity {
    state: u64,
}

impl ClientIntegrity {
    pub closed spec fn value(&self) -> u64 {
        self.state
    }

    pub fn new() -> (c: Self)
        ensures
            c.value() == GOLDEN,
    {
        ClientIntegrity { state: GOLDEN }
    }

    /// Fold one observation in.
    pub fn mix(&mut self, tag: u64, observed: u64)
        ensures
            final(self).value() == mix_step(old(self).value(), tag, observed),
    {
        self.state = mix_value(self.state, tag, observed);
    }

    pub fn finish(&self) -> (r: u64)
        ensures
            r == self.value(),
    {
        self.state
    }

    /// Observe the environment: each probe contributes whatever it saw,
    /// clean or not, so no branch can be forced onto a good path.
    pub fn observe(&mut self, debugger: u64, injection: u64, self_image: u64)
        ensures
            final(self).value() == mix_step(
                mix_step(mix_step(old(self).value(), 0x51, debugger), 0x62, injection),
                0x73,
                self_image,
            ),
    {
        self.mix(0x51, debugger);
        self.mix(0x62, injection);
        self.mix(0x73, self_image);
    }

    /// Whether the session looks instrumented, from what the debugger and
    /// injection probes saw. Advisory only: it is shown to the operator,
    /// never used to deny a legitimate action.
    pub fn looks_instrumented(&self, debugger: u64, injection: u64) -> (r: bool)
        ensures
            r == (debugger != 0 || injection != 0),
    {
        looks_instrumented(debugger, injection)
    }
}

/// Whether the session looks instrumented. Advisory only: it is shown to
/// the operator, never used to deny a legitimate action.
pub fn looks_instrumented(debugger: u64, injection: u64) -> (r: bool)
    ensures
        r == (debugger != 0 || injection != 0),
{
    debugger != 0 || injection != 0
}

pub const INSTRUMENTED_WARNING: &'static str = "This session appears to be running under a debugger or with injected libraries. NYEDArch will continue, because that can be legitimate, but key material handled now should be treated as exposed.";

/// Run at client startup, given what the probes saw: a warning for the
/// operator when the session looks instrumented, and never a refusal.
pub fn startup_check(debugger: u64, injection: u64, self_image: u64) -> (r: Option<&'static str>)
    ensures
        (debugger != 0 || injection != 0) ==> (r matches Some(w) && w@ == INSTRUMENTED_WARNING@),
        (debugger == 0 && injection == 0) ==> r is None,
{
    let mut ci = ClientIntegrity::new();
    ci.observe(debugger, injection, self_image);
    if looks_instrumented(debugger, injection) {
        Some(INSTRUMENTED_WARNING)
    } else {
        None
    }
}

/// FNV-1a over some bytes, from a given state.
pub open spec fn fnv_from(h: u64, bytes: Seq<u8>) -> u64
    decreases bytes.len(),
{
    if bytes.len() == 0 {
        h
    } else {
        fnv_from(vstd::wrapping::u64_specs::wrapping_mul(h ^ (bytes[0] as u64), FNV_PRIME), bytes.skip(1))
    }
}

pub fn fnv_extend(h: u64, bytes: &[u8]) -> (r: u64)
    ensures
        r == fnv_from(h, bytes@),
{
    let mut acc = h;
    let mut i: usize = 0;
    assert(bytes@.skip(0) =~= bytes@);
    while i < bytes.len()
        invariant
            i <= bytes@.len(),
            fnv_from(acc, bytes@.skip(i as int)) == fnv_from(h, bytes@),
        decreases bytes@.len() - i,
    {
        assert(bytes@.skip(i as int).skip(1) =~= bytes@.skip(i + 1));
        acc = (acc ^ (bytes[i] as u64)).wrapping_mul(FNV_PRIME);
        i = i + 1;
    }
    acc
}

/// A cheap commitment over the client's own image: its path, then its size.
/// It detects casual replacement, not a careful rebuild.
pub fn self_image_digest(path: Option<&[u8]>, size: Option<u64>) -> (r: u64)
    ensures
        r == match path {
            None => FNV_OFFSET,
            Some(p) => {
                let h = fnv_from(FNV_OFFSET, p@);
                match size {
                    Some(n) => vstd::wrapping::u64_specs::wrapping_mul(h ^ n, FNV_PRIME),
                    None => h,
                }
            },
        },
{
    match path {
        None => FNV_OFFSET,
        Some(p) => {
            let h = fnv_extend(FNV_OFFSET, p);
            match size {
                Some(n) => (h ^ n).wrapping_mul(FNV_PRIME),
                None => h,
            }
        },
    }
}

/// Per-build diversifier, baked in by the generator so two capsules never
/// share hardening state.
#[derive(Clone, Copy)]
pub struct Diversifier(pub u64);

/// Accumulates the capsule runtime's environment observations.
pub struct TamperAccumulator {
    state: u64,
}

impl TamperAccumulator {
    pub closed spec fn value(&self) -> u64 {
        self.state
    }

    pub fn new(d: Diversifier) -> (t: Self)
        ensures
            t.value() == d.0 ^ GOLDEN,
    {
        TamperAccumulator { state: d.0 ^ GOLDEN }
    }

    /// Fold one observation in; the order of observations matters.
    pub fn mix(&mut self, tag: u64, observed: u64)
        ensures
            final(self).value() == mix_step(old(self).value(), tag, observed),
    {
        self.state = mix_value(self.state, tag, observed);
    }

    /// The final value; it diversifies the run, it never decides it.
    pub fn finish(&self) -> (r: u64)
        ensures
            r == self.value(),
    {
        self.state
    }

    /// Fold in every probe, each under its own tag, whatever it saw.
    pub fn observe_environment(
        &mut self,
        debugger: u64,
        ptrace_self: u64,
        timing: u64,
        markers: u64,
        modules: u64,
        threads: u64,
    )
        ensures
            final(self).value() == mix_step(
                mix_step(
                    mix_step(
                        mix_step(mix_step(mix_step(old(self).value(), 0xA1, debugger), 0xB2, ptrace_self), 0xC3, timing),
                        0xD4,
                        markers,
                    ),
                    0xE5,
                    modules,
                ),
                0xF6,
                threads,
            ),
    {
        self.mix(0xA1, debugger);
        self.mix(0xB2, ptrace_self);
        self.mix(0xC3, timing);
        self.mix(0xD4, markers);
        self.mix(0xE5, modules);
        self.mix(0xF6, threads);
    }
}

/// Integrity commitment over the embedded package: FNV-1a of its bytes. A
/// cheap early consistency signal; the authoritative check is the payload's
/// authenticated encryption.
pub fn package_commitment(package: &[u8]) -> (r: u64)
    ensures
        r == fnv_from(FNV_OFFSET, package@),
{
    fnv_extend(FNV_OFFSET, package)
}


/// Multiplying by `FNV_PRIME` modulo 2^64 loses nothing: the prime is odd,
/// so it has an inverse.
proof fn lemma_prime_mul_injective(a: u64, b: u64)
    requires
        vstd::wrapping::u64_specs::wrapping_mul(a, FNV_PRIME) == vstd::wrapping::u64_specs::wrapping_mul(b, FNV_PRIME),
    ensures
        a == b,
{
    lemma_prime_undone(a);
    lemma_prime_undone(b);
}

/// Multiplying by the prime's inverse modulo 2^64 gives `x` back.
proof fn lemma_prime_undone(x: u64)
    ensures
        ((x as int * FNV_PRIME as int) % 0x1_0000_0000_0000_0000) * 0xb46d_d957_aff6_957b % 0x1_0000_0000_0000_0000
            == x as int,
{
    let m: int = 0x1_0000_0000_0000_0000;
    let p: int = FNV_PRIME as int;
    let q: int = 0xb46d_d957_aff6_957b;
    assert(p == 0x1000_0000_0000 + 0x1B3);
    assert(q * 0x1B3 == 0x13296a8500000000001);
    assert(q * 0x1000_0000_0000 == 0xb46dd957aff6957b00000000000);
    assert(p * q == q * 0x1000_0000_0000 + q * 0x1B3) by (nonlinear_arith)
        requires
            p == 0x1000_0000_0000 + 0x1B3,
    ;
    assert(p * q == 0xb46_dd95_7c32 * m + 1);
    vstd::arithmetic::div_mod::lemma_fundamental_div_mod_converse(p * q, m, 0xb46_dd95_7c32, 1);
    vstd::arithmetic::div_mod::lemma_mul_mod_noop_left(x as int * p, q, m);
    vstd::arithmetic::mul::lemma_mul_is_associative(x as int, p, q);
    vstd::arithmetic::div_mod::lemma_mul_mod_noop_right(x as int, p * q, m);
    vstd::arithmetic::div_mod::lemma_small_mod(x as nat, m as nat);
}

/// One step of FNV-1a over the same byte keeps different states different.
proof fn lemma_fnv_step_injective(h1: u64, h2: u64, x: u8)
    requires
        h1 != h2,
    ensures
        vstd::wrapping::u64_specs::wrapping_mul(h1 ^ (x as u64), FNV_PRIME) != vstd::wrapping::u64_specs::wrapping_mul(
            h2 ^ (x as u64),
            FNV_PRIME,
        ),
{
    let y = x as u64;
    assert(h1 != h2 ==> (h1 ^ y) != (h2 ^ y)) by (bit_vector);
    if vstd::wrapping::u64_specs::wrapping_mul(h1 ^ y, FNV_PRIME) == vstd::wrapping::u64_specs::wrapping_mul(h2 ^ y, FNV_PRIME) {
        lemma_prime_mul_injective(h1 ^ y, h2 ^ y);
    }
}

/// Different states stay different over the same bytes.
proof fn lemma_fnv_keeps_apart(h1: u64, h2: u64, s: Seq<u8>)
    requires
        h1 != h2,
    ensures
        fnv_from(h1, s) != fnv_from(h2, s),
    decreases s.len(),
{
    if s.len() > 0 {
        lemma_fnv_step_injective(h1, h2, s[0]);
        lemma_fnv_keeps_apart(
            vstd::wrapping::u64_specs::wrapping_mul(h1 ^ (s[0] as u64), FNV_PRIME),
            vstd::wrapping::u64_specs::wrapping_mul(h2 ^ (s[0] as u64), FNV_PRIME),
            s.skip(1),
        );
    }
}

/// Two byte strings of one length that differ at position `k` and nowhere
/// else lead from any state to different states.
proof fn lemma_fnv_one_byte(h: u64, a: Seq<u8>, b: Seq<u8>, k: int)
    requires
        a.len() == b.len(),
        0 <= k < a.len(),
        a[k] != b[k],
        forall|i: int| 0 <= i < a.len() && i != k ==> a[i] == b[i],
    ensures
        fnv_from(h, a) != fnv_from(h, b),
    decreases k,
{
    if k == 0 {
        let x = a[0] as u64;
        let y = b[0] as u64;
        assert(x != y ==> (h ^ x) != (h ^ y)) by (bit_vector);
        if vstd::wrapping::u64_specs::wrapping_mul(h ^ x, FNV_PRIME) == vstd::wrapping::u64_specs::wrapping_mul(h ^ y, FNV_PRIME) {
            lemma_prime_mul_injective(h ^ x, h ^ y);
        }
        assert(a.skip(1) =~= b.skip(1));
        lemma_fnv_keeps_apart(
            vstd::wrapping::u64_specs::wrapping_mul(h ^ x, FNV_PRIME),
            vstd::wrapping::u64_specs::wrapping_mul(h ^ y, FNV_PRIME),
            a.skip(1),
        );
    } else {
        assert(a[0] == b[0]);
        let h2 = vstd::wrapping::u64_specs::wrapping_mul(h ^ (a[0] as u64), FNV_PRIME);
        lemma_fnv_one_byte(h2, a.skip(1), b.skip(1), k - 1);
    }
}

/// Changing any one byte of a package changes its commitment.
pub proof fn lemma_commitment_detects_one_byte(a: Seq<u8>, b: Seq<u8>, k: int)
    requires
        a.len() == b.len(),
        0 <= k < a.len(),
        a[k] != b[k],
        forall|i: int| 0 <= i < a.len() && i != k ==> a[i] == b[i],
    ensures
        fnv_from(FNV_OFFSET, a) != fnv_from(FNV_OFFSET, b),
{
    lemma_fnv_one_byte(FNV_OFFSET, a, b, k);
}


/// The multiplier of the timing probe's busy loop.
pub const SPIN_MUL: u64 = 6364136223846793005;

/// The busy loop's accumulator after `n` rounds.
pub open spec fn spin(n: nat) -> u64
    decreases n,
{
    if n == 0 {
        0x243F_6A88_85A3_08D3
    } else {
        vstd::wrapping::u64_specs::wrapping_add(
            vstd::wrapping::u64_specs::wrapping_mul(spin((n - 1) as nat), SPIN_MUL),
            (n - 1) as u64,
        )
    }
}

/// The number of significant bits of `n`: `64 - n.leading_zeros()`.
pub open spec fn bit_length(n: nat) -> nat
    decreases n,
{
    if n == 0 {
        0
    } else {
        1 + bit_length(n / 2)
    }
}

/// The timing probe's fixed work: 2048 rounds of a multiply and an add.
pub fn spin_work() -> (r: u64)
    ensures
        r == spin(2048),
{
    let mut acc: u64 = 0x243F_6A88_85A3_08D3;
    let mut i: u64 = 0;
    while i < 2048
        invariant
            i <= 2048,
            acc == spin(i as nat),
        decreases 2048 - i,
    {
        acc = acc.wrapping_mul(SPIN_MUL).wrapping_add(i);
        i = i + 1;
    }
    acc
}

/// `2` to the power `k`.
pub open spec fn p2(k: nat) -> nat
    decreases k,
{
    if k == 0 {
        1
    } else {
        2 * p2((k - 1) as nat)
    }
}

/// The magnitude of a duration: its number of significant bits.
pub fn magnitude(ns: u64) -> (r: u64)
    ensures
        r == bit_length(ns as nat),
        r <= 64,
{
    let mut n = ns;
    let mut bits: u64 = 0;
    assert(p2(64) == 0x1_0000_0000_0000_0000) by {
        reveal_with_fuel(p2, 65);
    }
    while n > 0
        invariant
            bits + bit_length(n as nat) == bit_length(ns as nat),
            bits <= 64,
            n < p2((64 - bits) as nat),
        decreases n,
    {
        assert(bits < 64) by {
            if bits == 64 {
                assert(p2(0) == 1);
            }
        }
        assert(n / 2 < p2((64 - bits - 1) as nat));
        n = n / 2;
        bits = bits + 1;
    }
    bits
}

/// How long a fixed piece of work took, bucketed to its magnitude and
/// folded with the work's result. Instrumentation and single-stepping
/// inflate the duration; the value is mixed, never compared to a
/// threshold, so a noisy host cannot deny a legitimate user.
pub fn probe_timing_anomaly(elapsed_ns: u64) -> (r: u64)
    ensures
        r == (bit_length(elapsed_ns as nat) as u64) ^ (spin(2048) & 0xF),
{
    let acc = spin_work();
    magnitude(elapsed_ns) ^ (acc & 0xF)
}

} // verus!
