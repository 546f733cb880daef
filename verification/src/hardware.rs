//! Hardware-backed machine protection: capability detection and policy.
//! A machine's factor secret can be encrypted to a key inside its secure
//! hardware (TPM 2.0 or a Secure Enclave), so that a capsule carries no
//! recoverable machine secret. The danger is not missing hardware but
//! missing hardware that nobody noticed: a software fallback is never
//! silent, and a required policy refuses rather than falls back.
use vstd::prelude::*;
use crate::artifact::lower;
use crate::curl::trimmed;
use crate::orchestrator::mentions;
use crate::scan::find_chars;
use crate::json::{lossy_text, text_lossy};
use crate::probes::{lemma_word_end, one_if, word_end, word_end_exec};
use crate::scan::{is_ws, lemma_skip_ws, skip_whitespace, skip_ws};
use crate::text::{chars_of, is_word, lower_text, to_lowercase, unicode_lower};

verus! {

/// What the machine can actually offer.
#[derive(Clone, Copy, Debug, PartialEq, Eq, Structural)]
pub enum HardwareBacking {
    /// A usable hardware root: TPM 2.0, or an Apple Secure Enclave.
    Available,
    /// Hardware is reported but unusable; treated as absent, never present.
    PresentButUnusable,
    /// No hardware root at all.
    Absent,
    /// A virtual machine: a virtual TPM's state can be copied with the image.
    Virtualized,
}

pub const AVAILABLE_TEXT: &'static str = "hardware-backed key storage is available";
pub const UNUSABLE_TEXT: &'static str = "secure hardware is present but not usable (disabled, not owned, or not permitted to this user)";
pub const ABSENT_TEXT: &'static str = "this machine has no usable secure hardware";
pub const VIRTUAL_TEXT: &'static str = "this machine is virtualised; a virtual TPM's state can usually be copied with the VM image, so it is not treated as a hardware root";

pub open spec fn spec_describe(b: HardwareBacking) -> Seq<char> {
    match b {
        HardwareBacking::Available => AVAILABLE_TEXT@,
        HardwareBacking::PresentButUnusable => UNUSABLE_TEXT@,
        HardwareBacking::Absent => ABSENT_TEXT@,
        HardwareBacking::Virtualized => VIRTUAL_TEXT@,
    }
}

impl HardwareBacking {
    /// Only available hardware can be used.
    pub fn is_usable(self) -> (r: bool)
        ensures
            r == (self == HardwareBacking::Available),
    {
        self == HardwareBacking::Available
    }

    pub fn describe(self) -> (r: &'static str)
        ensures
            r@ == spec_describe(self),
    {
        match self {
            HardwareBacking::Available => AVAILABLE_TEXT,
            HardwareBacking::PresentButUnusable => UNUSABLE_TEXT,
            HardwareBacking::Absent => ABSENT_TEXT,
            HardwareBacking::Virtualized => VIRTUAL_TEXT,
        }
    }
}

/// What the operator asked for.
#[derive(Clone, Copy, Debug, PartialEq, Eq, Structural)]
pub enum HardwarePolicy {
    /// Use hardware when available; otherwise continue, and say so.
    Preferred,
    /// Refuse to build unless hardware backing is usable.
    Required,
}

/// The policy a name selects: `preferred`, `prefer` or `auto`; `required`
/// or `require`; in any case.
pub open spec fn policy_named(s: Seq<char>) -> Option<HardwarePolicy> {
    if lower(s) == "preferred"@ || lower(s) == "prefer"@ || lower(s) == "auto"@ {
        Some(HardwarePolicy::Preferred)
    } else if lower(s) == "required"@ || lower(s) == "require"@ {
        Some(HardwarePolicy::Required)
    } else {
        None
    }
}

impl HardwarePolicy {
    /// `preferred`, `prefer` or `auto`; `required` or `require`; in any case.
    pub fn parse(s: &str) -> (r: Option<Self>)
        ensures
            r == policy_named(s@),
    {
        let l = lower_text(s);
        if is_word(&l, "preferred") || is_word(&l, "prefer") || is_word(&l, "auto") {
            Some(HardwarePolicy::Preferred)
        } else if is_word(&l, "required") || is_word(&l, "require") {
            Some(HardwarePolicy::Required)
        } else {
            None
        }
    }
}

/// The outcome of applying a policy to a machine's capability.
#[derive(Clone, Debug, PartialEq, Eq)]
pub enum HardwareDecision {
    /// Proceed using the hardware-backed machine factor.
    UseHardware,
    /// Proceed without it; the warning must be shown to the operator.
    UseSoftware { warning: String },
    /// Refuse: hardware was required and is not usable.
    Refuse { reason: String },
}

/// Why a build that required hardware is refused.
pub open spec fn refusal_text(b: HardwareBacking) -> Seq<char> {
    "hardware-backed machine protection was required, but "@ + spec_describe(b)
        + ".\n\nThe build is refused rather than falling back, because a capsule built without it would carry a recoverable machine secret while appearing to have hardware protection."@
}

/// What the operator is told when the machine factor falls back to software.
pub open spec fn fallback_text(b: HardwareBacking) -> Seq<char> {
    spec_describe(b)
        + ". The machine factor will be protected in software only, so a capsule's machine secret is recoverable by someone who holds the capsule. Machine protection still raises effort, but it is not a standalone boundary on this machine."@
}

/// Apply a policy to a detected capability: hardware is used exactly when it
/// is usable; otherwise a required policy refuses and a preferred one falls
/// back with a warning.
pub fn decide(policy: HardwarePolicy, backing: HardwareBacking) -> (d: HardwareDecision)
    ensures
        (d is UseHardware) <==> backing == HardwareBacking::Available,
        backing != HardwareBacking::Available && policy == HardwarePolicy::Required ==> (d matches HardwareDecision::Refuse {
            reason,
        } && reason@ == refusal_text(backing)),
        backing != HardwareBacking::Available && policy == HardwarePolicy::Preferred ==> (d matches HardwareDecision::UseSoftware {
            warning,
        } && warning@ == fallback_text(backing)),
{
    if backing == HardwareBacking::Available {
        return HardwareDecision::UseHardware;
    }
    match policy {
        HardwarePolicy::Required => {
            let mut reason = String::from_str("hardware-backed machine protection was required, but ");
            reason.append(backing.describe());
            reason.append(
                ".\n\nThe build is refused rather than falling back, because a capsule built without it would carry a recoverable machine secret while appearing to have hardware protection.",
            );
            HardwareDecision::Refuse { reason }
        },
        HardwarePolicy::Preferred => {
            let mut warning = String::from_str(backing.describe());
            warning.append(
                ". The machine factor will be protected in software only, so a capsule's machine secret is recoverable by someone who holds the capsule. Machine protection still raises effort, but it is not a standalone boundary on this machine.",
            );
            HardwareDecision::UseSoftware { warning }
        },
    }
}

/// A required policy never yields a capsule without usable hardware, and a
/// preferred one never falls back silently.
pub proof fn lemma_no_silent_downgrade(policy: HardwarePolicy, backing: HardwareBacking, d: HardwareDecision)
    requires
        backing != HardwareBacking::Available,
        policy == HardwarePolicy::Required ==> (d matches HardwareDecision::Refuse { reason } && reason@
            == refusal_text(backing)),
        policy == HardwarePolicy::Preferred ==> (d matches HardwareDecision::UseSoftware { warning } && warning@
            == fallback_text(backing)),
    ensures
        !(d is UseHardware),
        d matches HardwareDecision::UseSoftware { warning } ==> warning@.len() > 0
            && warning@.take(spec_describe(backing).len() as int) == spec_describe(backing),
{
    reveal_strlit("secure hardware is present but not usable (disabled, not owned, or not permitted to this user)");
    reveal_strlit("this machine has no usable secure hardware");
    reveal_strlit("this machine is virtualised; a virtual TPM's state can usually be copied with the VM image, so it is not treated as a hardware root");
    if let HardwareDecision::UseSoftware { warning } = d {
        let t = spec_describe(backing);
        assert(t.len() > 0);
        assert(warning@.take(t.len() as int) =~= t);
    }
}

/// What this machine offers: a virtual machine is reported as such whatever
/// its virtual hardware claims; otherwise what the native probe found.
pub fn detect(virtualized: bool, native: HardwareBacking) -> (b: HardwareBacking)
    ensures
        b == if virtualized {
            HardwareBacking::Virtualized
        } else {
            native
        },
{
    if virtualized {
        HardwareBacking::Virtualized
    } else {
        native
    }
}

/// On Linux: a TPM device node, version 2, that this user can open. A
/// device without version 2 or that cannot be opened is present but
/// unusable.
pub fn linux_backing(has_device: bool, major: Option<u32>, opens: bool) -> (b: HardwareBacking)
    ensures
        b == if !has_device {
            HardwareBacking::Absent
        } else if major != Some(2u32) {
            HardwareBacking::PresentButUnusable
        } else if opens {
            HardwareBacking::Available
        } else {
            HardwareBacking::PresentButUnusable
        },
{
    if !has_device {
        return HardwareBacking::Absent;
    }
    match major {
        Some(2) => {
            if opens {
                HardwareBacking::Available
            } else {
                HardwareBacking::PresentButUnusable
            }
        },
        _ => HardwareBacking::PresentButUnusable,
    }
}

/// Markers of a virtual machine in a Linux DMI product name.
pub open spec fn virtual_markers() -> Seq<Seq<char>> {
    seq!["virtual"@, "vmware"@, "kvm"@, "qemu"@, "xen"@, "bochs"@, "hyper-v"@]
}

/// A (lower-cased) DMI product name that names a hypervisor.
pub open spec fn names_hypervisor(l: Seq<char>) -> bool {
    exists|k: int| 0 <= k < virtual_markers().len() && mentions(l, #[trigger] virtual_markers()[k])
}

/// On Linux: the product name, in lower case, names a hypervisor, or the CPU
/// flags say `hypervisor`.
pub open spec fn linux_virtual(product_name: Option<Seq<char>>, cpuinfo: Option<Seq<char>>) -> bool {
    (product_name matches Some(p) && names_hypervisor(unicode_lower(p)))
        || (cpuinfo matches Some(c) && mentions(c, "hypervisor"@))
}

pub(crate) fn contains_text(h: &Vec<char>, pat: &str) -> (r: bool)
    ensures
        r == mentions(h@, pat@),
{
    let p = chars_of(pat);
    find_chars(h, &p, 0).is_some()
}

/// Whether a lower-cased DMI product name names a hypervisor.
pub fn product_names_hypervisor(lowered: &str) -> (r: bool)
    ensures
        r == names_hypervisor(lowered@),
{
    proof {
        reveal_strlit("virtual");
        reveal_strlit("vmware");
        reveal_strlit("kvm");
        reveal_strlit("qemu");
        reveal_strlit("xen");
        reveal_strlit("bochs");
        reveal_strlit("hyper-v");
    }
    let l = chars_of(lowered);
    let found = contains_text(&l, "virtual") || contains_text(&l, "vmware") || contains_text(&l, "kvm")
        || contains_text(&l, "qemu") || contains_text(&l, "xen") || contains_text(&l, "bochs")
        || contains_text(&l, "hyper-v");
    let ghost m = virtual_markers();
    if found {
        assert(names_hypervisor(lowered@)) by {
            if mentions(lowered@, "virtual"@) {
                assert(mentions(lowered@, m[0]));
            } else if mentions(lowered@, "vmware"@) {
                assert(mentions(lowered@, m[1]));
            } else if mentions(lowered@, "kvm"@) {
                assert(mentions(lowered@, m[2]));
            } else if mentions(lowered@, "qemu"@) {
                assert(mentions(lowered@, m[3]));
            } else if mentions(lowered@, "xen"@) {
                assert(mentions(lowered@, m[4]));
            } else if mentions(lowered@, "bochs"@) {
                assert(mentions(lowered@, m[5]));
            } else {
                assert(mentions(lowered@, m[6]));
            }
        }
    } else {
        assert forall|k: int| 0 <= k < m.len() implies !mentions(lowered@, #[trigger] m[k]) by {
            assert(m[0] == "virtual"@ && m[1] == "vmware"@ && m[2] == "kvm"@ && m[3] == "qemu"@ && m[4] == "xen"@
                && m[5] == "bochs"@ && m[6] == "hyper-v"@);
        }
    }
    found
}

/// Best-effort virtualisation detection on Linux, from the DMI product name
/// and `/proc/cpuinfo` (each when it could be read). Not a security control:
/// it tells an operator that a virtual TPM is not a physical one.
pub fn is_linux_virtual(product_name: Option<&str>, cpuinfo: Option<&str>) -> (r: bool)
    ensures
        r == linux_virtual(
            match product_name {
                Some(p) => Some(p@),
                None => None,
            },
            match cpuinfo {
                Some(c) => Some(c@),
                None => None,
            },
        ),
{
    if let Some(p) = product_name {
        let l = to_lowercase(p);
        if product_names_hypervisor(l.as_str()) {
            return true;
        }
    }
    match cpuinfo {
        Some(c) => {
            let h = chars_of(c);
            contains_text(&h, "hypervisor")
        },
        None => false,
    }
}

/// A command's output as the probes read it: decoded leniently, then in
/// lower case.
pub open spec fn output_text(b: Seq<u8>) -> Seq<char> {
    unicode_lower(lossy_text(b))
}

fn output_lower(b: &[u8]) -> (r: String)
    ensures
        r@ == output_text(b@),
{
    let t = text_lossy(b);
    to_lowercase(t.as_str())
}

/// On macOS: the CPU brand says `virtual`, or the model is a `VirtualMac`
/// (both in lower case).
pub open spec fn mac_virtual(brand: Seq<char>, model: Seq<char>) -> bool {
    mentions(brand, "virtual"@) || mentions(model, "virtualmac"@)
}

pub fn mac_virtual_from(brand: &str, model: &str) -> (r: bool)
    ensures
        r == mac_virtual(brand@, model@),
{
    let b = chars_of(brand);
    let m = chars_of(model);
    contains_text(&b, "virtual") || contains_text(&m, "virtualmac")
}

/// Virtualisation on macOS, from what `sysctl -n machdep.cpu.brand_string`
/// and `sysctl -n hw.model` printed (nothing when they could not run).
pub fn is_mac_virtual(brand_out: &[u8], model_out: &[u8]) -> (r: bool)
    ensures
        r == mac_virtual(output_text(brand_out@), output_text(model_out@)),
{
    let b = output_lower(brand_out);
    let m = output_lower(model_out);
    mac_virtual_from(b.as_str(), m.as_str())
}

/// On Windows: the (lower-cased) computer model names a hypervisor.
pub open spec fn windows_virtual(model: Seq<char>) -> bool {
    mentions(model, "virtual"@) || mentions(model, "vmware"@) || mentions(model, "kvm"@)
        || mentions(model, "hyper-v"@) || mentions(model, "hvm domu"@)
}

pub fn windows_virtual_from(model: &str) -> (r: bool)
    ensures
        r == windows_virtual(model@),
{
    let m = chars_of(model);
    contains_text(&m, "virtual") || contains_text(&m, "vmware") || contains_text(&m, "kvm")
        || contains_text(&m, "hyper-v") || contains_text(&m, "hvm domu")
}

/// Virtualisation on Windows, from the computer model PowerShell printed.
pub fn is_windows_virtual(model_out: &[u8]) -> (r: bool)
    ensures
        r == windows_virtual(output_text(model_out@)),
{
    let m = output_lower(model_out);
    windows_virtual_from(m.as_str())
}

/// How many white-space separated words of `h`, from position `i` on, are
/// `true`.
pub open spec fn true_words(h: Seq<char>, i: int) -> nat
    decreases h.len() - i,
{
    if i < 0 || i > h.len() {
        0
    } else {
        let s = skip_ws(h, i);
        if s >= h.len() {
            0
        } else {
            proof {
                lemma_skip_ws(h, i);
                lemma_word_end(h, s);
            }
            one_if(h.subrange(s, word_end(h, s)) == "true"@) + true_words(h, word_end(h, s))
        }
    }
}

/// On Windows: present, ready and enabled all `true` makes a usable TPM;
/// none of them, no TPM; anything between, one that cannot hold a key.
pub open spec fn tpm_backing(lowered: Seq<char>) -> HardwareBacking {
    let n = true_words(lowered, 0);
    if n == 3 {
        HardwareBacking::Available
    } else if n == 0 {
        HardwareBacking::Absent
    } else {
        HardwareBacking::PresentButUnusable
    }
}

pub fn tpm_backing_from(lowered: &str) -> (b: HardwareBacking)
    ensures
        b == tpm_backing(lowered@),
{
    proof {
        reveal_strlit("true");
    }
    let h = chars_of(lowered);
    let n = h.len();
    let mut count: usize = 0;
    let mut i: usize = 0;
    while i < n
        invariant
            h@ == lowered@,
            n == h@.len(),
            i <= n,
            count <= i,
            true_words(h@, 0) == count + true_words(h@, i as int),
        decreases n - i,
    {
        let s = skip_whitespace(&h, i);
        if s >= n {
            assert(true_words(h@, i as int) == 0);
            i = n;
        } else {
            proof {
                lemma_skip_ws(h@, i as int);
                lemma_word_end(h@, s as int);
            }
            let e = word_end_exec(&h, s);
            let word = lowered.substring_char(s, e);
            let wc = chars_of(word);
            if is_word(&wc, "true") {
                count = count + 1;
            }
            assert(true_words(h@, i as int) == one_if(h@.subrange(s as int, e as int) == "true"@) + true_words(h@, e as int));
            i = e;
        }
    }
    assert(true_words(h@, n as int) == 0);
    if count == 3 {
        HardwareBacking::Available
    } else if count == 0 {
        HardwareBacking::Absent
    } else {
        HardwareBacking::PresentButUnusable
    }
}

/// On Windows, from what `Get-Tpm` printed (`present ready enabled`), or
/// nothing when PowerShell could not run: no TPM.
pub fn windows_backing(status_out: Option<&[u8]>) -> (b: HardwareBacking)
    ensures
        b == match status_out {
            Some(o) => tpm_backing(output_text(o@)),
            None => HardwareBacking::Absent,
        },
{
    match status_out {
        Some(o) => {
            let t = output_lower(o);
            tpm_backing_from(t.as_str())
        },
        None => HardwareBacking::Absent,
    }
}

/// On macOS: Apple silicon carries a Secure Enclave, and so does an Intel
/// Mac with a T2 chip; anything else has none (all texts in lower case).
pub open spec fn mac_backing_of(brand: Seq<char>, bridge: Seq<char>) -> HardwareBacking {
    if mentions(brand, "apple"@) || mentions(bridge, "t2"@) {
        HardwareBacking::Available
    } else {
        HardwareBacking::Absent
    }
}

pub fn secure_enclave_from(brand: &str, bridge: &str) -> (b: HardwareBacking)
    ensures
        b == mac_backing_of(brand@, bridge@),
{
    let br = chars_of(brand);
    let bg = chars_of(bridge);
    if contains_text(&br, "apple") || contains_text(&bg, "t2") {
        HardwareBacking::Available
    } else {
        HardwareBacking::Absent
    }
}

/// Whether the CPU brand `sysctl` printed is Apple silicon, which settles
/// the question without asking `system_profiler`.
pub fn is_apple_silicon(brand_out: &[u8]) -> (r: bool)
    ensures
        r == mentions(output_text(brand_out@), "apple"@),
{
    let b = output_lower(brand_out);
    let c = chars_of(b.as_str());
    contains_text(&c, "apple")
}

/// On macOS, from the CPU brand and (when it was asked) what
/// `system_profiler SPiBridgeDataType` printed; a command that could not run
/// printed nothing.
pub fn mac_backing(brand_out: &[u8], bridge_out: &[u8]) -> (b: HardwareBacking)
    ensures
        b == mac_backing_of(output_text(brand_out@), output_text(bridge_out@)),
{
    let br = output_lower(brand_out);
    let bg = output_lower(bridge_out);
    secure_enclave_from(br.as_str(), bg.as_str())
}

} // verus!
