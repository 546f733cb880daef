use nyedarch::hardware::{is_apple_silicon, is_linux_virtual, is_mac_virtual, is_windows_virtual, mac_backing, tpm_backing_from, windows_backing};
use nyedarch::destruction::{clock_bytes, fallback_bytes, random_name, scrub_chunk};
use nyedarch::destruction::{powershell_script, removal_task};
use nyedarch::probes::module_score;
use nyedarch::probes::thread_score;
use nyedarch::probes::{parse_u64, process_state, tracer_pid};
use nyedarch::probes::{count_present, injection_variables, marker_variables};
use nyedarch::destruction::{delegate_destruction, is_shell_safe, Delegate, Destruction};
use nyedarch::harden::{package_commitment, Diversifier, TamperAccumulator};
use nyedarch::hardware::{decide, detect, HardwareBacking, HardwareDecision, HardwarePolicy};
use nyedarch::installer::{bundle_destination, info_plist, MANIFEST};
use nyedarch::selfseal::{check_image, find_field, seal_image, self_seal_magic, SelfSeal};

#[test]
fn required_policy_refuses_every_unusable_state() {
    for b in [HardwareBacking::Absent, HardwareBacking::PresentButUnusable, HardwareBacking::Virtualized] {
        match decide(HardwarePolicy::Required, b) {
            HardwareDecision::Refuse { reason } => {
                assert!(reason.contains("refused"), "the refusal must explain itself");
            }
            other => panic!("{b:?} must be refused under Required, got {other:?}"),
        }
    }
}

#[test]
fn preferred_policy_falls_back_only_with_a_warning() {
    for b in [HardwareBacking::Absent, HardwareBacking::PresentButUnusable, HardwareBacking::Virtualized] {
        match decide(HardwarePolicy::Preferred, b) {
            HardwareDecision::UseSoftware { warning } => {
                assert!(!warning.is_empty());
                assert!(
                    warning.contains("recoverable"),
                    "the warning must say what is weaker, not merely that hardware is missing"
                );
            }
            other => panic!("{b:?} under Preferred should fall back, got {other:?}"),
        }
    }
}

#[test]
fn available_hardware_is_used_under_either_policy() {
    for p in [HardwarePolicy::Preferred, HardwarePolicy::Required] {
        assert_eq!(decide(p, HardwareBacking::Available), HardwareDecision::UseHardware);
    }
}

#[test]
fn virtualisation_is_not_treated_as_hardware_backing() {
    assert!(!HardwareBacking::Virtualized.is_usable());
    assert!(HardwareBacking::Virtualized.describe().contains("copied"));
}

#[test]
fn present_but_unusable_is_not_available() {
    assert!(!HardwareBacking::PresentButUnusable.is_usable());
    assert_ne!(HardwareBacking::PresentButUnusable, HardwareBacking::Available);
}

#[test]
fn policy_parses_and_rejects_nonsense() {
    assert_eq!(HardwarePolicy::parse("required"), Some(HardwarePolicy::Required));
    assert_eq!(HardwarePolicy::parse("PREFERRED"), Some(HardwarePolicy::Preferred));
    assert_eq!(HardwarePolicy::parse("optional"), None);
}

#[test]
fn detection_is_total() {
    for virtualized in [false, true] {
        for native in [
            HardwareBacking::Available,
            HardwareBacking::PresentButUnusable,
            HardwareBacking::Absent,
            HardwareBacking::Virtualized,
        ] {
            let b = detect(virtualized, native);
            assert!(matches!(
                b,
                HardwareBacking::Available
                    | HardwareBacking::PresentButUnusable
                    | HardwareBacking::Absent
                    | HardwareBacking::Virtualized
            ));
        }
    }
}

#[test]
fn outcomes_never_overclaim() {
    let failed = Destruction::Failed { reason: "x".into() };
    assert!(!failed.path_cleared());
    assert!(!failed.contents_overwritten());
    let present = Destruction::OverwrittenButPresent { reason: "y".into() };
    assert!(!present.path_cleared());
    assert!(present.contents_overwritten());
    assert!(Destruction::Removed.describe().contains("not guaranteed"));
}

#[test]
fn delegated_is_never_confused_with_removed() {
    let d = Destruction::Delegated { via: "a detached shell".into() };
    assert!(d.is_delegated());
    assert!(!d.path_cleared());
    assert!(!d.contents_overwritten());
    assert_ne!(d, Destruction::Removed);
}

/// Mechanisms that would always engage, so only the path check can stop a
/// delegation.
struct Eager;

impl Delegate for Eager {
    fn schedule_with_os(&self, _p: &str) -> Option<&'static str> {
        Some("an at job")
    }

    fn spawn_detached_scrubber(&self, _p: &str) -> Option<&'static str> {
        Some("a detached shell")
    }
}

#[test]
fn shell_unsafe_paths_are_rejected() {
    for bad in ["/tmp/a'b", "/tmp/a\nrm -rf ~", "/tmp/a\rb", "/tmp/a\"b"] {
        assert!(!is_shell_safe(bad), "{bad:?} must be rejected");
        assert!(delegate_destruction(bad, &Eager).is_none(), "{bad:?} must never be handed to a scheduler or shell");
    }
}

#[test]
fn ordinary_paths_are_accepted() {
    for good in ["/tmp/capsule.nyarch", "/home/user/My Documents/capsule.nyarch", "/tmp/nyedarch-0123abcd.nyarch"] {
        assert!(is_shell_safe(good), "{good:?} should be usable");
    }
}

#[test]
fn accumulator_is_deterministic_per_build_in_a_stable_environment() {
    let mut a = TamperAccumulator::new(Diversifier(7));
    a.mix(1, 2);
    a.mix(3, 4);
    let mut b = TamperAccumulator::new(Diversifier(7));
    b.mix(1, 2);
    b.mix(3, 4);
    assert_eq!(a.finish(), b.finish());
}

#[test]
fn ordering_matters() {
    let mut a = TamperAccumulator::new(Diversifier(7));
    a.mix(1, 2);
    a.mix(3, 4);
    let mut b = TamperAccumulator::new(Diversifier(7));
    b.mix(3, 4);
    b.mix(1, 2);
    assert_ne!(a.finish(), b.finish(), "replayed out-of-order probes must differ");
}

#[test]
fn different_builds_diverge() {
    let mut a = TamperAccumulator::new(Diversifier(1));
    let mut b = TamperAccumulator::new(Diversifier(2));
    // The same environment seen by both builds.
    a.observe_environment(0, 0, 7, 0, 0, 0);
    b.observe_environment(0, 0, 7, 0, 0, 0);
    assert_ne!(a.finish(), b.finish(), "per-build diversification must hold");
}

#[test]
fn package_commitment_detects_modification() {
    let p = b"sealed-package-bytes";
    let mut q = p.to_vec();
    q[3] ^= 0xff;
    assert_ne!(package_commitment(p), package_commitment(&q));
}

#[test]
fn injection_probes_reach_the_accumulator() {
    let d = Diversifier(0xDEAD_BEEF);
    let mut a = TamperAccumulator::new(d);
    a.mix(0x91, 0);
    let baseline = a.finish();
    let mut b = TamperAccumulator::new(d);
    b.mix(0x91, 17);
    assert_ne!(baseline, b.finish(), "the observation must change the state");
}

fn image_with_field() -> Vec<u8> {
    let mut v = b"....machine code....".repeat(20);
    v.extend_from_slice(&self_seal_magic());
    v.extend_from_slice(&[0u8; 32]);
    v.extend_from_slice(&b"....more code....".repeat(20));
    v
}

#[test]
fn an_unsealed_image_is_recognised_as_unsealed() {
    assert_eq!(check_image(&image_with_field()), SelfSeal::NotSealed);
}

#[test]
fn a_sealed_image_verifies() {
    let sealed = seal_image(&image_with_field()).expect("seals");
    assert_eq!(check_image(&sealed), SelfSeal::Intact);
}

#[test]
fn any_edit_after_sealing_is_detected() {
    let sealed = seal_image(&image_with_field()).expect("seals");
    let at = find_field(&sealed).unwrap();
    let mut missed = Vec::new();
    for i in 0..sealed.len() {
        if (at + 16..at + 48).contains(&i) {
            continue;
        }
        let mut edited = sealed.clone();
        edited[i] = edited[i].wrapping_add(1);
        if check_image(&edited) == SelfSeal::Intact {
            missed.push(i);
        }
    }
    assert!(missed.is_empty(), "edits at {missed:?} were not detected; the seal covers less than the image");
}

#[test]
fn the_digest_cannot_be_edited_to_disable_the_check() {
    let sealed = seal_image(&image_with_field()).expect("seals");
    let at = find_field(&sealed).unwrap();
    let mut flipped = sealed.clone();
    flipped[at + 20] ^= 0xFF;
    assert_eq!(check_image(&flipped), SelfSeal::Modified);
    let mut zeroed = sealed.clone();
    zeroed[at + 16..at + 48].fill(0);
    assert_eq!(check_image(&zeroed), SelfSeal::NotSealed);
}

#[test]
fn an_image_without_the_field_is_unknown_not_modified() {
    assert_eq!(check_image(b"no field here at all"), SelfSeal::Unknown);
}

#[test]
fn info_plist_declares_location_usage() {
    let p = info_plist("0.0.1");
    assert!(p.contains("NSLocationWhenInUseUsageDescription"));
    assert!(p.contains("NSLocationUsageDescription"));
    assert!(p.contains("location protection"));
    assert!(p.contains("never stored or transmitted"));
}

#[test]
fn info_plist_executable_matches_the_bundle_name() {
    let p = info_plist("0.0.1");
    assert!(p.contains(&format!(
        "<key>CFBundleIconFile</key>
    <string>AppIcon</string>
    <key>CFBundleExecutable</key><string>{}</string>",
        nyedarch::installer::APP
    )));
    assert!(p.contains(&format!(
        "<key>CFBundleIdentifier</key><string>{}</string>",
        nyedarch::installer::BUNDLE_ID
    )));
    assert!(p.contains("<key>CFBundlePackageType</key><string>APPL</string>"));
}

#[test]
fn info_plist_is_well_formed_enough_to_parse() {
    let p = info_plist("1.2.3");
    assert!(p.starts_with("<?xml"));
    assert!(p.contains("<plist version=\"1.0\">"));
    assert!(p.trim_end().ends_with("</plist>"));
    assert_eq!(p.matches("<dict>").count(), p.matches("</dict>").count());
    assert!(p.contains("<string>1.2.3</string>"));
}

#[test]
fn nothing_is_installed_at_the_bundle_root() {
    for item in ["docs", "EULA.md", "SHA256SUMS", "runtime-src", "install", MANIFEST] {
        if let Some(d) = bundle_destination(item) {
            assert!(d.starts_with("Contents/"), "{item} -> {d} is outside Contents/");
        }
    }
}

#[test]
fn bundle_layout_places_items_correctly() {
    assert_eq!(bundle_destination("runtime-src").as_deref(), Some("Contents/Resources/runtime-src"));
    assert_eq!(bundle_destination("docs").as_deref(), Some("Contents/Resources/docs"));
    assert_eq!(bundle_destination("EULA.md").as_deref(), Some("Contents/Resources/EULA.md"));
    assert_eq!(bundle_destination("install").as_deref(), Some("Contents/MacOS/install"));
    assert_eq!(bundle_destination("bin"), None);
    for item in ["docs", "EULA.md", "SHA256SUMS", "runtime-src"] {
        let d = bundle_destination(item).unwrap();
        assert!(d.starts_with("Contents/"), "{item} would land outside Contents/, which is not a valid bundle");
    }
}

#[test]
fn injection_probes_are_total() {
    let maps = "7f00-7f10 r-xp 00000000 08:01 1 /usr/lib/libc.so.6\n7f20-7f30 rwxp 00000000 00:00 0\n";
    let _ = nyedarch::probes::module_score(maps);
    let _ = nyedarch::probes::module_score("");
    let _ = nyedarch::probes::thread_score(&vec!["main\n".to_string(), "worker".to_string()]);
    let _ = nyedarch::probes::thread_score(&Vec::new());
}

#[test]
fn instrumentation_in_the_mappings_is_scored() {
    assert_eq!(module_score(""), 0);
    assert_eq!(module_score("7f00-7f10 r-xp 00000000 08:01 1 /usr/lib/libc.so.6\n"), 0);
    assert_eq!(module_score("7f20-7f30 rwxp 00000000 00:00 0\n"), 1);
    assert_eq!(module_score("7f00-7f10 r-xp 0 0 1 /tmp/Frida-Agent.so\n"), 16);
    assert_eq!(module_score("7f00-7f10 rwxp 0 0 1 /tmp/frida-gum.so\n7f20-7f30 rw-p 0 0 0\n"), 33);
    assert_eq!(module_score("no-permissions-field"), 0);
}

#[test]
fn instrumentation_threads_are_scored() {
    assert_eq!(thread_score(&vec!["main\n".to_string()]), 0);
    assert_eq!(thread_score(&vec!["  GMAIN \n".to_string(), "gum-js-loop".to_string()]), 16);
    assert_eq!(thread_score(&vec!["pool-frida".to_string()]), 16);
}

#[test]
fn the_tracer_and_process_state_are_read() {
    assert_eq!(tracer_pid("Name:\tx\nState:\tR\nTracerPid:\t4242\nUid:\t0\n"), 4242);
    assert_eq!(tracer_pid("Name:\tx\nTracerPid:\t0\n"), 0);
    assert_eq!(tracer_pid("TracerPid:\tnot-a-number\nTracerPid:\t7\n"), 0);
    assert_eq!(tracer_pid("Name:\tx\n"), 0);
    assert_eq!(process_state("1234 (cat) R 1 1234"), 'R' as u64);
    assert_eq!(process_state("  1234   (cat)\tt 1"), 't' as u64);
    assert_eq!(process_state("1234 (cat)"), 0);
    assert_eq!(process_state("1 a é"), 0xC3);
    assert_eq!(parse_u64("+18446744073709551615"), Some(u64::MAX));
    assert_eq!(parse_u64("18446744073709551616"), None);
    assert_eq!(parse_u64("-1"), None);
    assert_eq!(parse_u64(""), None);
}

#[test]
fn set_variables_are_counted() {
    assert_eq!(count_present(&vec![false, true, false, true]), 2);
    assert_eq!(count_present(&Vec::new()), 0);
    assert_eq!(injection_variables().len(), 4);
    assert!(injection_variables().contains(&"LD_AUDIT"));
    assert_eq!(marker_variables(), vec!["LD_PRELOAD", "LD_AUDIT", "DYLD_INSERT_LIBRARIES"]);
}

#[test]
fn scrub_names_and_chunks_have_their_shape() {
    let n = random_name();
    assert_eq!(n.len(), 24);
    assert!(n.chars().all(|c| c.is_ascii_hexdigit() && !c.is_ascii_uppercase()));
    assert_eq!(clock_bytes(0), [0x5A; 12]);
    let b = clock_bytes(0x3FF);
    assert_eq!(b[0], 0xFF ^ 0x5A);
    assert_eq!(b[1], 0xFF ^ 0x5A);
    assert_eq!(b[2], 0xFF ^ 0x5A);
    assert_eq!(b[8], 0x03 ^ 0x5A);
    assert_eq!(b[9], 0x01 ^ 0x5A);
    assert_eq!(b[10], 0x5A);
    assert_eq!(fallback_bytes(3), vec![0xA5, 31 ^ 0xA5, 62 ^ 0xA5]);
    assert_eq!(fallback_bytes(257)[256], 0xA5);
    assert_eq!(scrub_chunk(1000).len(), 1000);
    assert!(scrub_chunk(0).is_empty());
}

#[test]
fn windows_delegation_commands_are_bounded_and_exact() {
    assert_eq!(
        removal_task("C:\\x\\c.nyarch", "nyedarch-ab").as_deref(),
        Some("cmd /c del /f /q \"C:\\x\\c.nyarch\" & schtasks /delete /tn nyedarch-ab /f")
    );
    let long = "C:\\".to_string() + &"d".repeat(250);
    assert_eq!(removal_task(&long, "t"), None);
    let s = powershell_script("C:\\c.nyarch", 42);
    assert!(s.starts_with("$ErrorActionPreference='SilentlyContinue';"));
    assert!(s.contains("Get-Process -Id 42 -ErrorAction"));
    assert!(s.ends_with("Remove-Item -LiteralPath 'C:\\c.nyarch' -Force }"));
}

#[test]
fn virtual_machines_and_secure_hardware_are_recognised() {
    assert!(is_linux_virtual(Some("VMware Virtual Platform\n"), None));
    assert!(is_linux_virtual(Some("Standard PC (Q35 + ICH9, 2009)"), Some("flags : fpu hypervisor sse")));
    assert!(!is_linux_virtual(Some("ThinkPad X1 Carbon"), Some("flags : fpu sse")));
    assert!(!is_linux_virtual(None, None));
    assert!(is_linux_virtual(Some("KVM"), None));
    assert!(is_mac_virtual(b"Apple M1 (Virtual)\n", b"Mac14,2"));
    assert!(is_mac_virtual(b"", b"VirtualMac2,1"));
    assert!(!is_mac_virtual(b"Apple M2", b"Mac14,2"));
    assert!(is_windows_virtual(b"Virtual Machine\r\n"));
    assert!(is_windows_virtual(b"HVM domU"));
    assert!(!is_windows_virtual(b"Latitude 7440"));
    assert_eq!(windows_backing(Some(b"True True True\r\n")), HardwareBacking::Available);
    assert_eq!(windows_backing(Some(b"True False True")), HardwareBacking::PresentButUnusable);
    assert_eq!(windows_backing(Some(b"False False False")), HardwareBacking::Absent);
    assert_eq!(windows_backing(None), HardwareBacking::Absent);
    assert_eq!(tpm_backing_from("  true\ttrue  true  true"), HardwareBacking::PresentButUnusable);
    assert_eq!(tpm_backing_from("truetrue"), HardwareBacking::Absent);
    assert!(is_apple_silicon(b"Apple M3 Pro"));
    assert_eq!(mac_backing(b"Apple M3 Pro", b""), HardwareBacking::Available);
    assert_eq!(mac_backing(b"Intel(R) Core(TM) i7", b"Model Name: Apple T2 Security Chip"), HardwareBacking::Available);
    assert_eq!(mac_backing(b"Intel(R) Core(TM) i7", b""), HardwareBacking::Absent);
}
