use nyedarch::generator::{capsule_main, capsule_manifest, hex_text, stage_script};
use nyedarch::srcpack::{archive_skips, encode_archive, pack_files};
use nyedarch::remote::{sort_by_path, source_commitment};
use sha2::{Digest, Sha256};
use nyedarch::artifact::{capsule_from_artifact, read_all};
use nyedarch::config::{parse, CompressionMode, DailySchedule, ProtectionConfig};
use nyedarch::generator::conditional_imports;
use nyedarch::harden::{startup_check, ClientIntegrity};
use nyedarch::hardware::HardwarePolicy;
use nyedarch::keystore::{b64_decode, b64_encode, hex, unhex, KeySource};
use nyedarch::logging::{format_ist, Diagnostics, BUFFER_LIMIT};
use nyedarch::machines::{select, Machine, TagMode};
use nyedarch::srcpack::unlocker_sources;

/// Build a minimal stored-entry zip by hand.
fn stored_zip(name: &str, data: &[u8]) -> Vec<u8> {
    let mut z = Vec::new();
    z.extend_from_slice(&0x0403_4b50u32.to_le_bytes());
    z.extend_from_slice(&[20, 0]);
    z.extend_from_slice(&[0, 0]);
    z.extend_from_slice(&0u16.to_le_bytes());
    z.extend_from_slice(&[0, 0, 0, 0]);
    z.extend_from_slice(&0u32.to_le_bytes());
    z.extend_from_slice(&(data.len() as u32).to_le_bytes());
    z.extend_from_slice(&(data.len() as u32).to_le_bytes());
    z.extend_from_slice(&(name.len() as u16).to_le_bytes());
    z.extend_from_slice(&0u16.to_le_bytes());
    z.extend_from_slice(name.as_bytes());
    z.extend_from_slice(data);
    z
}

#[test]
fn a_single_stored_entry_is_recovered() {
    let z = stored_zip("nyedarch-capsule", b"ELF-ish payload");
    let e = capsule_from_artifact(&z).expect("entry");
    assert_eq!(e.name, "nyedarch-capsule");
    assert_eq!(e.data, b"ELF-ish payload");
}

#[test]
fn the_capsule_is_chosen_from_several_entries() {
    let mut z = stored_zip("build-log.txt", b"noise");
    z.extend_from_slice(&stored_zip("nyedarch-capsule.exe", b"the real binary"));
    let e = capsule_from_artifact(&z).expect("entry");
    assert_eq!(e.data, b"the real binary");
}

#[test]
fn malformed_archives_are_refused_without_panicking() {
    for bad in [vec![], vec![0u8; 8], vec![0xFFu8; 512], b"PK\x03\x04".to_vec()] {
        assert!(capsule_from_artifact(&bad).is_none());
    }
    let mut z = stored_zip("x", b"12345");
    let n = z.len();
    z[18..22].copy_from_slice(&u32::MAX.to_le_bytes());
    let _ = n;
    assert!(capsule_from_artifact(&z).is_none());
}

#[test]
fn the_commitment_is_only_visible_after_extraction() {
    let commitment = [0x7Cu8; 32];
    let mut capsule = b"AAAAAAAAAAAAAAAAAAAAAAAAAAAAAAAA".repeat(64);
    capsule.extend_from_slice(&commitment);
    capsule.extend_from_slice(&b"BBBBBBBBBBBBBBBB".repeat(64));
    let deflated = miniz_oxide::deflate::compress_to_vec(&capsule, 6);
    let mut zip = Vec::new();
    zip.extend_from_slice(&0x0403_4b50u32.to_le_bytes());
    zip.extend_from_slice(&[20, 0]);
    zip.extend_from_slice(&[0, 0]);
    zip.extend_from_slice(&8u16.to_le_bytes());
    zip.extend_from_slice(&[0, 0, 0, 0]);
    zip.extend_from_slice(&0u32.to_le_bytes());
    zip.extend_from_slice(&(deflated.len() as u32).to_le_bytes());
    zip.extend_from_slice(&(capsule.len() as u32).to_le_bytes());
    zip.extend_from_slice(&(b"nyedarch-capsule".len() as u16).to_le_bytes());
    zip.extend_from_slice(&0u16.to_le_bytes());
    zip.extend_from_slice(b"nyedarch-capsule");
    zip.extend_from_slice(&deflated);
    let in_archive = zip.windows(32).any(|w| w == commitment);
    assert!(!in_archive, "the commitment must not be findable in the compressed archive");
    let entry = capsule_from_artifact(&zip).expect("the capsule extracts");
    assert!(entry.data.windows(32).any(|w| w == commitment), "the commitment must be present once extracted");
    assert_eq!(entry.data, capsule, "extraction must be exact");
}

#[test]
fn the_sealed_package_is_what_a_capsule_carries() {
    let package = b"NYARCH-sealed-package-bytes-0123456789".to_vec();
    let mut capsule = b"\x7fELF................".to_vec();
    capsule.extend_from_slice(&package);
    capsule.extend_from_slice(b"....more machine code....");
    let found = capsule.windows(package.len()).any(|w| w == package.as_slice());
    assert!(found, "the package must be findable in the capsule");
    let other = b"NYARCH-sealed-package-bytes-9876543210".to_vec();
    assert!(!capsule.windows(other.len()).any(|w| w == other.as_slice()));
    let digest = [0xABu8; 32];
    assert!(!capsule.windows(32).any(|w| w == digest));
}

#[test]
fn accumulator_is_order_sensitive() {
    let mut a = ClientIntegrity::new();
    a.mix(1, 2);
    a.mix(3, 4);
    let mut b = ClientIntegrity::new();
    b.mix(3, 4);
    b.mix(1, 2);
    assert_ne!(a.finish(), b.finish());
}

#[test]
fn startup_check_is_advisory_not_fatal() {
    // Whatever the probes saw, the check answers with an optional warning.
    let _ = startup_check(0, 0, 0);
    let _ = startup_check(1, 3, 0xFFFF);
}

#[test]
fn hex_roundtrips() {
    let b = [0u8, 1, 15, 16, 255, 128];
    assert_eq!(unhex(&hex(&b)).unwrap(), b);
    assert!(unhex("odd").is_none());
    assert!(unhex("").is_none());
    assert!(unhex("zz").is_none());
}

#[test]
fn a_degraded_source_reports_a_warning() {
    assert!(KeySource::PlatformKeystore.warning().is_none());
    assert!(KeySource::RestrictedFile.warning().is_some());
    assert!(KeySource::RestrictedFile.is_degraded());
    assert!(!KeySource::PlatformKeystore.is_degraded());
}

#[test]
fn base64_round_trips() {
    for case in [
        vec![],
        vec![0u8],
        vec![0u8, 1],
        vec![0u8, 1, 2],
        vec![0xFFu8; 32],
        (0u8..=255).collect::<Vec<u8>>(),
    ] {
        let encoded = b64_encode(&case);
        let decoded = b64_decode(&encoded).expect("decodes");
        assert_eq!(decoded, case, "round trip failed for {} bytes", case.len());
    }
}

#[test]
fn ist_conversion_is_correct() {
    assert_eq!(format_ist(0, 0), "1970-01-01 05:30:00.000 +05:30");
    assert_eq!(format_ist(946_684_800, 0), "2000-01-01 05:30:00.000 +05:30");
}

#[test]
fn the_offset_rolls_the_date() {
    assert_eq!(format_ist(1_767_294_000, 0), "2026-01-02 00:30:00.000 +05:30");
    assert_eq!(format_ist(1_767_293_999, 0), "2026-01-02 00:29:59.000 +05:30");
    assert_eq!(format_ist(1_767_293_999 - 3_600, 0), "2026-01-01 23:29:59.000 +05:30");
}

#[test]
fn leap_days_are_handled() {
    assert_eq!(format_ist(1_709_164_800, 0), "2024-02-29 05:30:00.000 +05:30");
    assert_eq!(format_ist(1_709_251_200, 0), "2024-03-01 05:30:00.000 +05:30");
}

#[test]
fn milliseconds_are_padded() {
    assert!(format_ist(0, 7).ends_with("05:30:00.007 +05:30"));
    assert!(format_ist(0, 70).ends_with("05:30:00.070 +05:30"));
}

#[test]
fn capture_buffers_and_drains() {
    let mut d = Diagnostics::new();
    d.set_verbose(true);
    d.set_capture(true);
    let _ = d.drain();
    let stamp = format_ist(0, 0);
    d.log(&stamp, "test", "first");
    d.log(&stamp, "test", "second");
    let lines = d.drain();
    assert_eq!(lines.len(), 2, "both lines buffered: {lines:?}");
    assert!(lines[0].contains("first") && lines[1].contains("second"));
    assert!(lines[0].contains("+05:30"), "lines carry an IST timestamp");
    assert!(d.drain().is_empty(), "a drained line must not be handed over twice");
    d.set_capture(false);
    d.set_verbose(false);
}

#[test]
fn the_buffer_is_bounded() {
    let mut d = Diagnostics::new();
    d.set_verbose(true);
    d.set_capture(true);
    let _ = d.drain();
    let stamp = format_ist(0, 0);
    for i in 0..(BUFFER_LIMIT + 50) {
        d.log(&stamp, "test", &format!("line {i}"));
    }
    let lines = d.drain();
    assert!(lines.len() <= BUFFER_LIMIT, "a diagnostic buffer that grows without limit is a denial of service");
    d.set_capture(false);
    d.set_verbose(false);
}

#[test]
fn verbose_is_off_by_default() {
    assert!(!Diagnostics::new().verbose());
}

fn m(id: &str, labels: &[&str], this: bool) -> Machine {
    Machine {
        id: id.to_string(),
        labels: labels.iter().map(|s| s.to_string()).collect(),
        path: String::new(),
        is_this_machine: this,
    }
}

fn filter(all: &[Machine], query: &str, tags: &[&str], mode: TagMode) -> Vec<String> {
    let machines: Vec<Machine> = all
        .iter()
        .map(|x| Machine {
            id: x.id.clone(),
            labels: x.labels.clone(),
            path: x.path.clone(),
            is_this_machine: x.is_this_machine,
        })
        .collect();
    let want: Vec<String> = tags.iter().map(|t| t.to_string()).collect();
    select(&machines, query, &want, mode).into_iter().map(|x| x.id).collect()
}

fn fixture() -> Vec<Machine> {
    vec![
        m("aaaa", &["this machine"], true),
        m("bbbb", &["HR", "Bangalore"], false),
        m("cccc", &["HR", "London"], false),
        m("dddd", &["Finance", "Bangalore"], false),
    ]
}

#[test]
fn any_tag_selects_the_union() {
    let got = filter(&fixture(), "", &["HR", "Finance"], TagMode::Any);
    assert_eq!(got, vec!["aaaa", "bbbb", "cccc", "dddd"]);
}

#[test]
fn all_tags_selects_the_intersection() {
    let got = filter(&fixture(), "", &["HR", "Bangalore"], TagMode::All);
    assert_eq!(got, vec!["aaaa", "bbbb"]);
}

#[test]
fn this_machine_survives_every_filter() {
    for (q, tags, mode) in [
        ("zzzz", vec!["nothing"], TagMode::All),
        ("", vec!["nonexistent"], TagMode::Any),
        ("qqq", vec![], TagMode::Any),
    ] {
        let got = filter(&fixture(), q, &tags, mode);
        assert!(got.contains(&"aaaa".to_string()), "this machine was filtered out");
    }
}

#[test]
fn text_matches_labels_and_id_prefixes() {
    assert_eq!(filter(&fixture(), "lond", &[], TagMode::Any), vec!["aaaa", "cccc"]);
    assert_eq!(filter(&fixture(), "bbb", &[], TagMode::Any), vec!["aaaa", "bbbb"]);
    assert_eq!(filter(&fixture(), "hr", &[], TagMode::Any), vec!["aaaa", "bbbb", "cccc"]);
}

#[test]
fn tag_mode_parses_and_rejects_nonsense() {
    assert_eq!(TagMode::parse("any"), Some(TagMode::Any));
    assert_eq!(TagMode::parse("ALL"), Some(TagMode::All));
    assert_eq!(TagMode::parse("either"), None);
}

#[test]
fn the_unlocker_carries_no_secret() {
    let src = unlocker_sources();
    let main = &src.iter().find(|(n, _)| n.ends_with("main.rs")).unwrap().1;
    assert!(main.contains("NYEDARCH_SOURCE_KEY"));
    assert!(!main.contains("const KEY"));
    assert!(main.contains("refusing unsafe path"));
    assert!(main.contains("failed authentication"));
}

#[test]
fn the_unlocker_profile_is_hardened() {
    let sources = unlocker_sources();
    let cargo = &sources.iter().find(|(n, _)| n.ends_with("Cargo.toml")).expect("unlocker manifest").1;
    for setting in ["lto = true", "strip = true", "panic = \"abort\"", "codegen-units = 1"] {
        assert!(cargo.contains(setting), "the unlocker lost `{setting}`");
    }
}

fn v(a: &[&str]) -> Vec<String> {
    a.iter().map(|s| s.to_string()).collect()
}

#[test]
fn parses_hardware_policy() {
    assert_eq!(parse(&v(&["--hardware", "required"])).unwrap().hardware, HardwarePolicy::Required);
    assert_eq!(parse(&v(&[])).unwrap().hardware, HardwarePolicy::Preferred);
    assert!(parse(&v(&["--hardware", "optional"])).is_err());
}

#[test]
fn parses_compression_and_creator_mode() {
    let c = parse(&v(&["--compression", "maximum", "--creator"])).unwrap();
    assert_eq!(c.compression, CompressionMode::Maximum);
    assert!(c.creator_mode);
    let d = parse(&v(&[])).unwrap();
    assert_eq!(d.compression, CompressionMode::Automatic);
    assert!(!d.creator_mode);
}

#[test]
fn rejects_an_unknown_compression_mode() {
    assert!(parse(&v(&["--compression", "extreme"])).is_err());
}

#[test]
fn parses_tag_selection() {
    let c = parse(&v(&[
        "--trust-tag",
        "HR",
        "--trust-tag",
        "Bangalore",
        "--tag-mode",
        "all",
        "--trust-search",
        "employee",
    ]))
    .unwrap();
    assert_eq!(c.trust_tags, vec!["HR", "Bangalore"]);
    assert!(c.tag_mode_all);
    assert_eq!(c.trust_query, "employee");
}

#[test]
fn rejects_an_unknown_tag_mode() {
    assert!(parse(&v(&["--tag-mode", "either"])).is_err());
}

#[test]
fn parses_all_protections() {
    let c = parse(&v(&[
        "--time",
        "14:00,02:30",
        "--time-tolerance-min",
        "20",
        "--tz-offset-min",
        "330",
        "--location",
        "150",
        "--one-shot",
    ]))
    .unwrap();
    let s = c.schedule.unwrap();
    assert_eq!(s.slots_minutes, vec![840, 150]);
    assert_eq!(s.tolerance_minutes, 20);
    assert_eq!(s.tz_offset_minutes, 330);
    assert_eq!(c.location_tolerance_m, Some(150));
    assert!(c.one_shot);
}

#[test]
fn rejects_bad_input_rather_than_disabling_a_protection() {
    assert!(parse(&v(&["--typo-location", "100"])).is_err());
    assert!(parse(&v(&["--time", "99:99"])).is_err());
    assert!(parse(&v(&["--location", "0"])).is_err());
    assert!(parse(&v(&["--time"])).is_err());
}

fn cfg(location: bool, time: bool) -> ProtectionConfig {
    ProtectionConfig {
        schedule: if time {
            Some(DailySchedule { slots_minutes: vec![840], tolerance_minutes: 15, tz_offset_minutes: 0 })
        } else {
            None
        },
        location_tolerance_m: if location { Some(150) } else { None },
        one_shot: false,
        trust_files: Vec::new(),
        trust_tags: Vec::new(),
        tag_mode_all: false,
        trust_query: String::new(),
        compression: CompressionMode::Automatic,
        creator_mode: false,
        hardware: HardwarePolicy::Preferred,
    }
}

#[test]
fn generated_imports_match_the_enabled_protections() {
    for (loc, time) in [(false, false), (true, false), (false, true), (true, true)] {
        let src = conditional_imports(&cfg(loc, time));
        assert_eq!(src.contains("SystemLocation"), loc, "SystemLocation must appear only when the location protection is on (loc={loc})");
        assert_eq!(src.contains("DailySchedule"), time, "DailySchedule must appear only when the time protection is on (time={time})");
    }
}

#[test]
fn packing_orders_paths_and_normalises_separators() {
    let found = vec![
        ("src\\main.rs".to_string(), b"fn main(){}".to_vec(), false),
        ("Cargo.toml".to_string(), b"[package]".to_vec(), false),
        ("run.sh".to_string(), b"#!/bin/sh".to_vec(), true),
    ];
    let blob = pack_files(found.clone());
    let expected = encode_archive(&vec![
        ("Cargo.toml".to_string(), b"[package]".to_vec(), false),
        ("run.sh".to_string(), b"#!/bin/sh".to_vec(), true),
        ("src/main.rs".to_string(), b"fn main(){}".to_vec(), false),
    ]);
    assert_eq!(blob, expected);
    assert!(blob.starts_with(b"NYARCHIVE2"));
    let mut reversed = found.clone();
    reversed.reverse();
    assert_eq!(pack_files(reversed), blob, "packing is deterministic whatever the walk order");
    assert!(archive_skips("target", &[]) && archive_skips(".git", &[]) && archive_skips("unlock", &["unlock"]));
    assert!(!archive_skips("src", &["unlock"]) && !archive_skips("Cargo.lock", &[]));
}

#[test]
fn the_source_commitment_ignores_the_order_files_are_given_in() {
    let a = vec![("runtime/b".to_string(), vec![2u8]), ("runtime/a".to_string(), vec![1u8])];
    let b = vec![("runtime/a".to_string(), vec![1u8]), ("runtime/b".to_string(), vec![2u8])];
    assert_eq!(source_commitment(&a), source_commitment(&b));
    let c = vec![("runtime/a".to_string(), vec![1u8]), ("runtime/b".to_string(), vec![3u8])];
    assert_ne!(source_commitment(&b), source_commitment(&c));
    let sorted = sort_by_path(a);
    assert_eq!(sorted[0].0, "runtime/a");
    assert_eq!(sorted[1].0, "runtime/b");
    let mut h = Sha256::new();
    h.update(b"nyedarch:v1:source-commitment");
    h.update(b"runtime/a\0\x01runtime/b\0\x02");
    let expected: [u8; 32] = h.finalize().into();
    assert_eq!(source_commitment(&b), expected);
}

#[test]
fn the_generated_capsule_profile_is_hardened() {
    let src = nyedarch::generator::capsule_manifest(0x1234);
    for setting in [
        "lto = \"fat\"",
        "codegen-units = 1",
        "panic = \"abort\"",
        "strip = \"symbols\"",
        "debug = false",
        "incremental = false",
    ] {
        assert!(src.contains(setting), "the generated capsule profile lost `{setting}`");
    }
}

#[test]
fn the_capsule_project_carries_its_build_values() {
    assert_eq!(hex_text(0xab, 16), "00000000000000ab");
    assert_eq!(hex_text(u64::MAX, 16), "ffffffffffffffff");
    assert_eq!(hex_text(7, 2), "07");
    let m = capsule_manifest(0xdead_beef);
    assert!(m.contains("name = \"nyedarch-capsule-00000000deadbeef\""));
    assert!(m.ends_with("zeroize = { version = \"1\", features = [\"derive\"] }\n"));
    let mut boot = [0u8; 32];
    boot[0] = 0xff;
    boot[31] = 0x01;
    let commit = [0x10u8; 32];
    let mut p = ProtectionConfig::default();
    let plain = capsule_main(0xdead_beef, &boot, &commit, &p);
    assert!(plain.starts_with("// NYEDArch capsule runtime for build nonce 00000000deadbeef.\n"));
    assert!(plain.contains("const BOOTSTRAP_KEY: [u8; 32] = [0xff, 0x00, "));
    assert!(plain.contains(", 0x00, 0x01];"));
    assert!(plain.contains("const BUILD_NONCE: u64 = 0x00000000deadbeef;"));
    assert!(plain.contains("const ONE_SHOT: bool = false;"));
    assert!(plain.contains("schedule: None,"));
    assert!(plain.contains("location_tolerance_m: None,"));
    assert!(plain.contains("let location: Option<&dyn LocationProvider> = None;"));
    assert!(!plain.contains("SystemLocation"));
    p.one_shot = true;
    p.location_tolerance_m = Some(250);
    p.schedule = Some(DailySchedule { slots_minutes: vec![540, 1080], tolerance_minutes: 15, tz_offset_minutes: -330 });
    let full = capsule_main(1, &boot, &commit, &p);
    assert!(full.contains("use nyedarch_runtime::SystemLocation;\nuse nyedarch_crypto::timewin::DailySchedule;\nuse zeroize::Zeroizing;"));
    assert!(full.contains(
        "schedule: Some(DailySchedule { slots_minutes: vec![540, 1080], tolerance_minutes: 15, tz_offset_minutes: -330 }),"
    ));
    assert!(full.contains("location_tolerance_m: Some(250u32),"));
    assert!(full.contains("= Some(&SystemLocation as &dyn LocationProvider);"));
    assert!(full.contains("const ONE_SHOT: bool = true;"));
    let stage = stage_script(0xdead_beef, "nyarch");
    assert!(stage.contains("out=\"nyedarch-00000000deadbeef.nyarch\""));
    assert!(stage.starts_with("#!/bin/sh\n# Stage the compiled capsule as a NYEDArch capsule (.nyarch).\n"));
}

/// What the capsule entry of the streamed archive holds.
fn streamed_payload() -> Vec<u8> {
    (0..6000u32).map(|i| ((i * 31 + i / 7) % 251) as u8).collect()
}

/// A streamed archive, as Actions writes one: the local header carries the
/// "sizes follow the data" flag with zeroes where the lengths belong, a data
/// descriptor follows the data, and only the central directory has the sizes.
fn streamed_archive() -> Vec<u8> {
    let name = b"nyedarch-capsule-aarch64-apple-darwin";
    let data = streamed_payload();
    let deflated = miniz_oxide::deflate::compress_to_vec(&data, 6);
    let mut z = Vec::new();
    z.extend_from_slice(&0x0403_4b50u32.to_le_bytes());
    z.extend_from_slice(&20u16.to_le_bytes());
    z.extend_from_slice(&0x0008u16.to_le_bytes());
    z.extend_from_slice(&8u16.to_le_bytes());
    z.extend_from_slice(&[0, 0, 0, 0]);
    z.extend_from_slice(&0u32.to_le_bytes());
    z.extend_from_slice(&0u32.to_le_bytes());
    z.extend_from_slice(&0u32.to_le_bytes());
    z.extend_from_slice(&(name.len() as u16).to_le_bytes());
    z.extend_from_slice(&0u16.to_le_bytes());
    z.extend_from_slice(name);
    z.extend_from_slice(&deflated);
    z.extend_from_slice(&0x0807_4b50u32.to_le_bytes());
    z.extend_from_slice(&0u32.to_le_bytes());
    z.extend_from_slice(&(deflated.len() as u32).to_le_bytes());
    z.extend_from_slice(&(data.len() as u32).to_le_bytes());
    let cd_at = z.len();
    z.extend_from_slice(&0x0201_4b50u32.to_le_bytes());
    z.extend_from_slice(&20u16.to_le_bytes());
    z.extend_from_slice(&20u16.to_le_bytes());
    z.extend_from_slice(&0x0008u16.to_le_bytes());
    z.extend_from_slice(&8u16.to_le_bytes());
    z.extend_from_slice(&[0, 0, 0, 0]);
    z.extend_from_slice(&0u32.to_le_bytes());
    z.extend_from_slice(&(deflated.len() as u32).to_le_bytes());
    z.extend_from_slice(&(data.len() as u32).to_le_bytes());
    z.extend_from_slice(&(name.len() as u16).to_le_bytes());
    z.extend_from_slice(&0u16.to_le_bytes());
    z.extend_from_slice(&0u16.to_le_bytes());
    z.extend_from_slice(&0u16.to_le_bytes());
    z.extend_from_slice(&0u16.to_le_bytes());
    z.extend_from_slice(&0u32.to_le_bytes());
    z.extend_from_slice(&0u32.to_le_bytes());
    z.extend_from_slice(name);
    let cd_len = z.len() - cd_at;
    z.extend_from_slice(&0x0605_4b50u32.to_le_bytes());
    z.extend_from_slice(&0u16.to_le_bytes());
    z.extend_from_slice(&0u16.to_le_bytes());
    z.extend_from_slice(&1u16.to_le_bytes());
    z.extend_from_slice(&1u16.to_le_bytes());
    z.extend_from_slice(&(cd_len as u32).to_le_bytes());
    z.extend_from_slice(&(cd_at as u32).to_le_bytes());
    z.extend_from_slice(&0u16.to_le_bytes());
    z
}

#[test]
fn the_fixture_has_no_sizes_in_its_local_header() {
    let streamed = streamed_archive();
    let flags = u16::from_le_bytes(streamed[6..8].try_into().unwrap());
    let csize = u32::from_le_bytes(streamed[18..22].try_into().unwrap());
    let usize_ = u32::from_le_bytes(streamed[22..26].try_into().unwrap());
    assert_eq!(flags & 0x08, 0x08, "the data-descriptor flag must be set");
    assert_eq!(csize, 0, "a streamed entry has no compressed size in its header");
    assert_eq!(usize_, 0, "a streamed entry has no uncompressed size either");
}

#[test]
fn a_streamed_artifact_yields_the_capsule() {
    let streamed = streamed_archive();
    let entry = capsule_from_artifact(&streamed).expect("a streamed artifact must still yield its capsule");
    assert_eq!(entry.name, "nyedarch-capsule-aarch64-apple-darwin");
    assert_eq!(entry.data, streamed_payload(), "the capsule must come back byte for byte");
}

#[test]
fn truncated_streamed_archives_are_refused() {
    let streamed = streamed_archive();
    for cut in [8usize, 40, streamed.len() / 2, streamed.len() - 8] {
        let _ = capsule_from_artifact(&streamed[..cut]);
    }
    let mut broken = streamed.to_vec();
    let n = broken.len();
    broken[n - 6..n - 2].copy_from_slice(&u32::MAX.to_le_bytes());
    let _ = capsule_from_artifact(&broken);
}

#[test]
fn the_store_path_is_derived_without_touching_it() {
    let name = nyedarch::keystore::dpapi_file("/home/someone/.config/nyedarch");
    let p = std::path::Path::new(&name);
    assert_eq!(p.extension().and_then(|e| e.to_str()), Some("dpapi"));
    assert!(p.parent().is_some(), "the secret must live under a directory");
}

#[test]
fn directory_entries_are_never_extracted() {
    let mut z = stored_zip("bin/", b"");
    z.extend_from_slice(&stored_zip("bin/tool", b"abc"));
    let all = read_all(&z);
    assert_eq!(all.len(), 1);
    assert_eq!(all[0].name, "bin/tool");
    assert_eq!(all[0].data, b"abc");
    assert!(z.windows(3).any(|w| w == all[0].data.as_slice()), "stored data is a slice of the archive");
    assert!(read_all(b"not an archive").is_empty());
}
