use std::cell::RefCell;

use nyedarch::installer::{default_prefix, user_bin_dir, PathRoot};
use nyedarch::installer::{answers_yes, bundle_executable_name, colors_enabled, install_manifest, integrity_verdict, manifest_entries, release_items, Integrity};
use nyedarch::base64::{base64_decode, encode};
use nyedarch::cli::{
    build_private, command_args, list_filters, trusted_records, visibility_private, Cli, Command, MachinesAction,
    SealArgs,
};
use nyedarch::config::{parse, parse_hhmm, parse_i32, parse_u32, ProtectionConfig};
use nyedarch::eula::{accepts, disclosures, summary, Acceptance};
use nyedarch::gui::{parse_hhmm as typed_time, Step};
use nyedarch::harden::{magnitude, probe_timing_anomaly, spin_work};
use nyedarch::http::{GhError, HttpRequest, HttpResponse, Transport};
use nyedarch::installer::{checksum_line, exe_name, is_bundle_target, styled};
use nyedarch::keystore::{hex, unhex};
use nyedarch::machines::{Machine, TagMode};
use nyedarch::provenance::ProvenanceError;
use nyedarch::remote::{
    collect_runtime_files, explain_provenance, owner_from_reply, resolve_owner, running_build_refusal,
    set_repository_visibility, skipped_entry, visibility_change_outcome, BUILD_RUNNING, NO_TOKEN,
};
use nyedarch::pipeline::Stage;
use nyedarch::srcpack::encode_archive;

fn reply(status: u16, body: &str) -> Result<HttpResponse, GhError> {
    Ok(HttpResponse { status, headers: vec![], body: body.as_bytes().to_vec() })
}

#[test]
fn base64_decoding_undoes_encoding() {
    for data in [vec![], vec![0u8], b"hi".to_vec(), b"any carnal pleas".to_vec(), (0u8..=255).collect()] {
        assert_eq!(base64_decode(&encode(&data)), Some(data.clone()));
    }
    assert_eq!(encode(b"Man"), "TWFu");
    assert_eq!(base64_decode("TW\nFu"), Some(b"Man".to_vec()));
    assert_eq!(base64_decode("T!Fu"), None);
}

#[test]
fn hex_is_undone_by_unhex() {
    assert_eq!(hex(&[0xde, 0xad, 0x01]), "dead01");
    assert_eq!(unhex("DEAD01"), Some(vec![0xde, 0xad, 0x01]));
}

#[test]
fn the_disclosures_are_the_summary_paragraphs() {
    let d = disclosures();
    assert_eq!(d.len(), 7);
    assert!(d[0].starts_with("NYEDArch collects system information"));
    assert_eq!(d[6], "Full text: docs/EULA.md");
    for p in &d {
        assert_eq!(*p, p.trim());
        assert!(!p.is_empty());
        assert!(summary().contains(p));
    }
}

#[test]
fn only_the_word_accept_accepts() {
    assert!(accepts("accept"));
    assert!(accepts("  ACCEPT \n"));
    assert!(!accepts("accepted"));
    assert!(!accepts(""));
    let a = Acceptance {
        eula_version: "1.0".into(),
        accepted_unix: 0,
        app_version: "0.1.0".into(),
        machine_ref: "abcd".into(),
    };
    assert!(a.is_current());
    let old = Acceptance { eula_version: "0.9".into(), ..a };
    assert!(!old.is_current());
}

#[test]
fn the_owner_is_read_from_the_user_reply() {
    assert_eq!(owner_from_reply(reply(200, r#"{"login" : "octocat","id":1}"#)), Ok("octocat".to_string()));
    assert_eq!(owner_from_reply(reply(200, r#"{"login"::"x"}"#)), Ok("x".to_string()));
    assert_eq!(owner_from_reply(reply(200, r#"{"id":1}"#)), Err("no login in the response".to_string()));
    assert_eq!(owner_from_reply(reply(200, r#"{"login":7}"#)), Err("unexpected response shape".to_string()));
    assert_eq!(owner_from_reply(reply(401, "{}")), Err("GitHub refused the token (401)".to_string()));
    assert_eq!(
        owner_from_reply(Err(GhError::Transport)),
        Err("could not identify the token's account: transport error".to_string())
    );
}

struct Replies {
    replies: RefCell<Vec<Result<HttpResponse, GhError>>>,
    urls: RefCell<Vec<String>>,
}

impl Transport for Replies {
    fn send(&self, req: &HttpRequest) -> Result<HttpResponse, GhError> {
        self.urls.borrow_mut().push(req.url.clone());
        self.replies.borrow_mut().remove(0)
    }
}

fn replies(r: Vec<Result<HttpResponse, GhError>>) -> Replies {
    Replies { replies: RefCell::new(r), urls: RefCell::new(vec![]) }
}

#[test]
fn a_token_is_needed_to_resolve_the_owner() {
    let t = replies(vec![]);
    assert_eq!(resolve_owner(None, &t).0, Err(NO_TOKEN.to_string()));
    let t = replies(vec![reply(200, r#"{"login":"me"}"#)]);
    assert_eq!(resolve_owner(Some("tok".into()), &t).0, Ok("me".to_string()));
    assert_eq!(t.urls.borrow()[0], "https://api.github.com/user");
}

#[test]
fn visibility_is_refused_while_a_build_runs() {
    let t = replies(vec![reply(200, r#"{"workflow_runs":[{"id":1,"status":"queued"}]}"#)]);
    assert_eq!(set_repository_visibility(Some("t".into()), "o", "r", true, &t).0, Err(BUILD_RUNNING.to_string()));
    assert_eq!(t.urls.borrow().len(), 1, "no change may be requested while a build runs");

    let t = replies(vec![reply(200, r#"{"workflow_runs":[]}"#), reply(200, "{}")]);
    assert_eq!(set_repository_visibility(Some("t".into()), "o", "r", false, &t).0, Ok(()));
    assert_eq!(t.urls.borrow()[1], "https://api.github.com/repos/o/r");

    let t = replies(vec![]);
    assert_eq!(set_repository_visibility(None, "o", "r", false, &t).0, Err(NO_TOKEN.to_string()));

    assert_eq!(
        running_build_refusal(&Err(GhError::Status(500))),
        Some("could not check for running builds: unexpected status 500".to_string())
    );
    assert_eq!(running_build_refusal(&reply(200, r#"{"status":"in_progress"}"#)), Some(BUILD_RUNNING.to_string()));
    assert_eq!(running_build_refusal(&reply(200, r#"{"status":"completed"}"#)), None);
}

#[test]
fn a_refused_change_shows_at_most_two_hundred_characters() {
    let long = "x".repeat(500);
    let r = visibility_change_outcome(&reply(403, &long)).unwrap_err();
    assert_eq!(r, format!("visibility change refused (403): {}", "x".repeat(200)));
    assert_eq!(
        visibility_change_outcome(&reply(422, "nope")),
        Err("visibility change refused (422): nope".to_string())
    );
    assert_eq!(
        visibility_change_outcome(&Err(GhError::Decode)),
        Err("visibility change failed: response decode error".to_string())
    );
    assert_eq!(visibility_change_outcome(&reply(204, "")), Ok(()));
}

#[test]
fn every_provenance_failure_is_explained() {
    assert_eq!(explain_provenance(&ProvenanceError::BuildIdMismatch), "the artifact belongs to a different build");
    assert_eq!(explain_provenance(&ProvenanceError::TargetMismatch), "the artifact was built for a different target");
    assert_eq!(
        explain_provenance(&ProvenanceError::DigestMismatch),
        "the artifact bytes are not what this build committed to"
    );
    assert_eq!(
        explain_provenance(&ProvenanceError::SignatureInvalid),
        "the artifact is not signed by the expected build channel"
    );
}

#[test]
fn runtime_files_are_pushed_under_runtime_in_path_order() {
    let found = vec![
        ("src\\main.rs".to_string(), b"fn main(){}".to_vec()),
        ("Cargo.toml".to_string(), b"[package]".to_vec()),
        ("capsule.nyeda".to_string(), vec![1, 2, 3]),
    ];
    let got = collect_runtime_files(found);
    let paths: Vec<&str> = got.iter().map(|(p, _)| p.as_str()).collect();
    assert_eq!(paths, vec!["runtime/Cargo.toml", "runtime/capsule.nyeda", "runtime/src/main.rs"]);
    assert_eq!(got[1].1, vec![1, 2, 3]);
    assert!(skipped_entry("target") && skipped_entry(".git") && skipped_entry("Cargo.lock"));
    assert!(!skipped_entry("src"));
}

#[test]
fn an_archive_entry_has_the_documented_layout() {
    let files = vec![("a/b".to_string(), b"xyz".to_vec(), true)];
    let bytes = encode_archive(&files);
    let mut want = b"NYARCHIVE2".to_vec();
    want.extend_from_slice(&3u32.to_le_bytes());
    want.extend_from_slice(b"a/b");
    want.push(1);
    want.extend_from_slice(&3u64.to_le_bytes());
    want.extend_from_slice(b"xyz");
    assert_eq!(bytes, want);
    assert_eq!(encode_archive(&vec![]), b"NYARCHIVE2".to_vec());
}

#[test]
fn an_archive_reads_back_as_packed() {
    let files = vec![
        ("Cargo.toml".to_string(), b"[package]".to_vec(), false),
        ("run.sh".to_string(), b"#!/bin/sh\n".to_vec(), true),
        ("empty".to_string(), vec![], false),
    ];
    let blob = encode_archive(&files);
    assert_eq!(&blob[..10], b"NYARCHIVE2");
    let mut i = 10;
    let mut back = Vec::new();
    while i < blob.len() {
        let nlen = u32::from_le_bytes(blob[i..i + 4].try_into().unwrap()) as usize;
        i += 4;
        let name = String::from_utf8(blob[i..i + nlen].to_vec()).unwrap();
        i += nlen;
        let exec = blob[i] & 1 == 1;
        i += 1;
        let dlen = u64::from_le_bytes(blob[i..i + 8].try_into().unwrap()) as usize;
        i += 8;
        back.push((name, blob[i..i + dlen].to_vec(), exec));
        i += dlen;
    }
    assert_eq!(back, files);
}

#[test]
fn times_are_read_and_refused_with_reasons() {
    assert_eq!(parse_hhmm("14:00"), Ok(840));
    assert_eq!(parse_hhmm(" 2 : 30 "), Ok(150));
    assert_eq!(parse_hhmm("23:59"), Ok(1439));
    assert_eq!(parse_hhmm("1400"), Err("bad time '1400', expected HH:MM".to_string()));
    assert_eq!(parse_hhmm("x:00"), Err("bad hour in 'x:00'".to_string()));
    assert_eq!(parse_hhmm("10:y"), Err("bad minute in '10:y'".to_string()));
    assert_eq!(parse_hhmm("24:00"), Err("time out of range: '24:00'".to_string()));
    assert_eq!(typed_time(" 07:05 "), Some(425));
    assert_eq!(typed_time("7:60"), None);
    assert_eq!(typed_time(""), None);
}

#[test]
fn numbers_are_read_as_rust_reads_them() {
    assert_eq!(parse_u32("+5"), Some(5));
    assert_eq!(parse_u32("4294967295"), Some(u32::MAX));
    assert_eq!(parse_u32("4294967296"), None);
    assert_eq!(parse_u32("-1"), None);
    assert_eq!(parse_u32(""), None);
    assert_eq!(parse_i32("-2147483648"), Some(i32::MIN));
    assert_eq!(parse_i32("2147483648"), None);
    assert_eq!(parse_i32("-0"), Some(0));
    assert_eq!(parse_i32("+330"), Some(330));
}

fn v(a: &[&str]) -> Vec<String> {
    a.iter().map(|s| s.to_string()).collect()
}

#[test]
fn every_refusal_of_the_protection_flags_names_its_reason() {
    let err = |a: &[&str]| parse(&v(a)).err().unwrap();
    assert_eq!(err(&["--location"]), "--location requires a value");
    assert_eq!(err(&["--location", "abc"]), "bad location tolerance");
    assert_eq!(err(&["--location", "0"]), "location tolerance must be > 0");
    assert_eq!(err(&["--time-tolerance-min", "x"]), "bad tolerance");
    assert_eq!(err(&["--tz-offset-min", "x"]), "bad tz offset");
    assert_eq!(err(&["--hardware", "maybe"]), "--hardware must be 'preferred' or 'required', not 'maybe'");
    assert_eq!(
        err(&["--compression", "zip"]),
        "--compression must be automatic, maximum, balanced or fast, not 'zip'"
    );
    assert_eq!(err(&["--tag-mode", "EITHER"]), "--tag-mode must be 'any' or 'all', not 'either'");
    assert_eq!(err(&["--one-shot", "--nope"]), "unknown flag '--nope'");
    assert_eq!(err(&["--time", "12:00", "--time-tolerance-min", "0"]), "time tolerance must be > 0");
    assert_eq!(err(&["--time", "12:00,25:00"]), "time out of range: '25:00'");
    let c = parse(&v(&["--time", "12:00", "--time", "13:00", "--tz-offset-min", "-60"])).unwrap();
    let s = c.schedule.unwrap();
    assert_eq!(s.slots_minutes, vec![720, 780]);
    assert_eq!(s.tolerance_minutes, 15);
    assert_eq!(s.tz_offset_minutes, -60);
    let t = parse(&v(&["--trust", "a.nyfp", "--trust", "b.nyfp", "--tag-mode", "ALL"])).unwrap();
    assert_eq!(t.trust_files, vec!["a.nyfp", "b.nyfp"]);
    assert!(t.tag_mode_all);
    assert!(t.schedule.is_none());
}

#[test]
fn steps_are_named_and_ordered() {
    let all = Step::all();
    assert_eq!(all.len(), 6);
    for (i, s) in all.iter().enumerate() {
        assert_eq!(s.index(), i);
    }
    assert_eq!(Step::Run.label(), "Run capsule");
    assert_eq!(Step::Source.hint(), "What to protect");
    assert_eq!(Step::Targets.label(), "Targets");
}

#[test]
fn the_timing_probe_is_bucketed_by_magnitude() {
    assert_eq!(magnitude(0), 0);
    assert_eq!(magnitude(1), 1);
    assert_eq!(magnitude(1024), 11);
    assert_eq!(magnitude(u64::MAX), 64);
    let mut acc: u64 = 0x243F_6A88_85A3_08D3;
    for i in 0..2048u64 {
        acc = acc.wrapping_mul(6364136223846793005).wrapping_add(i);
    }
    assert_eq!(spin_work(), acc);
    assert_eq!(probe_timing_anomaly(1500), 11 ^ (acc & 0xF));
}

#[test]
fn installer_decisions() {
    assert_eq!(exe_name("nyedarch", true), "nyedarch.exe");
    assert_eq!(exe_name("nyedarch", false), "nyedarch");
    assert!(is_bundle_target("macos"));
    assert!(!is_bundle_target("linux"));
    assert_eq!(
        checksum_line("  abc123  ./././bin/tool \n"),
        Some(("abc123".to_string(), "bin/tool".to_string()))
    );
    assert_eq!(checksum_line("abc  SHA256SUMS"), None);
    assert_eq!(checksum_line("abc bin/tool"), None);
    assert_eq!(checksum_line("   "), None);
    assert_eq!(styled("1", "x", true), "\x1b[1mx\x1b[0m");
    assert_eq!(styled("1", "x", false), "x");
}

fn seal(passphrase: Option<&str>) -> Cli {
    Cli {
        command: Command::Seal(SealArgs {
            input: "in".into(),
            output: "out".into(),
            passphrase: passphrase.map(|p| p.to_string()),
            location: Some(150),
            time: vec!["14:00".into(), "02:30".into()],
            time_tolerance_min: 15,
            tz_offset_min: -330,
            one_shot: true,
            trust: vec!["a.nyfp".into()],
            trust_tag: vec!["HR".into(), "Pune".into()],
            tag_mode: "all".into(),
            trust_search: String::new(),
            compression: "maximum".into(),
            hardware: "required".into(),
        }),
        with_logs: false,
        creator: true,
    }
}

#[test]
fn a_seal_is_routed_with_every_option() {
    let got = command_args(&seal(Some("pw")), None).unwrap();
    assert_eq!(
        got,
        v(&[
            "nyedarch",
            "seal",
            "in",
            "out",
            "pw",
            "--location",
            "150",
            "--time",
            "14:00,02:30",
            "--time-tolerance-min",
            "15",
            "--tz-offset-min",
            "-330",
            "--one-shot",
            "--trust",
            "a.nyfp",
            "--trust-tag",
            "HR",
            "--trust-tag",
            "Pune",
            "--tag-mode",
            "all",
            "--compression",
            "maximum",
            "--hardware",
            "required",
            "--creator",
        ])
    );
    // The routed flags parse back into the protections asked for.
    let cfg = parse(&got[5..].to_vec()).unwrap();
    assert_eq!(cfg.location_tolerance_m, Some(150));
    assert_eq!(cfg.schedule.unwrap().slots_minutes, vec![840, 150]);
    assert!(cfg.one_shot && cfg.creator_mode && cfg.tag_mode_all);
}

#[test]
fn the_passphrase_falls_back_to_the_environment() {
    let got = command_args(&seal(None), Some("from-env".into())).unwrap();
    assert_eq!(got[4], "from-env");
    assert!(command_args(&seal(None), Some(String::new())).is_none());
    assert!(command_args(&seal(None), None).is_none());
}

#[test]
fn machine_commands_are_routed_and_filtered() {
    let cli = Cli {
        command: Command::Machines {
            action: MachinesAction::List { query: "lond".into(), tag: vec!["HR".into()], mode: "all".into() },
        },
        with_logs: false,
        creator: false,
    };
    let args = command_args(&cli, None).unwrap();
    assert_eq!(args, v(&["nyedarch", "machines", "list", "lond", "--tag", "HR", "--mode", "all"]));
    let (q, tags, mode) = list_filters(&args);
    assert_eq!(q, "lond");
    assert_eq!(tags, vec!["HR"]);
    assert_eq!(mode, TagMode::All);
    let (_, _, m2) = list_filters(&v(&["nyedarch", "machines", "list", "--mode", "bogus"]));
    assert_eq!(m2, TagMode::Any);
    assert_eq!(visibility_private("private"), Ok(true));
    assert_eq!(visibility_private("public"), Ok(false));
    assert_eq!(
        visibility_private("secret"),
        Err("visibility must be 'public' or 'private', not 'secret'".to_string())
    );
    assert!(build_private(None));
    assert!(build_private(Some("private")));
    assert!(!build_private(Some("public")));
}

#[test]
fn trusted_records_add_the_selected_machines() {
    let m = |id: &str, labels: &[&str], path: &str, this: bool| Machine {
        id: id.into(),
        labels: labels.iter().map(|s| s.to_string()).collect(),
        path: path.into(),
        is_this_machine: this,
    };
    let registry = vec![
        m("aaaa", &["this machine"], "", true),
        m("bbbb", &["HR"], "/r/bbbb.nyfp", false),
        m("cccc", &["Finance"], "/r/cccc.nyfp", false),
        m("dddd", &["HR"], "", false),
    ];
    let mut p = ProtectionConfig::default();
    p.trust_files = vec!["x.nyfp".into()];
    assert_eq!(trusted_records(&p, &registry), vec!["x.nyfp"]);
    p.trust_tags = vec!["hr".into()];
    assert_eq!(trusted_records(&p, &registry), vec!["x.nyfp", "/r/bbbb.nyfp"]);
}

#[test]
fn this_machine_is_listed_first_when_unrecorded() {
    let stored = vec![Machine { id: "bbbb".into(), labels: vec!["HR".into()], path: "/r/b".into(), is_this_machine: false }];
    let listed = nyedarch::machines::with_this_machine(stored, "aaaa".into());
    assert_eq!(listed.len(), 2);
    assert_eq!(listed[0].id, "aaaa");
    assert!(listed[0].is_this_machine);
    assert_eq!(listed[0].labels, vec!["this machine"]);
    let recorded = vec![Machine { id: "aaaa".into(), labels: vec![], path: "/r/a".into(), is_this_machine: true }];
    assert_eq!(nyedarch::machines::with_this_machine(recorded, "aaaa".into()).len(), 1);
    let me = Machine { id: "aaaa".into(), labels: vec![], path: String::new(), is_this_machine: true };
    assert_eq!(
        nyedarch::machines::removal_refusal(&me),
        Some("this machine cannot be removed: every capsule includes its creator by design".to_string())
    );
}

#[test]
fn every_stage_says_what_it_does() {
    assert_eq!(Stage::SealingPayload.message(), "Compressing and sealing chunks.");
    assert_eq!(Stage::Done.message(), "Capsule project ready.");
    assert!(Stage::DerivingKeys.message().contains("Argon2id"));
}

#[test]
fn installer_options_are_read_or_refused() {
    use_options();
}

fn use_options() {
    let o = nyedarch::installer::parse_args(&v(&["--prefix", "/opt/ny", "--yes", "--force"])).unwrap();
    assert_eq!(o.prefix.as_deref(), Some("/opt/ny"));
    assert!(o.assume_yes && o.force && !o.uninstall && !o.verify_only && !o.help);
    let h = nyedarch::installer::parse_args(&v(&["--verify", "-h", "--bogus"])).unwrap();
    assert!(h.help && h.verify_only);
    assert_eq!(
        nyedarch::installer::parse_args(&v(&["--prefix"])).err(),
        Some("--prefix needs a directory".to_string())
    );
    assert_eq!(nyedarch::installer::parse_args(&v(&["--nope"])).err(), Some("unknown option: --nope".to_string()));
}

#[test]
fn vendored_manifests_lose_their_dev_dependencies() {
    let text = "[package]\r\nname = \"x\"\n\n  [dev-dependencies]\nproptest = \"1\"\n[dev-dependencies.foo]\nversion = \"2\"\n[dependencies]\nserde = \"1\"\r";
    let out = nyedarch::generator::strip_dev_dependencies(text);
    assert_eq!(
        out,
        "[package]\nname = \"x\"\n\n# [dev-dependencies] removed: a capsule project has no tests.\n\
# [dev-dependencies] removed: a capsule project has no tests.\n[dependencies]\nserde = \"1\"\r\n"
    );
    assert_eq!(nyedarch::generator::strip_dev_dependencies(""), "");
    assert_eq!(nyedarch::generator::strip_dev_dependencies("a\nb\n"), "a\nb\n");
}

#[test]
fn install_locations_follow_each_platform() {
    assert_eq!(default_prefix("windows", true, true, true), (PathRoot::LocalAppData, vec!["Programs", "NYEDArch"]));
    assert_eq!(default_prefix("windows", false, true, true), (PathRoot::CurrentDir, vec!["NYEDArch"]));
    assert_eq!(default_prefix("macos", true, true, false), (PathRoot::Home, vec!["Applications", "NYEDArch.app"]));
    assert_eq!(default_prefix("macos", true, false, true), (PathRoot::CurrentDir, vec!["NYEDArch.app"]));
    assert_eq!(default_prefix("linux", false, true, true), (PathRoot::XdgDataHome, vec!["nyedarch"]));
    assert_eq!(default_prefix("linux", false, true, false), (PathRoot::Home, vec![".local", "share", "nyedarch"]));
    assert_eq!(default_prefix("freebsd", false, false, false), (PathRoot::CurrentDir, vec!["nyedarch"]));
    assert_eq!(user_bin_dir("linux", true), Some(vec![".local", "bin"]));
    assert_eq!(user_bin_dir("linux", false), None);
    assert_eq!(user_bin_dir("windows", true), None);
}

#[test]
fn installer_prompts_and_manifests() {
    assert!(answers_yes("y\n") && answers_yes("  YES \r\n") && answers_yes("Yes"));
    assert!(!answers_yes("\n") && !answers_yes("yeah") && !answers_yes("n"));
    let items = release_items(false);
    assert_eq!(items[0], "install");
    assert_eq!(release_items(true)[0], "install.exe");
    assert_eq!(items.len(), 12);
    assert_eq!(bundle_executable_name("nyedarch-gui"), "NYEDArch");
    assert_eq!(bundle_executable_name("nyedarch"), "nyedarch");
    let installed = vec!["bin/nyedarch".to_string(), "docs/a.md".to_string()];
    let body = install_manifest(&installed);
    assert_eq!(body, "bin/nyedarch\ndocs/a.md\n");
    assert_eq!(manifest_entries(&body), installed);
    assert_eq!(manifest_entries("a\n  \n\nb c\r\n"), vec!["a".to_string(), "b c".to_string()]);
    assert_eq!(install_manifest(&Vec::new()), "");
    assert_eq!(integrity_verdict(0, 3), Integrity::Unchecked);
    assert_eq!(integrity_verdict(5, 0), Integrity::Verified { files: 5 });
    assert_eq!(integrity_verdict(5, 1), Integrity::Failed);
    assert!(colors_enabled(false, true, false, false));
    assert!(!colors_enabled(true, true, true, true));
    assert!(!colors_enabled(false, false, false, false));
}
