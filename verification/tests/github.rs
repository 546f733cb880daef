use std::cell::RefCell;

use nyedarch::base64;
use nyedarch::curl::config_stream;
use nyedarch::http::{GhError, HttpRequest, HttpResponse, Method, SecretSealer, Transport};
use nyedarch::json::{artifact_list, run_ids, tree_blobs};
use nyedarch::orchestrator::{artifact_carries_package, run_verdict, BuildInputs, BuildState, Orchestrator, RepoConfig, RunVerdict};
use nyedarch::provenance::{
    signed_input, verify_artifact, ArtifactClaim, ArtifactVerifier, BuildManifest, ProvenanceError,
};
use nyedarch::workflow::{workflow_yaml, Target};

/// Mock transport: canned responses keyed by URL substring, recording calls.
struct Mock {
    calls: RefCell<Vec<String>>,
}

impl Transport for Mock {
    fn send(&self, req: &HttpRequest) -> Result<HttpResponse, GhError> {
        self.calls.borrow_mut().push(format!("{:?} {}", req.method, req.url));
        let body = if req.url.contains("actions/secrets/public-key") {
            br#"{"key":"BASE64PUBKEY","key_id":"1234567890"}"#.to_vec()
        } else if req.url.contains("/actions/runs/") && !req.url.contains("/artifacts") {
            // A completed, successful run so the wait loop exits at once.
            br#"{"id":42,"status":"completed","conclusion":"success"}"#.to_vec()
        } else if req.url.ends_with("/actions/runs?per_page=30") {
            // Before dispatch the newest run is 41; afterwards it is 42.
            let dispatched = self.calls.borrow().iter().any(|c| c.contains("/dispatches"));
            if dispatched {
                br#"{"total_count":2,"workflow_runs":[{"id":42,"status":"queued","run_number":2,"workflow_id":7}]}"#
                    .to_vec()
            } else {
                br#"{"total_count":1,"workflow_runs":[{"id":41,"status":"completed","run_number":1,"workflow_id":7}]}"#
                    .to_vec()
            }
        } else if req.url.ends_with("/zip") {
            // A stand-in capsule that carries the committed package.
            let mut art = b"MOCK-CAPSULE-BINARY".to_vec();
            art.extend_from_slice(&[0u8; 32]);
            art.extend_from_slice(b"-TRAILER");
            art
        } else if req.url.contains("/artifacts") {
            br#"{"total_count":1,"artifacts":[{"id":7,"name":"nyedarch-capsule-x86_64-unknown-linux-gnu"}]}"#.to_vec()
        } else {
            b"{}".to_vec()
        };
        Ok(HttpResponse { status: 201, headers: vec![], body })
    }
}

/// Test-only sealer: base64, not encryption.
struct TestSealer;

impl SecretSealer for TestSealer {
    fn seal(&self, _pk: &str, plaintext: &[u8]) -> Result<String, GhError> {
        Ok(base64::encode(plaintext))
    }
}

fn repo() -> RepoConfig {
    RepoConfig { token: "t".into(), owner: "o".into(), repo: "r".into(), private: true }
}

#[test]
fn full_build_sequence_is_ordered() {
    let m = Mock { calls: RefCell::new(vec![]) };
    let s = TestSealer;
    let mut orch = Orchestrator::new(&m, &s);
    orch.max_wait_polls = 3;
    let cfg = repo();
    let rt = b"fn main(){}".to_vec();
    let inputs = BuildInputs {
        runtime_files: vec![("runtime/src/main.rs".into(), rt.as_slice())],
        runtime_dir: "runtime".into(),
        targets: vec![Target::LinuxGnu],
        secrets: vec![("NYEDARCH_GH_TO_CLIENT_PUB".into(), b"pubkey".to_vec())],
        git_ref: "main".into(),
        package_commitment: [0u8; 32],
    };
    let mut states = vec![];
    let run_id = orch.run_build(&cfg, &inputs, &mut states).unwrap();
    assert_eq!(run_id, 42);
    assert_eq!(states.first(), Some(&BuildState::Authenticate));
    assert_eq!(states.last(), Some(&BuildState::Done));
    // Secret public key fetched before any secret is written.
    let calls = m.calls.borrow();
    let pk = calls.iter().position(|c| c.contains("public-key")).unwrap();
    let put = calls.iter().position(|c| c.contains("/actions/secrets/NYEDARCH")).unwrap();
    assert!(pk < put, "must fetch repo public key before sealing/putting secret");
}

#[test]
fn visibility_change_refused_during_build() {
    let m = Mock { calls: RefCell::new(vec![]) };
    let s = TestSealer;
    let mut orch = Orchestrator::new(&m, &s);
    orch.max_wait_polls = 3;
    orch.build_running = true;
    let cfg = repo();
    assert!(matches!(orch.change_visibility(&cfg, false), Err(GhError::Precondition(_))));
}

#[test]
fn workflow_yaml_has_dispatch_and_targets() {
    let y = workflow_yaml(&[Target::WindowsMsvc, Target::MacosAppleSilicon, Target::LinuxGnu], "runtime");
    assert!(y.contains("workflow_dispatch"));
    assert!(y.contains("x86_64-pc-windows-msvc"));
    assert!(y.contains("aarch64-apple-darwin"));
    assert!(y.contains("x86_64-unknown-linux-gnu"));
    assert!(!y.to_lowercase().contains("echo ${{ secrets"));
    assert!(y.contains(".nyarch"), "artifact must carry the .nyarch extension");
    assert!(y.contains("chmod +x"), "executable permission must be requested");
    assert!(y.contains("nyedarch-unlock"), "the workflow must decrypt the source");
    assert!(y.contains("secrets.NYEDARCH_SOURCE_KEY"));
    assert!(y.contains("Remove the decrypted source"), "plaintext must not outlive the build");
    assert!(!y.contains("echo $NYEDARCH_SOURCE_KEY"));
    assert!(!y.contains("echo \"$NYEDARCH_SOURCE_KEY\""));
    assert!(!y.contains("path: out/*\n"), "must not upload unrelated files");
}

#[test]
fn tree_blobs_are_extracted() {
    let json = r#"{"sha":"abc","tree":[
      {"path":"runtime/Cargo.toml","mode":"100644","type":"blob","sha":"1111"},
      {"path":"runtime/src","mode":"040000","type":"tree","sha":"2222"},
      {"path":"runtime/src/main.rs","mode":"100644","type":"blob","sha":"3333"},
      {"path":".github/workflows/nyeda.yml","mode":"100644","type":"blob","sha":"4444"}
    ]}"#;
    let blobs = tree_blobs(json);
    let paths: Vec<&str> = blobs.iter().map(|(p, _)| p.as_str()).collect();
    assert!(paths.contains(&"runtime/Cargo.toml"));
    assert!(paths.contains(&"runtime/src/main.rs"));
    assert!(paths.contains(&".github/workflows/nyeda.yml"));
    assert!(!paths.contains(&"runtime/src"));
    assert_eq!(blobs.iter().find(|(p, _)| p == "runtime/Cargo.toml").unwrap().1, "1111");
}

#[test]
fn provenance_accepts_only_an_artifact_carrying_the_package() {
    let commitment = [0x5Au8; 32];
    let mut good = b"ELF....some binary....".to_vec();
    good.extend_from_slice(&commitment);
    good.extend_from_slice(b"....more binary....");
    assert!(artifact_carries_package(&good, &commitment));
    let other = [0xA5u8; 32];
    assert!(!artifact_carries_package(&good, &other), "an artifact carrying a different package must be refused");
    assert!(!artifact_carries_package(b"", &commitment));
    assert!(!artifact_carries_package(b"short", &commitment));
}

#[test]
fn only_a_genuinely_new_run_is_adopted() {
    let before = run_ids(br#"{"workflow_runs":[{"id":300},{"id":200},{"id":100}]}"#);
    assert_eq!(before.len(), 3);
    let same = run_ids(br#"{"workflow_runs":[{"id":300},{"id":200},{"id":100}]}"#);
    assert!(same.into_iter().find(|id| !before.contains(id)).is_none());
    let after = run_ids(br#"{"workflow_runs":[{"id":400},{"id":300},{"id":200}]}"#);
    assert_eq!(after.into_iter().find(|id| !before.contains(id)), Some(400));
    let none = run_ids(b"{}");
    assert!(none.is_empty());
}

#[test]
fn the_hosts_own_artifact_is_preferred() {
    let listing = r#"{"artifacts":[
      {"id":1,"name":"nyedarch-capsule-x86_64-pc-windows-msvc"},
      {"id":2,"name":"nyedarch-capsule-aarch64-apple-darwin"},
      {"id":3,"name":"nyedarch-capsule-x86_64-unknown-linux-gnu"}]}"#;
    let all = artifact_list(listing);
    // The host these tests run on.
    let host = "x86_64-unknown-linux-gnu";
    let chosen = all.iter().find(|(_, n)| n.contains(host)).expect("the host artifact is present in this listing");
    assert!(chosen.1.contains(host), "selection must land on the host platform, not on listing order");
}

#[test]
fn artifacts_are_listed_with_their_names() {
    let listing = r#"{"total_count":3,"artifacts":[
      {"id":1,"name":"nyedarch-capsule-x86_64-pc-windows-msvc"},
      {"id":2,"name":"nyedarch-capsule-aarch64-apple-darwin"},
      {"id":3,"name":"nyedarch-capsule-x86_64-unknown-linux-gnu"}]}"#;
    let all = artifact_list(listing);
    assert_eq!(all.len(), 3);
    let mac = all.iter().find(|(_, n)| n.contains("aarch64-apple-darwin")).expect("the macOS artifact is findable by name");
    assert_eq!(mac.0, 2, "selection must not depend on listing order");
    assert!(artifact_list("{}").is_empty());
}

#[test]
fn waiting_precedes_fetching() {
    let order = [
        BuildState::Dispatch,
        BuildState::WaitForRun,
        BuildState::FetchArtifact,
        BuildState::Verify,
        BuildState::Done,
    ];
    let pos = |s: BuildState| order.iter().position(|x| *x == s).unwrap();
    assert!(pos(BuildState::WaitForRun) < pos(BuildState::FetchArtifact));
    assert!(pos(BuildState::FetchArtifact) < pos(BuildState::Verify));
}

#[test]
fn deletion_after_download_is_on_by_default() {
    struct T;
    impl Transport for T {
        fn send(&self, _r: &HttpRequest) -> Result<HttpResponse, GhError> {
            Ok(HttpResponse { status: 200, headers: vec![], body: b"{}".to_vec() })
        }
    }
    struct S;
    impl SecretSealer for S {
        fn seal(&self, _pk: &str, _p: &[u8]) -> Result<String, GhError> {
            Ok(String::new())
        }
    }
    let t = T;
    let s = S;
    let o = Orchestrator::new(&t, &s);
    assert!(o.delete_artifact_after_download, "an unretrieved capsule must not be left on GitHub by default");
}

struct AcceptIf(Vec<u8>);

impl ArtifactVerifier for AcceptIf {
    fn verify(&self, input: &[u8], sig: &[u8]) -> bool {
        sig == self.0.as_slice() && !input.is_empty()
    }
}

fn manifest() -> BuildManifest {
    BuildManifest {
        build_id: "01HZY0000000000000000000AA".into(),
        package_commitment: [1u8; 32],
        runtime_commitment: [2u8; 32],
        source_commitment: [3u8; 32],
        target: Target::LinuxGnu,
        crypto_version: 1,
    }
}

#[test]
fn accepts_expected_artifact() {
    let m = manifest();
    let d = [7u8; 32];
    let sig = b"good-sig".to_vec();
    let claim = ArtifactClaim { build_id: m.build_id.clone(), target: m.target, artifact_digest: d, signature: sig.clone() };
    assert_eq!(verify_artifact(&AcceptIf(sig), &m, &claim, &d), Ok(()));
}

#[test]
fn rejects_wrong_build_target_or_digest() {
    let m = manifest();
    let d = [7u8; 32];
    let sig = b"good-sig".to_vec();
    let v = AcceptIf(sig.clone());
    let mut c = ArtifactClaim { build_id: "OTHER".into(), target: m.target, artifact_digest: d, signature: sig.clone() };
    assert_eq!(verify_artifact(&v, &m, &c, &d), Err(ProvenanceError::BuildIdMismatch));
    c = ArtifactClaim { build_id: m.build_id.clone(), target: Target::WindowsMsvc, artifact_digest: d, signature: sig.clone() };
    assert_eq!(verify_artifact(&v, &m, &c, &d), Err(ProvenanceError::TargetMismatch));
    c = ArtifactClaim { build_id: m.build_id.clone(), target: m.target, artifact_digest: [9u8; 32], signature: sig.clone() };
    assert_eq!(verify_artifact(&v, &m, &c, &d), Err(ProvenanceError::DigestMismatch));
}

#[test]
fn rejects_unsigned_or_replayed_signature() {
    let m = manifest();
    let d = [7u8; 32];
    let claim = ArtifactClaim {
        build_id: m.build_id.clone(),
        target: m.target,
        artifact_digest: d,
        signature: b"sig-from-another-build".to_vec(),
    };
    assert_eq!(verify_artifact(&AcceptIf(b"good-sig".to_vec()), &m, &claim, &d), Err(ProvenanceError::SignatureInvalid));
    let mut other = manifest();
    other.build_id = "01HZY0000000000000000000BB".into();
    assert_ne!(signed_input(&m, &d), signed_input(&other, &d));
}

fn req() -> HttpRequest {
    HttpRequest {
        method: Method::Post,
        url: "https://api.github.com/user/repos".into(),
        headers: vec![
            ("Authorization".into(), "Bearer ghp_SUPERSECRETTOKEN".into()),
            ("Accept".into(), "application/vnd.github+json".into()),
        ],
        body: b"{\"name\":\"x\"}".to_vec(),
    }
}

#[test]
fn credential_goes_to_the_config_stream_not_argv() {
    let c = config_stream(&req(), Some("/tmp/body"));
    assert!(c.contains("ghp_SUPERSECRETTOKEN"));
    let argv = ["--config", "-"];
    for a in argv {
        assert!(!a.contains("ghp_"), "no argument may carry a credential");
    }
}

#[test]
fn config_stream_encodes_method_url_and_body() {
    let c = config_stream(&req(), Some("/tmp/body"));
    assert!(c.contains("request = \"POST\""));
    assert!(c.contains("url = \"https://api.github.com/user/repos\""));
    assert!(c.contains("data-binary = \"@/tmp/body\""));
    assert!(c.contains("write-out = \"%{http_code}\""));
}

#[test]
fn get_requests_carry_no_body_directive() {
    let r = HttpRequest { method: Method::Get, url: "https://api.github.com/x".into(), headers: vec![], body: vec![] };
    let c = config_stream(&r, None);
    assert!(!c.contains("data-binary"));
    assert!(c.contains("request = \"GET\""));
}

#[test]
fn a_body_is_sent_only_when_it_was_staged() {
    let c = config_stream(&req(), None);
    assert!(!c.contains("data-binary"), "a body that was not staged in a file is not sent");
    let empty = HttpRequest { body: vec![], ..req() };
    let c = config_stream(&empty, Some("/tmp/body"));
    assert!(!c.contains("data-binary"), "a request without a body sends none");
    let c = config_stream(&req(), Some("/tmp/body"));
    assert_eq!(c.matches("data-binary").count(), 1);
}

fn dl() -> HttpRequest {
    HttpRequest {
        method: Method::Get,
        url: "https://api.github.com/repos/o/r/actions/artifacts/1/zip".into(),
        headers: vec![("Authorization".into(), "Bearer ghp_SECRET".into())],
        body: Vec::new(),
    }
}

#[test]
fn redirects_are_followed_and_bounded() {
    let c = config_stream(&dl(), None);
    assert!(c.contains("location"), "redirects must be followed");
    assert!(c.contains("max-redirs"), "redirect chains must be bounded");
}

#[test]
fn the_token_is_not_forwarded_across_hosts() {
    let c = config_stream(&dl(), None);
    assert!(!c.contains("location-trusted"), "location-trusted would forward the PAT to the redirect target");
}

#[test]
fn redirects_cannot_leave_https() {
    let c = config_stream(&dl(), None);
    assert!(c.contains("proto-redir = \"=https\""));
    assert!(c.contains("proto = \"=https\""));
}

#[test]
fn the_token_is_still_kept_out_of_the_command_line() {
    let c = config_stream(&dl(), None);
    assert!(c.contains("ghp_SECRET"), "it belongs in the config stream");
}

/// A transport whose replies are fixed per kind of request: the runs listing
/// always shows `listed`, and a run reports `run_body`.
struct Scripted {
    calls: RefCell<Vec<String>>,
    listed: &'static [u8],
    run_body: &'static [u8],
}

impl Transport for Scripted {
    fn send(&self, req: &HttpRequest) -> Result<HttpResponse, GhError> {
        self.calls.borrow_mut().push(format!("{:?} {}", req.method, req.url));
        let body = if req.url.contains("actions/secrets/public-key") {
            br#"{"key":"K","key_id":"1"}"#.to_vec()
        } else if req.url.ends_with("/actions/runs?per_page=30") {
            self.listed.to_vec()
        } else if req.url.contains("/actions/runs/") && !req.url.contains("/artifacts") {
            self.run_body.to_vec()
        } else {
            b"{}".to_vec()
        };
        Ok(HttpResponse { status: 200, headers: vec![], body })
    }
}

struct FixedSealer;

impl SecretSealer for FixedSealer {
    fn seal(&self, _pk: &str, _plaintext: &[u8]) -> Result<String, GhError> {
        Ok("s".to_string())
    }
}

fn scripted_inputs(rt: &[u8]) -> BuildInputs<'_> {
    BuildInputs {
        runtime_files: vec![("runtime/src/main.rs".into(), rt)],
        runtime_dir: "runtime".into(),
        targets: vec![Target::LinuxGnu],
        secrets: vec![("NYEDARCH_GH_TO_CLIENT_PUB".into(), b"pubkey".to_vec())],
        git_ref: "main".into(),
        package_commitment: [0u8; 32],
    }
}

#[test]
fn a_run_that_never_appears_ends_the_wait_with_decode() {
    let t = Scripted {
        calls: RefCell::new(vec![]),
        listed: br#"{"workflow_runs":[{"id":41}]}"#,
        run_body: br#"{"status":"completed","conclusion":"success"}"#,
    };
    let s = FixedSealer;
    let mut orch = Orchestrator::new(&t, &s);
    orch.max_wait_polls = 2;
    let rt = b"fn main(){}".to_vec();
    let mut states = vec![];
    let r = orch.run_build(&repo(), &scripted_inputs(&rt), &mut states);
    assert!(matches!(r, Err(GhError::Decode)));
    assert!(!orch.build_running);
    assert!(orch.last_artifact.is_none());
    let calls = t.calls.borrow();
    assert!(calls.iter().any(|c| c.contains("/dispatches")));
    assert!(!calls.iter().any(|c| c.contains("/actions/runs/") || c.contains("/zip")));
    assert_eq!(calls.iter().filter(|c| c.ends_with("/actions/runs?per_page=30")).count(), 3);
}

#[test]
fn a_failed_run_is_reported_and_nothing_is_fetched() {
    let t = Scripted {
        calls: RefCell::new(vec![]),
        listed: br#"{"workflow_runs":[{"id":41}]}"#,
        run_body: br#"{"status":"completed","conclusion":"failure"}"#,
    };
    // The new run appears only after the dispatch.
    struct AfterDispatch<'a>(&'a Scripted);
    impl Transport for AfterDispatch<'_> {
        fn send(&self, req: &HttpRequest) -> Result<HttpResponse, GhError> {
            let dispatched = self.0.calls.borrow().iter().any(|c| c.contains("/dispatches"));
            let mut r = self.0.send(req)?;
            if dispatched && req.url.ends_with("/actions/runs?per_page=30") {
                r.body = br#"{"workflow_runs":[{"id":42},{"id":41}]}"#.to_vec();
            }
            Ok(r)
        }
    }
    let a = AfterDispatch(&t);
    let s = FixedSealer;
    let mut orch = Orchestrator::new(&a, &s);
    orch.max_wait_polls = 2;
    let rt = b"fn main(){}".to_vec();
    let mut states = vec![];
    let r = orch.run_build(&repo(), &scripted_inputs(&rt), &mut states);
    assert!(matches!(r, Err(GhError::BuildFailed(42))));
    assert!(!orch.build_running);
    assert!(orch.last_artifact.is_none());
    let calls = t.calls.borrow();
    assert!(calls.last().unwrap().ends_with("/actions/runs/42"));
    assert!(!calls.iter().any(|c| c.contains("/artifacts")));
}

#[test]
fn a_sealing_failure_stops_before_any_secret_is_written() {
    struct Refusing;
    impl SecretSealer for Refusing {
        fn seal(&self, _pk: &str, _plaintext: &[u8]) -> Result<String, GhError> {
            Err(GhError::Sealer)
        }
    }
    let m = Mock { calls: RefCell::new(vec![]) };
    let s = Refusing;
    let mut orch = Orchestrator::new(&m, &s);
    let rt = b"fn main(){}".to_vec();
    let mut states = vec![];
    let r = orch.run_build(&repo(), &scripted_inputs(&rt), &mut states);
    assert!(matches!(r, Err(GhError::Sealer)));
    assert!(!orch.build_running);
    assert!(!m.calls.borrow().iter().any(|c| c.contains("/actions/secrets/NYEDARCH")));
}

#[test]
fn run_replies_decide_by_status_and_conclusion() {
    assert_eq!(run_verdict(200, br#"{"status":"completed","conclusion":"success"}"#), RunVerdict::Succeeded);
    assert_eq!(run_verdict(200, br#"{"status":"completed","conclusion":"failure"}"#), RunVerdict::Failed);
    assert_eq!(run_verdict(200, br#"{"status":"in_progress","conclusion":null}"#), RunVerdict::Pending);
    assert_eq!(run_verdict(404, br#"{"status":"completed","conclusion":"success"}"#), RunVerdict::Pending);
}

#[test]
fn visibility_change_sends_one_patch_to_the_repository() {
    let m = Mock { calls: RefCell::new(vec![]) };
    let s = TestSealer;
    let mut orch = Orchestrator::new(&m, &s);
    assert_eq!(orch.change_visibility(&repo(), false).is_ok(), true);
    let calls = m.calls.borrow();
    assert_eq!(calls.len(), 1);
    assert_eq!(calls[0], "Patch https://api.github.com/repos/o/r");
}
