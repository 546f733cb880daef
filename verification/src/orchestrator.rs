//! The build orchestration state machine. It sequences the GitHub calls that
//! produce a capsule build over a `Transport` and a `SecretSealer`, fails
//! closed on any unexpected status and never logs a secret.
//!
//! Every call is recorded in a ghost log of exchanges, so the contracts can
//! say in which order the calls are made and what each one carried.
use vstd::prelude::*;
use vstd::utf8::encode_utf8;
use crate::base64;
use crate::endpoints::{
    create_repo, delete_artifact, delete_file, dispatch_workflow, download_artifact,
    get_actions_public_key, get_file, get_run, get_tree, list_artifacts, list_runs, put_file,
    put_secret, repo_url, set_visibility, request_is, put_file_body, delete_file_body, opt_view,
    secret_body, visibility_body, create_repo_body, spec_auth_headers, API,
};
use crate::http::{headers_view, ok, status_ok, text_result, GhError, HttpRequest, HttpResponse, Method, SecretSealer, Transport};
use crate::json::{
    json_str, run_ids, artifact_list, tree_blobs, text_lossy, detail, lossy_text, opt_text,
    spec_body_json_str, blobs_from, string_pairs, detail_text, artifacts_from, pairs_text, ids_from,
};
use crate::text::{decimal, chars_of};
use crate::scan::{find_from, find_chars, find_bytes, occurs_at, lemma_find_from};
use crate::workflow::{workflow_yaml, spec_workflow_yaml, spec_rust_target, Target};

verus! {

/// The phases of a build, as reported to the caller's trace.
#[derive(Clone, Copy, Debug, PartialEq, Eq, Structural)]
pub enum BuildState {
    Authenticate,
    EnsureRepo,
    SetVisibility,
    PushSecrets,
    PushWorkflow,
    PushRuntime,
    Dispatch,
    Poll,
    /// Waiting for the remote build to finish before retrieving anything.
    WaitForRun,
    FetchArtifact,
    Verify,
    Done,
    Failed,
}

pub struct RepoConfig {
    pub token: String,
    pub owner: String,
    pub repo: String,
    pub private: bool,
}

pub struct BuildInputs<'a> {
    /// The generated runtime crate files: (repo path, bytes).
    pub runtime_files: Vec<(String, &'a [u8])>,
    pub runtime_dir: String,
    pub targets: Vec<Target>,
    /// Repository secrets to seal and store: (name, plaintext).
    pub secrets: Vec<(String, Vec<u8>)>,
    pub git_ref: String,
    /// Commitment to the sealed package this build must produce a capsule for.
    pub package_commitment: [u8; 32],
}

pub const WORKFLOW_PATH: &'static str = ".github/workflows/nyeda.yml";
pub const WORKFLOW_FILE: &'static str = "nyeda.yml";
pub const WORKFLOW_MESSAGE: &'static str = "nyedarch: build workflow";
pub const RUNTIME_MESSAGE: &'static str = "nyedarch: generated capsule source";
pub const PRUNE_MESSAGE: &'static str = "nyedarch: remove file from a previous build";
pub const VISIBILITY_REFUSED: &'static str = "cannot change visibility while a build is running";

/// A call the orchestrator makes, by purpose.
pub enum Call {
    CreateRepo,
    SetVisibility,
    PublicKey,
    PutSecret(Seq<char>),
    GetFile(Seq<char>),
    PutFile(Seq<char>),
    GetTree(Seq<char>),
    DeleteFile(Seq<char>),
    ListRuns,
    Dispatch,
    GetRun(u64),
    ListArtifacts(u64),
    Download(u64),
    DeleteArtifact(u64),
}

/// The method and URL of a call on the repository `owner/repo`.
pub open spec fn call_target(c: Call, owner: Seq<char>, repo: Seq<char>) -> (Method, Seq<char>) {
    let b = repo_url(owner, repo);
    match c {
        Call::CreateRepo => (Method::Post, API@ + "/user/repos"@),
        Call::SetVisibility => (Method::Patch, b),
        Call::PublicKey => (Method::Get, b + "/actions/secrets/public-key"@),
        Call::PutSecret(name) => (Method::Put, b + "/actions/secrets/"@ + name),
        Call::GetFile(p) => (Method::Get, b + "/contents/"@ + p),
        Call::PutFile(p) => (Method::Put, b + "/contents/"@ + p),
        Call::GetTree(r) => (Method::Get, b + "/git/trees/"@ + r + "?recursive=1"@),
        Call::DeleteFile(p) => (Method::Delete, b + "/contents/"@ + p),
        Call::ListRuns => (Method::Get, b + "/actions/runs?per_page=30"@),
        Call::Dispatch => (Method::Post, b + "/actions/workflows/"@ + WORKFLOW_FILE@ + "/dispatches"@),
        Call::GetRun(id) => (Method::Get, b + "/actions/runs/"@ + decimal(id as nat)),
        Call::ListArtifacts(id) => (
            Method::Get,
            b + "/actions/runs/"@ + decimal(id as nat) + "/artifacts"@,
        ),
        Call::Download(id) => (
            Method::Get,
            b + "/actions/artifacts/"@ + decimal(id as nat) + "/zip"@,
        ),
        Call::DeleteArtifact(id) => (Method::Delete, b + "/actions/artifacts/"@ + decimal(id as nat)),
    }
}

/// One request and what came back: the status and body, or nothing when the
/// transport failed.
pub struct Exchange {
    pub call: Call,
    pub method: Method,
    pub url: Seq<char>,
    pub headers: Seq<(Seq<char>, Seq<char>)>,
    pub sent: Seq<u8>,
    pub reply: Option<(u16, Seq<u8>)>,
    /// The transport's error, when it failed.
    pub error: Option<GhError>,
}

pub open spec fn reply_of(r: Result<HttpResponse, GhError>) -> Option<(u16, Seq<u8>)> {
    match r {
        Ok(resp) => Some((resp.status, resp.body@)),
        Err(_) => None,
    }
}

pub open spec fn exchange_of(c: Call, req: HttpRequest, r: Result<HttpResponse, GhError>) -> Exchange {
    Exchange {
        call: c,
        method: req.method,
        url: req.url@,
        headers: headers_view(req.headers@),
        sent: req.body@,
        reply: reply_of(r),
        error: match r {
            Ok(_) => None,
            Err(e) => Some(e),
        },
    }
}

/// One call of the sealer: the repository key and the plaintext it was
/// handed, and what it answered.
pub struct Sealing {
    pub key: Seq<char>,
    pub plaintext: Seq<u8>,
    pub result: Result<Seq<char>, GhError>,
}

/// The sealer calls made after `before`, when `after` extends it.
pub open spec fn seals_added(before: Seq<Sealing>, after: Seq<Sealing>) -> Seq<Sealing> {
    after.skip(before.len() as int)
}

/// The last exchange of `n` failed with `e`: the transport's own error, or a
/// reply outside 200..300 whose status `e` carries, alone or with GitHub's
/// explanation from the body.
#[verifier::opaque]
pub open spec fn last_failed(n: Seq<Exchange>, e: GhError) -> bool {
    &&& n.len() > 0
    &&& (n.last().error == Some(e) || (answered_not_ok(n.last()) && ((e matches GhError::Status(c) && Some(c)
        == status_of(n.last())) || (e matches GhError::StatusDetail(c, t) && Some(c) == status_of(n.last()) && t@
        == detail_text(reply_body(n.last()))))))
}

/// After the listing `n[d - 1]` and the accepted dispatch `n[d]`, exactly
/// `polls` runs listings followed, and none that was answered named a run
/// that the first listing, when it was answered, did not.
pub open spec fn waited_after(n: Seq<Exchange>, d: int, polls: u32) -> bool {
    &&& 1 <= d
    &&& d + 1 + polls == n.len()
    &&& n[d - 1].call == Call::ListRuns
    &&& n[d].call == Call::Dispatch
    &&& answered_ok(n[d])
    &&& forall|j: int|
        d < j < n.len() ==> (#[trigger] n[j]).call == Call::ListRuns && (answered_ok(n[j]) ==> forall|id: u64|
            #[trigger] run_listed(n[j], id) ==> answered_ok(n[d - 1]) && run_listed(n[d - 1], id))
}

/// The wait for a new run ran out, which the build reports as `Decode`.
#[verifier::opaque]
pub open spec fn wait_ran_out(n: Seq<Exchange>, e: GhError, polls: u32) -> bool {
    e is Decode && exists|d: int| #[trigger] waited_after(n, d, polls)
}

proof fn lemma_waited_after_shift(a: Seq<Exchange>, b: Seq<Exchange>, d: int, polls: u32)
    requires
        waited_after(b, d, polls),
    ensures
        waited_after(a + b, a.len() + d, polls),
{
    let n = a + b;
    assert(n[a.len() + d] == b[d]);
    assert(n[a.len() + d - 1] == b[d - 1]);
    assert forall|j: int| a.len() + d < j < n.len() implies (#[trigger] n[j]).call == Call::ListRuns && (answered_ok(n[j])
        ==> forall|id: u64| #[trigger] run_listed(n[j], id) ==> answered_ok(n[a.len() + d - 1]) && run_listed(n[a.len() + d - 1], id)) by {
        assert(n[j] == b[j - a.len()]);
    }
}

proof fn lemma_last_failed_after(a: Seq<Exchange>, b: Seq<Exchange>, e: GhError)
    requires
        last_failed(b, e),
    ensures
        last_failed(a + b, e),
{
    reveal(last_failed);
    assert((a + b).last() == b.last());
}

/// The last exchange of `n` fetched the repository key and its reply named
/// no key or no key id, so the build stops with `Decode`.
#[verifier::opaque]
pub open spec fn key_missing(n: Seq<Exchange>, e: GhError) -> bool {
    &&& n.len() > 0
    &&& n.last().call == Call::PublicKey
    &&& answered_ok(n.last())
    &&& (spec_body_json_str(reply_body(n.last()), "key"@) is None || spec_body_json_str(
        reply_body(n.last()),
        "key_id"@,
    ) is None)
    &&& e is Decode
}

/// Exchange `e` stored the box that the sealer call `s` gave, with `key_id`.
pub open spec fn put_carries(e: Exchange, s: Sealing, key_id: Seq<char>) -> bool {
    match s.result {
        Ok(t) => carried(e, secret_body(t, key_id)),
        Err(_) => false,
    }
}

/// The last call of the sealer in `s` refused with `e`.
pub open spec fn sealer_refused(s: Seq<Sealing>, e: GhError) -> bool {
    s.len() > 0 && s.last().result == Err::<Seq<char>, GhError>(e)
}

/// What the secrets phase did with the sealer, over its exchanges `n` (the
/// key request, then one request per stored secret) and its sealer calls
/// `sl`: secret `i` was sealed with the fetched key and its own plaintext,
/// each stored secret carries its box and the key id, a sealer call that
/// failed was the last thing done and its error is the phase's, and any
/// other failure is the last exchange's or a key reply without a key.
#[verifier::opaque]
pub open spec fn sealing_in_secrets<S: SecretSealer>(
    sealer: &S,
    n: Seq<Exchange>,
    sl: Seq<Sealing>,
    secrets: Seq<(String, Vec<u8>)>,
    r: Result<(), GhError>,
) -> bool {
    let key = spec_body_json_str(reply_body(n[0]), "key"@);
    let key_id = spec_body_json_str(reply_body(n[0]), "key_id"@);
    &&& n.len() - 1 <= sl.len() <= n.len()
    &&& sl.len() <= secrets.len()
    &&& sl.len() > 0 ==> answered_ok(n[0]) && key is Some && key_id is Some
    &&& forall|i: int|
        0 <= i < sl.len() ==> (#[trigger] sl[i]).key == key->0 && sl[i].plaintext == secrets[i].1@
            && sealer.may_seal(sl[i].key, sl[i].plaintext, sl[i].result)
    &&& forall|i: int| 1 <= i < n.len() ==> put_carries(#[trigger] n[i], sl[i - 1], key_id->0)
    &&& sl.len() == n.len() ==> (r is Err && sealer_refused(sl, r->Err_0))
    &&& r is Ok ==> sl.len() == secrets.len()
    &&& r matches Err(e) ==> last_failed(n, e) || key_missing(n, e) || (sl.len() == n.len() && sealer_refused(sl, e))
}

/// The request was answered with a success status.
pub open spec fn answered_ok(e: Exchange) -> bool {
    e.reply matches Some(p) && status_ok(p.0)
}

/// The request was answered, with a status outside 200..300.
pub open spec fn answered_not_ok(e: Exchange) -> bool {
    e.reply matches Some(p) && !status_ok(p.0)
}

/// The body of an answered request; empty when there was none.
pub open spec fn reply_body(e: Exchange) -> Seq<u8> {
    match e.reply {
        Some(p) => p.1,
        None => Seq::empty(),
    }
}

/// `p` occurs in `s`.
pub open spec fn mentions(s: Seq<char>, p: Seq<char>) -> bool {
    find_from(s, p, 0) is Some
}

pub const RUN_COMPLETED: &'static str = "\"status\":\"completed\"";
pub const RUN_SUCCEEDED: &'static str = "\"conclusion\":\"success\"";

/// What one answer about a run says.
#[derive(Clone, Copy, Debug, PartialEq, Eq, Structural)]
pub enum RunVerdict {
    /// Completed with success: its artifacts can be fetched.
    Succeeded,
    /// Completed otherwise: the build failed, and nothing is fetched.
    Failed,
    /// Not completed, or not answered with success: poll again.
    Pending,
}

pub open spec fn spec_run_verdict(status: u16, body: Seq<u8>) -> RunVerdict {
    if status_ok(status) && mentions(lossy_text(body), RUN_COMPLETED@) {
        if mentions(lossy_text(body), RUN_SUCCEEDED@) {
            RunVerdict::Succeeded
        } else {
            RunVerdict::Failed
        }
    } else {
        RunVerdict::Pending
    }
}

/// The decision on one reply to `get_run`: a 2xx reply whose body says the
/// run completed decides success or failure by its conclusion; anything
/// else means waiting.
pub fn run_verdict(status: u16, body: &[u8]) -> (v: RunVerdict)
    ensures
        v == spec_run_verdict(status, body@),
{
    if !ok(status) {
        return RunVerdict::Pending;
    }
    let text = text_lossy(body);
    let h = chars_of(text.as_str());
    let completed_pat = chars_of(RUN_COMPLETED);
    let success_pat = chars_of(RUN_SUCCEEDED);
    if find_chars(&h, &completed_pat, 0).is_none() {
        RunVerdict::Pending
    } else if find_chars(&h, &success_pat, 0).is_some() {
        RunVerdict::Succeeded
    } else {
        RunVerdict::Failed
    }
}

/// A run's reply says that it completed successfully.
pub open spec fn run_succeeded(body: Seq<u8>) -> bool {
    mentions(lossy_text(body), RUN_COMPLETED@) && mentions(lossy_text(body), RUN_SUCCEEDED@)
}

/// Some earlier exchange of `h` made call `c` and was answered with success.
pub open spec fn replied_ok_to(h: Seq<Exchange>, c: Call) -> bool {
    exists|j: int| 0 <= j < h.len() && h[j].call == c && answered_ok(#[trigger] h[j])
}

/// Some earlier exchange of `h` reported run `id` as completed successfully.
pub open spec fn reported_success(h: Seq<Exchange>, id: u64) -> bool {
    exists|j: int|
        0 <= j < h.len() && h[j].call == Call::GetRun(id) && answered_ok(#[trigger] h[j])
            && run_succeeded(reply_body(h[j]))
}

/// The ids of the artifacts an answered listing names.
pub open spec fn listed_artifact(e: Exchange, aid: u64) -> bool {
    &&& e.call is ListArtifacts
    &&& answered_ok(e)
    &&& exists|k: int|
        0 <= k < artifacts_from(lossy_text(reply_body(e)), 0).len() && (#[trigger] artifacts_from(
            lossy_text(reply_body(e)),
            0,
        )[k]).0 == aid
}

/// Some earlier exchange of `h` listed artifact `aid`.
pub open spec fn was_listed(h: Seq<Exchange>, aid: u64) -> bool {
    exists|j: int| 0 <= j < h.len() && listed_artifact(#[trigger] h[j], aid)
}

/// What must have happened before call `c` may be made:
/// a secret is stored only after the repository key was fetched; the
/// workflow is dispatched only after its file was pushed; a run's artifacts
/// are listed only after the run was reported completed and successful; an
/// artifact is downloaded only after a listing named it; and it is deleted
/// only after it was downloaded.
pub open spec fn allowed(h: Seq<Exchange>, c: Call) -> bool {
    match c {
        Call::PutSecret(_) => replied_ok_to(h, Call::PublicKey),
        Call::Dispatch => replied_ok_to(h, Call::PutFile(WORKFLOW_PATH@)),
        Call::ListArtifacts(id) => reported_success(h, id),
        Call::Download(aid) => was_listed(h, aid),
        Call::DeleteArtifact(aid) => replied_ok_to(h, Call::Download(aid)),
        _ => true,
    }
}

/// Every call of `n` was allowed by the exchanges before it.
pub open spec fn ordered(n: Seq<Exchange>) -> bool
    decreases n.len(),
{
    n.len() == 0 || (ordered(n.drop_last()) && allowed(n.drop_last(), n.last().call))
}

proof fn lemma_ordered_push(n: Seq<Exchange>, e: Exchange)
    requires
        ordered(n),
        allowed(n, e.call),
    ensures
        ordered(n.push(e)),
{
    assert(n.push(e).drop_last() =~= n);
}

/// The paths of the runtime files.
pub open spec fn file_paths(files: Seq<(String, &[u8])>) -> Seq<Seq<char>> {
    files.map_values(|f: (String, &[u8])| f.0@)
}

/// The base64 text of some bytes.
pub open spec fn b64_text(bytes: Seq<u8>) -> Seq<char> {
    base64::ascii_chars(base64::b64_encode(bytes))
}

/// Exchange `j` of `n` created or updated file `path` with `content`,
/// naming the blob SHA that the metadata fetch just before it returned.
pub open spec fn pushed_at(n: Seq<Exchange>, j: int, path: Seq<char>, content: Seq<char>, message: Seq<char>) -> bool {
    &&& 1 <= j < n.len()
    &&& n[j - 1].call == Call::GetFile(path)
    &&& n[j].call == Call::PutFile(path)
    &&& answered_ok(n[j])
    &&& carried(n[j], put_file_body(message, content, sha_of(n[j - 1])))
}

/// Some exchange of `n` pushed `path` with `content`.
pub open spec fn pushed(n: Seq<Exchange>, path: Seq<char>, content: Seq<char>, message: Seq<char>) -> bool {
    exists|j: int| #[trigger] pushed_at(n, j, path, content, message)
}

proof fn lemma_pushed_grow(n: Seq<Exchange>, m: Seq<Exchange>, path: Seq<char>, content: Seq<char>, message: Seq<char>)
    requires
        pushed(n, path, content, message),
    ensures
        pushed(n + m, path, content, message),
{
    let j = choose|j: int| #[trigger] pushed_at(n, j, path, content, message);
    assert((n + m)[j] == n[j]);
    assert((n + m)[j - 1] == n[j - 1]);
    assert(pushed_at(n + m, j, path, content, message));
}

/// No exchange of `n` deletes a file.
pub open spec fn no_deletes(n: Seq<Exchange>) -> bool {
    forall|j: int| 0 <= j < n.len() ==> !((#[trigger] n[j]).call is DeleteFile)
}

/// Only files under `prefix` that the build does not push are deleted.
pub open spec fn deletes_only(n: Seq<Exchange>, prefix: Seq<char>, keep: Seq<Seq<char>>) -> bool {
    forall|j: int|
        0 <= j < n.len() ==> ((#[trigger] n[j]).call matches Call::DeleteFile(p) ==> prefix.is_prefix_of(p)
            && !keep.contains(p))
}

proof fn lemma_prunable_selects(b: Seq<(Seq<char>, Seq<char>)>, prefix: Seq<char>, keep: Seq<Seq<char>>)
    ensures
        forall|k: int|
            0 <= k < prunable(b, prefix, keep).len() ==> prefix.is_prefix_of(
                (#[trigger] prunable(b, prefix, keep)[k]).0,
            ) && !keep.contains(prunable(b, prefix, keep)[k].0),
    decreases b.len(),
{
    if b.len() > 0 {
        lemma_prunable_selects(b.drop_last(), prefix, keep);
        let r = prunable(b.drop_last(), prefix, keep);
        let p = prunable(b, prefix, keep);
        assert forall|k: int| 0 <= k < p.len() implies prefix.is_prefix_of((#[trigger] p[k]).0)
            && !keep.contains(p[k].0) by {
            if k < r.len() {
                assert(p[k] == r[k]);
            }
        }
    }
}

/// An answered runs listing names run `id`.
pub open spec fn run_listed(e: Exchange, id: u64) -> bool {
    ids_from(lossy_text(reply_body(e)), 0).contains(id)
}

/// Exchange `i` of `n`, a runs listing made after the dispatch at `d`,
/// named run `id`, and the listing just before the dispatch, if it was
/// answered, did not.
pub open spec fn new_run_at(n: Seq<Exchange>, d: int, i: int, id: u64) -> bool {
    &&& 1 <= d < i < n.len()
    &&& n[d - 1].call == Call::ListRuns
    &&& n[d].call == Call::Dispatch
    &&& n[i].call == Call::ListRuns
    &&& answered_ok(n[i])
    &&& run_listed(n[i], id)
    &&& answered_ok(n[d - 1]) ==> !run_listed(n[d - 1], id)
}

/// Run `id` is genuinely new: it was taken from a listing made after the
/// dispatch and was absent from the listing made just before it.
pub open spec fn run_is_new(n: Seq<Exchange>, id: u64) -> bool {
    exists|d: int, i: int| #[trigger] new_run_at(n, d, i, id)
}

proof fn lemma_run_is_new_shift(a: Seq<Exchange>, b: Seq<Exchange>, c: Seq<Exchange>, id: u64)
    requires
        run_is_new(b, id),
    ensures
        run_is_new(a + b + c, id),
{
    let (d, i) = choose|d: int, i: int| #[trigger] new_run_at(b, d, i, id);
    let s = a + b + c;
    assert(s[a.len() + d] == b[d]);
    assert(s[a.len() + d - 1] == b[d - 1]);
    assert(s[a.len() + i] == b[i]);
    assert(new_run_at(s, a.len() + d, a.len() + i, id));
}

/// The first id of `ids` that `known` does not hold.
pub fn first_new(ids: &Vec<u64>, known: &Vec<u64>) -> (r: Option<u64>)
    ensures
        match r {
            Some(x) => exists|k: int|
                0 <= k < ids@.len() && ids@[k] == x && !known@.contains(x) && forall|q: int|
                    0 <= q < k ==> known@.contains(#[trigger] ids@[q]),
            None => forall|q: int| 0 <= q < ids@.len() ==> known@.contains(#[trigger] ids@[q]),
        },
{
    let mut k: usize = 0;
    while k < ids.len()
        invariant
            k <= ids@.len(),
            forall|q: int| 0 <= q < k ==> known@.contains(#[trigger] ids@[q]),
        decreases ids@.len() - k,
    {
        let x = ids[k];
        let mut found = false;
        let mut j: usize = 0;
        while j < known.len()
            invariant
                j <= known@.len(),
                found ==> known@.contains(x),
                !found ==> forall|p: int| 0 <= p < j ==> known@[p] != x,
            decreases known@.len() - j,
        {
            if known[j] == x {
                found = true;
            }
            j = j + 1;
        }
        if !found {
            return Some(x);
        }
        k = k + 1;
    }
    None
}

/// The text of each vector of characters.
pub open spec fn char_vecs(v: Seq<Vec<char>>) -> Seq<Seq<char>> {
    v.map_values(|w: Vec<char>| w@)
}

/// An artifact name names one of the wanted targets.
pub open spec fn names_wanted(name: Seq<char>, wanted: Seq<Seq<char>>) -> bool {
    exists|w: int| 0 <= w < wanted.len() && #[trigger] mentions(name, wanted[w])
}

/// An artifact for the host that is also wanted.
pub open spec fn host_pick(a: (u64, Seq<char>), host: Seq<char>, wanted: Seq<Seq<char>>) -> bool {
    mentions(a.1, host) && names_wanted(a.1, wanted)
}

/// The first index from `i` on whose entry is for the host and wanted.
pub open spec fn first_host(all: Seq<(u64, Seq<char>)>, host: Seq<char>, wanted: Seq<Seq<char>>, i: int) -> Option<int>
    decreases all.len() - i,
{
    if i < 0 || i >= all.len() {
        None
    } else if host_pick(all[i], host, wanted) {
        Some(i)
    } else {
        first_host(all, host, wanted, i + 1)
    }
}

/// The first index from `i` on whose entry is wanted.
pub open spec fn first_wanted(all: Seq<(u64, Seq<char>)>, wanted: Seq<Seq<char>>, i: int) -> Option<int>
    decreases all.len() - i,
{
    if i < 0 || i >= all.len() {
        None
    } else if names_wanted(all[i].1, wanted) {
        Some(i)
    } else {
        first_wanted(all, wanted, i + 1)
    }
}

/// The artifact to fetch: the host's own among the wanted targets, else the
/// first wanted one, else the first listed. Only one file is delivered, and a
/// capsule for another platform cannot be opened where it is delivered.
pub open spec fn chosen_artifact(all: Seq<(u64, Seq<char>)>, host: Seq<char>, wanted: Seq<Seq<char>>) -> Option<int> {
    match first_host(all, host, wanted, 0) {
        Some(k) => Some(k),
        None => match first_wanted(all, wanted, 0) {
            Some(k) => Some(k),
            None => if all.len() > 0 {
                Some(0)
            } else {
                None
            },
        },
    }
}

/// The triples of the requested targets.
pub open spec fn wanted_triples(targets: Seq<Target>) -> Seq<Seq<char>> {
    targets.map_values(|t: Target| spec_rust_target(t))
}

fn mentions_exec(name: &Vec<char>, pat: &Vec<char>) -> (r: bool)
    ensures
        r == mentions(name@, pat@),
{
    find_chars(name, pat, 0).is_some()
}

fn names_wanted_exec(name: &Vec<char>, wanted: &Vec<Vec<char>>) -> (r: bool)
    ensures
        r == names_wanted(name@, char_vecs(wanted@)),
{
    let ghost wv = char_vecs(wanted@);
    let mut k: usize = 0;
    while k < wanted.len()
        invariant
            k <= wanted@.len(),
            wv == char_vecs(wanted@),
            forall|q: int| 0 <= q < k ==> !mentions(name@, #[trigger] wv[q]),
        decreases wanted@.len() - k,
    {
        if mentions_exec(name, &wanted[k]) {
            assert(mentions(name@, wv[k as int]));
            return true;
        }
        k = k + 1;
    }
    false
}

proof fn lemma_first_host_range(all: Seq<(u64, Seq<char>)>, host: Seq<char>, wanted: Seq<Seq<char>>, i: int)
    ensures
        first_host(all, host, wanted, i) matches Some(k) ==> 0 <= i <= k < all.len(),
    decreases all.len() - i,
{
    if 0 <= i < all.len() && !host_pick(all[i], host, wanted) {
        lemma_first_host_range(all, host, wanted, i + 1);
    }
}

proof fn lemma_first_wanted_range(all: Seq<(u64, Seq<char>)>, wanted: Seq<Seq<char>>, i: int)
    ensures
        first_wanted(all, wanted, i) matches Some(k) ==> 0 <= i <= k < all.len(),
    decreases all.len() - i,
{
    if 0 <= i < all.len() && !names_wanted(all[i].1, wanted) {
        lemma_first_wanted_range(all, wanted, i + 1);
    }
}

/// A chosen index is an index of the listing.
pub proof fn lemma_chosen_in_range(all: Seq<(u64, Seq<char>)>, host: Seq<char>, wanted: Seq<Seq<char>>)
    ensures
        chosen_artifact(all, host, wanted) matches Some(k) ==> 0 <= k < all.len(),
{
    lemma_first_host_range(all, host, wanted, 0);
    lemma_first_wanted_range(all, wanted, 0);
}

proof fn lemma_first_host_found(all: Seq<(u64, Seq<char>)>, host: Seq<char>, wanted: Seq<Seq<char>>, i: int)
    requires
        0 <= i,
    ensures
        first_host(all, host, wanted, i) matches Some(k) ==> i <= k < all.len() && mentions(all[k].1, host) && names_wanted(
            all[k].1,
            wanted,
        ) && forall|j: int| i <= j < k ==> !(mentions((#[trigger] all[j]).1, host) && names_wanted(all[j].1, wanted)),
        first_host(all, host, wanted, i) is None ==> forall|j: int|
            i <= j < all.len() ==> !(mentions((#[trigger] all[j]).1, host) && names_wanted(all[j].1, wanted)),
    decreases all.len() - i,
{
    if i < all.len() && !host_pick(all[i], host, wanted) {
        lemma_first_host_found(all, host, wanted, i + 1);
    }
}

proof fn lemma_first_wanted_found(all: Seq<(u64, Seq<char>)>, wanted: Seq<Seq<char>>, i: int)
    requires
        0 <= i,
    ensures
        first_wanted(all, wanted, i) matches Some(k) ==> i <= k < all.len() && names_wanted(all[k].1, wanted) && forall|
            j: int,
        | i <= j < k ==> !names_wanted((#[trigger] all[j]).1, wanted),
        first_wanted(all, wanted, i) is None ==> forall|j: int| i <= j < all.len() ==> !names_wanted((#[trigger] all[j]).1, wanted),
    decreases all.len() - i,
{
    if i < all.len() && !names_wanted(all[i].1, wanted) {
        lemma_first_wanted_found(all, wanted, i + 1);
    }
}

/// Which artifact is fetched: when some listed artifact is for the host and
/// a wanted target, the first such one, so a capsule for another platform is
/// never fetched in its place; else, when some is for a wanted target, the
/// first of those; else the first listed; and nothing only from an empty
/// listing.
pub proof fn lemma_host_artifact_preferred(all: Seq<(u64, Seq<char>)>, host: Seq<char>, wanted: Seq<Seq<char>>)
    ensures
        chosen_artifact(all, host, wanted) is None <==> all.len() == 0,
        (exists|i: int| 0 <= i < all.len() && mentions((#[trigger] all[i]).1, host) && names_wanted(all[i].1, wanted))
            ==> (chosen_artifact(all, host, wanted) matches Some(k) && 0 <= k < all.len() && mentions(all[k].1, host)
            && names_wanted(all[k].1, wanted) && forall|j: int|
            0 <= j < k ==> !(mentions((#[trigger] all[j]).1, host) && names_wanted(all[j].1, wanted))),
        (forall|i: int| 0 <= i < all.len() ==> !(mentions((#[trigger] all[i]).1, host) && names_wanted(all[i].1, wanted)))
            && (exists|i: int| 0 <= i < all.len() && names_wanted((#[trigger] all[i]).1, wanted)) ==> (chosen_artifact(
            all,
            host,
            wanted,
        ) matches Some(k) && 0 <= k < all.len() && names_wanted(all[k].1, wanted) && forall|j: int|
            0 <= j < k ==> !names_wanted((#[trigger] all[j]).1, wanted)),
        (forall|i: int| 0 <= i < all.len() ==> !names_wanted((#[trigger] all[i]).1, wanted)) && all.len() > 0
            ==> chosen_artifact(all, host, wanted) == Some(0int),
{
    lemma_first_host_found(all, host, wanted, 0);
    lemma_first_wanted_found(all, wanted, 0);
    if exists|i: int| 0 <= i < all.len() && mentions((#[trigger] all[i]).1, host) && names_wanted(all[i].1, wanted) {
        let i = choose|i: int| 0 <= i < all.len() && mentions((#[trigger] all[i]).1, host) && names_wanted(all[i].1, wanted);
        assert(first_host(all, host, wanted, 0) is Some);
    }
    if exists|i: int| 0 <= i < all.len() && names_wanted((#[trigger] all[i]).1, wanted) {
        let i = choose|i: int| 0 <= i < all.len() && names_wanted((#[trigger] all[i]).1, wanted);
        assert(first_wanted(all, wanted, 0) is Some);
    }
}

/// The index that `chosen_artifact` names.
pub fn choose_artifact(all: &Vec<(u64, String)>, wanted: &Vec<Vec<char>>, host: &Vec<char>) -> (r: Option<usize>)
    ensures
        match chosen_artifact(pairs_text(all@), host@, char_vecs(wanted@)) {
            Some(k) => r == Some(k as usize),
            None => r is None,
        },
        (exists|i: int|
            0 <= i < all@.len() && mentions((#[trigger] pairs_text(all@)[i]).1, host@) && names_wanted(
                pairs_text(all@)[i].1,
                char_vecs(wanted@),
            )) ==> (r matches Some(k) && k < all@.len() && mentions(all@[k as int].1@, host@) && names_wanted(
            all@[k as int].1@,
            char_vecs(wanted@),
        )),
{
    proof {
        lemma_host_artifact_preferred(pairs_text(all@), host@, char_vecs(wanted@));
    }
    let ghost av = pairs_text(all@);
    let ghost wv = char_vecs(wanted@);
    let mut i: usize = 0;
    while i < all.len()
        invariant
            i <= all@.len(),
            av == pairs_text(all@),
            av.len() == all@.len(),
            wv == char_vecs(wanted@),
            first_host(av, host@, wv, 0) == first_host(av, host@, wv, i as int),
        decreases all@.len() - i,
    {
        let name = chars_of(all[i].1.as_str());
        assert(av[i as int].1 == name@);
        if mentions_exec(&name, host) && names_wanted_exec(&name, wanted) {
            return Some(i);
        }
        i = i + 1;
    }
    let mut j: usize = 0;
    while j < all.len()
        invariant
            j <= all@.len(),
            av == pairs_text(all@),
            av.len() == all@.len(),
            wv == char_vecs(wanted@),
            first_host(av, host@, wv, 0) is None,
            first_wanted(av, wv, 0) == first_wanted(av, wv, j as int),
        decreases all@.len() - j,
    {
        let name = chars_of(all[j].1.as_str());
        assert(av[j as int].1 == name@);
        if names_wanted_exec(&name, wanted) {
            proof {
                lemma_first_host_found(av, host@, wv, 0);
            }
            return Some(j);
        }
        j = j + 1;
    }
    if all.len() > 0 {
        Some(0)
    } else {
        None
    }
}

/// The listing an exchange returned, as `(id, name)` pairs.
pub open spec fn listing_of(e: Exchange) -> Seq<(u64, Seq<char>)> {
    artifacts_from(lossy_text(reply_body(e)), 0)
}

/// An artifact value as bytes.
pub open spec fn opt_bytes(o: Option<Vec<u8>>) -> Option<Seq<u8>> {
    match o {
        Some(v) => Some(v@),
        None => None,
    }
}

/// The states a complete build reports: `pruned` when files of an earlier
/// build were removed, `finished` when the run completed within the wait
/// and its artifact was fetched.
pub open spec fn build_trace(pruned: bool, finished: bool) -> Seq<BuildState> {
    seq![
        BuildState::Authenticate,
        BuildState::EnsureRepo,
        BuildState::SetVisibility,
        BuildState::PushSecrets,
        BuildState::PushWorkflow,
    ] + (if pruned {
        seq![BuildState::PushRuntime]
    } else {
        Seq::empty()
    }) + seq![BuildState::PushRuntime, BuildState::Dispatch, BuildState::Poll, BuildState::WaitForRun]
        + (if finished {
        seq![BuildState::FetchArtifact, BuildState::Verify]
    } else {
        Seq::empty()
    }) + seq![BuildState::Done]
}

/// The trace of one build follows the order of the phases: it is the start
/// of a complete build's trace, all of it when the build succeeded, and it
/// reaches `Done` only then.
pub open spec fn trace_follows(t: Seq<BuildState>, succeeded: bool) -> bool {
    exists|p: bool, f: bool|
        t.is_prefix_of(#[trigger] build_trace(p, f)) && (succeeded ==> t == build_trace(p, f)) && (
        !succeeded ==> !t.contains(BuildState::Done))
}

/// Secret `name` was stored: a call for it was answered with success.
/// The exchange stored a secret as something the sealer may give for
/// `plaintext` and `key`, with the repository's `key_id`.
pub open spec fn sealed_put<S: SecretSealer>(sealer: &S, e: Exchange, key: Seq<char>, key_id: Seq<char>, plaintext: Seq<u8>) -> bool {
    exists|s: Seq<char>| #[trigger] sealer.may_seal(key, plaintext, Ok(s)) && carried(e, secret_body(s, key_id))
}

/// The workflow was dispatched for `git_ref`, with the token's headers.
pub open spec fn dispatched_ref(n: Seq<Exchange>, git_ref: Seq<char>, token: Seq<char>) -> bool {
    exists|j: int|
        0 <= j < n.len() && (#[trigger] n[j]).call == Call::Dispatch && carried(
            n[j],
            "{\"ref\":\""@ + git_ref + "\"}"@,
        ) && n[j].headers == spec_auth_headers(token)
}

/// A download among the last two exchanges that was answered.
pub open spec fn downloaded_at(n: Seq<Exchange>, j: int) -> bool {
    0 <= j && n.len() - 2 <= j < n.len() && n[j].call is Download && answered_ok(n[j])
}

/// What the build keeps for the caller: the artifact downloaded at the end
/// of the build, or, when none was, what it kept before.
pub open spec fn delivered(n: Seq<Exchange>, before: Option<Seq<u8>>, after: Option<Seq<u8>>) -> bool {
    ||| exists|j: int| #[trigger] downloaded_at(n, j) && after == Some(reply_body(n[j]))
    ||| after == before && forall|j: int| !(#[trigger] downloaded_at(n, j))
}

pub open spec fn stored(n: Seq<Exchange>, name: Seq<char>) -> bool {
    exists|j: int| 0 <= j < n.len() && n[j].call == Call::PutSecret(name) && answered_ok(#[trigger] n[j])
}

proof fn lemma_pushed_prepend(a: Seq<Exchange>, b: Seq<Exchange>, path: Seq<char>, content: Seq<char>, message: Seq<char>)
    requires
        pushed(b, path, content, message),
    ensures
        pushed(a + b, path, content, message),
{
    let j = choose|j: int| #[trigger] pushed_at(b, j, path, content, message);
    assert((a + b)[a.len() + j] == b[j]);
    assert((a + b)[a.len() + j - 1] == b[j - 1]);
    assert(pushed_at(a + b, a.len() + j, path, content, message));
}

proof fn lemma_stored_grow(a: Seq<Exchange>, b: Seq<Exchange>, name: Seq<char>)
    requires
        stored(a, name),
    ensures
        stored(a + b, name),
{
    let j = choose|j: int| 0 <= j < a.len() && a[j].call == Call::PutSecret(name) && answered_ok(#[trigger] a[j]);
    assert((a + b)[j] == a[j]);
}

proof fn lemma_no_deletes(n: Seq<Exchange>, prefix: Seq<char>, keep: Seq<Seq<char>>)
    requires
        no_deletes(n),
    ensures
        deletes_only(n, prefix, keep),
{
}

proof fn lemma_deletes_only_add(a: Seq<Exchange>, b: Seq<Exchange>, prefix: Seq<char>, keep: Seq<Seq<char>>)
    requires
        deletes_only(a, prefix, keep),
        deletes_only(b, prefix, keep),
    ensures
        deletes_only(a + b, prefix, keep),
{
    assert forall|j: int| 0 <= j < (a + b).len() implies ((#[trigger] (a + b)[j]).call matches Call::DeleteFile(p)
        ==> prefix.is_prefix_of(p) && !keep.contains(p)) by {
        if j < a.len() {
            assert((a + b)[j] == a[j]);
        } else {
            assert((a + b)[j] == b[j - a.len()]);
        }
    }
}

/// Every call of `n` reads or writes repository files.
pub open spec fn file_calls(n: Seq<Exchange>) -> bool {
    forall|j: int|
        0 <= j < n.len() ==> ((#[trigger] n[j]).call is GetFile || n[j].call is PutFile || n[j].call is GetTree
            || n[j].call is DeleteFile)
}

proof fn lemma_file_calls_add(a: Seq<Exchange>, b: Seq<Exchange>)
    requires
        file_calls(a),
        file_calls(b),
    ensures
        file_calls(a + b),
{
    assert forall|j: int| 0 <= j < (a + b).len() implies ((#[trigger] (a + b)[j]).call is GetFile || (a
        + b)[j].call is PutFile || (a + b)[j].call is GetTree || (a + b)[j].call is DeleteFile) by {
        if j < a.len() {
            assert((a + b)[j] == a[j]);
        } else {
            assert((a + b)[j] == b[j - a.len()]);
        }
    }
}

/// Drives a capsule build on GitHub.
pub struct Orchestrator<'a, T: Transport, S: SecretSealer> {
    pub transport: &'a T,
    pub sealer: &'a S,
    pub build_running: bool,
    /// The downloaded artifact, kept so the caller can write it out after the
    /// provenance check has passed.
    pub last_artifact: Option<Vec<u8>>,
    /// How many times to poll for run completion before giving up.
    pub max_wait_polls: u32,
    /// Seconds between polls, handed to `Transport::pause`.
    pub poll_interval_secs: u64,
    /// Remove the artifact from GitHub once it has been downloaded.
    pub delete_artifact_after_download: bool,
    /// The platform whose artifact is preferred when several were built.
    pub host: Target,
    /// Every exchange made so far, in order.
    pub log: Ghost<Seq<Exchange>>,
    /// Every call of the sealer so far, in order.
    pub seals: Ghost<Seq<Sealing>>,
}

impl<'a, T: Transport, S: SecretSealer> Orchestrator<'a, T, S> {
    /// Settings other than the log and the running flag are unchanged.
    pub open spec fn same_settings(&self, other: &Self) -> bool {
        &&& self.same_config(other)
        &&& self.seals == other.seals
    }

    /// The transport, the sealer and the settings are unchanged.
    pub open spec fn same_config(&self, other: &Self) -> bool {
        &&& self.transport == other.transport
        &&& self.sealer == other.sealer
        &&& self.max_wait_polls == other.max_wait_polls
        &&& self.poll_interval_secs == other.poll_interval_secs
        &&& self.delete_artifact_after_download == other.delete_artifact_after_download
        &&& self.host == other.host
    }

    /// About twenty minutes of polling, deletion after download, and the
    /// Linux artifact preferred; a caller on another platform sets `host`.
    pub fn new(transport: &'a T, sealer: &'a S) -> (o: Self)
        ensures
            !o.build_running,
            o.last_artifact is None,
            o.max_wait_polls == 80,
            o.poll_interval_secs == 15,
            o.delete_artifact_after_download,
            o.host == Target::LinuxGnu,
            o.log@ == Seq::<Exchange>::empty(),
            o.seals@ == Seq::<Sealing>::empty(),
            o.transport == transport,
            o.sealer == sealer,
    {
        Orchestrator {
            transport,
            sealer,
            build_running: false,
            last_artifact: None,
            max_wait_polls: 80,
            poll_interval_secs: 15,
            delete_artifact_after_download: true,
            host: Target::LinuxGnu,
            log: Ghost(Seq::empty()),
            seals: Ghost(Seq::empty()),
        }
    }

    /// Send one request and record the exchange.
    fn exchange(
        &mut self,
        cfg: &RepoConfig,
        req: &HttpRequest,
        Ghost(c): Ghost<Call>,
        Ghost(base): Ghost<Seq<Exchange>>,
    ) -> (r: Result<HttpResponse, GhError>)
        requires
            call_target(c, cfg.owner@, cfg.repo@) == (req.method, req.url@),
            grew(base, old(self).log@),
            ordered(added(base, old(self).log@)),
            allowed(added(base, old(self).log@), c),
        ensures
            final(self).log@ == old(self).log@.push(exchange_of(c, *req, r)),
            grew(base, final(self).log@),
            added(base, final(self).log@) == added(base, old(self).log@).push(exchange_of(c, *req, r)),
            ordered(added(base, final(self).log@)),
            final(self).same_settings(old(self)),
            final(self).build_running == old(self).build_running,
            final(self).last_artifact == old(self).last_artifact,
    {
        let r = self.transport.send(req);
        proof {
            let e = exchange_of(c, *req, r);
            lemma_grew_push(base, self.log@, e);
            lemma_ordered_push(added(base, self.log@), e);
            self.log@ = self.log@.push(e);
        }
        r
    }

    /// Change visibility; refused while a build is running.
    pub fn change_visibility(&mut self, cfg: &RepoConfig, private: bool) -> (r: Result<(), GhError>)
        ensures
            final(self).same_settings(old(self)),
            final(self).build_running == old(self).build_running,
            final(self).last_artifact == old(self).last_artifact,
            old(self).build_running ==> {
                &&& r matches Err(GhError::Precondition(m)) && m@ == VISIBILITY_REFUSED@
                &&& final(self).log@ == old(self).log@
            },
            !old(self).build_running ==> {
                let e = final(self).log@.last();
                &&& final(self).log@.len() == old(self).log@.len() + 1
                &&& final(self).log@.drop_last() == old(self).log@
                &&& e.call == Call::SetVisibility
                &&& e.method == Method::Patch
                &&& e.url == repo_url(cfg.owner@, cfg.repo@)
                &&& e.headers == spec_auth_headers(cfg.token@)
                &&& carried(e, visibility_body(private))
                &&& (r is Ok <==> answered_ok(e))
                &&& (answered_not_ok(e) ==> (r matches Err(GhError::Status(s)) && Some(s) == status_of(e)))
                &&& (e.error matches Some(x) ==> r == Err::<(), GhError>(x))
            },
    {
        if self.build_running {
            return Err(GhError::Precondition(VISIBILITY_REFUSED));
        }
        let req = set_visibility(cfg.token.as_str(), cfg.owner.as_str(), cfg.repo.as_str(), private);
        proof {
            lemma_grew_refl(self.log@);
        }
        let sent = self.exchange(cfg, &req, Ghost(Call::SetVisibility), Ghost(self.log@));
        proof {
            assert(self.log@.drop_last() =~= old(self).log@);
        }
        match sent {
            Err(e) => Err(e),
            Ok(resp) => {
                if !ok(resp.status) {
                    Err(GhError::Status(resp.status))
                } else {
                    Ok(())
                }
            },
        }
    }

    /// Create the repository (or find it already there) and set its
    /// visibility.
    fn ensure_repo(&mut self, cfg: &RepoConfig, trace: &mut Vec<BuildState>, Ghost(base): Ghost<Seq<Exchange>>) -> (r:
        Result<(), GhError>)
        requires
            grew(base, old(self).log@),
            ordered(added(base, old(self).log@)),
        ensures
            no_deletes(added(old(self).log@, final(self).log@)),
            final(self).same_settings(old(self)),
            final(self).build_running == old(self).build_running,
            final(self).last_artifact == old(self).last_artifact,
            grew(old(self).log@, final(self).log@),
            grew(base, final(self).log@),
            ordered(added(base, final(self).log@)),
            added(base, final(self).log@) == added(base, old(self).log@) + added(
                old(self).log@,
                final(self).log@,
            ),
            final(trace)@ == old(trace)@ + seq![BuildState::EnsureRepo] || final(trace)@ == old(trace)@
                + seq![BuildState::EnsureRepo, BuildState::SetVisibility],
            r is Ok ==> final(trace)@ == old(trace)@ + seq![BuildState::EnsureRepo, BuildState::SetVisibility],
            ({
                let n = added(old(self).log@, final(self).log@);
                &&& 1 <= n.len() <= 2
                &&& n[0].call == Call::CreateRepo
                &&& carried(n[0], create_repo_body(cfg.repo@, cfg.private))
                &&& n.len() == 2 ==> n[1].call == Call::SetVisibility && carried(
                    n[1],
                    visibility_body(cfg.private),
                )
                &&& r is Ok <==> (n.len() == 2 && answered_ok(n[1]) && (answered_ok(n[0]) || status_of(
                    n[0],
                ) == Some(422u16)))
                &&& r matches Err(e) ==> last_failed(n, e)
            }),
    {
        reveal(last_failed);
        let ghost start = self.log@;
        proof {
            lemma_grew_refl(start);
        }
        trace.push(BuildState::EnsureRepo);
        let req = create_repo(cfg.token.as_str(), cfg.repo.as_str(), cfg.private);
        let r = self.exchange(cfg, &req, Ghost(Call::CreateRepo), Ghost(base));
        proof {
            lemma_grew_push(start, start, self.log@.last());
            lemma_grew_trans(base, start, self.log@);
        }
        proof {
            assert(added(start, self.log@).last() == self.log@.last());
        }
        let resp = match r {
            Err(e) => return Err(e),
            Ok(x) => x,
        };
        // Created, or already there.
        if !ok(resp.status) && resp.status != 422 {
            return Err(GhError::Status(resp.status));
        }
        trace.push(BuildState::SetVisibility);
        let ghost mid = self.log@;
        let req = set_visibility(cfg.token.as_str(), cfg.owner.as_str(), cfg.repo.as_str(), cfg.private);
        let r = self.exchange(cfg, &req, Ghost(Call::SetVisibility), Ghost(base));
        proof {
            lemma_grew_push(start, mid, self.log@.last());
            lemma_grew_trans(base, start, self.log@);
        }
        proof {
            assert(added(start, self.log@).last() == self.log@.last());
        }
        match r {
            Err(e) => Err(e),
            Ok(resp) => {
                if !ok(resp.status) {
                    Err(GhError::Status(resp.status))
                } else {
                    Ok(())
                }
            },
        }
    }

    /// Ask the sealer, and record what it was handed and what it answered.
    fn seal_logged(&mut self, key: &str, plaintext: &[u8]) -> (r: Result<String, GhError>)
        ensures
            final(self).seals@ == old(self).seals@.push(
                Sealing { key: key@, plaintext: plaintext@, result: text_result(r) },
            ),
            final(self).same_config(old(self)),
            final(self).log == old(self).log,
            final(self).build_running == old(self).build_running,
            final(self).last_artifact == old(self).last_artifact,
            old(self).sealer.may_seal(key@, plaintext@, text_result(r)),
    {
        let r = self.sealer.seal(key, plaintext);
        proof {
            self.seals@ = self.seals@.push(Sealing { key: key@, plaintext: plaintext@, result: text_result(r) });
        }
        r
    }

    /// Fetch the repository's public key, then seal and store each secret.
    /// A secret is only ever sent as the sealer's output.
    fn push_secrets(
        &mut self,
        cfg: &RepoConfig,
        secrets: &Vec<(String, Vec<u8>)>,
        trace: &mut Vec<BuildState>,
        Ghost(base): Ghost<Seq<Exchange>>,
    ) -> (r: Result<(), GhError>)
        requires
            grew(base, old(self).log@),
            ordered(added(base, old(self).log@)),
        ensures
            no_deletes(added(old(self).log@, final(self).log@)),
            final(self).same_config(old(self)),
            final(self).seals@ == old(self).seals@ + seals_added(old(self).seals@, final(self).seals@),
            final(self).build_running == old(self).build_running,
            final(self).last_artifact == old(self).last_artifact,
            grew(old(self).log@, final(self).log@),
            grew(base, final(self).log@),
            ordered(added(base, final(self).log@)),
            added(base, final(self).log@) == added(base, old(self).log@) + added(
                old(self).log@,
                final(self).log@,
            ),
            final(trace)@ == old(trace)@.push(BuildState::PushSecrets),
            ({
                let n = added(old(self).log@, final(self).log@);
                let key = spec_body_json_str(reply_body(n[0]), "key"@);
                let key_id = spec_body_json_str(reply_body(n[0]), "key_id"@);
                &&& 1 <= n.len() <= secrets@.len() + 1
                &&& n[0].call == Call::PublicKey
                &&& carried(n[0], Seq::empty())
                &&& n.len() > 1 ==> answered_ok(n[0]) && key is Some && key_id is Some
                &&& forall|i: int|
                    1 <= i < n.len() ==> (#[trigger] n[i]).call == Call::PutSecret(secrets@[i - 1].0@)
                &&& r is Ok <==> (answered_ok(n[0]) && key is Some && key_id is Some && n.len()
                    == secrets@.len() + 1 && forall|i: int| 1 <= i < n.len() ==> answered_ok(#[trigger] n[i]))
                &&& answered_not_ok(n[0]) ==> (r matches Err(GhError::Status(s)) && Some(s) == status_of(n[0]))
                &&& (answered_ok(n[0]) && (key is None || key_id is None)) ==> (r matches Err(GhError::Decode))
                &&& forall|i: int|
                    1 <= i < n.len() ==> sealed_put(
                        old(self).sealer,
                        #[trigger] n[i],
                        key->0,
                        key_id->0,
                        secrets@[i - 1].1@,
                    )
                &&& sealing_in_secrets(
                    old(self).sealer,
                    n,
                    seals_added(old(self).seals@, final(self).seals@),
                    secrets@,
                    r,
                )
                &&& (r is Err && answered_ok(n[0]) && key is Some && key_id is Some && n.len() <= secrets@.len()
                    && forall|i: int| 1 <= i < n.len() ==> answered_ok(#[trigger] n[i])) ==> exists|e: GhError|
                    r == Err::<(), GhError>(e) && #[trigger] old(self).sealer.may_seal(
                        key->0,
                        secrets@[n.len() - 1].1@,
                        Err(e),
                    )
            }),
    {
        reveal(last_failed);
        reveal(key_missing);
        reveal(sealing_in_secrets);
        let ghost start = self.log@;
        let ghost s0 = self.seals@;
        let ghost mut sl: Seq<Sealing> = Seq::empty();
        proof {
            lemma_grew_refl(start);
            assert(s0 + sl =~= s0);
        }
        trace.push(BuildState::PushSecrets);
        let req = get_actions_public_key(cfg.token.as_str(), cfg.owner.as_str(), cfg.repo.as_str());
        let ghost pk = added(base, start).len();
        let r = self.exchange(cfg, &req, Ghost(Call::PublicKey), Ghost(base));
        proof {
            lemma_grew_push(start, start, self.log@.last());
            lemma_grew_trans(base, start, self.log@);
        }
        let ghost e0 = self.log@.last();
        let resp = match r {
            Err(e) => {
                proof { assert(seals_added(s0, self.seals@) =~= sl); }
                return Err(e);
            },
            Ok(x) => x,
        };
        if !ok(resp.status) {
            proof { assert(seals_added(s0, self.seals@) =~= sl); }
            return Err(GhError::Status(resp.status));
        }
        proof {
            reveal_strlit("key");
            reveal_strlit("key_id");
        }
        let repo_pub = match json_str(resp.body.as_slice(), "key") {
            Some(k) => k,
            None => {
                proof { assert(seals_added(s0, self.seals@) =~= sl); }
                return Err(GhError::Decode);
            },
        };
        let key_id = match json_str(resp.body.as_slice(), "key_id") {
            Some(k) => k,
            None => {
                proof { assert(seals_added(s0, self.seals@) =~= sl); }
                return Err(GhError::Decode);
            },
        };
        let mut i: usize = 0;
        while i < secrets.len()
            invariant
                i <= secrets@.len(),
                start == old(self).log@,
                grew(start, self.log@),
                grew(base, start),
                grew(base, self.log@),
                ordered(added(base, self.log@)),
                added(base, self.log@) == added(base, start) + added(start, self.log@),
                self.same_config(old(self)),
                s0 == old(self).seals@,
                self.seals@ == s0 + sl,
                self.build_running == old(self).build_running,
                self.last_artifact == old(self).last_artifact,
                pk == added(base, start).len(),
                trace@ == old(trace)@.push(BuildState::PushSecrets),
                added(base, self.log@)[pk as int] == e0,
                e0.call == Call::PublicKey,
                carried(e0, Seq::empty()),
                answered_ok(e0),
                spec_body_json_str(reply_body(e0), "key"@) is Some,
                spec_body_json_str(reply_body(e0), "key_id"@) is Some,
                repo_pub@ == spec_body_json_str(reply_body(e0), "key"@)->0,
                key_id@ == spec_body_json_str(reply_body(e0), "key_id"@)->0,
                ({
                    let n = added(start, self.log@);
                    &&& n.len() == i + 1
                    &&& n[0] == e0
                    &&& forall|j: int|
                        1 <= j < n.len() ==> (#[trigger] n[j]).call == Call::PutSecret(secrets@[j - 1].0@)
                            && answered_ok(n[j])
                    &&& forall|j: int|
                        1 <= j < n.len() ==> sealed_put(
                            old(self).sealer,
                            #[trigger] n[j],
                            repo_pub@,
                            key_id@,
                            secrets@[j - 1].1@,
                        )
                    &&& sl.len() == i
                    &&& forall|j: int|
                        0 <= j < i ==> (#[trigger] sl[j]).key == repo_pub@
                            && sl[j].plaintext == secrets@[j].1@ && old(self).sealer.may_seal(
                            sl[j].key,
                            sl[j].plaintext,
                            sl[j].result,
                        )
                    &&& forall|j: int|
                        1 <= j < n.len() ==> put_carries(#[trigger] n[j], sl[j - 1], key_id@)
                }),
            decreases secrets@.len() - i,
        {
            let name = &secrets[i].0;
            let plaintext = &secrets[i].1;
            proof {
                reveal(sealing_in_secrets);
                reveal(last_failed);
                reveal(key_missing);
            }
            let ghost sbefore = sl;
            let ghost nbefore = added(start, self.log@);
            let sealing = self.seal_logged(repo_pub.as_str(), plaintext.as_slice());
            proof {
                sl = sl.push(Sealing { key: repo_pub@, plaintext: plaintext@, result: text_result(sealing) });
                assert(self.seals@ =~= s0 + sl);
                assert(forall|j: int| 0 <= j < i ==> sl[j] == sbefore[j]);
            }
            let sealed = match sealing {
                Ok(v) => v,
                Err(e) => {
                    proof {
                        let n = added(start, self.log@);
                        assert(n.len() - 1 == i);
                        assert(self.sealer.may_seal(repo_pub@, secrets@[n.len() - 1].1@, Err(e)));
                        assert(sl.last().result == Err::<Seq<char>, GhError>(e));
                        assert forall|j: int| 0 <= j < i + 1 implies (#[trigger] sl[j]).key == repo_pub@
                            && sl[j].plaintext == secrets@[j].1@ && old(self).sealer.may_seal(
                            sl[j].key,
                            sl[j].plaintext,
                            sl[j].result,
                        ) by {
                            if j < i {
                                assert(sl[j] == sbefore[j]);
                            }
                        }
                        assert forall|j: int| 1 <= j < n.len() implies put_carries(#[trigger] n[j], sl[j - 1], key_id@) by {
                            assert(n[j] == nbefore[j]);
                            assert(sl[j - 1] == sbefore[j - 1]);
                        }
                    }
                    proof {
                        assert(seals_added(s0, self.seals@) =~= sl);
                        let n = added(start, self.log@);
                    }
                    return Err(e);
                },
            };
            let req = put_secret(
                cfg.token.as_str(),
                cfg.owner.as_str(),
                cfg.repo.as_str(),
                name.as_str(),
                sealed.as_str(),
                key_id.as_str(),
            );
            let ghost mid = self.log@;
            let ghost n0 = added(start, mid);
            assert(added(base, self.log@)[pk as int].call == Call::PublicKey && answered_ok(
                added(base, self.log@)[pk as int],
            ));
            let r = self.exchange(cfg, &req, Ghost(Call::PutSecret(name@)), Ghost(base));
            proof {
                lemma_grew_push(start, mid, self.log@.last());
                lemma_grew_trans(base, start, self.log@);
                let n = added(start, self.log@);
                assert forall|j: int| 1 <= j < n.len() - 1 implies (#[trigger] n[j]).call == Call::PutSecret(
                    secrets@[j - 1].0@,
                ) && answered_ok(n[j]) by {
                    assert(n[j] == n0[j]);
                }
                assert(self.sealer.may_seal(repo_pub@, plaintext@, Ok(sealed@)));
                assert(carried(n[n.len() - 1], secret_body(sealed@, key_id@)));
                assert forall|j: int| 1 <= j < n.len() implies sealed_put(
                    self.sealer,
                    #[trigger] n[j],
                    repo_pub@,
                    key_id@,
                    secrets@[j - 1].1@,
                ) by {
                    if j < n.len() - 1 {
                        assert(n[j] == n0[j]);
                    }
                }
                assert(sl[i as int].result == Ok::<Seq<char>, GhError>(sealed@));
                assert forall|j: int| 1 <= j < n.len() implies put_carries(#[trigger] n[j], sl[j - 1], key_id@) by {
                    if j < n.len() - 1 {
                        assert(n[j] == n0[j]);
                        assert(n0[j] == nbefore[j]);
                        assert(sl[j - 1] == sbefore[j - 1]);
                    }
                }
                assert forall|j: int| 0 <= j < i + 1 implies (#[trigger] sl[j]).key == repo_pub@
                    && sl[j].plaintext == secrets@[j].1@ && old(self).sealer.may_seal(
                    sl[j].key,
                    sl[j].plaintext,
                    sl[j].result,
                ) by {
                    if j < i {
                        assert(sl[j] == sbefore[j]);
                    }
                }
            }
            let resp = match r {
                Err(e) => {
                    proof {
                        assert(seals_added(s0, self.seals@) =~= sl);
                        let n = added(start, self.log@);
                        assert(n.last() == self.log@.last());
                    }
                    return Err(e);
                },
                Ok(x) => x,
            };
            if !ok(resp.status) {
                proof {
                    let n = added(start, self.log@);
                    assert(n.last() == self.log@.last());
                }
                assert(!answered_ok(added(start, self.log@)[i + 1]));
                proof { assert(seals_added(s0, self.seals@) =~= sl); }
                return Err(GhError::Status(resp.status));
            }
            i = i + 1;
        }
        proof { assert(seals_added(s0, self.seals@) =~= sl); }
        Ok(())
    }

    /// Push the workflow, remove what an earlier build left under the runtime
    /// directory, then push the runtime files.
    fn push_files(
        &mut self,
        cfg: &RepoConfig,
        inputs: &BuildInputs,
        trace: &mut Vec<BuildState>,
        Ghost(base): Ghost<Seq<Exchange>>,
    ) -> (r: Result<(), GhError>)
        requires
            grew(base, old(self).log@),
            ordered(added(base, old(self).log@)),
        ensures
            final(self).same_settings(old(self)),
            final(self).build_running == old(self).build_running,
            final(self).last_artifact == old(self).last_artifact,
            grew(old(self).log@, final(self).log@),
            grew(base, final(self).log@),
            ordered(added(base, final(self).log@)),
            added(base, final(self).log@) == added(base, old(self).log@) + added(
                old(self).log@,
                final(self).log@,
            ),
            deletes_only(
                added(old(self).log@, final(self).log@),
                inputs.runtime_dir@ + "/"@,
                file_paths(inputs.runtime_files@),
            ),
            final(trace)@ == old(trace)@.push(BuildState::PushWorkflow) || final(trace)@ == old(trace)@
                + seq![BuildState::PushWorkflow, BuildState::PushRuntime] || final(trace)@ == old(trace)@
                + seq![BuildState::PushWorkflow, BuildState::PushRuntime, BuildState::PushRuntime],
            r is Ok ==> final(trace)@ != old(trace)@.push(BuildState::PushWorkflow),
            file_calls(added(old(self).log@, final(self).log@)),
            added(old(self).log@, final(self).log@).len() > 0,
            r matches Err(e) ==> last_failed(added(old(self).log@, final(self).log@), e),
            r is Ok ==> {
                let n = added(old(self).log@, final(self).log@);
                &&& pushed(
                    n,
                    WORKFLOW_PATH@,
                    b64_text(encode_utf8(spec_workflow_yaml(inputs.targets@, inputs.runtime_dir@))),
                    WORKFLOW_MESSAGE@,
                )
                &&& forall|k: int|
                    0 <= k < inputs.runtime_files@.len() ==> pushed(
                        n,
                        #[trigger] inputs.runtime_files@[k].0@,
                        b64_text(inputs.runtime_files@[k].1@),
                        RUNTIME_MESSAGE@,
                    )
            },
    {
        let ghost start = self.log@;
        proof {
            lemma_grew_refl(start);
        }
        trace.push(BuildState::PushWorkflow);
        let yaml = workflow_yaml(inputs.targets.as_slice(), inputs.runtime_dir.as_str());
        let content = base64::encode(yaml.as_str().as_bytes());
        proof {
            reveal_strlit(".github/workflows/nyeda.yml");
        }
        let r = self.put_or_update(cfg, WORKFLOW_PATH, content.as_str(), WORKFLOW_MESSAGE, Ghost(base));
        proof {
            lemma_grew_trans(base, start, self.log@);
            let n = added(start, self.log@);
            assert(file_calls(n)) by {
                assert forall|j: int| 0 <= j < n.len() implies ((#[trigger] n[j]).call is GetFile || n[j].call is PutFile
                    || n[j].call is GetTree || n[j].call is DeleteFile) by {
                    if j == 1 {
                        assert(n[1].call == Call::PutFile(WORKFLOW_PATH@));
                    }
                }
            }
        }
        if let Err(e) = r {
            proof {
                assert(added(start, self.log@) =~= Seq::<Exchange>::empty() + added(start, self.log@));
                lemma_last_failed_after(Seq::empty(), added(start, self.log@), e);
            }
            return Err(e);
        }
        let ghost after_wf = self.log@;
        proof {
            let n = added(start, self.log@);
            assert(pushed_at(n, 1, WORKFLOW_PATH@, content@, WORKFLOW_MESSAGE@));
        }
        // Clear anything left by an earlier build before pushing this one.
        let mut keep: Vec<String> = Vec::new();
        let mut k: usize = 0;
        while k < inputs.runtime_files.len()
            invariant
                k <= inputs.runtime_files@.len(),
                texts(keep@) == file_paths(inputs.runtime_files@.take(k as int)),
            decreases inputs.runtime_files@.len() - k,
        {
            let ghost before = keep@;
            let c = inputs.runtime_files[k].0.clone();
            assert(c@ == inputs.runtime_files@[k as int].0@);
            keep.push(c);
            assert(keep@ =~= before.push(c));
            assert(before.len() == k) by {
                assert(texts(before).len() == before.len());
            }
            assert(texts(keep@) =~= file_paths(inputs.runtime_files@.take(k + 1))) by {
                assert forall|j: int| 0 <= j < k + 1 implies #[trigger] texts(keep@)[j] == file_paths(
                    inputs.runtime_files@.take(k + 1),
                )[j] by {
                    if j < k {
                        assert(keep@[j] == before[j]);
                        assert(texts(before)[j] == file_paths(inputs.runtime_files@.take(k as int))[j]);
                    }
                }
            }
            k = k + 1;
        }
        assert(inputs.runtime_files@.take(k as int) =~= inputs.runtime_files@);
        let mut prefix = inputs.runtime_dir.clone();
        prefix.append("/");
        let ghost before_prune = self.log@;
        let pruned = match self.prune_stale(cfg, &prefix, &keep, inputs.git_ref.as_str(), Ghost(base)) {
            Ok(c) => c,
            Err(_) => 0,
        };
        proof {
            let n = added(before_prune, self.log@);
            let sel = if answered_ok(n[0]) {
                prunable(blobs_from(lossy_text(reply_body(n[0])), 0), prefix@, texts(keep@))
            } else {
                Seq::empty()
            };
            if answered_ok(n[0]) {
                lemma_prunable_selects(blobs_from(lossy_text(reply_body(n[0])), 0), prefix@, texts(keep@));
            }
            assert(deletes_only(n, prefix@, texts(keep@))) by {
                assert forall|j: int| 0 <= j < n.len() implies ((#[trigger] n[j]).call matches Call::DeleteFile(p)
                    ==> prefix@.is_prefix_of(p) && !texts(keep@).contains(p)) by {
                    if j >= 1 {
                        assert(n[j].call == Call::DeleteFile(sel[j - 1].0));
                    }
                }
            }
            lemma_grew_trans(start, before_prune, self.log@);
            lemma_grew_refl(after_wf);
            lemma_grew_trans(start, after_wf, before_prune);
            lemma_pushed_grow(
                added(start, after_wf),
                added(after_wf, self.log@),
                WORKFLOW_PATH@,
                b64_text(encode_utf8(spec_workflow_yaml(inputs.targets@, inputs.runtime_dir@))),
                WORKFLOW_MESSAGE@,
            );
            lemma_grew_trans(start, after_wf, self.log@);
            let all = added(start, self.log@);
            let n0 = added(start, before_prune);
            assert(file_calls(n)) by {
                assert forall|j: int| 0 <= j < n.len() implies ((#[trigger] n[j]).call is GetFile || n[j].call is PutFile
                    || n[j].call is GetTree || n[j].call is DeleteFile) by {
                    if j >= 1 {
                        assert(n[j].call == Call::DeleteFile(sel[j - 1].0));
                    }
                }
            }
            assert(n0 == added(start, after_wf));
            lemma_file_calls_add(n0, n);
            assert(all =~= n0 + n);
            assert forall|j: int| 0 <= j < all.len() implies ((#[trigger] all[j]).call matches Call::DeleteFile(p)
                ==> (inputs.runtime_dir@ + "/"@).is_prefix_of(p) && !file_paths(inputs.runtime_files@).contains(p)) by {
                if j >= n0.len() {
                    assert(all[j] == n[j - n0.len()]);
                } else {
                    assert(all[j] == n0[j]);
                    assert(n0[j].call is GetFile || n0[j].call is PutFile);
                }
            }
        }
        if pruned > 0 {
            trace.push(BuildState::PushRuntime);
        }
        trace.push(BuildState::PushRuntime);
        let ghost trace_mid = trace@;
        let mut i: usize = 0;
        while i < inputs.runtime_files.len()
            invariant
                i <= inputs.runtime_files@.len(),
                start == old(self).log@,
                grew(start, self.log@),
                grew(base, start),
                grew(base, self.log@),
                ordered(added(base, self.log@)),
                added(base, self.log@) == added(base, start) + added(start, self.log@),
                self.same_settings(old(self)),
                self.build_running == old(self).build_running,
                self.last_artifact == old(self).last_artifact,
                trace@ == trace_mid,
                trace_mid == old(trace)@ + seq![BuildState::PushWorkflow, BuildState::PushRuntime]
                    || trace_mid == old(trace)@ + seq![
                    BuildState::PushWorkflow,
                    BuildState::PushRuntime,
                    BuildState::PushRuntime,
                ],
                deletes_only(added(start, self.log@), inputs.runtime_dir@ + "/"@, file_paths(inputs.runtime_files@)),
                file_calls(added(start, self.log@)),
                added(start, self.log@).len() > 0,
                pushed(
                    added(start, self.log@),
                    WORKFLOW_PATH@,
                    b64_text(encode_utf8(spec_workflow_yaml(inputs.targets@, inputs.runtime_dir@))),
                    WORKFLOW_MESSAGE@,
                ),
                forall|q: int|
                    0 <= q < i ==> pushed(
                        added(start, self.log@),
                        #[trigger] inputs.runtime_files@[q].0@,
                        b64_text(inputs.runtime_files@[q].1@),
                        RUNTIME_MESSAGE@,
                    ),
            decreases inputs.runtime_files@.len() - i,
        {
            let path = &inputs.runtime_files[i].0;
            let bytes = inputs.runtime_files[i].1;
            let content = base64::encode(bytes);
            let ghost before = self.log@;
            let r = self.put_or_update(cfg, path.as_str(), content.as_str(), RUNTIME_MESSAGE, Ghost(base));
            proof {
                lemma_grew_trans(start, before, self.log@);
                let n0 = added(start, before);
                let m = added(before, self.log@);
                lemma_pushed_grow(
                    n0,
                    m,
                    WORKFLOW_PATH@,
                    b64_text(encode_utf8(spec_workflow_yaml(inputs.targets@, inputs.runtime_dir@))),
                    WORKFLOW_MESSAGE@,
                );
                assert forall|q: int| 0 <= q < i implies pushed(
                    n0 + m,
                    #[trigger] inputs.runtime_files@[q].0@,
                    b64_text(inputs.runtime_files@[q].1@),
                    RUNTIME_MESSAGE@,
                ) by {
                    lemma_pushed_grow(
                        n0,
                        m,
                        inputs.runtime_files@[q].0@,
                        b64_text(inputs.runtime_files@[q].1@),
                        RUNTIME_MESSAGE@,
                    );
                }
                assert forall|j: int| 0 <= j < (n0 + m).len() implies ((#[trigger] (n0 + m)[j]).call matches Call::DeleteFile(p)
                    ==> (inputs.runtime_dir@ + "/"@).is_prefix_of(p) && !file_paths(inputs.runtime_files@).contains(p)) by {
                    if j >= n0.len() {
                        assert((n0 + m)[j] == m[j - n0.len()]);
                    } else {
                        assert((n0 + m)[j] == n0[j]);
                    }
                }
                if r is Ok {
                    assert(pushed_at(n0 + m, n0.len() + 1int, path@, content@, RUNTIME_MESSAGE@));
                }
                assert(file_calls(m)) by {
                    assert forall|j: int| 0 <= j < m.len() implies ((#[trigger] m[j]).call is GetFile || m[j].call is PutFile
                        || m[j].call is GetTree || m[j].call is DeleteFile) by {
                        if j == 1 {
                            assert(m[1].call == Call::PutFile(path@));
                        }
                    }
                }
                lemma_file_calls_add(n0, m);
            }
            if let Err(e) = r {
                proof {
                    lemma_last_failed_after(added(start, before), added(before, self.log@), e);
                }
                return Err(e);
            }
            i = i + 1;
        }
        Ok(())
    }

    /// Dispatch the workflow and wait for a run that is genuinely new: one
    /// whose id was not listed before the dispatch.
    fn dispatch_and_find(
        &mut self,
        cfg: &RepoConfig,
        git_ref: &String,
        trace: &mut Vec<BuildState>,
        Ghost(base): Ghost<Seq<Exchange>>,
    ) -> (r: Result<u64, GhError>)
        requires
            grew(base, old(self).log@),
            ordered(added(base, old(self).log@)),
            replied_ok_to(added(base, old(self).log@), Call::PutFile(WORKFLOW_PATH@)),
        ensures
            no_deletes(added(old(self).log@, final(self).log@)),
            final(self).same_settings(old(self)),
            final(self).last_artifact == old(self).last_artifact,
            grew(old(self).log@, final(self).log@),
            grew(base, final(self).log@),
            ordered(added(base, final(self).log@)),
            added(base, final(self).log@) == added(base, old(self).log@) + added(
                old(self).log@,
                final(self).log@,
            ),
            final(trace)@ == old(trace)@.push(BuildState::Dispatch) || final(trace)@ == old(trace)@
                + seq![BuildState::Dispatch, BuildState::Poll],
            ({
                let n = added(old(self).log@, final(self).log@);
                &&& 2 <= n.len()
                &&& n[0].call == Call::ListRuns
                &&& n[1].call == Call::Dispatch
                &&& carried(n[1], "{\"ref\":\""@ + git_ref@ + "\"}"@)
                &&& n[1].headers == spec_auth_headers(cfg.token@)
                &&& forall|j: int| 2 <= j < n.len() ==> (#[trigger] n[j]).call == Call::ListRuns
                &&& n.len() <= old(self).max_wait_polls + 2
                &&& r is Ok ==> final(trace)@ == old(trace)@ + seq![BuildState::Dispatch, BuildState::Poll]
                    && final(self).build_running == old(self).build_running
                &&& r matches Ok(id) ==> run_is_new(n, id)
                &&& r is Err ==> (!final(self).build_running || (n.last().reply is None
                    && final(self).build_running == old(self).build_running))
                &&& answered_not_ok(n[1]) ==> (r matches Err(GhError::Status(s)) && Some(s) == status_of(n[1]))
                &&& (r is Err && answered_ok(n[1]) && n.last().reply is Some) ==> r == Err::<u64, GhError>(
                    GhError::Decode,
                )
                &&& r matches Err(e) ==> last_failed(n, e) || wait_ran_out(n, e, old(self).max_wait_polls)
            }),
    {
        reveal(last_failed);
        reveal(wait_ran_out);
        let ghost start = self.log@;
        proof {
            lemma_grew_refl(start);
        }
        trace.push(BuildState::Dispatch);
        // Remember every run that exists before dispatching: right after a
        // dispatch the new run may not be registered yet, and the newest run
        // would then be an earlier build's.
        let req = list_runs(cfg.token.as_str(), cfg.owner.as_str(), cfg.repo.as_str());
        let listed = self.exchange(cfg, &req, Ghost(Call::ListRuns), Ghost(base));
        proof {
            lemma_grew_push(start, start, self.log@.last());
            lemma_grew_trans(base, start, self.log@);
        }
        let ghost e0 = self.log@.last();
        let known: Vec<u64> = match listed {
            Ok(resp) => {
                if ok(resp.status) {
                    run_ids(resp.body.as_slice())
                } else {
                    Vec::new()
                }
            },
            Err(_) => Vec::new(),
        };
        assert(forall|x: u64| known@.contains(x) ==> answered_ok(e0) && run_listed(e0, x)) by {
            assert forall|x: u64| known@.contains(x) implies answered_ok(e0) && run_listed(e0, x) by {
                let k = choose|k: int| 0 <= k < known@.len() && known@[k] == x;
                assert(known@.to_set().contains(known@[k]));
            }
        }
        assert(answered_ok(e0) ==> forall|x: u64| run_listed(e0, x) ==> known@.contains(x)) by {
            if answered_ok(e0) {
                assert forall|x: u64| run_listed(e0, x) implies known@.contains(x) by {
                    assert(known@.to_set().contains(x));
                }
            }
        }
        let ghost mid = self.log@;
        proof {
            let h = added(base, self.log@);
            let w = choose|j: int| 0 <= j < added(base, start).len() && added(base, start)[j].call
                == Call::PutFile(WORKFLOW_PATH@) && answered_ok(#[trigger] added(base, start)[j]);
            assert(h[w] == added(base, start)[w]);
        }
        proof {
            reveal_strlit("nyeda.yml");
        }
        let req = dispatch_workflow(
            cfg.token.as_str(),
            cfg.owner.as_str(),
            cfg.repo.as_str(),
            WORKFLOW_FILE,
            git_ref.as_str(),
        );
        let r = self.exchange(cfg, &req, Ghost(Call::Dispatch), Ghost(base));
        proof {
            lemma_grew_push(start, mid, self.log@.last());
            lemma_grew_trans(base, start, self.log@);
        }
        proof {
            assert(added(start, self.log@).last() == self.log@.last());
        }
        let resp = match r {
            Err(e) => return Err(e),
            Ok(x) => x,
        };
        if !ok(resp.status) {
            self.build_running = false;
            return Err(GhError::Status(resp.status));
        }
        trace.push(BuildState::Poll);
        let mut polls: u32 = 0;
        while polls < self.max_wait_polls
            invariant
                start == old(self).log@,
                grew(start, self.log@),
                grew(base, start),
                grew(base, self.log@),
                ordered(added(base, self.log@)),
                added(base, self.log@) == added(base, start) + added(start, self.log@),
                self.same_settings(old(self)),
                self.build_running == old(self).build_running,
                self.last_artifact == old(self).last_artifact,
                trace@ == old(trace)@ + seq![BuildState::Dispatch, BuildState::Poll],
                polls <= self.max_wait_polls,
                forall|x: u64| known@.contains(x) ==> answered_ok(e0) && run_listed(e0, x),
                answered_ok(e0) ==> forall|x: u64| run_listed(e0, x) ==> known@.contains(x),
                ({
                    let n = added(start, self.log@);
                    &&& n.len() == polls + 2
                    &&& n[0] == e0
                    &&& e0.call == Call::ListRuns
                    &&& n[1].call == Call::Dispatch
                    &&& answered_ok(n[1])
                    &&& carried(n[1], "{\"ref\":\""@ + git_ref@ + "\"}"@)
                    &&& n[1].headers == spec_auth_headers(cfg.token@)
                    &&& forall|j: int| 2 <= j < n.len() ==> (#[trigger] n[j]).call == Call::ListRuns
                    &&& forall|j: int|
                        2 <= j < n.len() ==> (answered_ok(#[trigger] n[j]) ==> forall|id: u64|
                            #[trigger] run_listed(n[j], id) ==> known@.contains(id))
                }),
            decreases self.max_wait_polls - polls,
        {
            let ghost before = self.log@;
            let ghost n0 = added(start, before);
            let req = list_runs(cfg.token.as_str(), cfg.owner.as_str(), cfg.repo.as_str());
            let r = self.exchange(cfg, &req, Ghost(Call::ListRuns), Ghost(base));
            proof {
                lemma_grew_push(start, before, self.log@.last());
                lemma_grew_trans(base, start, self.log@);
                let n = added(start, self.log@);
                assert(n[0] == n0[0]);
                assert(n[1] == n0[1]);
                assert forall|j: int| 2 <= j < n.len() implies (#[trigger] n[j]).call == Call::ListRuns by {
                    if j < n.len() - 1 {
                        assert(n[j] == n0[j]);
                    }
                }
                assert(n.last() == self.log@.last());
                reveal(last_failed);
            }
            let runs = match r {
                Err(e) => return Err(e),
                Ok(x) => x,
            };
            if ok(runs.status) {
                let ids = run_ids(runs.body.as_slice());
                match first_new(&ids, &known) {
                    Some(fresh) => {
                        proof {
                            let n = added(start, self.log@);
                            let i = n.len() - 1;
                            assert(ids@.contains(fresh));
                            assert(ids@.to_set().contains(fresh));
                            assert(run_listed(n[i], fresh));
                            assert(n[0] == e0);
                            assert(answered_ok(n[0]) ==> !run_listed(n[0], fresh));
                            assert(new_run_at(n, 1, i, fresh));
                        }
                        return Ok(fresh);
                    },
                    None => {
                        proof {
                            let n = added(start, self.log@);
                            let i = n.len() - 1;
                            assert forall|id: u64| #[trigger] run_listed(n[i], id) implies known@.contains(id) by {
                                assert(ids@.to_set().contains(id));
                                let q = choose|q: int| 0 <= q < ids@.len() && ids@[q] == id;
                                assert(known@.contains(ids@[q]));
                            }
                        }
                    },
                }
            }
            proof {
                let n = added(start, self.log@);
                assert forall|j: int| 2 <= j < n.len() implies (answered_ok(#[trigger] n[j]) ==> forall|id: u64|
                    #[trigger] run_listed(n[j], id) ==> known@.contains(id)) by {
                    if j < n.len() - 1 {
                        assert(n[j] == n0[j]);
                    }
                }
            }
            self.transport.pause(self.poll_interval_secs);
            polls = polls + 1;
        }
        self.build_running = false;
        proof {
            let n = added(start, self.log@);
            assert(waited_after(n, 1, old(self).max_wait_polls)) by {
                assert forall|j: int| 1 < j < n.len() implies (#[trigger] n[j]).call == Call::ListRuns && (answered_ok(n[j])
                    ==> forall|id: u64| #[trigger] run_listed(n[j], id) ==> answered_ok(n[0]) && run_listed(n[0], id)) by {
                    if answered_ok(n[j]) {
                        assert forall|id: u64| #[trigger] run_listed(n[j], id) implies answered_ok(n[0]) && run_listed(n[0], id) by {
                            assert(known@.contains(id));
                        }
                    }
                }
            }
        }
        Err(GhError::Decode)
    }

    /// Wait for the run to finish before looking for artifacts. `Ok(true)`
    /// when it completed successfully, `Ok(false)` when it did not complete
    /// within the polls, and `BuildFailed` when it completed otherwise.
    fn wait_for_run(
        &mut self,
        cfg: &RepoConfig,
        run_id: u64,
        trace: &mut Vec<BuildState>,
        Ghost(base): Ghost<Seq<Exchange>>,
    ) -> (r: Result<bool, GhError>)
        requires
            grew(base, old(self).log@),
            ordered(added(base, old(self).log@)),
        ensures
            no_deletes(added(old(self).log@, final(self).log@)),
            final(self).same_settings(old(self)),
            final(self).last_artifact == old(self).last_artifact,
            grew(old(self).log@, final(self).log@),
            grew(base, final(self).log@),
            ordered(added(base, final(self).log@)),
            added(base, final(self).log@) == added(base, old(self).log@) + added(
                old(self).log@,
                final(self).log@,
            ),
            final(trace)@ == old(trace)@.push(BuildState::WaitForRun),
            ({
                let n = added(old(self).log@, final(self).log@);
                &&& n.len() <= old(self).max_wait_polls
                &&& forall|j: int| 0 <= j < n.len() ==> (#[trigger] n[j]).call == Call::GetRun(run_id)
                &&& r matches Ok(true) ==> reported_success(added(base, final(self).log@), run_id)
                    && final(self).build_running == old(self).build_running
                &&& r matches Ok(false) ==> n.len() == old(self).max_wait_polls
                    && final(self).build_running == old(self).build_running && forall|j: int|
                    0 <= j < n.len() ==> (answered_ok(#[trigger] n[j]) ==> !mentions(
                        lossy_text(reply_body(n[j])),
                        RUN_COMPLETED@,
                    ))
                &&& r is Err ==> n.len() > 0 && ((n.last().reply is None && final(self).build_running
                    == old(self).build_running) || (answered_ok(n.last()) && (r matches Err(
                    GhError::BuildFailed(id),
                ) && id == run_id) && !final(self).build_running && mentions(
                    lossy_text(reply_body(n.last())),
                    RUN_COMPLETED@,
                ) && !mentions(lossy_text(reply_body(n.last())), RUN_SUCCEEDED@)))
                &&& r matches Err(e) ==> last_failed(n, e) || (e == GhError::BuildFailed(run_id) && run_failed_at(
                    n,
                    n.len() - 1,
                    run_id,
                ))
                &&& r matches Ok(true) ==> n.len() > 0 && answered_ok(n.last()) && run_succeeded(
                    reply_body(n.last()),
                )
                &&& forall|j: int|
                    0 <= j < n.len() - 1 ==> (answered_ok(#[trigger] n[j]) ==> !mentions(
                        lossy_text(reply_body(n[j])),
                        RUN_COMPLETED@,
                    ))
            }),
    {
        let ghost start = self.log@;
        proof {
            lemma_grew_refl(start);
        }
        trace.push(BuildState::WaitForRun);
        let mut polls: u32 = 0;
        while polls < self.max_wait_polls
            invariant
                start == old(self).log@,
                grew(start, self.log@),
                grew(base, start),
                grew(base, self.log@),
                ordered(added(base, self.log@)),
                added(base, self.log@) == added(base, start) + added(start, self.log@),
                self.same_settings(old(self)),
                self.build_running == old(self).build_running,
                self.last_artifact == old(self).last_artifact,
                trace@ == old(trace)@.push(BuildState::WaitForRun),
                polls <= self.max_wait_polls,
                ({
                    let n = added(start, self.log@);
                    &&& n.len() == polls
                    &&& forall|j: int| 0 <= j < n.len() ==> (#[trigger] n[j]).call == Call::GetRun(run_id)
                    &&& forall|j: int|
                        0 <= j < n.len() ==> (answered_ok(#[trigger] n[j]) ==> !mentions(
                            lossy_text(reply_body(n[j])),
                            RUN_COMPLETED@,
                        ))
                }),
            decreases self.max_wait_polls - polls,
        {
            let ghost before = self.log@;
            let ghost n0 = added(start, before);
            let req = get_run(cfg.token.as_str(), cfg.owner.as_str(), cfg.repo.as_str(), run_id);
            let r = self.exchange(cfg, &req, Ghost(Call::GetRun(run_id)), Ghost(base));
            proof {
                lemma_grew_push(start, before, self.log@.last());
                lemma_grew_trans(base, start, self.log@);
                let n = added(start, self.log@);
                assert forall|j: int| 0 <= j < n.len() - 1 implies #[trigger] n[j] == n0[j] by {}
                assert(n.last() == self.log@.last());
                reveal(last_failed);
            }
            let resp = match r {
                Err(e) => return Err(e),
                Ok(x) => x,
            };
            match run_verdict(resp.status, resp.body.as_slice()) {
                RunVerdict::Failed => {
                    // A failed build has no artifact worth fetching.
                    self.build_running = false;
                    return Err(GhError::BuildFailed(run_id));
                },
                RunVerdict::Succeeded => {
                    proof {
                        let h2 = added(base, self.log@);
                        assert(h2[h2.len() - 1] == self.log@.last());
                    }
                    return Ok(true);
                },
                RunVerdict::Pending => {},
            }
            self.transport.pause(self.poll_interval_secs);
            polls = polls + 1;
        }
        Ok(false)
    }

    /// List the run's artifacts, pick the one to deliver, download it and,
    /// when so configured, delete it from GitHub.
    #[verifier::spinoff_prover]
    fn fetch_artifact(
        &mut self,
        cfg: &RepoConfig,
        targets: &Vec<Target>,
        run_id: u64,
        trace: &mut Vec<BuildState>,
        Ghost(base): Ghost<Seq<Exchange>>,
    ) -> (r: Result<(), GhError>)
        requires
            grew(base, old(self).log@),
            ordered(added(base, old(self).log@)),
            reported_success(added(base, old(self).log@), run_id),
        ensures
            no_deletes(added(old(self).log@, final(self).log@)),
            final(self).same_settings(old(self)),
            grew(old(self).log@, final(self).log@),
            grew(base, final(self).log@),
            ordered(added(base, final(self).log@)),
            added(base, final(self).log@) == added(base, old(self).log@) + added(
                old(self).log@,
                final(self).log@,
            ),
            final(trace)@ == old(trace)@.push(BuildState::FetchArtifact) || final(trace)@ == old(trace)@
                + seq![BuildState::FetchArtifact, BuildState::Verify],
            ({
                let n = added(old(self).log@, final(self).log@);
                let pick = chosen_artifact(
                    listing_of(n[0]),
                    spec_rust_target(old(self).host),
                    wanted_triples(targets@),
                );
                &&& 1 <= n.len() <= 3
                &&& n[0].call == Call::ListArtifacts(run_id)
                &&& n.len() > 1 ==> pick is Some && n[1].call == Call::Download(listing_of(n[0])[pick->0].0)
                &&& n.len() == 3 ==> n[2].call == Call::DeleteArtifact(listing_of(n[0])[pick->0].0)
                &&& r is Ok ==> {
                    &&& answered_ok(n[0])
                    &&& !final(self).build_running
                    &&& final(trace)@ == old(trace)@ + seq![BuildState::FetchArtifact, BuildState::Verify]
                    &&& (n.len() > 1 <==> pick is Some)
                    &&& (n.len() == 3 <==> (n.len() > 1 && answered_ok(n[1])
                        && old(self).delete_artifact_after_download))
                    &&& opt_bytes(final(self).last_artifact) == if n.len() > 1 && answered_ok(n[1]) {
                        Some(reply_body(n[1]))
                    } else {
                        opt_bytes(old(self).last_artifact)
                    }
                }
                &&& r matches Err(e) ==> last_failed(n, e)
                &&& r is Err ==> ((n.last().reply is None && final(self).build_running == old(self).build_running)
                    || (n.len() == 1 && answered_not_ok(n[0]) && !final(self).build_running && (r matches Err(
                    GhError::Status(st),
                ) && Some(st) == status_of(n[0]))))
            }),
    {
        reveal(last_failed);
        let ghost start = self.log@;
        proof {
            lemma_grew_refl(start);
        }
        trace.push(BuildState::FetchArtifact);
        let req = list_artifacts(cfg.token.as_str(), cfg.owner.as_str(), cfg.repo.as_str(), run_id);
        proof {
            let h = added(base, start);
            let w = choose|j: int| 0 <= j < h.len() && h[j].call == Call::GetRun(run_id) && answered_ok(#[trigger] h[j])
                && run_succeeded(reply_body(h[j]));
            assert(added(base, self.log@)[w] == h[w]);
        }
        let r = self.exchange(cfg, &req, Ghost(Call::ListArtifacts(run_id)), Ghost(base));
        proof {
            lemma_grew_push(start, start, self.log@.last());
            lemma_grew_trans(base, start, self.log@);
        }
        let ghost e0 = self.log@.last();
        let ghost li = added(base, self.log@).len() - 1;
        proof {
            assert(added(start, self.log@).last() == self.log@.last());
        }
        let arts = match r {
            Err(e) => return Err(e),
            Ok(x) => x,
        };
        if !ok(arts.status) {
            self.build_running = false;
            return Err(GhError::Status(arts.status));
        }
        trace.push(BuildState::Verify);
        let listing = text_lossy(arts.body.as_slice());
        let all = artifact_list(listing.as_str());
        let mut wanted: Vec<Vec<char>> = Vec::new();
        let mut t: usize = 0;
        while t < targets.len()
            invariant
                t <= targets@.len(),
                char_vecs(wanted@) == wanted_triples(targets@.take(t as int)),
            decreases targets@.len() - t,
        {
            let ghost before = wanted@;
            let w = chars_of(targets[t].rust_target());
            wanted.push(w);
            assert(char_vecs(wanted@) =~= wanted_triples(targets@.take(t + 1))) by {
                assert(wanted@ =~= before.push(w));
                assert(before.len() == t) by {
                    assert(char_vecs(before).len() == before.len());
                }
                assert forall|q: int| 0 <= q < t implies #[trigger] char_vecs(wanted@)[q]
                    == wanted_triples(targets@.take(t + 1))[q] by {
                    assert(wanted@[q] == before[q]);
                    assert(char_vecs(before)[q] == wanted_triples(targets@.take(t as int))[q]);
                }
            }
            t = t + 1;
        }
        assert(targets@.take(t as int) =~= targets@);
        let host = chars_of(self.host.rust_target());
        let chosen = choose_artifact(&all, &wanted, &host);
        proof {
            lemma_chosen_in_range(pairs_text(all@), host@, char_vecs(wanted@));
            assert(listing_of(e0) == pairs_text(all@));
        }
        let ghost mid = self.log@;
        match chosen {
            None => {},
            Some(k) => {
                let id = all[k].0;
                proof {
                    let h = added(base, self.log@);
                    assert(h[li] == e0);
                    assert(pairs_text(all@)[k as int].0 == id);
                    assert(listing_of(e0)[k as int].0 == id);
                    assert(listed_artifact(e0, id));
                }
                let req = download_artifact(cfg.token.as_str(), cfg.owner.as_str(), cfg.repo.as_str(), id);
                let blob = self.exchange(cfg, &req, Ghost(Call::Download(id)), Ghost(base));
                proof {
                    lemma_grew_push(start, mid, self.log@.last());
                    lemma_grew_trans(base, start, self.log@);
                }
                proof {
                    assert(added(start, self.log@).last() == self.log@.last());
                }
                let blob = match blob {
                    Err(e) => return Err(e),
                    Ok(x) => x,
                };
                if ok(blob.status) {
                    self.last_artifact = Some(blob.body);
                    // Retrieved, so the remote copy is no longer needed: it is
                    // the capsule binary itself.
                    if self.delete_artifact_after_download {
                        let ghost mid2 = self.log@;
                        proof {
                            let h = added(base, self.log@);
                            assert(h[h.len() - 1].call == Call::Download(id) && answered_ok(h[h.len() - 1]));
                        }
                        let req = delete_artifact(cfg.token.as_str(), cfg.owner.as_str(), cfg.repo.as_str(), id);
                        let _ = self.exchange(cfg, &req, Ghost(Call::DeleteArtifact(id)), Ghost(base));
                        proof {
                            lemma_grew_push(start, mid2, self.log@.last());
                            lemma_grew_trans(base, start, self.log@);
                        }
                    }
                }
            },
        }
        self.build_running = false;
        Ok(())
    }

    /// The phases of a build, in order; the running flag is left to
    /// `run_build`.
    #[verifier::rlimit(100)]
    #[verifier::spinoff_prover]
    fn run_phases(&mut self, cfg: &RepoConfig, inputs: &BuildInputs, trace: &mut Vec<BuildState>) -> (r:
        Result<u64, GhError>)
        ensures
            final(self).same_config(old(self)),
            grew(old(self).log@, final(self).log@),
            final(self).seals@ == old(self).seals@ + seals_added(old(self).seals@, final(self).seals@),
            final(trace)@.len() >= old(trace)@.len(),
            final(trace)@.take(old(trace)@.len() as int) == old(trace)@,
            trace_follows(final(trace)@.skip(old(trace)@.len() as int), r is Ok),
            ({
                let n = added(old(self).log@, final(self).log@);
                &&& ordered(n)
                &&& deletes_only(n, inputs.runtime_dir@ + "/"@, file_paths(inputs.runtime_files@))
                &&& r matches Ok(id) ==> run_is_new(n, id)
                &&& r is Ok ==> dispatched_ref(n, inputs.git_ref@, cfg.token@)
                &&& r is Ok ==> delivered(n, opt_bytes(old(self).last_artifact), opt_bytes(final(self).last_artifact))
                &&& r is Ok ==> forall|k: int|
                    0 <= k < inputs.secrets@.len() ==> stored(n, #[trigger] inputs.secrets@[k].0@)
                &&& r is Ok ==> pushed(
                    n,
                    WORKFLOW_PATH@,
                    b64_text(encode_utf8(spec_workflow_yaml(inputs.targets@, inputs.runtime_dir@))),
                    WORKFLOW_MESSAGE@,
                )
                &&& r is Ok ==> forall|k: int|
                    0 <= k < inputs.runtime_files@.len() ==> pushed(
                        n,
                        #[trigger] inputs.runtime_files@[k].0@,
                        b64_text(inputs.runtime_files@[k].1@),
                        RUNTIME_MESSAGE@,
                    )
                &&& r is Ok ==> all_secrets_sealed(old(self).sealer, n, inputs.secrets@)
                &&& failure_facts(n, r, final(self).last_artifact == old(self).last_artifact)
                &&& sealing_facts(old(self).sealer, n, inputs.secrets@, r)
                &&& calls_in_place(n)
                &&& build_explained(
                    old(self).sealer,
                    n,
                    seals_added(old(self).seals@, final(self).seals@),
                    inputs.secrets@,
                    r,
                    old(self).max_wait_polls,
                )
            }),
    {
        let ghost start = self.log@;
        let ghost t0 = trace@;
        let ghost prefix = inputs.runtime_dir@ + "/"@;
        let ghost keep = file_paths(inputs.runtime_files@);
        proof {
            lemma_grew_refl(start);
            assert(ordered(Seq::<Exchange>::empty()));
        }
        trace.push(BuildState::Authenticate);
        // Authentication is checked by the first authenticated call.
        let ra = self.ensure_repo(cfg, trace, Ghost(start));
        let ghost s2 = self.log@;
        let ghost na = added(start, s2);
        proof {
            lemma_no_deletes(na, prefix, keep);
            assert(trace@.take(t0.len() as int) =~= t0);
            assert(setup_calls(na)) by {
                reveal(setup_calls);
                assert forall|j: int| 0 <= j < na.len() implies setup_call((#[trigger] na[j]).call) by {
                    if j == 1 {
                        assert(na[1].call == Call::SetVisibility);
                    }
                }
            }
        }
        if let Err(e) = ra {
            proof {
                lemma_fails_before_dispatch(na, Err(e), self.last_artifact == old(self).last_artifact);
                assert(na.last().call is CreateRepo || na.last().call is SetVisibility);
                lemma_not_among_secrets(old(self).sealer, na, inputs.secrets@, Err(e));
                assert(seals_added(old(self).seals@, self.seals@) =~= Seq::<Sealing>::empty());
                lemma_explained_last(Seq::empty(), na, Seq::empty(), e, old(self).max_wait_polls);
                assert(Seq::<Exchange>::empty() + na =~= na);
                lemma_no_story(old(self).sealer, na, inputs.secrets@, Err(e));
                lemma_in_place_setup(na);
                lemma_build_explained(old(self).sealer, na, Seq::empty(), inputs.secrets@, Err(e), old(self).max_wait_polls);
                let t = trace@.skip(t0.len() as int);
                assert(t.is_prefix_of(build_trace(false, false)));
                assert(!t.contains(BuildState::Done));
            }
            return Err(e);
        }
        let ghost seals2 = self.seals@;
        let rb = self.push_secrets(cfg, &inputs.secrets, trace, Ghost(start));
        let ghost s3 = self.log@;
        let ghost nb = added(s2, s3);
        let ghost sl = seals_added(seals2, self.seals@);
        proof {
            assert(seals_added(old(self).seals@, self.seals@) =~= sl);
        }
        proof {
            lemma_grew_trans(start, s2, s3);
            lemma_no_deletes(nb, prefix, keep);
            lemma_deletes_only_add(na, nb, prefix, keep);
            assert(trace@.take(t0.len() as int) =~= t0);
            assert(setup_calls(nb)) by {
                reveal(setup_calls);
                assert forall|j: int| 0 <= j < nb.len() implies setup_call((#[trigger] nb[j]).call) by {
                    if j >= 1 {
                        assert(nb[j].call == Call::PutSecret(inputs.secrets@[j - 1].0@));
                    }
                }
            }
            lemma_setup_add(na, nb);
        }
        if let Err(e) = rb {
            proof {
                lemma_fails_before_dispatch(na + nb, Err(e), self.last_artifact == old(self).last_artifact);
                assert forall|j: int| 0 <= j < na.len() implies ((#[trigger] na[j]).call is CreateRepo || na[j].call is SetVisibility) by {
                    if j == 1 {
                        assert(na[1].call == Call::SetVisibility);
                    }
                }
                lemma_stopped_in_secrets(old(self).sealer, na, nb, inputs.secrets@, rb, Err(e));
                lemma_explained_secrets(old(self).sealer, na, nb, sl, inputs.secrets@, rb, old(self).max_wait_polls);
                lemma_secrets_story(old(self).sealer, na, nb, Seq::empty(), sl, inputs.secrets@, rb, Err(e));
                assert(na + nb + Seq::<Exchange>::empty() =~= na + nb);
                lemma_build_explained(old(self).sealer, na + nb, sl, inputs.secrets@, Err(e), old(self).max_wait_polls);
                lemma_in_place_setup(na + nb);
                let t = trace@.skip(t0.len() as int);
                assert(t.is_prefix_of(build_trace(false, false)));
                assert(!t.contains(BuildState::Done));
            }
            return Err(e);
        }
        proof {
            assert forall|k: int| 0 <= k < inputs.secrets@.len() implies stored(
                nb,
                #[trigger] inputs.secrets@[k].0@,
            ) by {
                assert(nb[k + 1].call == Call::PutSecret(inputs.secrets@[k].0@) && answered_ok(nb[k + 1]));
            }
        }
        // The build-critical window: visibility cannot change from here.
        self.build_running = true;
        let rc = self.push_files(cfg, inputs, trace, Ghost(start));
        let ghost s4 = self.log@;
        let ghost nc = added(s3, s4);
        let ghost t4 = trace@;
        proof {
            lemma_grew_trans(start, s3, s4);
            lemma_deletes_only_add(na + nb, nc, prefix, keep);
            assert(trace@.take(t0.len() as int) =~= t0);
            assert(setup_calls(nc)) by {
                reveal(setup_calls);
                assert forall|j: int| 0 <= j < nc.len() implies setup_call((#[trigger] nc[j]).call) by {
                    assert(nc[j].call is GetFile || nc[j].call is PutFile || nc[j].call is GetTree || nc[j].call is DeleteFile);
                }
            }
            lemma_setup_add(na + nb, nc);
        }
        if let Err(e) = rc {
            self.build_running = false;
            proof {
                lemma_fails_before_dispatch(na + nb + nc, Err(e), self.last_artifact == old(self).last_artifact);
                assert((na + nb + nc).last() == nc.last());
                assert(nc.last() == nc[nc.len() - 1]);
                lemma_not_among_secrets(old(self).sealer, na + nb + nc, inputs.secrets@, Err(e));
                assert(seals_added(old(self).seals@, self.seals@) =~= sl);
                lemma_explained_last(na + nb, nc, sl, e, old(self).max_wait_polls);
                lemma_secrets_story(old(self).sealer, na, nb, nc, sl, inputs.secrets@, rb, Err(e));
                lemma_build_explained(old(self).sealer, na + nb + nc, sl, inputs.secrets@, Err(e), old(self).max_wait_polls);
                lemma_in_place_setup(na + nb + nc);
                let t = trace@.skip(t0.len() as int);
                if t.len() == 7 {
                    assert(t.is_prefix_of(build_trace(true, false)));
                } else {
                    assert(t.is_prefix_of(build_trace(false, false)));
                }
                assert(!t.contains(BuildState::Done));
            }
            return Err(e);
        }
        let ghost pruned = t4.len() == t0.len() + 7;
        proof {
            let t = trace@.skip(t0.len() as int);
            assert(t =~= build_trace(pruned, false).take(t.len() as int));
            let j = choose|j: int|
                #[trigger] pushed_at(
                    nc,
                    j,
                    WORKFLOW_PATH@,
                    b64_text(encode_utf8(spec_workflow_yaml(inputs.targets@, inputs.runtime_dir@))),
                    WORKFLOW_MESSAGE@,
                );
            let h = added(start, s4);
            assert(h == na + nb + nc);
            assert(h[na.len() + nb.len() + j] == nc[j]);
            assert(replied_ok_to(h, Call::PutFile(WORKFLOW_PATH@)));
        }
        let rd = self.dispatch_and_find(cfg, &inputs.git_ref, trace, Ghost(start));
        let ghost s5 = self.log@;
        let ghost nd = added(s4, s5);
        proof {
            lemma_grew_trans(start, s4, s5);
            lemma_no_deletes(nd, prefix, keep);
            lemma_deletes_only_add(na + nb + nc, nd, prefix, keep);
            assert(added(start, s5) == na + nb + nc + nd);
            assert((na + nb + nc + nd).last() == nd.last());
            assert(trace@.take(t0.len() as int) =~= t0);
            assert forall|j: int| 0 <= j < nd.len() implies ((#[trigger] nd[j]).call is ListRuns || nd[j].call is Dispatch) by {
                if j >= 2 {
                    assert(nd[j].call == Call::ListRuns);
                }
            }
        }
        let run_id = match rd {
            Err(e) => {
                proof {
                    lemma_fails_at_dispatch(na + nb + nc, nd, rd, self.last_artifact == old(self).last_artifact);
                    assert(nd.last() == nd[nd.len() - 1]);
                    lemma_not_among_secrets(old(self).sealer, na + nb + nc + nd, inputs.secrets@, Err(e));
                    assert(seals_added(old(self).seals@, self.seals@) =~= sl);
                    lemma_explained_wait(na + nb + nc, nd, sl, e, old(self).max_wait_polls);
                    lemma_secrets_story(old(self).sealer, na, nb, nc + nd, sl, inputs.secrets@, rb, Err(e));
                    assert(na + nb + (nc + nd) =~= na + nb + nc + nd);
                    lemma_build_explained(old(self).sealer, na + nb + nc + nd, sl, inputs.secrets@, Err(e), old(self).max_wait_polls);
                    lemma_in_place_run(na + nb + nc, nd, Seq::empty(), Seq::empty(), 0, false);
                    assert(na + nb + nc + nd + Seq::<Exchange>::empty() + Seq::<Exchange>::empty() =~= na + nb + nc + nd);
                    let t = trace@.skip(t0.len() as int);
                    assert(t =~= build_trace(pruned, false).take(t.len() as int));
                    assert(!t.contains(BuildState::Done));
                }
                return Err(e);
            },
            Ok(id) => id,
        };
        let re = self.wait_for_run(cfg, run_id, trace, Ghost(start));
        let ghost s6 = self.log@;
        let ghost ne = added(s5, s6);
        proof {
            lemma_grew_trans(start, s5, s6);
            lemma_no_deletes(ne, prefix, keep);
            lemma_deletes_only_add(na + nb + nc + nd, ne, prefix, keep);
            assert(added(start, s6) == na + nb + nc + nd + ne);
            assert(ne.len() > 0 ==> (na + nb + nc + nd + ne).last() == ne.last());
            assert(trace@.take(t0.len() as int) =~= t0);
        }
        let finished = match re {
            Err(e) => {
                proof {
                    lemma_after_new_run(na + nb + nc, nd, ne, Seq::empty(), run_id, re, Err(e), self.last_artifact == old(self).last_artifact);
                    assert(ne.last() == ne[ne.len() - 1]);
                    lemma_not_among_secrets(old(self).sealer, na + nb + nc + nd + ne, inputs.secrets@, Err(e));
                    assert(seals_added(old(self).seals@, self.seals@) =~= sl);
                    lemma_explained_run(na + nb + nc + nd, ne, sl, e, old(self).max_wait_polls, run_id);
                    lemma_secrets_story(old(self).sealer, na, nb, nc + nd + ne, sl, inputs.secrets@, rb, Err(e));
                    assert(na + nb + (nc + nd + ne) =~= na + nb + nc + nd + ne);
                    lemma_build_explained(old(self).sealer, na + nb + nc + nd + ne, sl, inputs.secrets@, Err(e), old(self).max_wait_polls);
                    lemma_in_place_run(na + nb + nc, nd, ne, Seq::empty(), run_id, true);
                    assert(na + nb + nc + nd + ne + Seq::<Exchange>::empty() =~= na + nb + nc + nd + ne);
                    assert(na + nb + nc + nd + ne + Seq::<Exchange>::empty() =~= na + nb + nc + nd + ne);
                    let t = trace@.skip(t0.len() as int);
                    assert(t =~= build_trace(pruned, false).take(t.len() as int));
                    assert(!t.contains(BuildState::Done));
                }
                return Err(e);
            },
            Ok(f) => f,
        };
        if !finished {
            // Not an error: the build may simply be slow, and the caller can
            // retrieve later rather than being handed a false success.
            self.build_running = false;
            trace.push(BuildState::Done);
            proof {
                let t = trace@.skip(t0.len() as int);
                assert(t =~= build_trace(pruned, false));
                assert(trace@.take(t0.len() as int) =~= t0);
                self.lemma_outcome(start, na, nb, nc, nd, ne, Seq::empty(), inputs, run_id);
                assert(na + nb + nc + nd + ne + Seq::<Exchange>::empty() =~= na + nb + nc + nd + ne);
                lemma_dispatched(na + nb + nc, nd, ne, inputs.git_ref@, cfg.token@);
                lemma_nothing_delivered(na + nb + nc, nd, ne);
                lemma_secrets_sealed(old(self).sealer, na, nb, nc + nd + ne, inputs.secrets@);
                assert(na + nb + (nc + nd + ne) =~= na + nb + nc + nd + ne);
                lemma_after_new_run(na + nb + nc, nd, ne, Seq::empty(), run_id, re, Ok(run_id), self.last_artifact == old(self).last_artifact);
                if ne.len() > 0 {
                    assert(ne.last() == ne[ne.len() - 1]);
                } else {
                    assert(na + nb + nc + nd + ne =~= na + nb + nc + nd);
                    assert(nd.last() == nd[nd.len() - 1]);
                }
                lemma_not_among_secrets(old(self).sealer, na + nb + nc + nd + ne, inputs.secrets@, Ok(run_id));
                assert(seals_added(old(self).seals@, self.seals@) =~= sl);
                lemma_secrets_story(old(self).sealer, na, nb, nc + nd + ne, sl, inputs.secrets@, rb, Ok(run_id));
                assert(na + nb + (nc + nd + ne) =~= na + nb + nc + nd + ne);
                lemma_build_explained(old(self).sealer, na + nb + nc + nd + ne, sl, inputs.secrets@, Ok(run_id), old(self).max_wait_polls);
                lemma_in_place_run(na + nb + nc, nd, ne, Seq::empty(), run_id, true);
            }
            return Ok(run_id);
        }
        let rf = self.fetch_artifact(cfg, &inputs.targets, run_id, trace, Ghost(start));
        let ghost s7 = self.log@;
        let ghost nf = added(s6, s7);
        proof {
            lemma_grew_trans(start, s6, s7);
            lemma_no_deletes(nf, prefix, keep);
            lemma_deletes_only_add(na + nb + nc + nd + ne, nf, prefix, keep);
            assert(added(start, s7) == na + nb + nc + nd + ne + nf);
            assert((na + nb + nc + nd + ne + nf).last() == nf.last());
            assert(trace@.take(t0.len() as int) =~= t0);
            assert forall|j: int| 0 <= j < nf.len() implies ((#[trigger] nf[j]).call == Call::ListArtifacts(run_id)
                || nf[j].call is Download || nf[j].call is DeleteArtifact) by {
                if j == 1 {
                    assert(nf[1].call is Download);
                } else if j == 2 {
                    assert(nf[2].call is DeleteArtifact);
                }
            }
            lemma_in_place_run(na + nb + nc, nd, ne, nf, run_id, true);
            assert forall|j: int| 0 <= j < nf.len() implies !((#[trigger] nf[j]).call is GetRun) by {
                if j == 1 {
                    assert(nf[1].call is Download);
                } else if j == 2 {
                    assert(nf[2].call is DeleteArtifact);
                }
            }
        }
        if let Err(e) = rf {
            proof {
                lemma_after_new_run(na + nb + nc, nd, ne, nf, run_id, re, Err(e), self.last_artifact == old(self).last_artifact);
                assert(nf.last() == nf[nf.len() - 1]);
                lemma_not_among_secrets(old(self).sealer, na + nb + nc + nd + ne + nf, inputs.secrets@, Err(e));
                assert(seals_added(old(self).seals@, self.seals@) =~= sl);
                lemma_explained_last(na + nb + nc + nd + ne, nf, sl, e, old(self).max_wait_polls);
                lemma_secrets_story(old(self).sealer, na, nb, nc + nd + ne + nf, sl, inputs.secrets@, rb, Err(e));
                assert(na + nb + (nc + nd + ne + nf) =~= na + nb + nc + nd + ne + nf);
                lemma_build_explained(old(self).sealer, na + nb + nc + nd + ne + nf, sl, inputs.secrets@, Err(e), old(self).max_wait_polls);
                let t = trace@.skip(t0.len() as int);
                assert(t =~= build_trace(pruned, true).take(t.len() as int));
                assert(!t.contains(BuildState::Done));
            }
            return Err(e);
        }
        trace.push(BuildState::Done);
        proof {
            let t = trace@.skip(t0.len() as int);
            assert(t =~= build_trace(pruned, true));
            assert(trace@.take(t0.len() as int) =~= t0);
            self.lemma_outcome(start, na, nb, nc, nd, ne, nf, inputs, run_id);
            lemma_dispatched(na + nb + nc, nd, ne + nf, inputs.git_ref@, cfg.token@);
            assert(na + nb + nc + nd + (ne + nf) =~= na + nb + nc + nd + ne + nf);
            lemma_fetch_delivered(na + nb + nc, nd, ne, nf, opt_bytes(old(self).last_artifact), opt_bytes(self.last_artifact));
            lemma_secrets_sealed(old(self).sealer, na, nb, nc + nd + ne + nf, inputs.secrets@);
            assert(na + nb + (nc + nd + ne + nf) =~= na + nb + nc + nd + ne + nf);
            lemma_after_new_run(na + nb + nc, nd, ne, nf, run_id, re, Ok(run_id), self.last_artifact == old(self).last_artifact);
            assert(nf.last() == nf[nf.len() - 1]);
            lemma_not_among_secrets(old(self).sealer, na + nb + nc + nd + ne + nf, inputs.secrets@, Ok(run_id));
            assert(seals_added(old(self).seals@, self.seals@) =~= sl);
            lemma_secrets_story(old(self).sealer, na, nb, nc + nd + ne + nf, sl, inputs.secrets@, rb, Ok(run_id));
            lemma_build_explained(old(self).sealer, na + nb + nc + nd + ne + nf, sl, inputs.secrets@, Ok(run_id), old(self).max_wait_polls);
        }
        Ok(run_id)
    }

    /// Run a full build and return the id of the run it started. `trace`
    /// receives each state as it is entered. The build-critical window, in
    /// which visibility cannot change, is closed on every return.
    ///
    /// A successful build dispatched the workflow for `git_ref`, stored every
    /// secret sealed for the repository key, pushed the workflow and every
    /// runtime file, found a run that is genuinely new, and keeps the capsule
    /// it downloaded. A build whose accepted dispatch was followed by no new
    /// run ends with `Decode` once the wait runs out, having asked nothing
    /// about any run; one whose run completed without success ends with
    /// `BuildFailed` right there; one that stopped among the secrets ends with
    /// the sealer's error. In the first two the kept capsule is left as it was.
    ///
    /// Every failure is explained by what the build saw: the last exchange
    /// failed (the transport's error is passed on unchanged, and a status
    /// outside 200..300 comes back as that status), the key reply named no
    /// key, the sealer refused (its own error, recorded in the sealer log,
    /// and nothing was sent after it), the wait for a new run ran out, or
    /// the run was reported failed. The sealer is handed the repository key
    /// and each secret in order, and each stored secret carries exactly the
    /// box the sealer gave for it. A dispatch always comes right after a runs
    /// listing, and only the run found to be new is asked about.
    pub fn run_build(&mut self, cfg: &RepoConfig, inputs: &BuildInputs, trace: &mut Vec<BuildState>) -> (r:
        Result<u64, GhError>)
        ensures
            final(self).same_config(old(self)),
            grew(old(self).log@, final(self).log@),
            final(self).seals@ == old(self).seals@ + seals_added(old(self).seals@, final(self).seals@),
            !final(self).build_running,
            final(trace)@.len() >= old(trace)@.len(),
            final(trace)@.take(old(trace)@.len() as int) == old(trace)@,
            trace_follows(final(trace)@.skip(old(trace)@.len() as int), r is Ok),
            ({
                let n = added(old(self).log@, final(self).log@);
                &&& ordered(n)
                &&& deletes_only(n, inputs.runtime_dir@ + "/"@, file_paths(inputs.runtime_files@))
                &&& r matches Ok(id) ==> run_is_new(n, id)
                &&& r is Ok ==> dispatched_ref(n, inputs.git_ref@, cfg.token@)
                &&& r is Ok ==> delivered(n, opt_bytes(old(self).last_artifact), opt_bytes(final(self).last_artifact))
                &&& r is Ok ==> forall|k: int|
                    0 <= k < inputs.secrets@.len() ==> stored(n, #[trigger] inputs.secrets@[k].0@)
                &&& r is Ok ==> pushed(
                    n,
                    WORKFLOW_PATH@,
                    b64_text(encode_utf8(spec_workflow_yaml(inputs.targets@, inputs.runtime_dir@))),
                    WORKFLOW_MESSAGE@,
                )
                &&& r is Ok ==> forall|k: int|
                    0 <= k < inputs.runtime_files@.len() ==> pushed(
                        n,
                        #[trigger] inputs.runtime_files@[k].0@,
                        b64_text(inputs.runtime_files@[k].1@),
                        RUNTIME_MESSAGE@,
                    )
                &&& r is Ok ==> forall|k: int|
                    0 <= k < inputs.secrets@.len() ==> secret_sealed(
                        old(self).sealer,
                        n,
                        #[trigger] inputs.secrets@[k].0@,
                        inputs.secrets@[k].1@,
                    )
                &&& (dispatch_accepted(n) && no_new_run(n)) ==> r == Err::<u64, GhError>(GhError::Decode)
                    && final(self).last_artifact == old(self).last_artifact && nothing_fetched(n)
                &&& forall|g: int, id: u64|
                    #[trigger] run_failed_at(n, g, id) ==> r == Err::<u64, GhError>(GhError::BuildFailed(id)) && g
                        == n.len() - 1 && final(self).last_artifact == old(self).last_artifact
                &&& forall|d: int| #[trigger] dispatch_at(n, d) ==> d >= 1 && n[d - 1].call == Call::ListRuns
                &&& forall|j: int|
                    0 <= j < n.len() ==> ((#[trigger] n[j]).call matches Call::GetRun(x) ==> run_is_new(n, x)) && (
                    n[j].call matches Call::ListArtifacts(x) ==> run_is_new(n, x))
                &&& r matches Err(e) ==> (last_failed(n, e) || key_missing(n, e) || sealer_refused(
                    seals_added(old(self).seals@, final(self).seals@),
                    e,
                ) || wait_ran_out(n, e, old(self).max_wait_polls) || (e matches GhError::BuildFailed(id)
                    && run_failed_at(n, n.len() - 1, id)))
                &&& seals_added(old(self).seals@, final(self).seals@).len() == 0 || exists|p: int|
                    #[trigger] secrets_from(
                        old(self).sealer,
                        n,
                        seals_added(old(self).seals@, final(self).seals@),
                        inputs.secrets@,
                        r,
                        p,
                    )
                &&& forall|p: int|
                    #[trigger] stopped_among_secrets(n, p, inputs.secrets@) ==> exists|e: GhError|
                        r == Err::<u64, GhError>(e) && #[trigger] old(self).sealer.may_seal(
                            spec_body_json_str(reply_body(n[p]), "key"@)->0,
                            inputs.secrets@[n.len() - p - 1].1@,
                            Err(e),
                        )
            }),
    {
        let r = self.run_phases(cfg, inputs, trace);
        self.build_running = false;
        proof {
            reveal(failure_facts);
            reveal(all_secrets_sealed);
            reveal(sealing_facts);
            reveal(build_explained);
            reveal(error_explained);
            reveal(secrets_story);
            reveal(calls_in_place);
        }
        r
    }

    /// The successful outcome's facts carry over from the phases to the
    /// whole exchange.
    proof fn lemma_outcome(
        &self,
        start: Seq<Exchange>,
        na: Seq<Exchange>,
        nb: Seq<Exchange>,
        nc: Seq<Exchange>,
        nd: Seq<Exchange>,
        ne: Seq<Exchange>,
        nf: Seq<Exchange>,
        inputs: &BuildInputs,
        run_id: u64,
    )
        requires
            forall|k: int| 0 <= k < inputs.secrets@.len() ==> stored(nb, #[trigger] inputs.secrets@[k].0@),
            pushed(
                nc,
                WORKFLOW_PATH@,
                b64_text(encode_utf8(spec_workflow_yaml(inputs.targets@, inputs.runtime_dir@))),
                WORKFLOW_MESSAGE@,
            ),
            forall|k: int|
                0 <= k < inputs.runtime_files@.len() ==> pushed(
                    nc,
                    #[trigger] inputs.runtime_files@[k].0@,
                    b64_text(inputs.runtime_files@[k].1@),
                    RUNTIME_MESSAGE@,
                ),
            run_is_new(nd, run_id),
        ensures
            ({
                let n = na + nb + nc + nd + ne + nf;
                &&& run_is_new(n, run_id)
                &&& forall|k: int| 0 <= k < inputs.secrets@.len() ==> stored(n, #[trigger] inputs.secrets@[k].0@)
                &&& pushed(
                    n,
                    WORKFLOW_PATH@,
                    b64_text(encode_utf8(spec_workflow_yaml(inputs.targets@, inputs.runtime_dir@))),
                    WORKFLOW_MESSAGE@,
                )
                &&& forall|k: int|
                    0 <= k < inputs.runtime_files@.len() ==> pushed(
                        n,
                        #[trigger] inputs.runtime_files@[k].0@,
                        b64_text(inputs.runtime_files@[k].1@),
                        RUNTIME_MESSAGE@,
                    )
            }),
    {
        let n = na + nb + nc + nd + ne + nf;
        lemma_run_is_new_shift(na + nb + nc, nd, ne + nf, run_id);
        assert(na + nb + nc + nd + (ne + nf) =~= n);
        assert forall|k: int| 0 <= k < inputs.secrets@.len() implies stored(n, #[trigger] inputs.secrets@[k].0@) by {
            let j = choose|j: int| 0 <= j < nb.len() && nb[j].call == Call::PutSecret(inputs.secrets@[k].0@)
                && answered_ok(#[trigger] nb[j]);
            assert((na + nb)[na.len() + j] == nb[j]);
            assert(stored(na + nb, inputs.secrets@[k].0@));
            lemma_stored_grow(na + nb, nc + nd + ne + nf, inputs.secrets@[k].0@);
            assert(na + nb + (nc + nd + ne + nf) =~= n);
        }
        let wf = b64_text(encode_utf8(spec_workflow_yaml(inputs.targets@, inputs.runtime_dir@)));
        lemma_pushed_prepend(na + nb, nc, WORKFLOW_PATH@, wf, WORKFLOW_MESSAGE@);
        lemma_pushed_grow(na + nb + nc, nd + ne + nf, WORKFLOW_PATH@, wf, WORKFLOW_MESSAGE@);
        assert(na + nb + nc + (nd + ne + nf) =~= n);
        assert forall|k: int| 0 <= k < inputs.runtime_files@.len() implies pushed(
            n,
            #[trigger] inputs.runtime_files@[k].0@,
            b64_text(inputs.runtime_files@[k].1@),
            RUNTIME_MESSAGE@,
        ) by {
            lemma_pushed_prepend(na + nb, nc, inputs.runtime_files@[k].0@, b64_text(inputs.runtime_files@[k].1@), RUNTIME_MESSAGE@);
            lemma_pushed_grow(na + nb + nc, nd + ne + nf, inputs.runtime_files@[k].0@, b64_text(inputs.runtime_files@[k].1@), RUNTIME_MESSAGE@);
        }
    }

    /// Create a file, or update it in place when it already exists. The
    /// contents API refuses an update that omits the current blob SHA, so the
    /// file is fetched first; a refusal there means the file is new.
    fn put_or_update(
        &mut self,
        cfg: &RepoConfig,
        path: &str,
        content_b64: &str,
        message: &str,
        Ghost(base): Ghost<Seq<Exchange>>,
    ) -> (r: Result<(), GhError>)
        requires
            grew(base, old(self).log@),
            ordered(added(base, old(self).log@)),
        ensures
            grew(base, final(self).log@),
            ordered(added(base, final(self).log@)),
            added(base, final(self).log@) == added(base, old(self).log@) + added(
                old(self).log@,
                final(self).log@,
            ),
            final(self).same_settings(old(self)),
            final(self).build_running == old(self).build_running,
            final(self).last_artifact == old(self).last_artifact,
            grew(old(self).log@, final(self).log@),
            ({
                let n = added(old(self).log@, final(self).log@);
                &&& 1 <= n.len() <= 2
                &&& n[0].call == Call::GetFile(path@)
                &&& n.len() == 1 ==> n[0].reply is None && r is Err
                &&& r matches Err(e) ==> last_failed(n, e)
                &&& n.len() == 2 ==> {
                    &&& n[1].call == Call::PutFile(path@)
                    &&& carried(n[1], put_file_body(message@, content_b64@, sha_of(n[0])))
                    &&& (r is Ok <==> answered_ok(n[1]))
                    &&& (r is Err && n[1].reply is Some) ==> (r matches Err(GhError::StatusDetail(s, t))
                        && Some(s) == status_of(n[1]) && t@ == detail_text(reply_body(n[1])))
                }
            }),
    {
        reveal(last_failed);
        let ghost start = self.log@;
        let req = get_file(cfg.token.as_str(), cfg.owner.as_str(), cfg.repo.as_str(), path);
        let existing = self.exchange(cfg, &req, Ghost(Call::GetFile(path@)), Ghost(base));
        proof {
            lemma_grew_refl(start);
            lemma_grew_push(start, start, self.log@.last());
        }
        let existing = match existing {
            Err(e) => {
                proof {
                    lemma_grew_trans(base, start, self.log@);
                    assert(added(start, self.log@).last() == self.log@.last());
                }
                return Err(e);
            },
            Ok(x) => x,
        };
        let sha = if ok(existing.status) {
            json_str(existing.body.as_slice(), "sha")
        } else {
            None
        };
        proof {
            reveal_strlit("sha");
        }
        let ghost first = self.log@;
        let req = put_file(
            cfg.token.as_str(),
            cfg.owner.as_str(),
            cfg.repo.as_str(),
            path,
            content_b64,
            message,
            match &sha {
                Some(s) => Some(s.as_str()),
                None => None,
            },
        );
        let r = self.exchange(cfg, &req, Ghost(Call::PutFile(path@)), Ghost(base));
        proof {
            lemma_grew_push(start, first, self.log@.last());
            lemma_grew_trans(base, start, self.log@);
            assert(added(start, self.log@).last() == self.log@.last());
        }
        match r {
            Err(e) => Err(e),
            Ok(resp) => {
                if !ok(resp.status) {
                    Err(detail(resp.status, resp.body.as_slice()))
                } else {
                    Ok(())
                }
            },
        }
    }

    /// Remove files under `prefix` that the current build does not push. A
    /// repository is reused across builds, and without this it would keep
    /// every earlier build's files, a plaintext source among them.
    fn prune_stale(
        &mut self,
        cfg: &RepoConfig,
        prefix: &String,
        keep: &Vec<String>,
        git_ref: &str,
        Ghost(base): Ghost<Seq<Exchange>>,
    ) -> (r: Result<usize, GhError>)
        requires
            grew(base, old(self).log@),
            ordered(added(base, old(self).log@)),
        ensures
            grew(base, final(self).log@),
            ordered(added(base, final(self).log@)),
            added(base, final(self).log@) == added(base, old(self).log@) + added(
                old(self).log@,
                final(self).log@,
            ),
            final(self).same_settings(old(self)),
            final(self).build_running == old(self).build_running,
            final(self).last_artifact == old(self).last_artifact,
            grew(old(self).log@, final(self).log@),
            ({
                let n = added(old(self).log@, final(self).log@);
                let sel = if answered_ok(n[0]) {
                    prunable(blobs_from(lossy_text(reply_body(n[0])), 0), prefix@, texts(keep@))
                } else {
                    Seq::empty()
                };
                &&& 1 <= n.len() <= sel.len() + 1
                &&& n[0].call == Call::GetTree(git_ref@)
                &&& forall|i: int|
                    1 <= i < n.len() ==> n[i].call == Call::DeleteFile(sel[i - 1].0) && carried(
                        #[trigger] n[i],
                        delete_file_body(PRUNE_MESSAGE@, sel[i - 1].1),
                    )
                &&& (r is Err <==> n.last().reply is None)
                &&& (r matches Ok(k) ==> n.len() == sel.len() + 1 && k == count_ok(n.skip(1)))
            }),
    {
        let ghost start = self.log@;
        let req = get_tree(cfg.token.as_str(), cfg.owner.as_str(), cfg.repo.as_str(), git_ref);
        let tree = self.exchange(cfg, &req, Ghost(Call::GetTree(git_ref@)), Ghost(base));
        proof {
            lemma_grew_refl(start);
            lemma_grew_push(start, start, self.log@.last());
        }
        let ghost e0 = self.log@.last();
        let tree = match tree {
            Err(e) => {
                proof {
                    lemma_grew_trans(base, start, self.log@);
                }
                return Err(e);
            },
            Ok(x) => x,
        };
        if !ok(tree.status) {
            proof {
                lemma_grew_trans(base, start, self.log@);
                assert(added(start, self.log@).skip(1) =~= Seq::<Exchange>::empty());
            }
            return Ok(0);
        }
        let text = text_lossy(tree.body.as_slice());
        let blobs = tree_blobs(text.as_str());
        let ghost bv = blobs_from(lossy_text(reply_body(e0)), 0);
        let ghost kv = texts(keep@);
        assert(string_pairs(blobs@) == bv);
        let mut removed: usize = 0;
        let mut i: usize = 0;
        while i < blobs.len()
            invariant
                i <= blobs@.len(),
                start == old(self).log@,
                string_pairs(blobs@) == bv,
                kv == texts(keep@),
                grew(start, self.log@),
                grew(base, start),
                grew(base, self.log@),
                ordered(added(base, self.log@)),
                self.same_settings(old(self)),
                self.build_running == old(self).build_running,
                self.last_artifact == old(self).last_artifact,
                ({
                    let n = added(start, self.log@);
                    let sel = prunable(bv.take(i as int), prefix@, kv);
                    &&& n.len() == sel.len() + 1
                    &&& n[0] == e0
                    &&& forall|j: int|
                        1 <= j < n.len() ==> n[j].call == Call::DeleteFile(sel[j - 1].0) && carried(
                            #[trigger] n[j],
                            delete_file_body(PRUNE_MESSAGE@, sel[j - 1].1),
                        )
                    &&& n.last().reply is Some
                    &&& removed == count_ok(n.skip(1))
                    &&& removed <= i
                }),
                answered_ok(e0),
                bv == blobs_from(lossy_text(reply_body(e0)), 0),
                e0.call == Call::GetTree(git_ref@),
            decreases blobs@.len() - i,
        {
            let ghost n0 = added(start, self.log@);
            let ghost sel0 = prunable(bv.take(i as int), prefix@, kv);
            assert(bv.take(i + 1).drop_last() =~= bv.take(i as int));
            assert(string_pairs(blobs@)[i as int] == (blobs@[i as int].0@, blobs@[i as int].1@));
            let path = &blobs[i].0;
            let sha = &blobs[i].1;
            if !starts_with(path, prefix) || contains_text(keep, path) {
                i = i + 1;
                continue;
            }
            let req = delete_file(
                cfg.token.as_str(),
                cfg.owner.as_str(),
                cfg.repo.as_str(),
                path.as_str(),
                sha.as_str(),
                PRUNE_MESSAGE,
            );
            let ghost mid = self.log@;
            let r = self.exchange(cfg, &req, Ghost(Call::DeleteFile(path@)), Ghost(base));
            proof {
                lemma_grew_push(start, mid, self.log@.last());
                let n = added(start, self.log@);
                let sel = prunable(bv.take(i + 1), prefix@, kv);
                assert(sel == sel0.push(bv[i as int]));
                assert(n.skip(1).drop_last() =~= n0.skip(1));
                assert forall|j: int| 1 <= j < n.len() implies n[j].call == Call::DeleteFile(sel[j - 1].0)
                    && carried(#[trigger] n[j], delete_file_body(PRUNE_MESSAGE@, sel[j - 1].1)) by {
                    if j < n.len() - 1 {
                        assert(n[j] == n0[j]);
                    }
                }
            }
            match r {
                Err(e) => {
                    proof {
                        lemma_grew_trans(base, start, self.log@);
                        assert(bv =~= bv.take(i + 1) + bv.skip(i + 1));
                        lemma_prunable_add(bv.take(i + 1), bv.skip(i + 1), prefix@, kv);
                        let n = added(start, self.log@);
                        let sel = prunable(bv.take(i + 1), prefix@, kv);
                        let full = prunable(bv, prefix@, kv);
                        assert(n[0] == e0);
                        assert forall|j: int| 1 <= j < n.len() implies n[j].call == Call::DeleteFile(
                            full[j - 1].0,
                        ) && carried(#[trigger] n[j], delete_file_body(PRUNE_MESSAGE@, full[j - 1].1)) by {
                            assert(full[j - 1] == sel[j - 1]);
                        }
                    }
                    return Err(e);
                },
                Ok(resp) => {
                    if ok(resp.status) {
                        removed = removed + 1;
                    }
                },
            }
            i = i + 1;
        }
        proof {
            assert(bv.take(blobs@.len() as int) =~= bv);
            lemma_grew_trans(base, start, self.log@);
        }
        Ok(removed)
    }
}

/// `before` is where `after` started: the log only grows.
/// The dispatch of a phase `d` (its second exchange) stands in the whole.
proof fn lemma_dispatched(pre: Seq<Exchange>, d: Seq<Exchange>, post: Seq<Exchange>, git_ref: Seq<char>, token: Seq<char>)
    requires
        2 <= d.len(),
        d[1].call == Call::Dispatch,
        carried(d[1], "{\"ref\":\""@ + git_ref + "\"}"@),
        d[1].headers == spec_auth_headers(token),
    ensures
        dispatched_ref(pre + d + post, git_ref, token),
{
    let n = pre + d + post;
    assert(n[pre.len() + 1int] == d[1]);
}

/// A call made while preparing the repository, before the dispatch.
pub open spec fn setup_call(c: Call) -> bool {
    c is CreateRepo || c is SetVisibility || c is PublicKey || c is PutSecret || c is GetFile || c is PutFile
        || c is GetTree || c is DeleteFile
}

/// Every call of `n` prepares the repository.
#[verifier::opaque]
pub open spec fn setup_calls(n: Seq<Exchange>) -> bool {
    forall|j: int| 0 <= j < n.len() ==> setup_call((#[trigger] n[j]).call)
}

/// No call of `n` asks about a run or its artifacts.
pub open spec fn nothing_fetched(n: Seq<Exchange>) -> bool {
    forall|j: int|
        0 <= j < n.len() ==> !((#[trigger] n[j]).call is GetRun || n[j].call is ListArtifacts || n[j].call is Download
            || n[j].call is DeleteArtifact)
}

/// The workflow dispatch was accepted.
pub open spec fn dispatch_accepted(n: Seq<Exchange>) -> bool {
    exists|d: int| 0 <= d < n.len() && (#[trigger] n[d]).call == Call::Dispatch && answered_ok(n[d])
}

/// Every runs listing made after a dispatch was answered, and named only runs
/// that the listing just before the dispatch named too: no new run appeared.
pub open spec fn no_new_run(n: Seq<Exchange>) -> bool {
    forall|d: int, j: int|
        1 <= d < j < n.len() && (#[trigger] n[d]).call == Call::Dispatch && (#[trigger] n[j]).call == Call::ListRuns
            ==> answered_ok(n[j]) && forall|id: u64|
            #[trigger] run_listed(n[j], id) ==> answered_ok(n[d - 1]) && run_listed(n[d - 1], id)
}

/// Exchange `g` of `n` reported run `id` completed without success.
pub open spec fn run_failed_at(n: Seq<Exchange>, g: int, id: u64) -> bool {
    &&& 0 <= g < n.len()
    &&& n[g].call == Call::GetRun(id)
    &&& answered_ok(n[g])
    &&& mentions(lossy_text(reply_body(n[g])), RUN_COMPLETED@)
    &&& !mentions(lossy_text(reply_body(n[g])), RUN_SUCCEEDED@)
}

/// Secret `name` was stored sealed: its request was answered with success
/// and carried something the sealer may give for `plaintext` and the key
/// that an earlier public-key request returned, with that key's id.
pub open spec fn secret_sealed<S: SecretSealer>(sealer: &S, n: Seq<Exchange>, name: Seq<char>, plaintext: Seq<u8>) -> bool {
    exists|p: int, j: int|
        #![trigger n[p], n[j]]
        0 <= p < j < n.len() && n[p].call == Call::PublicKey && n[j].call == Call::PutSecret(name) && answered_ok(n[j])
            && spec_body_json_str(reply_body(n[p]), "key"@) is Some && spec_body_json_str(reply_body(n[p]), "key_id"@) is Some
            && sealed_put(
            sealer,
            n[j],
            spec_body_json_str(reply_body(n[p]), "key"@)->0,
            spec_body_json_str(reply_body(n[p]), "key_id"@)->0,
            plaintext,
        )
}

/// What the build's result is when it fails on the way: when the dispatch was
/// accepted but no new run appeared, the wait ran out (`Decode`), nothing
/// about a run was asked and the kept artifact is unchanged; when a run was
/// reported completed without success, the build ends right there with
/// `BuildFailed` for it and the kept artifact unchanged.
#[verifier::opaque]
pub open spec fn failure_facts(n: Seq<Exchange>, r: Result<u64, GhError>, artifact_kept: bool) -> bool {
    &&& (dispatch_accepted(n) && no_new_run(n)) ==> r == Err::<u64, GhError>(GhError::Decode) && artifact_kept
        && nothing_fetched(n)
    &&& forall|g: int, id: u64|
        #[trigger] run_failed_at(n, g, id) ==> r == Err::<u64, GhError>(GhError::BuildFailed(id)) && g == n.len() - 1
            && artifact_kept
}

/// Every secret was stored sealed.
#[verifier::opaque]
pub open spec fn all_secrets_sealed<S: SecretSealer>(sealer: &S, n: Seq<Exchange>, secrets: Seq<(String, Vec<u8>)>) -> bool {
    forall|k: int| 0 <= k < secrets.len() ==> secret_sealed(sealer, n, #[trigger] secrets[k].0@, secrets[k].1@)
}

/// The build was storing secrets when it stopped: exchange `p` fetched the
/// repository key and it named a key and its id, the secrets before the
/// `n.len() - p - 1`-th were each stored, and nothing else was sent after `p`.
pub open spec fn stopped_among_secrets(n: Seq<Exchange>, p: int, secrets: Seq<(String, Vec<u8>)>) -> bool {
    &&& 0 <= p < n.len()
    &&& n[p].call == Call::PublicKey
    &&& answered_ok(n[p])
    &&& spec_body_json_str(reply_body(n[p]), "key"@) is Some
    &&& spec_body_json_str(reply_body(n[p]), "key_id"@) is Some
    &&& n.len() - p - 1 < secrets.len()
    &&& forall|j: int| p < j < n.len() ==> (#[trigger] n[j]).call == Call::PutSecret(secrets[j - p - 1].0@) && answered_ok(n[j])
}

/// A build that stopped among the secrets stopped because sealing the next
/// secret failed: its result is an error the sealer may give for that
/// secret, and no request for that secret or a later one was sent.
#[verifier::opaque]
pub open spec fn sealing_facts<S: SecretSealer>(sealer: &S, n: Seq<Exchange>, secrets: Seq<(String, Vec<u8>)>, r: Result<u64, GhError>) -> bool {
    forall|p: int|
        #[trigger] stopped_among_secrets(n, p, secrets) ==> exists|e: GhError|
            r == Err::<u64, GhError>(e) && #[trigger] sealer.may_seal(
                spec_body_json_str(reply_body(n[p]), "key"@)->0,
                secrets[n.len() - p - 1].1@,
                Err(e),
            )
}

/// A build whose last call neither fetched the key nor stored a secret did
/// not stop among the secrets.
proof fn lemma_not_among_secrets<S: SecretSealer>(sealer: &S, n: Seq<Exchange>, secrets: Seq<(String, Vec<u8>)>, r: Result<u64, GhError>)
    requires
        n.len() > 0,
        !(n.last().call is PutSecret),
        !(n.last().call is PublicKey),
    ensures
        sealing_facts(sealer, n, secrets, r),
{
    reveal(sealing_facts);
    assert forall|p: int| #[trigger] stopped_among_secrets(n, p, secrets) implies exists|e: GhError|
        r == Err::<u64, GhError>(e) && #[trigger] sealer.may_seal(
            spec_body_json_str(reply_body(n[p]), "key"@)->0,
            secrets[n.len() - p - 1].1@,
            Err(e),
        ) by {
        if p < n.len() - 1 {
            assert(n[n.len() - 1].call is PutSecret);
        }
    }
}

/// A build that ended in its secrets segment `b`, after the repository
/// segment `a`, ended as the secrets segment did.
proof fn lemma_stopped_in_secrets<S: SecretSealer>(
    sealer: &S,
    a: Seq<Exchange>,
    b: Seq<Exchange>,
    secrets: Seq<(String, Vec<u8>)>,
    rb: Result<(), GhError>,
    r: Result<u64, GhError>,
)
    requires
        forall|j: int| 0 <= j < a.len() ==> ((#[trigger] a[j]).call is CreateRepo || a[j].call is SetVisibility),
        1 <= b.len(),
        b[0].call == Call::PublicKey,
        forall|i: int| 1 <= i < b.len() ==> (#[trigger] b[i]).call == Call::PutSecret(secrets[i - 1].0@),
        rb matches Err(x) && r == Err::<u64, GhError>(x),
        (rb is Err && answered_ok(b[0]) && spec_body_json_str(reply_body(b[0]), "key"@) is Some
            && spec_body_json_str(reply_body(b[0]), "key_id"@) is Some && b.len() <= secrets.len()
            && forall|i: int| 1 <= i < b.len() ==> answered_ok(#[trigger] b[i])) ==> exists|e: GhError|
            rb == Err::<(), GhError>(e) && #[trigger] sealer.may_seal(
                spec_body_json_str(reply_body(b[0]), "key"@)->0,
                secrets[b.len() - 1].1@,
                Err(e),
            ),
    ensures
        sealing_facts(sealer, a + b, secrets, r),
{
    reveal(sealing_facts);
    let n = a + b;
    assert forall|p: int| #[trigger] stopped_among_secrets(n, p, secrets) implies exists|e: GhError|
        r == Err::<u64, GhError>(e) && #[trigger] sealer.may_seal(
            spec_body_json_str(reply_body(n[p]), "key"@)->0,
            secrets[n.len() - p - 1].1@,
            Err(e),
        ) by {
        if p < a.len() {
            assert(n[p] == a[p]);
        } else {
            assert(n[p] == b[p - a.len()]);
            if p > a.len() {
                assert(b[p - a.len()].call is PutSecret);
            }
            assert(p == a.len());
            assert(n[p] == b[0]);
            assert forall|i: int| 1 <= i < b.len() implies answered_ok(#[trigger] b[i]) by {
                assert(n[a.len() + i] == b[i]);
            }
            let e = choose|e: GhError| rb == Err::<(), GhError>(e) && #[trigger] sealer.may_seal(
                spec_body_json_str(reply_body(b[0]), "key"@)->0,
                secrets[b.len() - 1].1@,
                Err(e),
            );
            assert(r == Err::<u64, GhError>(e));
        }
    }
}

/// Why a build that failed failed: the last exchange failed (at the
/// transport, or with a status outside 200..300), the repository key reply
/// named no key, the sealer refused a secret, the wait for a new run ran
/// out, or the run was reported completed without success.
#[verifier::opaque]
pub open spec fn error_explained(n: Seq<Exchange>, s: Seq<Sealing>, e: GhError, polls: u32) -> bool {
    ||| last_failed(n, e)
    ||| key_missing(n, e)
    ||| sealer_refused(s, e)
    ||| wait_ran_out(n, e, polls)
    ||| (e matches GhError::BuildFailed(id) && run_failed_at(n, n.len() - 1, id))
}

/// How the secrets were sealed and stored, from the key request at `p`: each
/// sealer call was handed that key and its secret's plaintext, in order; each
/// secret stored carries its box and the key id; a refusing sealer call was
/// the last thing the build did, and its error is the build's; and a build
/// that succeeded stored every secret.
pub open spec fn secrets_from<S: SecretSealer>(
    sealer: &S,
    n: Seq<Exchange>,
    s: Seq<Sealing>,
    secrets: Seq<(String, Vec<u8>)>,
    r: Result<u64, GhError>,
    p: int,
) -> bool {
    let key = spec_body_json_str(reply_body(n[p]), "key"@);
    let key_id = spec_body_json_str(reply_body(n[p]), "key_id"@);
    &&& 0 <= p < n.len()
    &&& n[p].call == Call::PublicKey
    &&& answered_ok(n[p])
    &&& key is Some
    &&& key_id is Some
    &&& s.len() <= secrets.len()
    &&& forall|i: int|
        0 <= i < s.len() ==> (#[trigger] s[i]).key == key->0 && s[i].plaintext == secrets[i].1@ && sealer.may_seal(
            s[i].key,
            s[i].plaintext,
            s[i].result,
        )
    &&& forall|i: int|
        0 <= i < s.len() && p + 1 + i < n.len() ==> n[p + 1 + i].call == Call::PutSecret(secrets[i].0@) && put_carries(
            n[p + 1 + i],
            #[trigger] s[i],
            key_id->0,
        )
    &&& s.last().result is Err ==> r == Err::<u64, GhError>(s.last().result->Err_0) && n.len() == p + s.len()
    &&& r is Ok ==> s.len() == secrets.len() && p + secrets.len() < n.len() && forall|i: int|
        0 <= i < secrets.len() ==> answered_ok(#[trigger] n[p + 1 + i])
}

/// Secrets are sealed in order, with the fetched key, and a refusing sealer
/// ends the build: its error is the build's result, every earlier secret was
/// sealed without error and stored right after the key request, in order,
/// and nothing more is sent, so neither the refused secret nor any later one
/// is stored.
pub proof fn lemma_sealer_refusal_ends_the_build<S: SecretSealer>(
    sealer: &S,
    n: Seq<Exchange>,
    s: Seq<Sealing>,
    secrets: Seq<(String, Vec<u8>)>,
    r: Result<u64, GhError>,
    p: int,
)
    requires
        secrets_from(sealer, n, s, secrets, r, p),
        s.len() > 0,
        s.last().result is Err,
    ensures
        r == Err::<u64, GhError>(s.last().result->Err_0),
        n[p].call == Call::PublicKey,
        n.len() == p + s.len(),
        forall|i: int|
            0 <= i < s.len() ==> (#[trigger] s[i]).key == spec_body_json_str(reply_body(n[p]), "key"@)->0
                && s[i].plaintext == secrets[i].1@,
        forall|i: int| 0 <= i < s.len() - 1 ==> (#[trigger] s[i]).result is Ok,
        forall|j: int|
            p < j < n.len() ==> j - p - 1 < s.len() - 1 && (#[trigger] n[j]).call == Call::PutSecret(
                secrets[j - p - 1].0@,
            ),
{
    let key_id = spec_body_json_str(reply_body(n[p]), "key_id"@);
    assert forall|i: int| 0 <= i < s.len() - 1 implies (#[trigger] s[i]).result is Ok by {
        assert(p + 1 + i < n.len());
        assert(put_carries(n[p + 1 + i], s[i], key_id->0));
    }
    assert forall|j: int| p < j < n.len() implies j - p - 1 < s.len() - 1 && (#[trigger] n[j]).call
        == Call::PutSecret(secrets[j - p - 1].0@) by {
        let i = j - p - 1;
        assert(p + 1 + i == j);
        assert(0 <= i < s.len());
        assert(p + 1 + i < n.len());
        let si = s[i];
        assert(n[p + 1 + i].call == Call::PutSecret(secrets[i].0@));
    }
}

/// The secrets story of a whole build: no sealer call, or one told from the key request.
#[verifier::opaque]
pub open spec fn secrets_story<S: SecretSealer>(
    sealer: &S,
    n: Seq<Exchange>,
    s: Seq<Sealing>,
    secrets: Seq<(String, Vec<u8>)>,
    r: Result<u64, GhError>,
) -> bool {
    s.len() == 0 || exists|p: int| #[trigger] secrets_from(sealer, n, s, secrets, r, p)
}

proof fn lemma_explained_last(a: Seq<Exchange>, b: Seq<Exchange>, s: Seq<Sealing>, e: GhError, polls: u32)
    requires
        last_failed(b, e),
    ensures
        error_explained(a + b, s, e, polls),
{
    reveal(error_explained);
    lemma_last_failed_after(a, b, e);
}

proof fn lemma_explained_wait(a: Seq<Exchange>, b: Seq<Exchange>, s: Seq<Sealing>, e: GhError, polls: u32)
    requires
        last_failed(b, e) || wait_ran_out(b, e, polls),
    ensures
        error_explained(a + b, s, e, polls),
{
    reveal(error_explained);
    if last_failed(b, e) {
        lemma_last_failed_after(a, b, e);
    } else {
        reveal(wait_ran_out);
        let d = choose|d: int| #[trigger] waited_after(b, d, polls);
        lemma_waited_after_shift(a, b, d, polls);
    }
}

proof fn lemma_explained_run(a: Seq<Exchange>, b: Seq<Exchange>, s: Seq<Sealing>, e: GhError, polls: u32, run_id: u64)
    requires
        last_failed(b, e) || (e == GhError::BuildFailed(run_id) && run_failed_at(b, b.len() - 1, run_id)),
    ensures
        error_explained(a + b, s, e, polls),
{
    reveal(error_explained);
    if last_failed(b, e) {
        lemma_last_failed_after(a, b, e);
    } else {
        assert((a + b)[(a + b).len() - 1] == b[b.len() - 1]);
    }
}

proof fn lemma_explained_secrets<S: SecretSealer>(
    sealer: &S,
    a: Seq<Exchange>,
    b: Seq<Exchange>,
    sl: Seq<Sealing>,
    secrets: Seq<(String, Vec<u8>)>,
    rb: Result<(), GhError>,
    polls: u32,
)
    requires
        sealing_in_secrets(sealer, b, sl, secrets, rb),
        b.len() >= 1,
        rb is Err,
    ensures
        error_explained(a + b, sl, rb->Err_0, polls),
{
    reveal(error_explained);
    reveal(sealing_in_secrets);
    reveal(key_missing);
    let e = rb->Err_0;
    if last_failed(b, e) {
        lemma_last_failed_after(a, b, e);
    } else if key_missing(b, e) {
        assert((a + b).last() == b.last());
    }
}

/// The secrets phase `b`, after the repository phase `a` and before the
/// rest of the build, tells the whole build's secrets story.
proof fn lemma_secrets_story<S: SecretSealer>(
    sealer: &S,
    a: Seq<Exchange>,
    b: Seq<Exchange>,
    rest: Seq<Exchange>,
    sl: Seq<Sealing>,
    secrets: Seq<(String, Vec<u8>)>,
    rb: Result<(), GhError>,
    r: Result<u64, GhError>,
)
    requires
        sealing_in_secrets(sealer, b, sl, secrets, rb),
        b.len() >= 1,
        b[0].call == Call::PublicKey,
        forall|i: int| 1 <= i < b.len() ==> (#[trigger] b[i]).call == Call::PutSecret(secrets[i - 1].0@),
        rb is Ok <==> (answered_ok(b[0]) && spec_body_json_str(reply_body(b[0]), "key"@) is Some
            && spec_body_json_str(reply_body(b[0]), "key_id"@) is Some && b.len() == secrets.len() + 1 && forall|i: int|
            1 <= i < b.len() ==> answered_ok(#[trigger] b[i])),
        rb is Err ==> rest.len() == 0 && r == Err::<u64, GhError>(rb->Err_0),
        r is Ok ==> rb is Ok,
    ensures
        secrets_story(sealer, a + b + rest, sl, secrets, r),
{
    reveal(secrets_story);
    reveal(sealing_in_secrets);
    if sl.len() > 0 {
        let n = a + b + rest;
        let p = a.len() as int;
        assert(n[p] == b[0]);
        assert forall|i: int| 0 <= i < sl.len() && p + 1 + i < n.len() implies n[p + 1 + i].call == Call::PutSecret(
            secrets[i].0@,
        ) && put_carries(n[p + 1 + i], #[trigger] sl[i], spec_body_json_str(reply_body(n[p]), "key_id"@)->0) by {
            if 1 + i < b.len() {
                assert(n[p + 1 + i] == b[1 + i]);
            } else {
                // Past the secrets phase: only when it succeeded, and then every seal has its request.
                assert(rb is Ok);
                assert(false);
            }
        }
        if sl.last().result is Err {
            if rb is Ok {
                assert(put_carries(b[sl.len() as int], sl[sl.len() - 1], spec_body_json_str(reply_body(b[0]), "key_id"@)->0));
            }
        }
        if r is Ok {
            assert forall|i: int| 0 <= i < secrets.len() implies answered_ok(#[trigger] n[p + 1 + i]) by {
                assert(n[p + 1 + i] == b[1 + i]);
            }
        }
        assert(secrets_from(sealer, n, sl, secrets, r, p));
    }
}

/// What a build's exchanges, sealer calls and result say together: a failure
/// is explained, and the secrets story holds.
#[verifier::opaque]
pub open spec fn build_explained<S: SecretSealer>(
    sealer: &S,
    n: Seq<Exchange>,
    s: Seq<Sealing>,
    secrets: Seq<(String, Vec<u8>)>,
    r: Result<u64, GhError>,
    polls: u32,
) -> bool {
    &&& r matches Err(e) ==> error_explained(n, s, e, polls)
    &&& secrets_story(sealer, n, s, secrets, r)
}

proof fn lemma_build_explained<S: SecretSealer>(
    sealer: &S,
    n: Seq<Exchange>,
    s: Seq<Sealing>,
    secrets: Seq<(String, Vec<u8>)>,
    r: Result<u64, GhError>,
    polls: u32,
)
    requires
        r matches Err(e) ==> error_explained(n, s, e, polls),
        secrets_story(sealer, n, s, secrets, r),
    ensures
        build_explained(sealer, n, s, secrets, r, polls),
{
    reveal(build_explained);
}

proof fn lemma_no_story<S: SecretSealer>(sealer: &S, n: Seq<Exchange>, secrets: Seq<(String, Vec<u8>)>, r: Result<u64, GhError>)
    ensures
        secrets_story(sealer, n, Seq::empty(), secrets, r),
{
    reveal(secrets_story);
}

/// Exchange `d` of `n` dispatched the workflow.
pub open spec fn dispatch_at(n: Seq<Exchange>, d: int) -> bool {
    0 <= d < n.len() && n[d].call == Call::Dispatch
}

/// Every dispatch comes right after a runs listing, and only the run that
/// the build found to be new is asked about or has its artifacts listed.
#[verifier::opaque]
pub open spec fn calls_in_place(n: Seq<Exchange>) -> bool {
    &&& forall|d: int| #[trigger] dispatch_at(n, d) ==> d >= 1 && n[d - 1].call == Call::ListRuns
    &&& forall|j: int|
        0 <= j < n.len() ==> ((#[trigger] n[j]).call matches Call::GetRun(x) ==> run_is_new(n, x)) && (
        n[j].call matches Call::ListArtifacts(x) ==> run_is_new(n, x))
}

proof fn lemma_in_place_setup(n: Seq<Exchange>)
    requires
        setup_calls(n),
    ensures
        calls_in_place(n),
{
    reveal(calls_in_place);
    reveal(setup_calls);
    assert forall|d: int| #[trigger] dispatch_at(n, d) implies d >= 1 && n[d - 1].call == Call::ListRuns by {
        assert(setup_call(n[d].call));
    }
    assert forall|j: int| 0 <= j < n.len() implies ((#[trigger] n[j]).call matches Call::GetRun(x) ==> run_is_new(n, x))
        && (n[j].call matches Call::ListArtifacts(x) ==> run_is_new(n, x)) by {
        assert(setup_call(n[j].call));
    }
}

proof fn lemma_setup_at(a: Seq<Exchange>, k: int)
    requires
        setup_calls(a),
        0 <= k < a.len(),
    ensures
        setup_call(a[k].call),
{
    reveal(setup_calls);
}

/// The segments of a build that got as far as the dispatch: the setup
/// calls `a`, the dispatch segment `d`, the wait `e` and the fetch `f`.
#[verifier::opaque]
pub open spec fn run_segments(
    a: Seq<Exchange>,
    d: Seq<Exchange>,
    e: Seq<Exchange>,
    f: Seq<Exchange>,
    run_id: u64,
    found: bool,
) -> bool {
    &&& setup_calls(a)
    &&& 2 <= d.len()
    &&& d[0].call == Call::ListRuns
    &&& d[1].call == Call::Dispatch
    &&& (forall|j: int| 2 <= j < d.len() ==> (#[trigger] d[j]).call == Call::ListRuns)
    &&& (forall|j: int| 0 <= j < e.len() ==> (#[trigger] e[j]).call == Call::GetRun(run_id))
    &&& (forall|j: int|
        0 <= j < f.len() ==> ((#[trigger] f[j]).call == Call::ListArtifacts(run_id) || f[j].call is Download
            || f[j].call is DeleteArtifact))
    &&& (found ==> run_is_new(d, run_id))
    &&& (!found ==> e.len() == 0 && f.len() == 0)
}

proof fn lemma_dispatch_in_place(a: Seq<Exchange>, d: Seq<Exchange>, e: Seq<Exchange>, f: Seq<Exchange>, run_id: u64, found: bool)
    requires
        run_segments(a, d, e, f, run_id, found),
    ensures
        forall|k: int| #[trigger] dispatch_at(a + d + e + f, k) ==> k >= 1 && (a + d + e + f)[k - 1].call == Call::ListRuns,
{
    reveal(run_segments);
    let n = a + d + e + f;
    let o = a.len() + d.len();
    assert forall|k: int| #[trigger] dispatch_at(n, k) implies k >= 1 && n[k - 1].call == Call::ListRuns by {
        if k < a.len() {
            assert(n[k] == a[k]);
            lemma_setup_at(a, k);
        } else if k < o {
            assert(n[k] == d[k - a.len()]);
            assert(k == a.len() + 1);
            assert(n[k - 1] == d[0]);
        } else if k < o + e.len() {
            assert(n[k] == e[k - o]);
        } else {
            assert(n[k] == f[k - o - e.len()]);
        }
    }
}

proof fn lemma_queries_in_place(a: Seq<Exchange>, d: Seq<Exchange>, e: Seq<Exchange>, f: Seq<Exchange>, run_id: u64, found: bool)
    requires
        run_segments(a, d, e, f, run_id, found),
    ensures
        forall|j: int|
            0 <= j < (a + d + e + f).len() ==> ((#[trigger] (a + d + e + f)[j]).call matches Call::GetRun(x) ==> x == run_id
                && found) && ((a + d + e + f)[j].call matches Call::ListArtifacts(x) ==> x == run_id && found),
{
    reveal(run_segments);
    let n = a + d + e + f;
    let o = a.len() + d.len();
    assert forall|j: int| 0 <= j < n.len() implies ((#[trigger] n[j]).call matches Call::GetRun(x) ==> x == run_id && found)
        && (n[j].call matches Call::ListArtifacts(x) ==> x == run_id && found) by {
        if j < a.len() {
            assert(n[j] == a[j]);
            lemma_setup_at(a, j);
        } else if j < o {
            assert(n[j] == d[j - a.len()]);
        } else if j < o + e.len() {
            assert(n[j] == e[j - o]);
        } else {
            assert(n[j] == f[j - o - e.len()]);
        }
    }
}

#[verifier::spinoff_prover]
#[verifier::rlimit(100)]
proof fn lemma_in_place_run(a: Seq<Exchange>, d: Seq<Exchange>, e: Seq<Exchange>, f: Seq<Exchange>, run_id: u64, found: bool)
    requires
        setup_calls(a),
        2 <= d.len(),
        d[0].call == Call::ListRuns,
        d[1].call == Call::Dispatch,
        forall|j: int| 2 <= j < d.len() ==> (#[trigger] d[j]).call == Call::ListRuns,
        forall|j: int| 0 <= j < e.len() ==> (#[trigger] e[j]).call == Call::GetRun(run_id),
        forall|j: int|
            0 <= j < f.len() ==> ((#[trigger] f[j]).call == Call::ListArtifacts(run_id) || f[j].call is Download
                || f[j].call is DeleteArtifact),
        found ==> run_is_new(d, run_id),
        !found ==> e.len() == 0 && f.len() == 0,
    ensures
        calls_in_place(a + d + e + f),
{
    assert(run_segments(a, d, e, f, run_id, found)) by {
        reveal(run_segments);
    }
    reveal(calls_in_place);
    let n = a + d + e + f;
    lemma_dispatch_in_place(a, d, e, f, run_id, found);
    lemma_queries_in_place(a, d, e, f, run_id, found);
    if found {
        lemma_run_is_new_shift(a, d, e + f, run_id);
        assert(a + d + (e + f) =~= n);
    }
    assert forall|j: int| 0 <= j < n.len() implies ((#[trigger] n[j]).call matches Call::GetRun(x) ==> run_is_new(n, x))
        && (n[j].call matches Call::ListArtifacts(x) ==> run_is_new(n, x)) by {
        assert((n[j].call matches Call::GetRun(x) ==> x == run_id && found) && (n[j].call matches Call::ListArtifacts(x)
            ==> x == run_id && found));
    }
}

proof fn lemma_setup_add(a: Seq<Exchange>, b: Seq<Exchange>)
    requires
        setup_calls(a),
        setup_calls(b),
    ensures
        setup_calls(a + b),
{
    reveal(setup_calls);
    assert forall|j: int| 0 <= j < (a + b).len() implies setup_call((#[trigger] (a + b)[j]).call) by {
        if j < a.len() {
            assert((a + b)[j] == a[j]);
        } else {
            assert((a + b)[j] == b[j - a.len()]);
        }
    }
}

/// Before the dispatch nothing was dispatched, no run failed and nothing was fetched.
proof fn lemma_before_dispatch(n: Seq<Exchange>)
    requires
        setup_calls(n),
    ensures
        !dispatch_accepted(n),
        nothing_fetched(n),
        forall|g: int, id: u64| !run_failed_at(n, g, id),
{
    reveal(setup_calls);
    assert forall|g: int, id: u64| !run_failed_at(n, g, id) by {
        if 0 <= g < n.len() {
            assert(setup_call(n[g].call));
        }
    }
    assert forall|j: int| 0 <= j < n.len() implies !((#[trigger] n[j]).call is GetRun || n[j].call is ListArtifacts
        || n[j].call is Download || n[j].call is DeleteArtifact) by {
        assert(setup_call(n[j].call));
    }
    if dispatch_accepted(n) {
        let d = choose|d: int| 0 <= d < n.len() && (#[trigger] n[d]).call == Call::Dispatch && answered_ok(n[d]);
        assert(setup_call(n[d].call));
    }
}

/// A run that is new rules out that no new run appeared.
proof fn lemma_new_run_seen(n: Seq<Exchange>, id: u64)
    requires
        run_is_new(n, id),
    ensures
        !no_new_run(n),
{
    let (d, i) = choose|d: int, i: int| #[trigger] new_run_at(n, d, i, id);
    if no_new_run(n) {
        assert(n[d].call == Call::Dispatch && n[i].call == Call::ListRuns);
        assert(run_listed(n[i], id));
    }
}

/// When the dispatch segment `d` follows the setup calls `pre` and the build
/// ended there, an accepted dispatch followed only by answered listings with
/// no new run means the wait ran out.
proof fn lemma_wait_ran_out(pre: Seq<Exchange>, d: Seq<Exchange>, rd: Result<u64, GhError>)
    requires
        setup_calls(pre),
        2 <= d.len(),
        d[0].call == Call::ListRuns,
        d[1].call == Call::Dispatch,
        forall|j: int| 2 <= j < d.len() ==> (#[trigger] d[j]).call == Call::ListRuns,
        rd is Err,
        (rd is Err && answered_ok(d[1]) && d.last().reply is Some) ==> rd == Err::<u64, GhError>(GhError::Decode),
    ensures
        nothing_fetched(pre + d),
        forall|g: int, id: u64| !run_failed_at(pre + d, g, id),
        (dispatch_accepted(pre + d) && no_new_run(pre + d)) ==> rd == Err::<u64, GhError>(GhError::Decode),
{
    reveal(setup_calls);
    let n = pre + d;
    lemma_before_dispatch(pre);
    assert forall|j: int| 0 <= j < n.len() implies !((#[trigger] n[j]).call is GetRun || n[j].call is ListArtifacts
        || n[j].call is Download || n[j].call is DeleteArtifact) by {
        if j < pre.len() {
            assert(n[j] == pre[j]);
        } else {
            assert(n[j] == d[j - pre.len()]);
        }
    }
    assert forall|g: int, id: u64| !run_failed_at(n, g, id) by {
        if 0 <= g < n.len() {
            if g < pre.len() {
                assert(n[g] == pre[g]);
                assert(setup_call(pre[g].call));
            } else {
                assert(n[g] == d[g - pre.len()]);
            }
        }
    }
    if dispatch_accepted(n) && no_new_run(n) {
        let w = choose|w: int| 0 <= w < n.len() && (#[trigger] n[w]).call == Call::Dispatch && answered_ok(n[w]);
        if w < pre.len() {
            assert(n[w] == pre[w]);
            assert(setup_call(pre[w].call));
        } else {
            assert(n[w] == d[w - pre.len()]);
            assert(w == pre.len() + 1);
        }
        assert(n[pre.len() + 1int] == d[1]);
        assert(answered_ok(d[1]));
        let last = n.len() - 1;
        assert(n[last] == d.last());
        if d.len() > 2 {
            assert(d[d.len() - 1].call == Call::ListRuns);
            assert(n[w].call == Call::Dispatch && n[last].call == Call::ListRuns);
            assert(answered_ok(n[last]));
        }
    }
}

/// A run reported failed ends the build: only the wait asks about runs, and
/// it stops at the first answer that says the run completed.
proof fn lemma_failed_run_ends(
    pre: Seq<Exchange>,
    d: Seq<Exchange>,
    e: Seq<Exchange>,
    rest: Seq<Exchange>,
    run_id: u64,
    re: Result<bool, GhError>,
)
    requires
        setup_calls(pre),
        forall|j: int| 0 <= j < d.len() ==> ((#[trigger] d[j]).call is ListRuns || d[j].call is Dispatch),
        forall|j: int| 0 <= j < e.len() ==> (#[trigger] e[j]).call == Call::GetRun(run_id),
        forall|j: int|
            0 <= j < e.len() - 1 ==> (answered_ok(#[trigger] e[j]) ==> !mentions(
                lossy_text(reply_body(e[j])),
                RUN_COMPLETED@,
            )),
        forall|j: int| 0 <= j < rest.len() ==> !((#[trigger] rest[j]).call is GetRun),
        rest.len() > 0 ==> re == Ok::<bool, GhError>(true),
        re is Err ==> e.len() > 0 && (e.last().reply is None || (re matches Err(GhError::BuildFailed(id))
            && id == run_id)),
        re matches Ok(true) ==> e.len() > 0 && answered_ok(e.last()) && run_succeeded(reply_body(e.last())),
        re matches Ok(false) ==> forall|j: int|
            0 <= j < e.len() ==> (answered_ok(#[trigger] e[j]) ==> !mentions(
                lossy_text(reply_body(e[j])),
                RUN_COMPLETED@,
            )),
    ensures
        forall|g: int, id: u64|
            #[trigger] run_failed_at(pre + d + e + rest, g, id) ==> (re matches Err(GhError::BuildFailed(x)) && x == id)
                && g == (pre + d + e + rest).len() - 1 && rest.len() == 0,
{
    reveal(setup_calls);
    let n = pre + d + e + rest;
    assert forall|g: int, id: u64| #[trigger] run_failed_at(n, g, id) implies (re matches Err(
        GhError::BuildFailed(x),
    ) && x == id) && g == n.len() - 1 && rest.len() == 0 by {
        let o = pre.len() + d.len();
        if g < pre.len() {
            assert(n[g] == pre[g]);
            assert(setup_call(pre[g].call));
        } else if g < o {
            assert(n[g] == d[g - pre.len()]);
        } else if g < o + e.len() {
            assert(n[g] == e[g - o]);
            let k = g - o;
            if k < e.len() - 1 {
                assert(answered_ok(e[k]));
            } else {
                assert(e[k] == e.last());
                if rest.len() > 0 || re matches Ok(true) {
                    assert(run_succeeded(reply_body(e.last())));
                }
            }
        } else {
            assert(n[g] == rest[g - o - e.len()]);
        }
    }
}

/// The secrets stored in the secrets segment `b` stay stored, sealed, in the
/// whole exchange.
proof fn lemma_secrets_sealed<S: SecretSealer>(
    sealer: &S,
    a: Seq<Exchange>,
    b: Seq<Exchange>,
    rest: Seq<Exchange>,
    secrets: Seq<(String, Vec<u8>)>,
)
    requires
        b.len() == secrets.len() + 1,
        b[0].call == Call::PublicKey,
        spec_body_json_str(reply_body(b[0]), "key"@) is Some,
        spec_body_json_str(reply_body(b[0]), "key_id"@) is Some,
        forall|i: int| 1 <= i < b.len() ==> (#[trigger] b[i]).call == Call::PutSecret(secrets[i - 1].0@) && answered_ok(b[i]),
        forall|i: int|
            1 <= i < b.len() ==> sealed_put(
                sealer,
                #[trigger] b[i],
                spec_body_json_str(reply_body(b[0]), "key"@)->0,
                spec_body_json_str(reply_body(b[0]), "key_id"@)->0,
                secrets[i - 1].1@,
            ),
    ensures
        all_secrets_sealed(sealer, a + b + rest, secrets),
{
    reveal(all_secrets_sealed);
    let n = a + b + rest;
    assert forall|k: int| 0 <= k < secrets.len() implies secret_sealed(sealer, n, #[trigger] secrets[k].0@, secrets[k].1@) by {
        let p = a.len() as int;
        let j = a.len() + k + 1;
        assert(n[p] == b[0]);
        assert(n[j] == b[k + 1]);
        assert(b[k + 1].call == Call::PutSecret(secrets[k].0@));
        assert(sealed_put(
            sealer,
            b[k + 1],
            spec_body_json_str(reply_body(b[0]), "key"@)->0,
            spec_body_json_str(reply_body(b[0]), "key_id"@)->0,
            secrets[k].1@,
        ));
    }
}

proof fn lemma_fails_before_dispatch(n: Seq<Exchange>, r: Result<u64, GhError>, kept: bool)
    requires
        setup_calls(n),
    ensures
        failure_facts(n, r, kept),
{
    reveal(failure_facts);
    lemma_before_dispatch(n);
}

proof fn lemma_fails_at_dispatch(pre: Seq<Exchange>, d: Seq<Exchange>, rd: Result<u64, GhError>, kept: bool)
    requires
        kept,
        setup_calls(pre),
        2 <= d.len(),
        d[0].call == Call::ListRuns,
        d[1].call == Call::Dispatch,
        forall|j: int| 2 <= j < d.len() ==> (#[trigger] d[j]).call == Call::ListRuns,
        rd is Err,
        (rd is Err && answered_ok(d[1]) && d.last().reply is Some) ==> rd == Err::<u64, GhError>(GhError::Decode),
    ensures
        failure_facts(pre + d, rd, kept),
{
    reveal(failure_facts);
    lemma_wait_ran_out(pre, d, rd);
}

/// Once a new run was found, the build's result is what the wait made of it.
proof fn lemma_after_new_run(
    pre: Seq<Exchange>,
    d: Seq<Exchange>,
    e: Seq<Exchange>,
    rest: Seq<Exchange>,
    run_id: u64,
    re: Result<bool, GhError>,
    r: Result<u64, GhError>,
    kept: bool,
)
    requires
        setup_calls(pre),
        forall|j: int| 0 <= j < d.len() ==> ((#[trigger] d[j]).call is ListRuns || d[j].call is Dispatch),
        run_is_new(d, run_id),
        forall|j: int| 0 <= j < e.len() ==> (#[trigger] e[j]).call == Call::GetRun(run_id),
        forall|j: int|
            0 <= j < e.len() - 1 ==> (answered_ok(#[trigger] e[j]) ==> !mentions(
                lossy_text(reply_body(e[j])),
                RUN_COMPLETED@,
            )),
        forall|j: int| 0 <= j < rest.len() ==> !((#[trigger] rest[j]).call is GetRun),
        rest.len() > 0 ==> re == Ok::<bool, GhError>(true),
        re is Err ==> e.len() > 0 && (e.last().reply is None || (re matches Err(GhError::BuildFailed(id))
            && id == run_id)),
        re matches Ok(true) ==> e.len() > 0 && answered_ok(e.last()) && run_succeeded(reply_body(e.last())),
        re matches Ok(false) ==> forall|j: int|
            0 <= j < e.len() ==> (answered_ok(#[trigger] e[j]) ==> !mentions(
                lossy_text(reply_body(e[j])),
                RUN_COMPLETED@,
            )),
        rest.len() == 0 ==> kept && ((re matches Err(x) && r == Err::<u64, GhError>(x)) || (re is Ok && r is Ok)),
    ensures
        failure_facts(pre + d + e + rest, r, kept),
{
    reveal(failure_facts);
    lemma_run_is_new_shift(pre, d, e + rest, run_id);
    assert(pre + d + (e + rest) =~= pre + d + e + rest);
    lemma_new_run_seen(pre + d + e + rest, run_id);
    lemma_failed_run_ends(pre, d, e, rest, run_id, re);
}

/// A build that ends in its dispatch or its polls delivers nothing new.
proof fn lemma_nothing_delivered(pre: Seq<Exchange>, d: Seq<Exchange>, e: Seq<Exchange>)
    requires
        2 <= d.len(),
        d[0].call == Call::ListRuns,
        d[1].call == Call::Dispatch,
        forall|j: int| 2 <= j < d.len() ==> (#[trigger] d[j]).call == Call::ListRuns,
        forall|j: int| 0 <= j < e.len() ==> (#[trigger] e[j]).call is GetRun,
    ensures
        forall|j: int| !(#[trigger] downloaded_at(pre + d + e, j)),
{
    let n = pre + d + e;
    assert forall|j: int| !(#[trigger] downloaded_at(n, j)) by {
        if 0 <= j && n.len() - 2 <= j < n.len() {
            if j >= pre.len() + d.len() {
                assert(n[j] == e[j - pre.len() - d.len()]);
            } else {
                assert(n[j] == d[j - pre.len()]);
            }
        }
    }
}

/// A build that ends by fetching: the artifact downloaded there, if one
/// was, is what is delivered.
proof fn lemma_fetch_delivered(
    pre: Seq<Exchange>,
    d: Seq<Exchange>,
    e: Seq<Exchange>,
    f: Seq<Exchange>,
    before: Option<Seq<u8>>,
    after: Option<Seq<u8>>,
)
    requires
        2 <= d.len(),
        d[0].call == Call::ListRuns,
        d[1].call == Call::Dispatch,
        forall|j: int| 2 <= j < d.len() ==> (#[trigger] d[j]).call == Call::ListRuns,
        forall|j: int| 0 <= j < e.len() ==> (#[trigger] e[j]).call is GetRun,
        1 <= f.len() <= 3,
        f[0].call is ListArtifacts,
        f.len() > 1 ==> f[1].call is Download,
        f.len() == 3 ==> answered_ok(f[1]),
        after == if f.len() > 1 && answered_ok(f[1]) {
            Some(reply_body(f[1]))
        } else {
            before
        },
    ensures
        delivered(pre + d + e + f, before, after),
{
    let n = pre + d + e + f;
    let p: int = (pre.len() + d.len() + e.len()) as int;
    if f.len() > 1 && answered_ok(f[1]) {
        assert(n[p + 1] == f[1]);
        assert(downloaded_at(n, p + 1));
    } else {
        assert forall|j: int| !(#[trigger] downloaded_at(n, j)) by {
            if 0 <= j && n.len() - 2 <= j < n.len() {
                if j >= p {
                    assert(n[j] == f[j - p]);
                } else if j >= pre.len() + d.len() {
                    assert(n[j] == e[j - pre.len() - d.len()]);
                } else {
                    assert(n[j] == d[j - pre.len()]);
                }
            }
        }
    }
}

pub open spec fn grew(before: Seq<Exchange>, after: Seq<Exchange>) -> bool {
    before.len() <= after.len() && after.take(before.len() as int) == before
}

/// What was appended to `before` to make `after`.
pub open spec fn added(before: Seq<Exchange>, after: Seq<Exchange>) -> Seq<Exchange> {
    after.skip(before.len() as int)
}

proof fn lemma_grew_push(before: Seq<Exchange>, mid: Seq<Exchange>, e: Exchange)
    requires
        grew(before, mid),
    ensures
        grew(before, mid.push(e)),
        added(before, mid.push(e)) == added(before, mid).push(e),
{
    assert(mid.push(e).take(before.len() as int) =~= mid.take(before.len() as int));
    assert(added(before, mid.push(e)) =~= added(before, mid).push(e));
}

proof fn lemma_grew_refl(s: Seq<Exchange>)
    ensures
        grew(s, s),
        added(s, s) == Seq::<Exchange>::empty(),
{
    assert(s.take(s.len() as int) =~= s);
    assert(added(s, s) =~= Seq::<Exchange>::empty());
}

proof fn lemma_grew_trans(a: Seq<Exchange>, b: Seq<Exchange>, c: Seq<Exchange>)
    requires
        grew(a, b),
        grew(b, c),
    ensures
        grew(a, c),
        added(a, c) == added(a, b) + added(b, c),
{
    assert(c.take(b.len() as int).take(a.len() as int) =~= c.take(a.len() as int));
    assert(added(a, c) =~= added(a, b) + added(b, c)) by {
        assert forall|i: int| 0 <= i < added(a, c).len() implies added(a, c)[i] == (added(a, b)
            + added(b, c))[i] by {
            if i < b.len() - a.len() {
                assert(c[a.len() + i] == c.take(b.len() as int)[a.len() + i]);
            }
        }
    }
}

/// The blob SHA that an update must name: from the file's metadata when it
/// was fetched, none when the file is new.
pub open spec fn sha_of(e: Exchange) -> Option<Seq<char>> {
    if answered_ok(e) {
        spec_body_json_str(reply_body(e), "sha"@)
    } else {
        None
    }
}

/// The paths of a list of strings.
pub open spec fn texts(v: Seq<String>) -> Seq<Seq<char>> {
    v.map_values(|s: String| s@)
}

/// The blobs that pruning removes: those under `prefix` that are not kept.
pub open spec fn prunable(b: Seq<(Seq<char>, Seq<char>)>, prefix: Seq<char>, keep: Seq<Seq<char>>) -> Seq<
    (Seq<char>, Seq<char>),
>
    decreases b.len(),
{
    if b.len() == 0 {
        b
    } else {
        let r = prunable(b.drop_last(), prefix, keep);
        if prefix.is_prefix_of(b.last().0) && !keep.contains(b.last().0) {
            r.push(b.last())
        } else {
            r
        }
    }
}

proof fn lemma_prunable_add(
    a: Seq<(Seq<char>, Seq<char>)>,
    b: Seq<(Seq<char>, Seq<char>)>,
    prefix: Seq<char>,
    keep: Seq<Seq<char>>,
)
    ensures
        prunable(a + b, prefix, keep) == prunable(a, prefix, keep) + prunable(b, prefix, keep),
    decreases b.len(),
{
    if b.len() == 0 {
        assert(a + b =~= a);
        assert(prunable(a, prefix, keep) + prunable(b, prefix, keep) =~= prunable(a, prefix, keep));
    } else {
        assert((a + b).drop_last() =~= a + b.drop_last());
        lemma_prunable_add(a, b.drop_last(), prefix, keep);
        assert(prunable(a, prefix, keep) + prunable(b.drop_last(), prefix, keep).push(b.last()) =~= (
        prunable(a, prefix, keep) + prunable(b.drop_last(), prefix, keep)).push(b.last()));
    }
}

/// How many exchanges were answered with success.
pub open spec fn count_ok(n: Seq<Exchange>) -> nat
    decreases n.len(),
{
    if n.len() == 0 {
        0
    } else {
        count_ok(n.drop_last()) + if answered_ok(n.last()) { 1nat } else { 0nat }
    }
}

/// Whether `p` starts `s`.
pub fn starts_with(s: &String, p: &String) -> (r: bool)
    ensures
        r == p@.is_prefix_of(s@),
{
    let a = chars_of(s.as_str());
    let b = chars_of(p.as_str());
    if b.len() > a.len() {
        return false;
    }
    let mut i: usize = 0;
    while i < b.len()
        invariant
            b@.len() <= a@.len(),
            a@ == s@,
            b@ == p@,
            i <= b@.len(),
            forall|j: int| 0 <= j < i ==> a@[j] == b@[j],
        decreases b@.len() - i,
    {
        if a[i] != b[i] {
            return false;
        }
        i = i + 1;
    }
    true
}

/// Whether `p` is one of `keep`.
pub fn contains_text(keep: &Vec<String>, p: &String) -> (r: bool)
    ensures
        r == texts(keep@).contains(p@),
{
    let mut i: usize = 0;
    while i < keep.len()
        invariant
            i <= keep@.len(),
            forall|j: int| 0 <= j < i ==> keep@[j]@ != p@,
        decreases keep@.len() - i,
    {
        if keep[i] == *p {
            assert(texts(keep@)[i as int] == p@);
            return true;
        }
        i = i + 1;
    }
    assert forall|j: int| 0 <= j < texts(keep@).len() implies texts(keep@)[j] != p@ by {
        assert(texts(keep@)[j] == keep@[j]@);
    }
    false
}

/// The status of an answered exchange.
pub open spec fn status_of(e: Exchange) -> Option<u16> {
    match e.reply {
        Some(p) => Some(p.0),
        None => None,
    }
}

/// The request carried `body`, as UTF-8.
pub open spec fn carried(e: Exchange, body: Seq<char>) -> bool {
    e.sent == encode_utf8(body)
}

/// The artifact carries the package: it is not empty and the commitment
/// occurs in it.
pub open spec fn carries_package(artifact: Seq<u8>, commitment: Seq<u8>) -> bool {
    artifact.len() > 0 && exists|i: int| occurs_at(artifact, commitment, i)
}

/// Does the downloaded artifact carry the package that was sealed? The
/// capsule embeds the sealed package, so its commitment must appear in the
/// artifact bytes; a build that succeeded but produced a binary carrying a
/// different payload is refused. It shows that the artifact contains this
/// package, not that the rest of the binary was built from this source.
pub fn artifact_carries_package(artifact: &[u8], package_commitment: &[u8; 32]) -> (r: bool)
    ensures
        r == carries_package(artifact@, package_commitment@),
{
    if artifact.len() == 0 {
        return false;
    }
    let found = find_bytes(artifact, package_commitment.as_slice(), 0);
    proof {
        lemma_find_from(artifact@, package_commitment@, 0);
    }
    found.is_some()
}

} // verus!
