//! GitHub REST request builders. They only construct requests; they hold no
//! state and log nothing.
use vstd::prelude::*;
use vstd::slice::slice_to_vec;
use vstd::utf8::encode_utf8;
use crate::http::{headers_view, HttpRequest, Method, RequestView};
use crate::text::{decimal, decimal_string};

verus! {

pub const API: &'static str = "https://api.github.com";
pub const UA: &'static str = "nyeda-builder";

pub const H_AUTHORIZATION: &'static str = "Authorization";
pub const H_ACCEPT: &'static str = "Accept";
pub const H_USER_AGENT: &'static str = "User-Agent";
pub const H_API_VERSION: &'static str = "X-GitHub-Api-Version";
pub const BEARER: &'static str = "Bearer ";
pub const ACCEPT_JSON: &'static str = "application/vnd.github+json";
pub const API_VERSION: &'static str = "2022-11-28";

/// The four headers every authenticated call carries.
pub open spec fn spec_auth_headers(token: Seq<char>) -> Seq<(Seq<char>, Seq<char>)> {
    seq![
        (H_AUTHORIZATION@, BEARER@ + token),
        (H_ACCEPT@, ACCEPT_JSON@),
        (H_USER_AGENT@, UA@),
        (H_API_VERSION@, API_VERSION@),
    ]
}

/// The request with this method, URL and body, carrying the token's headers.
pub open spec fn spec_request(method: Method, url: Seq<char>, token: Seq<char>, body: Seq<char>) -> RequestView {
    (method, url, spec_auth_headers(token), encode_utf8(body))
}

/// `true` or `false`, as JSON writes them.
pub open spec fn bool_text(b: bool) -> Seq<char> {
    if b { "true"@ } else { "false"@ }
}

/// `{API}/repos/{owner}/{repo}`.
pub open spec fn repo_url(owner: Seq<char>, repo: Seq<char>) -> Seq<char> {
    API@ + "/repos/"@ + owner + "/"@ + repo
}

/// What a request is, abstractly: method, URL, headers and body bytes.
pub open spec fn request_is(
    r: HttpRequest,
    method: Method,
    url: Seq<char>,
    token: Seq<char>,
    body: Seq<char>,
) -> bool {
    &&& r.method == method
    &&& r.url@ == url
    &&& headers_view(r.headers@) == spec_auth_headers(token)
    &&& r.body@ == encode_utf8(body)
}

fn auth_headers(token: &str) -> (h: Vec<(String, String)>)
    ensures
        headers_view(h@) == spec_auth_headers(token@),
{
    let mut auth = String::from_str(BEARER);
    auth.append(token);
    let mut h: Vec<(String, String)> = Vec::new();
    h.push((String::from_str(H_AUTHORIZATION), auth));
    h.push((String::from_str(H_ACCEPT), String::from_str(ACCEPT_JSON)));
    h.push((String::from_str(H_USER_AGENT), String::from_str(UA)));
    h.push((String::from_str(H_API_VERSION), String::from_str(API_VERSION)));
    assert(headers_view(h@) =~= spec_auth_headers(token@));
    h
}

fn bool_str(b: bool) -> (r: &'static str)
    ensures
        r@ == bool_text(b),
{
    if b { "true" } else { "false" }
}

fn text_bytes(s: &String) -> (b: Vec<u8>)
    ensures
        b@ == encode_utf8(s@),
{
    slice_to_vec(s.as_str().as_bytes())
}

fn base_url(owner: &str, repo: &str) -> (r: String)
    ensures
        r@ == repo_url(owner@, repo@),
{
    let mut u = String::from_str(API);
    u.append("/repos/");
    u.append(owner);
    u.append("/");
    u.append(repo);
    u
}

fn request(method: Method, url: String, token: &str, body: String) -> (r: HttpRequest)
    ensures
        request_is(r, method, url@, token@, body@),
{
    let b = text_bytes(&body);
    HttpRequest { method, url, headers: auth_headers(token), body: b }
}

pub open spec fn create_repo_body(name: Seq<char>, private: bool) -> Seq<char> {
    "{\"name\":\""@ + name + "\",\"private\":"@ + bool_text(private)
        + ",\"auto_init\":true,\"description\":\"NYEDArch capsule build (generated)\"}"@
}

pub fn create_repo(token: &str, name: &str, private: bool) -> (r: HttpRequest)
    ensures
        request_is(r, Method::Post, API@ + "/user/repos"@, token@, create_repo_body(name@, private)),
{
    let mut body = String::from_str("{\"name\":\"");
    body.append(name);
    body.append("\",\"private\":");
    body.append(bool_str(private));
    body.append(",\"auto_init\":true,\"description\":\"NYEDArch capsule build (generated)\"}");
    let mut url = String::from_str(API);
    url.append("/user/repos");
    request(Method::Post, url, token, body)
}

pub open spec fn visibility_body(private: bool) -> Seq<char> {
    "{\"private\":"@ + bool_text(private) + ",\"visibility\":\""@
        + (if private { "private"@ } else { "public"@ }) + "\"}"@
}

/// Change repository visibility. Only permitted when no build is running;
/// the orchestrator enforces that.
pub fn set_visibility(token: &str, owner: &str, repo: &str, private: bool) -> (r: HttpRequest)
    ensures
        request_is(r, Method::Patch, repo_url(owner@, repo@), token@, visibility_body(private)),
{
    let mut body = String::from_str("{\"private\":");
    body.append(bool_str(private));
    body.append(",\"visibility\":\"");
    body.append(if private { "private" } else { "public" });
    body.append("\"}");
    request(Method::Patch, base_url(owner, repo), token, body)
}

pub fn get_actions_public_key(token: &str, owner: &str, repo: &str) -> (r: HttpRequest)
    ensures
        request_is(
            r,
            Method::Get,
            repo_url(owner@, repo@) + "/actions/secrets/public-key"@,
            token@,
            Seq::empty(),
        ),
{
    let mut url = base_url(owner, repo);
    url.append("/actions/secrets/public-key");
    let r = request(Method::Get, url, token, String::new());
    r
}

pub open spec fn secret_body(sealed: Seq<char>, key_id: Seq<char>) -> Seq<char> {
    "{\"encrypted_value\":\""@ + sealed + "\",\"key_id\":\""@ + key_id + "\"}"@
}

/// Store a repository secret. `sealed_value_b64` must already be sealed.
pub fn put_secret(
    token: &str,
    owner: &str,
    repo: &str,
    name: &str,
    sealed_value_b64: &str,
    key_id: &str,
) -> (r: HttpRequest)
    ensures
        request_is(
            r,
            Method::Put,
            repo_url(owner@, repo@) + "/actions/secrets/"@ + name@,
            token@,
            secret_body(sealed_value_b64@, key_id@),
        ),
{
    let mut body = String::from_str("{\"encrypted_value\":\"");
    body.append(sealed_value_b64);
    body.append("\",\"key_id\":\"");
    body.append(key_id);
    body.append("\"}");
    let mut url = base_url(owner, repo);
    url.append("/actions/secrets/");
    url.append(name);
    request(Method::Put, url, token, body)
}

pub open spec fn sha_field(sha: Option<Seq<char>>) -> Seq<char> {
    match sha {
        Some(s) => ",\"sha\":\""@ + s + "\""@,
        None => Seq::empty(),
    }
}

pub open spec fn put_file_body(message: Seq<char>, content: Seq<char>, sha: Option<Seq<char>>) -> Seq<char> {
    "{\"message\":\""@ + message + "\",\"content\":\""@ + content + "\""@ + sha_field(sha) + "}"@
}

pub open spec fn opt_view(o: Option<&str>) -> Option<Seq<char>> {
    match o {
        Some(s) => Some(s@),
        None => None,
    }
}

/// Create or update a file through the contents API; `content_b64` is the
/// base64 of the file bytes, and `sha` the current blob when updating.
pub fn put_file(
    token: &str,
    owner: &str,
    repo: &str,
    path: &str,
    content_b64: &str,
    message: &str,
    sha: Option<&str>,
) -> (r: HttpRequest)
    ensures
        request_is(
            r,
            Method::Put,
            repo_url(owner@, repo@) + "/contents/"@ + path@,
            token@,
            put_file_body(message@, content_b64@, opt_view(sha)),
        ),
{
    let mut body = String::from_str("{\"message\":\"");
    body.append(message);
    body.append("\",\"content\":\"");
    body.append(content_b64);
    body.append("\"");
    let ghost prefix = body@;
    match sha {
        Some(s) => {
            body.append(",\"sha\":\"");
            body.append(s);
            body.append("\"");
            assert(body@ =~= prefix + sha_field(opt_view(sha)));
        },
        None => {
            assert(body@ =~= prefix + sha_field(opt_view(sha)));
        },
    }
    body.append("}");
    let mut url = base_url(owner, repo);
    url.append("/contents/");
    url.append(path);
    request(Method::Put, url, token, body)
}

/// Fetch a file's metadata so that an update can supply its blob SHA.
pub fn get_file(token: &str, owner: &str, repo: &str, path: &str) -> (r: HttpRequest)
    ensures
        request_is(
            r,
            Method::Get,
            repo_url(owner@, repo@) + "/contents/"@ + path@,
            token@,
            Seq::empty(),
        ),
{
    let mut url = base_url(owner, repo);
    url.append("/contents/");
    url.append(path);
    request(Method::Get, url, token, String::new())
}

/// List the whole tree of a branch, so that stale files can be found.
pub fn get_tree(token: &str, owner: &str, repo: &str, branch: &str) -> (r: HttpRequest)
    ensures
        request_is(
            r,
            Method::Get,
            repo_url(owner@, repo@) + "/git/trees/"@ + branch@ + "?recursive=1"@,
            token@,
            Seq::empty(),
        ),
{
    let mut url = base_url(owner, repo);
    url.append("/git/trees/");
    url.append(branch);
    url.append("?recursive=1");
    request(Method::Get, url, token, String::new())
}

pub open spec fn delete_file_body(message: Seq<char>, sha: Seq<char>) -> Seq<char> {
    "{\"message\":\""@ + message + "\",\"sha\":\""@ + sha + "\"}"@
}

/// Delete a file left by an earlier build.
pub fn delete_file(token: &str, owner: &str, repo: &str, path: &str, sha: &str, message: &str) -> (r: HttpRequest)
    ensures
        request_is(
            r,
            Method::Delete,
            repo_url(owner@, repo@) + "/contents/"@ + path@,
            token@,
            delete_file_body(message@, sha@),
        ),
{
    let mut body = String::from_str("{\"message\":\"");
    body.append(message);
    body.append("\",\"sha\":\"");
    body.append(sha);
    body.append("\"}");
    let mut url = base_url(owner, repo);
    url.append("/contents/");
    url.append(path);
    request(Method::Delete, url, token, body)
}

/// Delete an artifact once it has been retrieved: it is the capsule binary.
pub fn delete_artifact(token: &str, owner: &str, repo: &str, artifact_id: u64) -> (r: HttpRequest)
    ensures
        request_is(
            r,
            Method::Delete,
            repo_url(owner@, repo@) + "/actions/artifacts/"@ + decimal(artifact_id as nat),
            token@,
            Seq::empty(),
        ),
{
    let mut url = base_url(owner, repo);
    url.append("/actions/artifacts/");
    url.append(decimal_string(artifact_id).as_str());
    request(Method::Delete, url, token, String::new())
}

pub fn dispatch_workflow(token: &str, owner: &str, repo: &str, workflow_file: &str, git_ref: &str) -> (r: HttpRequest)
    ensures
        request_is(
            r,
            Method::Post,
            repo_url(owner@, repo@) + "/actions/workflows/"@ + workflow_file@ + "/dispatches"@,
            token@,
            "{\"ref\":\""@ + git_ref@ + "\"}"@,
        ),
{
    let mut body = String::from_str("{\"ref\":\"");
    body.append(git_ref);
    body.append("\"}");
    let mut url = base_url(owner, repo);
    url.append("/actions/workflows/");
    url.append(workflow_file);
    url.append("/dispatches");
    request(Method::Post, url, token, body)
}

/// The most recent workflow runs of a repository.
pub fn list_runs(token: &str, owner: &str, repo: &str) -> (r: HttpRequest)
    ensures
        request_is(
            r,
            Method::Get,
            repo_url(owner@, repo@) + "/actions/runs?per_page=30"@,
            token@,
            Seq::empty(),
        ),
{
    let mut url = base_url(owner, repo);
    url.append("/actions/runs?per_page=30");
    request(Method::Get, url, token, String::new())
}

pub fn run_logs(token: &str, owner: &str, repo: &str, run_id: u64) -> (r: HttpRequest)
    ensures
        request_is(
            r,
            Method::Get,
            repo_url(owner@, repo@) + "/actions/runs/"@ + decimal(run_id as nat) + "/logs"@,
            token@,
            Seq::empty(),
        ),
{
    let mut url = base_url(owner, repo);
    url.append("/actions/runs/");
    url.append(decimal_string(run_id).as_str());
    url.append("/logs");
    request(Method::Get, url, token, String::new())
}

/// The account a token belongs to.
pub fn authenticated_user(token: &str) -> (r: HttpRequest)
    ensures
        request_is(r, Method::Get, API@ + "/user"@, token@, Seq::empty()),
{
    let mut url = String::from_str(API);
    url.append("/user");
    request(Method::Get, url, token, String::new())
}

/// Status of a single workflow run, for waiting on completion.
pub fn get_run(token: &str, owner: &str, repo: &str, run_id: u64) -> (r: HttpRequest)
    ensures
        request_is(
            r,
            Method::Get,
            repo_url(owner@, repo@) + "/actions/runs/"@ + decimal(run_id as nat),
            token@,
            Seq::empty(),
        ),
{
    let mut url = base_url(owner, repo);
    url.append("/actions/runs/");
    url.append(decimal_string(run_id).as_str());
    request(Method::Get, url, token, String::new())
}

pub fn list_artifacts(token: &str, owner: &str, repo: &str, run_id: u64) -> (r: HttpRequest)
    ensures
        request_is(
            r,
            Method::Get,
            repo_url(owner@, repo@) + "/actions/runs/"@ + decimal(run_id as nat) + "/artifacts"@,
            token@,
            Seq::empty(),
        ),
{
    let mut url = base_url(owner, repo);
    url.append("/actions/runs/");
    url.append(decimal_string(run_id).as_str());
    url.append("/artifacts");
    request(Method::Get, url, token, String::new())
}

pub fn download_artifact(token: &str, owner: &str, repo: &str, artifact_id: u64) -> (r: HttpRequest)
    ensures
        request_is(
            r,
            Method::Get,
            repo_url(owner@, repo@) + "/actions/artifacts/"@ + decimal(artifact_id as nat) + "/zip"@,
            token@,
            Seq::empty(),
        ),
{
    let mut url = base_url(owner, repo);
    url.append("/actions/artifacts/");
    url.append(decimal_string(artifact_id).as_str());
    url.append("/zip");
    request(Method::Get, url, token, String::new())
}

} // verus!
