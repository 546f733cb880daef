//! The remote GitHub build as the build tool drives it: whose account a
//! token belongs to, whether a repository's visibility may change, how a
//! provenance failure reads, and which files of the generated runtime are
//! pushed, in what order. Reading the environment, running curl and walking
//! the project directory are the program's part.
use vstd::prelude::*;
use vstd::utf8::encode_utf8;
use sha2::Digest;
use crate::endpoints::{authenticated_user, list_runs, set_visibility, spec_request, repo_url, visibility_body, API};
use crate::http::{gh_message, ok, request_view, status_ok, GhError, HttpRequest, HttpResponse, Method, Transport};
use crate::json::{lemma_find_char_bound, lossy_text, text_lossy};
use crate::orchestrator::mentions;
use crate::provenance::ProvenanceError;
use crate::scan::{find_char, find_char_exec, find_chars, find_from, lemma_find_from, occurs_at, skip_whitespace, skip_ws};
use crate::machines::{
    lemma_distinct_keys_carry, lemma_lex_irreflexive, lemma_lex_total, lemma_lex_trans, lemma_sorted_unique, lex_less,
    lex_lt,
};
use crate::text::{chars_of, decimal, decimal_string, is_word};
use crate::workflow::Target;

verus! {

/// What a remote build needs from its caller.
pub struct RemoteBuildArgs<'a> {
    /// Supplied by the caller (GUI) or read from the environment (CLI).
    pub token: Option<String>,
    pub owner: &'a str,
    pub repo: &'a str,
    pub private: bool,
    pub targets: Vec<Target>,
    pub project_dir: &'a str,
    pub build_id: String,
    pub package_commitment: [u8; 32],
    pub runtime_commitment: [u8; 32],
}

pub const NO_TOKEN: &'static str = "no GitHub token found. Set NYEDARCH_GITHUB_TOKEN (preferred) or GITHUB_TOKEN.";

pub const BUILD_RUNNING: &'static str = "a build is currently running in this repository. Changing visibility mid-build could expose or hide files a running workflow is using, so it is refused until the build finishes.";

pub open spec fn outcome_view<T>(r: Result<T, String>) -> Result<T, Seq<char>> {
    match r {
        Ok(v) => Ok(v),
        Err(e) => Err(e@),
    }
}

pub open spec fn text_outcome(r: Result<String, String>) -> Result<Seq<char>, Seq<char>> {
    match r {
        Ok(v) => Ok(v@),
        Err(e) => Err(e@),
    }
}

/// The first position at or after `from` that is not a `:`.
pub open spec fn skip_colons(h: Seq<char>, from: int) -> int
    decreases h.len() - from,
{
    if 0 <= from < h.len() && h[from] == ':' {
        skip_colons(h, from + 1)
    } else {
        from
    }
}

/// The account name in a `/user` reply: the quoted text after the first
/// `"login"`, past white space and colons.
pub open spec fn login_of(body: Seq<char>) -> Result<Seq<char>, Seq<char>> {
    match find_from(body, "\"login\""@, 0) {
        None => Err("no login in the response"@),
        Some(i) => {
            let c = skip_ws(body, skip_colons(body, skip_ws(body, i + 7)));
            if 0 <= c < body.len() && body[c] == '"' {
                match find_char(body, '"', c + 1) {
                    Some(e) => Ok(body.subrange(c + 1, e)),
                    None => Err("unexpected response shape"@),
                }
            } else {
                Err("unexpected response shape"@)
            }
        },
    }
}

/// What the `/user` reply says of the token's account.
pub open spec fn owner_outcome(reply: Result<HttpResponse, GhError>) -> Result<Seq<char>, Seq<char>> {
    match reply {
        Err(e) => Err("could not identify the token's account: "@ + gh_message(e)),
        Ok(r) => if !status_ok(r.status) {
            Err("GitHub refused the token ("@ + decimal(r.status as nat) + ")"@)
        } else {
            login_of(lossy_text(r.body@))
        },
    }
}

proof fn lemma_skip_colons(h: Seq<char>, from: int)
    requires
        0 <= from <= h.len(),
    ensures
        from <= skip_colons(h, from) <= h.len(),
    decreases h.len() - from,
{
    if from < h.len() && h[from] == ':' {
        lemma_skip_colons(h, from + 1);
    }
}

fn login_from(text: &String) -> (r: Result<String, String>)
    ensures
        text_outcome(r) == login_of(text@),
{
    let h = chars_of(text.as_str());
    let pat = chars_of("\"login\"");
    proof {
        reveal_strlit("\"login\"");
    }
    let n = h.len();
    match find_chars(&h, &pat, 0) {
        None => Err(String::from_str("no login in the response")),
        Some(i) => {
            proof {
                lemma_find_from(h@, pat@, 0);
                match find_from(h@, pat@, 0) {
                    Some(j) => {
                        assert(occurs_at(h@, pat@, j));
                        assert(0 <= j <= n);
                        assert(j == i);
                    },
                    None => {},
                }
            }
            let a = skip_whitespace(&h, i + 7);
            let mut b = a;
            proof {
                lemma_skip_colons(h@, a as int);
            }
            while b < n && h[b] == ':'
                invariant
                    n == h@.len(),
                    a <= b <= n,
                    skip_colons(h@, b as int) == skip_colons(h@, a as int),
                decreases n - b,
            {
                b = b + 1;
            }
            let c = skip_whitespace(&h, b);
            if c < n && h[c] == '"' {
                match find_char_exec(&h, '"', c + 1) {
                    Some(e) => {
                        proof {
                            lemma_find_char_bound(h@, '"', c + 1);
                        }
                        let t = text.as_str().substring_char(c + 1, e);
                        Ok(t.to_owned())
                    },
                    None => Err(String::from_str("unexpected response shape")),
                }
            } else {
                Err(String::from_str("unexpected response shape"))
            }
        },
    }
}

/// Read the account name out of the reply to a `/user` request.
pub fn owner_from_reply(reply: Result<HttpResponse, GhError>) -> (r: Result<String, String>)
    ensures
        text_outcome(r) == owner_outcome(reply),
{
    match reply {
        Err(e) => {
            let mut m = String::from_str("could not identify the token's account: ");
            let t = e.message();
            m.append(t.as_str());
            Err(m)
        },
        Ok(r) => {
            if !ok(r.status) {
                let mut m = String::from_str("GitHub refused the token (");
                let d = decimal_string(r.status as u64);
                m.append(d.as_str());
                m.append(")");
                Err(m)
            } else {
                let text = text_lossy(r.body.as_slice());
                login_from(&text)
            }
        },
    }
}

/// Who does this token belong to?
///
/// The build repository lives under an account, and the API needs to know
/// which. This reads the login from the token itself (a `/user` request),
/// so the account is shown as a fact rather than asked for. Beside the
/// outcome comes the record of the requests sent, with the answers.
pub fn resolve_owner<T: Transport>(token: Option<String>, transport: &T) -> (r: (Result<String, String>, Ghost<Seq<Sent>>))
    ensures
        token is None ==> text_outcome(r.0) == Err::<Seq<char>, Seq<char>>(NO_TOKEN@) && r.1@.len() == 0,
        token matches Some(t) ==> {
            &&& r.1@.len() == 1
            &&& r.1@[0].request == user_request(t@)
            &&& transport.answers(r.1@[0].request, r.1@[0].reply)
            &&& text_outcome(r.0) == owner_outcome(r.1@[0].reply)
        },
{
    let ghost mut log: Seq<Sent> = Seq::empty();
    match token {
        None => (Err(String::from_str(NO_TOKEN)), Ghost(log)),
        Some(t) => {
            let req = authenticated_user(t.as_str());
            let reply = transport.send(&req);
            proof {
                log = log.push(sent(req, reply));
            }
            assert(request_view(req) == user_request(t@));
            let r = owner_from_reply(reply);
            (r, Ghost(log))
        },
    }
}

/// The request that asks whose token `token` is.
pub open spec fn user_request(token: Seq<char>) -> crate::http::RequestView {
    spec_request(Method::Get, API@ + "/user"@, token, Seq::empty())
}

/// The runs listing of `owner/repo`.
pub open spec fn runs_request(token: Seq<char>, owner: Seq<char>, repo: Seq<char>) -> crate::http::RequestView {
    spec_request(Method::Get, repo_url(owner, repo) + "/actions/runs?per_page=30"@, token, Seq::empty())
}

/// The request that makes `owner/repo` private or public.
pub open spec fn visibility_request(token: Seq<char>, owner: Seq<char>, repo: Seq<char>, private: bool) -> crate::http::RequestView {
    spec_request(Method::Patch, repo_url(owner, repo), token, visibility_body(private))
}

/// A runs listing that shows a build queued or in progress.
pub open spec fn build_running(body: Seq<char>) -> bool {
    mentions(body, "\"status\":\"in_progress\""@) || mentions(body, "\"status\":\"queued\""@)
}

/// Why a visibility change must stop after the runs listing, if it must.
pub open spec fn runs_refusal(runs: Result<HttpResponse, GhError>) -> Option<Seq<char>> {
    match runs {
        Err(e) => Some("could not check for running builds: "@ + gh_message(e)),
        Ok(r) => if build_running(lossy_text(r.body@)) {
            Some(BUILD_RUNNING@)
        } else {
            None
        },
    }
}

/// At most the first `n` characters of `s`.
pub open spec fn first_chars(s: Seq<char>, n: int) -> Seq<char> {
    if s.len() <= n {
        s
    } else {
        s.take(n)
    }
}

/// What the reply to the visibility change means.
pub open spec fn change_outcome(reply: Result<HttpResponse, GhError>) -> Result<(), Seq<char>> {
    match reply {
        Err(e) => Err("visibility change failed: "@ + gh_message(e)),
        Ok(r) => if !status_ok(r.status) {
            Err("visibility change refused ("@ + decimal(r.status as nat) + "): "@ + first_chars(lossy_text(r.body@), 200))
        } else {
            Ok(())
        },
    }
}

fn mentions_text(h: &Vec<char>, pat: &str) -> (r: bool)
    ensures
        r == mentions(h@, pat@),
{
    let p = chars_of(pat);
    find_chars(h, &p, 0).is_some()
}

/// Whether the runs listing forbids the change, and why.
pub fn running_build_refusal(runs: &Result<HttpResponse, GhError>) -> (r: Option<String>)
    ensures
        match r {
            Some(m) => runs_refusal(*runs) == Some(m@),
            None => runs_refusal(*runs) is None,
        },
{
    match runs {
        Err(e) => {
            let mut m = String::from_str("could not check for running builds: ");
            let t = e.message();
            m.append(t.as_str());
            Some(m)
        },
        Ok(r) => {
            let text = text_lossy(r.body.as_slice());
            let h = chars_of(text.as_str());
            if mentions_text(&h, "\"status\":\"in_progress\"") || mentions_text(&h, "\"status\":\"queued\"") {
                Some(String::from_str(BUILD_RUNNING))
            } else {
                None
            }
        },
    }
}

/// What the reply to the change request means for the caller.
pub fn visibility_change_outcome(reply: &Result<HttpResponse, GhError>) -> (r: Result<(), String>)
    ensures
        outcome_view(r) == change_outcome(*reply),
{
    match reply {
        Err(e) => {
            let mut m = String::from_str("visibility change failed: ");
            let t = e.message();
            m.append(t.as_str());
            Err(m)
        },
        Ok(r) => {
            if ok(r.status) {
                return Ok(());
            }
            let text = text_lossy(r.body.as_slice());
            let h = chars_of(text.as_str());
            let end = if h.len() <= 200 {
                h.len()
            } else {
                200
            };
            let shown = text.as_str().substring_char(0, end);
            assert(shown@ == first_chars(lossy_text(r.body@), 200));
            let mut m = String::from_str("visibility change refused (");
            let d = decimal_string(r.status as u64);
            m.append(d.as_str());
            m.append("): ");
            m.append(shown);
            Err(m)
        },
    }
}

/// One request sent by a function of this module, as the network saw it,
/// and the transport's answer to it.
pub struct Sent {
    pub request: crate::http::RequestView,
    pub reply: Result<HttpResponse, GhError>,
}

pub open spec fn sent(req: HttpRequest, reply: Result<HttpResponse, GhError>) -> Sent {
    Sent { request: request_view(req), reply }
}

/// What a visibility change sent and what came of it, as `log` records it:
/// first the runs listing. On a refusal drawn from that listing nothing more
/// is sent and the refusal is the outcome; otherwise exactly one change
/// request follows, and the transport's answer to it decides the outcome.
pub open spec fn visibility_exchanges<T: Transport>(
    transport: &T,
    token: Seq<char>,
    owner: Seq<char>,
    repo: Seq<char>,
    private: bool,
    r: Result<(), Seq<char>>,
    log: Seq<Sent>,
) -> bool {
    &&& log.len() >= 1
    &&& log[0].request == runs_request(token, owner, repo)
    &&& transport.answers(log[0].request, log[0].reply)
    &&& match runs_refusal(log[0].reply) {
        Some(m) => log.len() == 1 && r == Err::<(), Seq<char>>(m),
        None => {
            &&& log.len() == 2
            &&& log[1].request == visibility_request(token, owner, repo, private)
            &&& transport.answers(log[1].request, log[1].reply)
            &&& r == change_outcome(log[1].reply)
        },
    }
}

/// Change a repository's visibility.
///
/// Refused while a build is running: the check asks GitHub whether a
/// workflow run is queued or in progress rather than trusting local state,
/// since the build may have been started from another client or machine.
/// Visibility does not change what is pushed: the capsule source is
/// encrypted either way.
///
/// Beside the outcome comes the record of the requests sent, in order, with
/// the transport's answers.
pub fn set_repository_visibility<T: Transport>(
    token: Option<String>,
    owner: &str,
    repo: &str,
    private: bool,
    transport: &T,
) -> (r: (Result<(), String>, Ghost<Seq<Sent>>))
    ensures
        token is None ==> outcome_view(r.0) == Err::<(), Seq<char>>(NO_TOKEN@) && r.1@.len() == 0,
        token matches Some(t) ==> visibility_exchanges(transport, t@, owner@, repo@, private, outcome_view(r.0), r.1@),
{
    let ghost mut log: Seq<Sent> = Seq::empty();
    let t = match token {
        None => {
            return (Err(String::from_str(NO_TOKEN)), Ghost(log));
        },
        Some(t) => t,
    };
    let listing = list_runs(t.as_str(), owner, repo);
    let runs = transport.send(&listing);
    proof {
        log = log.push(sent(listing, runs));
    }
    assert(request_view(listing) == runs_request(t@, owner@, repo@));
    match running_build_refusal(&runs) {
        Some(m) => {
            let r: Result<(), String> = Err(m);
            assert(outcome_view(r) == Err::<(), Seq<char>>(m@));
            (r, Ghost(log))
        },
        None => {
            let change = set_visibility(t.as_str(), owner, repo, private);
            let reply = transport.send(&change);
            proof {
                log = log.push(sent(change, reply));
            }
            assert(request_view(change) == visibility_request(t@, owner@, repo@, private));
            let r = visibility_change_outcome(&reply);
            (r, Ghost(log))
        },
    }
}

/// A visibility change refused on the runs listing sends no change request:
/// whatever `log` records beside such an outcome, no request in it asks for
/// a visibility change of any repository.
pub proof fn lemma_refused_change_sends_nothing<T: Transport>(
    transport: &T,
    token: Seq<char>,
    owner: Seq<char>,
    repo: Seq<char>,
    private: bool,
    r: Result<(), Seq<char>>,
    log: Seq<Sent>,
)
    requires
        visibility_exchanges(transport, token, owner, repo, private, r, log),
        runs_refusal(log[0].reply) is Some,
    ensures
        log.len() == 1,
        r == Err::<(), Seq<char>>(runs_refusal(log[0].reply)->0),
        forall|i: int, t2: Seq<char>, o2: Seq<char>, r2: Seq<char>, p2: bool|
            #![trigger log[i], visibility_request(t2, o2, r2, p2)]
            0 <= i < log.len() ==> log[i].request != visibility_request(t2, o2, r2, p2),
{
    assert forall|i: int, t2: Seq<char>, o2: Seq<char>, r2: Seq<char>, p2: bool|
        #![trigger log[i], visibility_request(t2, o2, r2, p2)]
        0 <= i < log.len() implies log[i].request != visibility_request(t2, o2, r2, p2) by {
        assert(log[i].request.0 == Method::Get);
        assert(visibility_request(t2, o2, r2, p2).0 == Method::Patch);
    }
}

pub open spec fn provenance_text(e: ProvenanceError) -> Seq<char> {
    match e {
        ProvenanceError::BuildIdMismatch => "the artifact belongs to a different build"@,
        ProvenanceError::TargetMismatch => "the artifact was built for a different target"@,
        ProvenanceError::DigestMismatch => "the artifact bytes are not what this build committed to"@,
        ProvenanceError::SignatureInvalid => "the artifact is not signed by the expected build channel"@,
    }
}

/// Describe what a provenance failure means, in operator terms.
pub fn explain_provenance(e: &ProvenanceError) -> (r: &'static str)
    ensures
        r@ == provenance_text(*e),
{
    match e {
        ProvenanceError::BuildIdMismatch => "the artifact belongs to a different build",
        ProvenanceError::TargetMismatch => "the artifact was built for a different target",
        ProvenanceError::DigestMismatch => "the artifact bytes are not what this build committed to",
        ProvenanceError::SignatureInvalid => "the artifact is not signed by the expected build channel",
    }
}


/// Directory entries a runtime project never pushes: build output, version
/// control and the lock file.
pub fn skipped_entry(name: &str) -> (r: bool)
    ensures
        r == (name@ == "target"@ || name@ == ".git"@ || name@ == "Cargo.lock"@),
{
    let c = chars_of(name);
    is_word(&c, "target") || is_word(&c, ".git") || is_word(&c, "Cargo.lock")
}

/// A relative path with `/` separators.
pub open spec fn slashed(p: Seq<char>) -> Seq<char> {
    p.map_values(|c: char| if c == '\\' { '/' } else { c })
}

/// Where a project file goes in the build repository.
pub open spec fn runtime_path(rel: Seq<char>) -> Seq<char> {
    "runtime/"@ + slashed(rel)
}

pub open spec fn entry_view(e: (String, Vec<u8>)) -> (Seq<char>, Seq<u8>) {
    (e.0@, e.1@)
}

pub open spec fn entries_view(s: Seq<(String, Vec<u8>)>) -> Seq<(Seq<char>, Seq<u8>)> {
    s.map_values(|e: (String, Vec<u8>)| entry_view(e))
}

pub open spec fn runtime_entry(e: (String, Vec<u8>)) -> (Seq<char>, Seq<u8>) {
    (runtime_path(e.0@), e.1@)
}

/// The project files as pushed: each path under `runtime/`.
pub open spec fn runtime_view(s: Seq<(String, Vec<u8>)>) -> Seq<(Seq<char>, Seq<u8>)> {
    s.map_values(|e: (String, Vec<u8>)| runtime_entry(e))
}

/// No path comes before the one ahead of it.
pub open spec fn sorted_by_path(s: Seq<(Seq<char>, Seq<u8>)>) -> bool {
    forall|i: int, j: int| 0 <= i < j < s.len() ==> !lex_lt(#[trigger] s[j].0, #[trigger] s[i].0)
}

fn runtime_path_of(rel: &String) -> (r: String)
    ensures
        r@ == runtime_path(rel@),
{
    let c = chars_of(rel.as_str());
    let mut out = String::from_str("runtime/");
    proof {
        reveal_strlit("runtime/");
    }
    let mut i: usize = 0;
    while i < c.len()
        invariant
            i <= c@.len(),
            c@ == rel@,
            out@ == "runtime/"@ + slashed(c@.take(i as int)),
        decreases c@.len() - i,
    {
        let ch = c[i];
        if ch == '\\' {
            out.append("/");
        } else {
            let one = rel.as_str().substring_char(i, i + 1);
            assert(one@ =~= seq![ch]);
            out.append(one);
        }
        proof {
            reveal_strlit("/");
        }
        assert(slashed(c@.take(i + 1)) =~= slashed(c@.take(i as int)).push(if ch == '\\' { '/' } else { ch }));
        i = i + 1;
    }
    assert(c@.take(i as int) =~= c@);
    out
}


fn path_before(key: &Vec<char>, e: &(String, Vec<u8>)) -> (r: bool)
    ensures
        r == lex_lt(key@, e.0@),
{
    let other = chars_of(e.0.as_str());
    lex_less(key, &other)
}

proof fn lemma_insert_sorted(s: Seq<(Seq<char>, Seq<u8>)>, k: int, x: (Seq<char>, Seq<u8>))
    requires
        sorted_by_path(s),
        0 <= k <= s.len(),
        forall|m: int| 0 <= m < k ==> !lex_lt(x.0, #[trigger] s[m].0),
        k < s.len() ==> lex_lt(x.0, s[k].0),
    ensures
        sorted_by_path(s.insert(k, x)),
{
    let n = s.insert(k, x);
    assert forall|i: int, j: int| 0 <= i < j < n.len() implies !lex_lt(#[trigger] n[j].0, #[trigger] n[i].0) by {
        if j < k {
            assert(n[i] == s[i] && n[j] == s[j]);
        } else if j == k {
            assert(n[i] == s[i]);
        } else if i == k {
            assert(n[j] == s[j - 1]);
            if lex_lt(s[j - 1].0, x.0) {
                lemma_lex_trans(s[j - 1].0, x.0, s[k].0);
                if j - 1 == k {
                    lemma_lex_irreflexive(s[k].0);
                } else {
                    assert(!lex_lt(s[j - 1].0, s[k].0));
                }
            }
        } else if i < k {
            assert(n[i] == s[i] && n[j] == s[j - 1]);
        } else {
            assert(n[i] == s[i - 1] && n[j] == s[j - 1]);
        }
    }
}

/// The entries ordered by path (entries with the same path keep their
/// order).
pub fn sort_by_path(found: Vec<(String, Vec<u8>)>) -> (r: Vec<(String, Vec<u8>)>)
    ensures
        entries_view(r@).to_multiset() == entries_view(found@).to_multiset(),
        sorted_by_path(entries_view(r@)),
{
    broadcast use vstd::seq_lib::group_to_multiset_ensures;
    let ghost orig = found@;
    let mut rest = found;
    let mut out: Vec<(String, Vec<u8>)> = Vec::new();
    let ghost mut i: int = 0;
    assert(entries_view(orig.take(0)) =~= Seq::<(Seq<char>, Seq<u8>)>::empty());
    assert(entries_view(out@) =~= Seq::<(Seq<char>, Seq<u8>)>::empty());
    while rest.len() > 0
        invariant
            0 <= i <= orig.len(),
            rest@ == orig.skip(i),
            entries_view(out@).to_multiset() == entries_view(orig.take(i)).to_multiset(),
            sorted_by_path(entries_view(out@)),
        decreases rest@.len(),
    {
        let ghost before = out@;
        let e = rest.remove(0);
        assert(e == orig[i]);
        let key = chars_of(e.0.as_str());
        let mut k: usize = 0;
        while k < out.len() && !path_before(&key, &out[k])
            invariant
                out@ == before,
                k <= out@.len(),
                key@ == orig[i].0@,
                forall|m: int| 0 <= m < k ==> !lex_lt(key@, #[trigger] entries_view(out@)[m].0),
            decreases out@.len() - k,
        {
            k = k + 1;
        }
        proof {
            let sv = entries_view(before);
            lemma_insert_sorted(sv, k as int, entry_view(e));
            assert(entries_view(before.insert(k as int, e)) =~= sv.insert(k as int, entry_view(e)));
            assert(entries_view(orig.take(i + 1)) =~= entries_view(orig.take(i)).push(entry_view(orig[i])));
            vstd::seq_lib::to_multiset_insert(sv, k as int, entry_view(e));
            vstd::seq_lib::to_multiset_build(entries_view(orig.take(i)), entry_view(orig[i]));
        }
        out.insert(k, e);
        proof {
            assert(entries_view(out@) == entries_view(before).insert(k as int, entry_view(e)));
            assert(rest@ =~= orig.skip(i + 1));
            i = i + 1;
        }
    }
    assert(orig.take(i) =~= orig);
    out
}

/// Every file of the generated runtime project, given as paths relative to
/// the project with their bytes, as the build repository receives them:
/// under `runtime/`, with `/` separators, ordered by path (files with the
/// same path keep their order), so the commitment over them is stable.
pub fn collect_runtime_files(found: Vec<(String, Vec<u8>)>) -> (r: Vec<(String, Vec<u8>)>)
    ensures
        entries_view(r@).to_multiset() == runtime_view(found@).to_multiset(),
        sorted_by_path(entries_view(r@)),
{
    let ghost orig = found@;
    let mut placed: Vec<(String, Vec<u8>)> = Vec::new();
    let mut rest = found;
    let ghost mut i: int = 0;
    assert(entries_view(placed@) =~= runtime_view(orig.take(0)));
    while rest.len() > 0
        invariant
            0 <= i <= orig.len(),
            rest@ == orig.skip(i),
            entries_view(placed@) == runtime_view(orig.take(i)),
        decreases rest@.len(),
    {
        let e = rest.remove(0);
        assert(e == orig[i]);
        let path = runtime_path_of(&e.0);
        let ghost before = placed@;
        placed.push((path, e.1));
        proof {
            assert(entries_view(placed@) =~= entries_view(before).push(runtime_entry(orig[i])));
            assert(runtime_view(orig.take(i + 1)) =~= runtime_view(orig.take(i)).push(runtime_entry(orig[i])));
            assert(rest@ =~= orig.skip(i + 1));
            i = i + 1;
        }
    }
    assert(orig.take(i) =~= orig);
    sort_by_path(placed)
}

/// What `sha2::Sha256::digest` gives for some bytes.
pub uninterp spec fn sha256_of(data: Seq<u8>) -> Seq<u8>;

/// `sha2::Sha256::digest`. Claimed: the digest is a function of the bytes
/// alone; SHA-256 itself is left to the name.
#[verifier::external_body]
fn sha256(data: &[u8]) -> (r: [u8; 32])
    ensures
        r@ == sha256_of(data@),
{
    sha2::Sha256::digest(data).into()
}

pub const SOURCE_COMMITMENT_DOMAIN: &'static str = "nyedarch:v1:source-commitment";

/// Each file's path, a zero byte, then its bytes, in the order given.
pub open spec fn commitment_entries(files: Seq<(Seq<char>, Seq<u8>)>) -> Seq<u8>
    decreases files.len(),
{
    if files.len() == 0 {
        Seq::empty()
    } else {
        commitment_entries(files.drop_last()) + encode_utf8(files.last().0) + seq![0u8] + files.last().1
    }
}

/// What the source commitment hashes: the domain, then every file.
pub open spec fn commitment_input(files: Seq<(Seq<char>, Seq<u8>)>) -> Seq<u8> {
    encode_utf8(SOURCE_COMMITMENT_DOMAIN@) + commitment_entries(files)
}

/// `r` commits to `files`: SHA-256 over them ordered by path.
pub open spec fn commits_to(files: Seq<(Seq<char>, Seq<u8>)>, r: Seq<u8>) -> bool {
    exists|sorted: Seq<(Seq<char>, Seq<u8>)>|
        sorted.to_multiset() == files.to_multiset() && sorted_by_path(sorted) && r == sha256_of(
            commitment_input(sorted),
        )
}

/// The commitment does not depend on the order the files are given in: the
/// same files, no path twice, always give the same commitment.
pub proof fn lemma_commitment_is_order_independent(
    f1: Seq<(Seq<char>, Seq<u8>)>,
    f2: Seq<(Seq<char>, Seq<u8>)>,
    r1: Seq<u8>,
    r2: Seq<u8>,
)
    requires
        f1.to_multiset() == f2.to_multiset(),
        forall|i: int, j: int| 0 <= i < f1.len() && 0 <= j < f1.len() && i != j ==> f1[i].0 != f1[j].0,
        commits_to(f1, r1),
        commits_to(f2, r2),
    ensures
        r1 == r2,
{
    let key = |e: (Seq<char>, Seq<u8>)| e.0;
    let s1 = choose|s: Seq<(Seq<char>, Seq<u8>)>|
        s.to_multiset() == f1.to_multiset() && sorted_by_path(s) && r1 == sha256_of(commitment_input(s));
    let s2 = choose|s: Seq<(Seq<char>, Seq<u8>)>|
        s.to_multiset() == f2.to_multiset() && sorted_by_path(s) && r2 == sha256_of(commitment_input(s));
    assert forall|i: int, j: int| 0 <= i < f1.len() && 0 <= j < f1.len() && i != j implies key(
        #[trigger] f1[i],
    ) != key(#[trigger] f1[j]) by {}
    lemma_distinct_keys_carry(f1, s1, key);
    assert forall|i: int, j: int| 0 <= i < j < s1.len() implies !lex_lt(key(#[trigger] s1[j]), key(#[trigger] s1[i])) by {}
    assert forall|i: int, j: int| 0 <= i < j < s2.len() implies !lex_lt(key(#[trigger] s2[j]), key(#[trigger] s2[i])) by {}
    lemma_sorted_unique(s1, s2, key);
}

/// The commitment to the pushed source, recorded in the build manifest
/// before dispatch: SHA-256 over the files ordered by path.
pub fn source_commitment(files: &Vec<(String, Vec<u8>)>) -> (r: [u8; 32])
    ensures
        commits_to(entries_view(files@), r@),
{
    let mut copy: Vec<(String, Vec<u8>)> = Vec::new();
    let mut i: usize = 0;
    while i < files.len()
        invariant
            i <= files@.len(),
            entries_view(copy@) == entries_view(files@.take(i as int)),
        decreases files@.len() - i,
    {
        let p = String::from_str(files[i].0.as_str());
        let b = files[i].1.clone();
        assert(b@ =~= files@[i as int].1@);
        let ghost before = copy@;
        copy.push((p, b));
        assert(entries_view(copy@) =~= entries_view(before).push(entry_view(files@[i as int])));
        assert(files@.take(i + 1) =~= files@.take(i as int).push(files@[i as int]));
        assert(entries_view(files@.take(i + 1)) =~= entries_view(files@.take(i as int)).push(entry_view(files@[i as int])));
        i = i + 1;
    }
    assert(files@.take(i as int) =~= files@);
    let sorted = sort_by_path(copy);
    let ghost sv = entries_view(sorted@);
    let mut buf: Vec<u8> = Vec::new();
    let domain = SOURCE_COMMITMENT_DOMAIN.as_bytes();
    let mut k: usize = 0;
    while k < domain.len()
        invariant
            k <= domain@.len(),
            domain@ == encode_utf8(SOURCE_COMMITMENT_DOMAIN@),
            buf@ == domain@.take(k as int),
        decreases domain@.len() - k,
    {
        buf.push(domain[k]);
        assert(buf@ =~= domain@.take(k + 1));
        k = k + 1;
    }
    assert(domain@.take(k as int) =~= domain@);
    let mut j: usize = 0;
    while j < sorted.len()
        invariant
            j <= sorted@.len(),
            sv == entries_view(sorted@),
            buf@ == encode_utf8(SOURCE_COMMITMENT_DOMAIN@) + commitment_entries(sv.take(j as int)),
        decreases sorted@.len() - j,
    {
        let name = sorted[j].0.as_str().as_bytes();
        let ghost head = buf@;
        let mut k: usize = 0;
        while k < name.len()
            invariant
                k <= name@.len(),
                buf@ == head + name@.take(k as int),
            decreases name@.len() - k,
        {
            buf.push(name[k]);
            assert(buf@ =~= head + name@.take(k + 1));
            k = k + 1;
        }
        buf.push(0u8);
        let body = &sorted[j].1;
        let ghost mid = buf@;
        let mut k: usize = 0;
        while k < body.len()
            invariant
                k <= body@.len(),
                buf@ == mid + body@.take(k as int),
            decreases body@.len() - k,
        {
            buf.push(body[k]);
            assert(buf@ =~= mid + body@.take(k + 1));
            k = k + 1;
        }
        proof {
            assert(name@.take(name@.len() as int) =~= name@);
            assert(body@.take(body@.len() as int) =~= body@);
            assert(sv.take(j + 1).drop_last() =~= sv.take(j as int));
            assert(sv.take(j + 1).last() == sv[j as int]);
            assert(sv[j as int] == entry_view(sorted@[j as int]));
            assert(buf@ =~= encode_utf8(SOURCE_COMMITMENT_DOMAIN@) + commitment_entries(sv.take(j + 1)));
        }
        j = j + 1;
    }
    assert(sv.take(j as int) =~= sv);
    sha256(buf.as_slice())
}

} // verus!
