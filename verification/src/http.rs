//! Transport-agnostic HTTP model. The orchestrator builds `HttpRequest`s and
//! runs them through a `Transport`, so all GitHub logic is independent of how
//! bytes reach the network.
use vstd::prelude::*;
use crate::text::{decimal, decimal_string};

verus! {

#[derive(Clone, Copy, Debug, PartialEq, Eq, Structural)]
pub enum Method {
    Get,
    Post,
    Put,
    Patch,
    Delete,
}

#[derive(Clone, Debug)]
pub struct HttpRequest {
    pub method: Method,
    pub url: String,
    pub headers: Vec<(String, String)>,
    pub body: Vec<u8>,
}

#[derive(Clone, Debug)]
pub struct HttpResponse {
    pub status: u16,
    pub headers: Vec<(String, String)>,
    pub body: Vec<u8>,
}

/// Errors of the GitHub orchestration.
#[derive(Clone, Debug)]
pub enum GhError {
    Transport,
    Status(u16),
    /// GitHub explains most refusals in the response body, so the explanation
    /// is carried through rather than reduced to a number.
    StatusDetail(u16, String),
    Decode,
    Sealer,
    /// The build produced an artifact that does not carry the committed package.
    Provenance,
    /// The remote build failed; the run id is given.
    BuildFailed(u64),
    Precondition(&'static str),
}

/// The abstract value of a header list: each name and value as text.
pub open spec fn headers_view(h: Seq<(String, String)>) -> Seq<(Seq<char>, Seq<char>)> {
    h.map_values(|p: (String, String)| (p.0@, p.1@))
}

/// How an orchestration error reads to an operator.
pub open spec fn gh_message(e: GhError) -> Seq<char> {
    match e {
        GhError::Transport => "transport error"@,
        GhError::Status(s) => "unexpected status "@ + decimal(s as nat),
        GhError::StatusDetail(s, t) => decimal(s as nat) + ": "@ + t@,
        GhError::Decode => "response decode error"@,
        GhError::Sealer => "secret sealing unavailable"@,
        GhError::Provenance => "artifact provenance check failed: it does not carry the committed package"@,
        GhError::BuildFailed(id) => "the remote build failed (run "@ + decimal(id as nat) + "); see the workflow logs"@,
        GhError::Precondition(m) => "orchestration precondition failed: "@ + m@,
    }
}

impl GhError {
    pub fn message(&self) -> (r: String)
        ensures
            r@ == gh_message(*self),
    {
        match self {
            GhError::Transport => String::from_str("transport error"),
            GhError::Status(s) => {
                let mut m = String::from_str("unexpected status ");
                let d = decimal_string(*s as u64);
                m.append(d.as_str());
                m
            },
            GhError::StatusDetail(s, t) => {
                let mut m = decimal_string(*s as u64);
                m.append(": ");
                m.append(t.as_str());
                m
            },
            GhError::Decode => String::from_str("response decode error"),
            GhError::Sealer => String::from_str("secret sealing unavailable"),
            GhError::Provenance => String::from_str(
                "artifact provenance check failed: it does not carry the committed package",
            ),
            GhError::BuildFailed(id) => {
                let mut m = String::from_str("the remote build failed (run ");
                let d = decimal_string(*id);
                m.append(d.as_str());
                m.append("); see the workflow logs");
                m
            },
            GhError::Precondition(p) => {
                let mut m = String::from_str("orchestration precondition failed: ");
                m.append(p);
                m
            },
        }
    }
}

/// What a request is, as the network sees it: method, URL, headers and body.
pub type RequestView = (Method, Seq<char>, Seq<(Seq<char>, Seq<char>)>, Seq<u8>);

pub open spec fn request_view(r: HttpRequest) -> RequestView {
    (r.method, r.url@, headers_view(r.headers@), r.body@)
}

/// Pluggable HTTP transport.
///
/// What a transport answers depends on the network, so nothing is promised of
/// the answer itself; `answers` only ties each answer to the request it was
/// given. `pause` is how the orchestrator waits between polls; a transport
/// used offline may leave it empty.
pub trait Transport {
    /// Whether `r` is an answer this transport may give to the request `req`.
    /// The same request may be answered differently from one call to the
    /// next, so this is a relation.
    ///
    /// Code that is generic over the transport never sees this body: to it,
    /// an answer to `req` is known only from a call of `send` with `req`. The
    /// body here only lets unchecked implementations leave it out.
    closed spec fn answers(&self, req: RequestView, r: Result<HttpResponse, GhError>) -> bool {
        true
    }

    fn send(&self, req: &HttpRequest) -> (r: Result<HttpResponse, GhError>)
        ensures
            self.answers(request_view(*req), r),
    ;

    fn pause(&self, secs: u64) {
    }
}

/// Seals a repository secret for the repository public key (base64) and
/// returns the sealed value in base64. A secret is never sent unsealed.
pub trait SecretSealer {
    /// Whether `r` is an answer this sealer may give when asked to seal
    /// `plaintext` for the key: sealing draws a fresh random key, so this is a
    /// relation, not a function.
    ///
    /// Code that is generic over the sealer never sees this body. An
    /// implementation that Verus checks states its own; the body here only
    /// lets unchecked implementations leave it out.
    closed spec fn may_seal(&self, repo_public_key_b64: Seq<char>, plaintext: Seq<u8>, r: Result<Seq<char>, GhError>) -> bool {
        true
    }

    fn seal(&self, repo_public_key_b64: &str, plaintext: &[u8]) -> (r: Result<String, GhError>)
        ensures
            self.may_seal(repo_public_key_b64@, plaintext@, text_result(r)),
    ;
}

/// A result with its text taken by value.
pub open spec fn text_result(r: Result<String, GhError>) -> Result<Seq<char>, GhError> {
    match r {
        Ok(s) => Ok(s@),
        Err(e) => Err(e),
    }
}

/// Whether an HTTP status denotes success.
pub open spec fn status_ok(status: u16) -> bool {
    200 <= status < 300
}

pub fn ok(status: u16) -> (r: bool)
    ensures
        r == status_ok(status),
{
    200 <= status && status < 300
}

} // verus!
