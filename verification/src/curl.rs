//! The curl config stream. A request is handed to the system `curl` as a
//! config read from its standard input (`curl --config -`), so the bearer
//! token never appears in the process arguments or the environment.
//!
//! Redirects are followed (artifact downloads answer 302) but not trusted:
//! `location` drops the Authorization header when a redirect crosses hosts,
//! and both the request and any redirect are held to HTTPS.
use vstd::prelude::*;
use crate::http::{headers_view, HttpRequest, Method};
use crate::scan::{is_ws, is_whitespace};
use crate::text::chars_of;

verus! {

/// Runs the system `curl`; the path is overridable for packaging.
pub struct CurlTransport {
    pub curl: String,
}

impl CurlTransport {
    pub fn new() -> (t: Self)
        ensures
            t.curl@ == "curl"@,
    {
        CurlTransport { curl: String::from_str("curl") }
    }
}

/// The name of a method as curl's `request` option takes it.
pub open spec fn method_name(m: Method) -> Seq<char> {
    match m {
        Method::Get => "GET"@,
        Method::Post => "POST"@,
        Method::Put => "PUT"@,
        Method::Patch => "PATCH"@,
        Method::Delete => "DELETE"@,
    }
}

fn method_str(m: Method) -> (r: &'static str)
    ensures
        r@ == method_name(m),
{
    match m {
        Method::Get => "GET",
        Method::Post => "POST",
        Method::Put => "PUT",
        Method::Patch => "PATCH",
        Method::Delete => "DELETE",
    }
}

/// One `header = "name: value"` line per header, in order.
pub open spec fn header_lines(h: Seq<(Seq<char>, Seq<char>)>) -> Seq<char>
    decreases h.len(),
{
    if h.len() == 0 {
        Seq::empty()
    } else {
        header_lines(h.drop_last()) + "header = \""@ + h.last().0 + ": "@ + h.last().1 + "\"\n"@
    }
}

/// The directives every request ends with: follow at most five redirects,
/// HTTPS only, quiet, and the status code on standard output.
pub const CONFIG_TAIL: &'static str = "location\nmax-redirs = 5\nproto = \"=https\"\nproto-redir = \"=https\"\nsilent\nshow-error\nwrite-out = \"%{http_code}\"\n";

/// The config stream for a request whose body, when it has one, was staged
/// in `body_file`.
pub open spec fn spec_config_stream(
    method: Method,
    url: Seq<char>,
    headers: Seq<(Seq<char>, Seq<char>)>,
    has_body: bool,
    body_file: Option<Seq<char>>,
) -> Seq<char> {
    "request = \""@ + method_name(method) + "\"\n"@ + "url = \""@ + url + "\"\n"@ + header_lines(headers)
        + (match body_file {
        Some(f) => if has_body {
            "data-binary = \"@"@ + f + "\"\n"@
        } else {
            Seq::empty()
        },
        None => Seq::empty(),
    }) + CONFIG_TAIL@
}

/// What a stream holds before the body directive and the tail.
pub open spec fn stream_head(method: Method, url: Seq<char>, headers: Seq<(Seq<char>, Seq<char>)>) -> Seq<char> {
    "request = \""@ + method_name(method) + "\"\n"@ + "url = \""@ + url + "\"\n"@ + header_lines(headers)
}

/// Every config stream ends with the same directives: redirects are followed
/// with `location` (never `location-trusted`, which would forward the token
/// to another host), at most five of them, and only over HTTPS, for the
/// request and for any redirect. A request with a body staged in a file sends
/// it with `data-binary`, from that file; a request without one sends no body
/// directive.
pub proof fn lemma_stream_directives(
    method: Method,
    url: Seq<char>,
    headers: Seq<(Seq<char>, Seq<char>)>,
    has_body: bool,
    body_file: Option<Seq<char>>,
)
    ensures
        ({
            let s = spec_config_stream(method, url, headers, has_body, body_file);
            &&& has_body && body_file is Some ==> s == stream_head(method, url, headers) + "data-binary = \"@"@
                + body_file->0 + "\"\n"@ + CONFIG_TAIL@
            &&& !(has_body && body_file is Some) ==> s == stream_head(method, url, headers) + CONFIG_TAIL@
        }),
        CONFIG_TAIL@.subrange(0, 9) == "location\n"@,
        CONFIG_TAIL@.subrange(9, 24) == "max-redirs = 5\n"@,
        CONFIG_TAIL@.subrange(24, 41) == "proto = \"=https\"\n"@,
        CONFIG_TAIL@.subrange(41, 64) == "proto-redir = \"=https\"\n"@,
{
    reveal_strlit("location\nmax-redirs = 5\nproto = \"=https\"\nproto-redir = \"=https\"\nsilent\nshow-error\nwrite-out = \"%{http_code}\"\n");
    reveal_strlit("location\n");
    reveal_strlit("max-redirs = 5\n");
    reveal_strlit("proto = \"=https\"\n");
    reveal_strlit("proto-redir = \"=https\"\n");
    assert(CONFIG_TAIL@.subrange(0, 9) =~= "location\n"@);
    assert(CONFIG_TAIL@.subrange(9, 24) =~= "max-redirs = 5\n"@);
    assert(CONFIG_TAIL@.subrange(24, 41) =~= "proto = \"=https\"\n"@);
    assert(CONFIG_TAIL@.subrange(41, 64) =~= "proto-redir = \"=https\"\n"@);
    let s = spec_config_stream(method, url, headers, has_body, body_file);
    if has_body && body_file is Some {
        assert(s =~= stream_head(method, url, headers) + "data-binary = \"@"@ + body_file->0 + "\"\n"@ + CONFIG_TAIL@);
    } else {
        assert(s =~= stream_head(method, url, headers) + CONFIG_TAIL@);
    }
}

/// `p` occurs nowhere in `s`.
pub open spec fn absent(s: Seq<char>, p: Seq<char>) -> bool {
    forall|k: int| 0 <= k && k + p.len() <= s.len() ==> #[trigger] s.subrange(k, k + p.len()) != p
}

/// What would forward the token to another host.
pub open spec fn trusted_location() -> Seq<char> {
    "location-trusted"@
}

/// Joining two texts makes no new occurrence of `p` when the character on
/// one side of the joint cannot be part of it.
proof fn lemma_absent_join(a: Seq<char>, b: Seq<char>, p: Seq<char>)
    requires
        p.len() > 0,
        absent(a, p),
        absent(b, p),
        a.len() == 0 || b.len() == 0 || !p.contains(a.last()) || !p.contains(b[0]),
    ensures
        absent(a + b, p),
{
    let s = a + b;
    assert forall|k: int| 0 <= k && k + p.len() <= s.len() implies #[trigger] s.subrange(k, k + p.len()) != p by {
        if k + p.len() <= a.len() {
            assert(s.subrange(k, k + p.len()) =~= a.subrange(k, k + p.len()));
        } else if k >= a.len() {
            assert(s.subrange(k, k + p.len()) =~= b.subrange(k - a.len(), k - a.len() + p.len()));
        } else if s.subrange(k, k + p.len()) == p {
            let w = s.subrange(k, k + p.len());
            assert(w[a.len() - 1 - k] == a.last());
            assert(w[a.len() - k] == b[0]);
            assert(p.contains(a.last()));
            assert(p.contains(b[0]));
        }
    }
}

proof fn lemma_absent_short(s: Seq<char>, p: Seq<char>)
    requires
        s.len() < p.len(),
    ensures
        absent(s, p),
{
}

/// A text that no separator of the config stream can be part of: long
/// enough that no fixed word but the ones it must be checked against holds
/// it, and free of quotes, line ends, colons, spaces, `@` and `h`.
pub open spec fn quiet_pattern(p: Seq<char>) -> bool {
    &&& p.len() >= 11
    &&& !p.contains('"')
    &&& !p.contains('\n')
    &&& !p.contains(':')
    &&& !p.contains(' ')
    &&& !p.contains('@')
    &&& !p.contains('h')
}

proof fn lemma_quiet(p: Seq<char>)
    requires
        p.len() >= 11,
        forall|i: int|
            0 <= i < p.len() ==> #[trigger] p[i] != '"' && p[i] != '\n' && p[i] != ':' && p[i] != ' ' && p[i] != '@'
                && p[i] != 'h',
    ensures
        quiet_pattern(p),
{
}

proof fn lemma_header_lines_absent(h: Seq<(Seq<char>, Seq<char>)>, p: Seq<char>)
    requires
        quiet_pattern(p),
        forall|i: int| 0 <= i < h.len() ==> absent((#[trigger] h[i]).0, p) && absent(h[i].1, p),
    ensures
        absent(header_lines(h), p),
    decreases h.len(),
{
    if h.len() > 0 {
        lemma_header_lines_absent(h.drop_last(), p);
        assert forall|i: int| 0 <= i < h.drop_last().len() implies absent((#[trigger] h.drop_last()[i]).0, p) && absent(
            h.drop_last()[i].1,
            p,
        ) by {
            assert(h.drop_last()[i] == h[i]);
        }
        let k = h.last().0;
        let v = h.last().1;
        let open = "header = \""@;
        let sep = ": "@;
        let close = "\"\n"@;
        reveal_strlit("header = \"");
        reveal_strlit(": ");
        reveal_strlit("\"\n");
        lemma_absent_short(open, p);
        lemma_absent_short(sep, p);
        lemma_absent_short(close, p);
        assert(absent(h.last().0, p) && absent(h.last().1, p));
        lemma_absent_join(header_lines(h.drop_last()), open, p);
        lemma_absent_join(header_lines(h.drop_last()) + open, k, p);
        lemma_absent_join(header_lines(h.drop_last()) + open + k, sep, p);
        lemma_absent_join(header_lines(h.drop_last()) + open + k + sep, v, p);
        lemma_absent_join(header_lines(h.drop_last()) + open + k + sep + v, close, p);
    }
}

proof fn lemma_header_lines_end(h: Seq<(Seq<char>, Seq<char>)>)
    requires
        h.len() > 0,
    ensures
        header_lines(h).len() > 0,
        header_lines(h).last() == '\n',
{
    reveal_strlit("\"\n");
}

/// A quiet text held by neither the fixed directives, nor the URL, nor a
/// header, nor (when a body is sent) the body directive and its file name,
/// is held by no config stream built from them.
proof fn lemma_stream_absent(
    p: Seq<char>,
    method: Method,
    url: Seq<char>,
    headers: Seq<(Seq<char>, Seq<char>)>,
    has_body: bool,
    body_file: Option<Seq<char>>,
)
    requires
        quiet_pattern(p),
        absent(CONFIG_TAIL@, p),
        absent(url, p),
        forall|i: int| 0 <= i < headers.len() ==> absent((#[trigger] headers[i]).0, p) && absent(headers[i].1, p),
        has_body && body_file is Some ==> absent(body_file->0, p) && absent("data-binary = \"@"@, p),
    ensures
        absent(spec_config_stream(method, url, headers, has_body, body_file), p),
{
    reveal_strlit("request = \"");
    reveal_strlit("\"\n");
    reveal_strlit("url = \"");
    reveal_strlit("data-binary = \"@");
    reveal_strlit("GET");
    reveal_strlit("POST");
    reveal_strlit("PUT");
    reveal_strlit("PATCH");
    reveal_strlit("DELETE");
    reveal_strlit("location\nmax-redirs = 5\nproto = \"=https\"\nproto-redir = \"=https\"\nsilent\nshow-error\nwrite-out = \"%{http_code}\"\n");
    let m = method_name(method);
    let req = "request = \""@;
    assert(absent(req, p)) by {
        if p.len() > 11 {
            lemma_absent_short(req, p);
        } else {
            assert forall|k: int| 0 <= k && k + p.len() <= req.len() implies #[trigger] req.subrange(k, k + p.len()) != p by {
                let w = req.subrange(k, k + p.len());
                if w == p {
                    assert(w[10] == '"');
                    assert(p.contains(p[10]));
                }
            }
        }
    }
    lemma_absent_short(m, p);
    lemma_absent_short("\"\n"@, p);
    lemma_absent_short("url = \""@, p);
    let a1 = req + m;
    lemma_absent_join(req, m, p);
    lemma_absent_join(a1, "\"\n"@, p);
    let a2 = a1 + "\"\n"@;
    lemma_absent_join(a2, "url = \""@, p);
    let a3 = a2 + "url = \""@;
    lemma_absent_join(a3, url, p);
    let a4 = a3 + url;
    lemma_absent_join(a4, "\"\n"@, p);
    let a5 = a4 + "\"\n"@;
    lemma_header_lines_absent(headers, p);
    lemma_absent_join(a5, header_lines(headers), p);
    let a6 = a5 + header_lines(headers);
    if headers.len() > 0 {
        lemma_header_lines_end(headers);
        assert(a6.last() == header_lines(headers).last());
    } else {
        assert(a6 =~= a5);
    }
    assert(a6.last() == '\n');
    let body = match body_file {
        Some(f) => if has_body {
            "data-binary = \"@"@ + f + "\"\n"@
        } else {
            Seq::<char>::empty()
        },
        None => Seq::<char>::empty(),
    };
    if body.len() > 0 {
        let f = body_file->0;
        let lit = "data-binary = \"@"@;
        lemma_absent_join(lit, f, p);
        lemma_absent_join(lit + f, "\"\n"@, p);
        assert(body.last() == '\n');
    }
    lemma_absent_join(a6, body, p);
    let a7 = a6 + body;
    assert(a7.last() == '\n') by {
        if body.len() == 0 {
            assert(a7 =~= a6);
        }
    }
    lemma_absent_join(a7, CONFIG_TAIL@, p);
    assert(spec_config_stream(method, url, headers, has_body, body_file) =~= a7 + CONFIG_TAIL@);
}

/// The token is never forwarded across hosts: when neither the URL, nor a
/// header, nor the body file's name holds the text `location-trusted`, the
/// config stream does not hold it either. Every text the caller supplies
/// sits between separators that cannot be part of it, and the fixed
/// directives ask only for `location`.
pub proof fn lemma_token_stays_on_host(
    method: Method,
    url: Seq<char>,
    headers: Seq<(Seq<char>, Seq<char>)>,
    has_body: bool,
    body_file: Option<Seq<char>>,
)
    requires
        absent(url, trusted_location()),
        forall|i: int|
            0 <= i < headers.len() ==> absent((#[trigger] headers[i]).0, trusted_location()) && absent(
                headers[i].1,
                trusted_location(),
            ),
        body_file matches Some(f) ==> absent(f, trusted_location()),
    ensures
        absent(spec_config_stream(method, url, headers, has_body, body_file), trusted_location()),
{
    let p = trusted_location();
    reveal_strlit("location-trusted");
    reveal_strlit("data-binary = \"@");
    reveal_strlit("location\nmax-redirs = 5\nproto = \"=https\"\nproto-redir = \"=https\"\nsilent\nshow-error\nwrite-out = \"%{http_code}\"\n");
    lemma_quiet(p);
    let lit = "data-binary = \"@"@;
    assert(absent(lit, p)) by {
        assert forall|k: int| 0 <= k && k + p.len() <= lit.len() implies #[trigger] lit.subrange(k, k + p.len()) != p by {
            assert(lit.subrange(k, k + p.len())[0] != p[0]);
        }
    }
    let tail = CONFIG_TAIL@;
    assert(absent(tail, p)) by {
        assert forall|k: int| 0 <= k && k + p.len() <= tail.len() implies #[trigger] tail.subrange(k, k + p.len()) != p by {
            let w = tail.subrange(k, k + p.len());
            if w == p {
                assert(w[0] == 'l' && w[1] == 'o' && w[8] == '-');
                assert(tail[k] == 'l' && tail[k + 1] == 'o' && tail[k + 8] == '-');
            }
        }
    }
    lemma_stream_absent(p, method, url, headers, has_body, body_file);
}

/// The directive that sends a body.
pub open spec fn body_directive() -> Seq<char> {
    "data-binary"@
}

/// A config stream asks curl to send a body exactly when the request has one
/// and it was staged in a file: with both, the stream holds `data-binary`;
/// without, and when neither the URL nor a header holds that text, it does
/// not.
pub proof fn lemma_body_directive_iff_body(
    method: Method,
    url: Seq<char>,
    headers: Seq<(Seq<char>, Seq<char>)>,
    has_body: bool,
    body_file: Option<Seq<char>>,
)
    requires
        absent(url, body_directive()),
        forall|i: int|
            0 <= i < headers.len() ==> absent((#[trigger] headers[i]).0, body_directive()) && absent(
                headers[i].1,
                body_directive(),
            ),
    ensures
        absent(spec_config_stream(method, url, headers, has_body, body_file), body_directive()) <==> !(has_body
            && body_file is Some),
{
    let p = body_directive();
    let s = spec_config_stream(method, url, headers, has_body, body_file);
    reveal_strlit("data-binary");
    reveal_strlit("data-binary = \"@");
    reveal_strlit("location\nmax-redirs = 5\nproto = \"=https\"\nproto-redir = \"=https\"\nsilent\nshow-error\nwrite-out = \"%{http_code}\"\n");
    lemma_stream_directives(method, url, headers, has_body, body_file);
    if has_body && body_file is Some {
        let head = stream_head(method, url, headers);
        let at = head.len() as int;
        assert(s.subrange(at, at + p.len()) =~= p);
    } else {
        lemma_quiet(p);
        let tail = CONFIG_TAIL@;
        assert(absent(tail, p)) by {
            assert forall|k: int| 0 <= k && k + p.len() <= tail.len() implies #[trigger] tail.subrange(k, k + p.len()) != p by {
                let w = tail.subrange(k, k + p.len());
                if w == p {
                    assert(w[0] == 'd' && w[1] == 'a');
                    assert(tail[k] == 'd' && tail[k + 1] == 'a');
                }
            }
        }
        lemma_stream_absent(p, method, url, headers, has_body, body_file);
    }
}

/// Build the curl config stream for a request.
pub fn config_stream(req: &HttpRequest, body_file: Option<&str>) -> (c: String)
    ensures
        c@ == spec_config_stream(
            req.method,
            req.url@,
            headers_view(req.headers@),
            req.body@.len() > 0,
            match body_file {
                Some(f) => Some(f@),
                None => None,
            },
        ),
{
    let mut c = String::from_str("request = \"");
    c.append(method_str(req.method));
    c.append("\"\n");
    c.append("url = \"");
    c.append(req.url.as_str());
    c.append("\"\n");
    let ghost head = c@;
    let mut i: usize = 0;
    while i < req.headers.len()
        invariant
            i <= req.headers@.len(),
            c@ == head + header_lines(headers_view(req.headers@.take(i as int))),
        decreases req.headers@.len() - i,
    {
        let ghost before = c@;
        // Header values may hold the bearer token; this stream goes to
        // curl's standard input, never to the command line.
        c.append("header = \"");
        c.append(req.headers[i].0.as_str());
        c.append(": ");
        c.append(req.headers[i].1.as_str());
        c.append("\"\n");
        proof {
            let hv = headers_view(req.headers@.take(i + 1));
            assert(hv.drop_last() =~= headers_view(req.headers@.take(i as int)));
            assert(hv.last() == (req.headers@[i as int].0@, req.headers@[i as int].1@));
            assert(c@ =~= head + header_lines(hv));
        }
        i = i + 1;
    }
    assert(req.headers@.take(i as int) =~= req.headers@);
    let ghost mid = c@;
    if req.body.len() > 0 {
        if let Some(f) = body_file {
            c.append("data-binary = \"@");
            c.append(f);
            c.append("\"\n");
        }
    }
    c.append(CONFIG_TAIL);
    c
}

/// The value of the digits `d` as a decimal number.
pub open spec fn decimal_value(d: Seq<char>) -> nat
    decreases d.len(),
{
    if d.len() == 0 {
        0
    } else {
        decimal_value(d.drop_last()) * 10 + (d.last() as nat - 48) as nat
    }
}

pub open spec fn all_digits(d: Seq<char>) -> bool {
    forall|i: int| 0 <= i < d.len() ==> '0' <= #[trigger] d[i] <= '9'
}

/// `s` without leading and trailing white space, as `str::trim` gives it.
pub open spec fn trim_start_at(s: Seq<char>, i: int) -> int
    decreases s.len() - i,
{
    if 0 <= i < s.len() && is_ws(s[i]) {
        trim_start_at(s, i + 1)
    } else {
        i
    }
}

pub open spec fn trim_end_at(s: Seq<char>, j: int, lo: int) -> int
    decreases j - lo,
{
    if lo < j && j <= s.len() && is_ws(s[j - 1]) {
        trim_end_at(s, j - 1, lo)
    } else {
        j
    }
}

pub open spec fn trimmed(s: Seq<char>) -> Seq<char> {
    let a = trim_start_at(s, 0);
    s.subrange(a, trim_end_at(s, s.len() as int, a))
}

/// `str::parse::<u16>` on a text: an optional `+`, then one or more digits
/// whose value fits.
pub open spec fn parse_u16(t: Seq<char>) -> Option<u16> {
    let d = if t.len() > 0 && t[0] == '+' { t.skip(1) } else { t };
    if d.len() > 0 && all_digits(d) && decimal_value(d) <= 65535 {
        Some(decimal_value(d) as u16)
    } else {
        None
    }
}

/// The HTTP status curl wrote out, read as `str::parse` reads it after
/// trimming; 0 when it is not a number.
pub open spec fn spec_status_of(out: Seq<char>) -> u16 {
    match parse_u16(trimmed(out)) {
        Some(v) => v,
        None => 0,
    }
}

proof fn lemma_trim_start(s: Seq<char>, i: int)
    requires
        0 <= i <= s.len(),
    ensures
        i <= trim_start_at(s, i) <= s.len(),
    decreases s.len() - i,
{
    if i < s.len() && is_ws(s[i]) {
        lemma_trim_start(s, i + 1);
    }
}

proof fn lemma_trim_end(s: Seq<char>, j: int, lo: int)
    requires
        0 <= lo <= j <= s.len(),
    ensures
        lo <= trim_end_at(s, j, lo) <= j,
    decreases j,
{
    if lo < j && is_ws(s[j - 1]) {
        lemma_trim_end(s, j - 1, lo);
    }
}

/// Where `str::trim` would cut `s`: the trimmed text is `s[a..b]`.
pub fn trim_bounds(s: &Vec<char>) -> (r: (usize, usize))
    ensures
        r.0 <= r.1 <= s@.len(),
        s@.subrange(r.0 as int, r.1 as int) == trimmed(s@),
{
    let n = s.len();
    let mut a: usize = 0;
    proof {
        lemma_trim_start(s@, 0);
    }
    while a < n && is_whitespace(s[a])
        invariant
            n == s@.len(),
            a <= n,
            trim_start_at(s@, a as int) == trim_start_at(s@, 0),
        decreases n - a,
    {
        a = a + 1;
    }
    let mut b: usize = n;
    proof {
        lemma_trim_end(s@, n as int, a as int);
    }
    while b > a && is_whitespace(s[b - 1])
        invariant
            n == s@.len(),
            a <= b <= n,
            a == trim_start_at(s@, 0),
            trim_end_at(s@, b as int, a as int) == trim_end_at(s@, n as int, a as int),
        decreases b,
    {
        b = b - 1;
    }
    (a, b)
}

/// Read the status code from curl's standard output.
pub fn parse_status(out: &str) -> (st: u16)
    ensures
        st == spec_status_of(out@),
{
    let s = chars_of(out);
    let n = s.len();
    let (a, b) = trim_bounds(&s);
    let ghost t = s@.subrange(a as int, b as int);
    let mut p = a;
    if p < b && s[p] == '+' {
        p = p + 1;
    }
    let ghost d = s@.subrange(p as int, b as int);
    assert(d == if t.len() > 0 && t[0] == '+' { t.skip(1) } else { t });
    if p >= b {
        return 0;
    }
    let mut v: u32 = 0;
    let mut q = p;
    while q < b
        invariant
            n == s@.len(),
            p <= q <= b <= n,
            d == s@.subrange(p as int, b as int),
            s@ == out@,
            d == (if trimmed(s@).len() > 0 && trimmed(s@)[0] == '+' {
                trimmed(s@).skip(1)
            } else {
                trimmed(s@)
            }),
            all_digits(s@.subrange(p as int, q as int)),
            v == decimal_value(s@.subrange(p as int, q as int)),
            v <= 65535,
        decreases b - q,
    {
        let c = s[q];
        if c < '0' || c > '9' {
            assert(!all_digits(d)) by {
                assert(d[q - p] == c);
            }
            return 0;
        }
        let dv = (c as u32) - 48;
        assert(s@.subrange(p as int, q + 1).drop_last() =~= s@.subrange(p as int, q as int));
        let nv = v * 10 + dv;
        if nv > 65535 {
            proof {
                if all_digits(d) {
                    assert(s@.subrange(p as int, q + 1) =~= d.subrange(0, q + 1 - p));
                    lemma_decimal_grows(d, s@.subrange(p as int, q + 1));
                }
            }
            return 0;
        }
        v = nv;
        q = q + 1;
    }
    assert(s@.subrange(p as int, q as int) =~= d);
    v as u16
}

/// A longer run of digits is worth at least as much as its start.
pub proof fn lemma_decimal_grows(d: Seq<char>, pre: Seq<char>)
    requires
        pre.is_prefix_of(d),
        all_digits(d),
    ensures
        decimal_value(pre) <= decimal_value(d),
    decreases d.len(),
{
    if pre.len() < d.len() {
        assert(pre.is_prefix_of(d.drop_last())) by {
            assert(pre =~= d.drop_last().subrange(0, pre.len() as int));
        }
        lemma_decimal_grows(d.drop_last(), pre);
    } else {
        assert(pre =~= d);
    }
}

} // verus!
