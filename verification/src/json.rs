//! Minimal readers for the JSON bodies GitHub returns. They look for a field
//! by its quoted name and read what follows; they never allocate more than
//! the body they read.
use vstd::prelude::*;
use vstd::utf8::{valid_utf8, decode_utf8};
use crate::scan::{find_from, lemma_find_from, find_chars, find_char, find_char_exec, skip_ws, is_ws, skip_whitespace, number_at, number_at_exec};
use crate::text::chars_of;
use crate::http::GhError;

verus! {

/// What `String::from_utf8_lossy` makes of some bytes.
pub uninterp spec fn lossy_text(b: Seq<u8>) -> Seq<char>;

/// `String::from_utf8_lossy`: replaces each invalid sequence with U+FFFD.
/// Claimed: the result is a function of the bytes alone, and for valid UTF-8
/// it is exactly the decoded text. What it does with invalid input beyond
/// that is left unsaid.
#[verifier::external_body]
pub fn text_lossy(b: &[u8]) -> (s: String)
    ensures
        s@ == lossy_text(b@),
        valid_utf8(b@) ==> s@ == decode_utf8(b@),
{
    String::from_utf8_lossy(b).into_owned()
}

/// `core::str::from_utf8`: the text when the bytes are valid UTF-8.
#[verifier::external_body]
pub fn utf8_text(b: &[u8]) -> (r: Option<String>)
    ensures
        match r {
            Some(s) => valid_utf8(b@) && s@ == decode_utf8(b@),
            None => !valid_utf8(b@),
        },
{
    match core::str::from_utf8(b) {
        Ok(s) => Some(s.to_owned()),
        Err(_) => None,
    }
}

pub open spec fn opt_text(o: Option<String>) -> Option<Seq<char>> {
    match o {
        Some(s) => Some(s@),
        None => None,
    }
}

/// A copy of `h[a..b]`.
pub fn subvec(h: &Vec<char>, a: usize, b: usize) -> (r: Vec<char>)
    requires
        a <= b <= h@.len(),
    ensures
        r@ == h@.subrange(a as int, b as int),
{
    let mut r: Vec<char> = Vec::new();
    let mut i = a;
    while i < b
        invariant
            a <= i <= b <= h@.len(),
            r@ == h@.subrange(a as int, i as int),
        decreases b - i,
    {
        r.push(h[i]);
        assert(h@.subrange(a as int, i + 1) =~= h@.subrange(a as int, i as int).push(h@[i as int]));
        i = i + 1;
    }
    r
}

/// `"field"`, quoted.
pub open spec fn quoted(field: Seq<char>) -> Seq<char> {
    seq!['"'] + field + seq!['"']
}

/// The string value of `field` in JSON text `s`: after the first `"field"`,
/// the next `:`, white space, then a quoted string without escapes.
pub open spec fn spec_json_str(s: Seq<char>, field: Seq<char>) -> Option<Seq<char>> {
    match find_from(s, quoted(field), 0) {
        None => None,
        Some(i) => {
            let a = i + field.len() + 2;
            match find_char(s, ':', a) {
                None => None,
                Some(c) => {
                    let b = skip_ws(s, c + 1);
                    if b < s.len() && s[b] == '"' {
                        match find_char(s, '"', b + 1) {
                            Some(e) => Some(s.subrange(b + 1, e)),
                            None => None,
                        }
                    } else {
                        None
                    }
                },
            }
        },
    }
}

/// The field of a body that is valid UTF-8; nothing for any other body.
pub open spec fn spec_body_json_str(body: Seq<u8>, field: Seq<char>) -> Option<Seq<char>> {
    if valid_utf8(body) {
        spec_json_str(decode_utf8(body), field)
    } else {
        None
    }
}

pub proof fn lemma_find_char_bound(h: Seq<char>, c: char, from: int)
    requires
        0 <= from,
    ensures
        match find_char(h, c, from) {
            Some(i) => from <= i < h.len() && h[i] == c,
            None => true,
        },
    decreases h.len() - from,
{
    if from < h.len() && h[from] != c {
        lemma_find_char_bound(h, c, from + 1);
    }
}

proof fn lemma_skip_ws_bound(h: Seq<char>, from: int)
    requires
        0 <= from <= h.len(),
    ensures
        from <= skip_ws(h, from) <= h.len(),
    decreases h.len() - from,
{
    if from < h.len() && is_ws(h[from]) {
        lemma_skip_ws_bound(h, from + 1);
    }
}

/// Read `"field":"value"` from a body.
pub fn json_str(body: &[u8], field: &str) -> (r: Option<String>)
    ensures
        opt_text(r) == spec_body_json_str(body@, field@),
{
    let text = match utf8_text(body) {
        Some(t) => t,
        None => return None,
    };
    let s = chars_of(text.as_str());
    let mut q = String::from_str("\"");
    q.append(field);
    q.append("\"");
    proof {
        reveal_strlit("\"");
    }
    let pat = chars_of(q.as_str());
    assert(pat@ =~= quoted(field@));
    let i = match find_chars(&s, &pat, 0) {
        Some(i) => i,
        None => return None,
    };
    proof {
        lemma_find_from(s@, pat@, 0);
    }
    let a = i + pat.len();
    let c = match find_char_exec(&s, ':', a) {
        Some(c) => c,
        None => return None,
    };
    proof {
        lemma_find_char_bound(s@, ':', a as int);
        lemma_skip_ws_bound(s@, c + 1);
    }
    let b = skip_whitespace(&s, c + 1);
    if b < s.len() && s[b] == '"' {
        match find_char_exec(&s, '"', b + 1) {
            Some(e) => {
                proof {
                    lemma_find_char_bound(s@, '"', b + 1);
                }
                let v = text.as_str().substring_char(b + 1, e);
                Some(v.to_owned())
            },
            None => None,
        }
    } else {
        None
    }
}

pub open spec fn id_pat() -> Seq<char> {
    seq!['"', 'i', 'd', '"', ':']
}

pub open spec fn name_pat() -> Seq<char> {
    seq!['"', 'n', 'a', 'm', 'e', '"', ':', '"']
}

/// Every run id in a listing, read from position `pos` on: each `"id":`
/// followed by a decimal number that fits in a `u64`.
pub open spec fn ids_from(h: Seq<char>, pos: int) -> Set<u64>
    decreases h.len() - pos,
{
    if pos < 0 {
        Set::empty()
    } else {
        match find_from(h, id_pat(), pos) {
            None => Set::empty(),
            Some(i) => {
                proof {
                    lemma_find_from(h, id_pat(), pos);
                }
                let rest = ids_from(h, i + 5);
                match number_at(h, i + 5) {
                    Some(v) => rest.insert(v),
                    None => rest,
                }
            },
        }
    }
}

pub open spec fn strictly_increasing(v: Seq<u64>) -> bool {
    forall|i: int, j: int| 0 <= i < j < v.len() ==> v[i] < v[j]
}

/// Insert into a strictly increasing vector, keeping it so.
pub fn insert_sorted(v: &mut Vec<u64>, x: u64)
    requires
        strictly_increasing(old(v)@),
    ensures
        strictly_increasing(final(v)@),
        final(v)@.to_set() == old(v)@.to_set().insert(x),
{
    let mut i: usize = 0;
    while i < v.len() && v[i] < x
        invariant
            i <= v@.len(),
            v@ == old(v)@,
            forall|j: int| 0 <= j < i ==> v@[j] < x,
        decreases v@.len() - i,
    {
        i = i + 1;
    }
    if i < v.len() && v[i] == x {
        assert(v@.to_set().insert(x) =~= v@.to_set()) by {
            assert(v@.to_set().contains(v@[i as int]));
        }
        return;
    }
    let ghost before = v@;
    v.insert(i, x);
    assert(v@ =~= before.subrange(0, i as int).push(x) + before.subrange(i as int, before.len() as int));
    assert(v@.to_set() =~= before.to_set().insert(x)) by {
        assert forall|y: u64| v@.to_set().contains(y) implies before.to_set().insert(x).contains(y) by {
            let k = choose|k: int| 0 <= k < v@.len() && v@[k] == y;
            if k < i {
                assert(before[k] == y);
            } else if k > i {
                assert(before[k - 1] == y);
            }
        }
        assert forall|y: u64| before.to_set().insert(x).contains(y) implies v@.to_set().contains(y) by {
            if y == x {
                assert(v@[i as int] == x);
            } else {
                let k = choose|k: int| 0 <= k < before.len() && before[k] == y;
                if k < i {
                    assert(v@[k] == y);
                } else {
                    assert(v@[k + 1] == y);
                }
            }
        }
    }
}

/// Every run id in a runs listing, ascending and without repeats.
///
/// A run is new when its id was not present before dispatch; a listing that
/// failed is an empty set, which matches nothing.
pub fn run_ids(body: &[u8]) -> (r: Vec<u64>)
    ensures
        strictly_increasing(r@),
        r@.to_set() == ids_from(lossy_text(body@), 0),
{
    let text = text_lossy(body);
    let h = chars_of(text.as_str());
    let pat: Vec<char> = vec!['"', 'i', 'd', '"', ':'];
    assert(pat@ =~= id_pat());
    let mut out: Vec<u64> = Vec::new();
    let mut pos: usize = 0;
    assert(out@.to_set() =~= Set::<u64>::empty());
    while pos <= h.len()
        invariant
            h@ == lossy_text(body@),
            pat@ == id_pat(),
            pos <= h@.len() + 5,
            strictly_increasing(out@),
            ids_from(h@, 0) == out@.to_set().union(ids_from(h@, pos as int)),
        decreases h@.len() + 5 - pos,
    {
        match find_chars(&h, &pat, pos) {
            None => {
                assert(ids_from(h@, pos as int) == Set::<u64>::empty());
                assert(out@.to_set().union(Set::<u64>::empty()) =~= out@.to_set());
                return out;
            },
            Some(i) => {
                proof {
                    lemma_find_from(h@, pat@, pos as int);
                }
                let a = i + 5;
                let ghost prev = out@.to_set();
                match number_at_exec(&h, a) {
                    Some(v) => {
                        insert_sorted(&mut out, v);
                        assert(prev.union(ids_from(h@, pos as int)) =~= out@.to_set().union(ids_from(h@, a as int)));
                    },
                    None => {},
                }
                pos = a;
            },
        }
    }
    assert(ids_from(h@, pos as int) == Set::<u64>::empty());
    assert(out@.to_set().union(Set::<u64>::empty()) =~= out@.to_set());
    out
}

} // verus!

verus! {

/// The text after `"name":"` (from position `a` on), up to the next quote.
pub open spec fn name_at(h: Seq<char>, a: int) -> Seq<char> {
    match find_from(h, name_pat(), a) {
        Some(j) => match find_char(h, '"', j + 8) {
            Some(e) => h.subrange(j + 8, e),
            None => h.subrange(j + 8, h.len() as int),
        },
        None => Seq::empty(),
    }
}

/// Every `(id, name)` pair in an artifacts listing, in listing order.
pub open spec fn artifacts_from(h: Seq<char>, pos: int) -> Seq<(u64, Seq<char>)>
    decreases h.len() - pos,
{
    if pos < 0 {
        Seq::empty()
    } else {
        match find_from(h, id_pat(), pos) {
            None => Seq::empty(),
            Some(i) => {
                proof {
                    lemma_find_from(h, id_pat(), pos);
                }
                let tail = artifacts_from(h, i + 5);
                match number_at(h, i + 5) {
                    Some(v) => seq![(v, name_at(h, i + 5))] + tail,
                    None => tail,
                }
            },
        }
    }
}

pub open spec fn pairs_text(v: Seq<(u64, String)>) -> Seq<(u64, Seq<char>)> {
    v.map_values(|p: (u64, String)| (p.0, p.1@))
}

fn name_at_exec(text: &str, h: &Vec<char>, a: usize) -> (r: String)
    requires
        text@ == h@,
    ensures
        r@ == name_at(h@, a as int),
{
    let pat: Vec<char> = vec!['"', 'n', 'a', 'm', 'e', '"', ':', '"'];
    assert(pat@ =~= name_pat());
    let hl = h.len();
    match find_chars(h, &pat, a) {
        Some(j) => {
            proof {
                lemma_find_from(h@, pat@, a as int);
                lemma_find_char_bound(h@, '"', j + 8);
            }
            assert(j + 8 <= hl);
            let s = j + 8;
            match find_char_exec(h, '"', s) {
                Some(e) => text.substring_char(s, e).to_owned(),
                None => text.substring_char(s, h.len()).to_owned(),
            }
        },
        None => String::new(),
    }
}

/// Every `(id, name)` pair in an artifacts listing.
///
/// The listing is ordered by GitHub, not by the client, so callers pick an
/// artifact by name rather than by position.
pub fn artifact_list(text: &str) -> (r: Vec<(u64, String)>)
    ensures
        pairs_text(r@) == artifacts_from(text@, 0),
{
    let h = chars_of(text);
    let pat: Vec<char> = vec!['"', 'i', 'd', '"', ':'];
    assert(pat@ =~= id_pat());
    let mut out: Vec<(u64, String)> = Vec::new();
    let mut pos: usize = 0;
    while pos <= h.len()
        invariant
            h@ == text@,
            pat@ == id_pat(),
            pos <= h@.len() + 5,
            artifacts_from(h@, 0) == pairs_text(out@) + artifacts_from(h@, pos as int),
        decreases h@.len() + 5 - pos,
    {
        match find_chars(&h, &pat, pos) {
            None => {
                assert(pairs_text(out@) + artifacts_from(h@, pos as int) =~= pairs_text(out@));
                return out;
            },
            Some(i) => {
                proof {
                    lemma_find_from(h@, pat@, pos as int);
                }
                let a = i + 5;
                match number_at_exec(&h, a) {
                    Some(v) => {
                        let name = name_at_exec(text, &h, a);
                        let ghost before = out@;
                        out.push((v, name));
                        assert(pairs_text(out@) =~= pairs_text(before) + seq![(v, name_at(h@, a as int))]);
                    },
                    None => {},
                }
                pos = a;
            },
        }
    }
    assert(pairs_text(out@) + artifacts_from(h@, pos as int) =~= pairs_text(out@));
    out
}

pub open spec fn sep_pat() -> Seq<char> {
    seq!['{', '"', 'p', 'a', 't', 'h', '"', ':']
}

pub open spec fn sha_pat() -> Seq<char> {
    seq!['"', 's', 'h', 'a', '"', ':', '"']
}

pub open spec fn blob_type_pat() -> Seq<char> {
    seq!['"', 't', 'y', 'p', 'e', '"', ':', '"', 'b', 'l', 'o', 'b', '"']
}

/// The `(path, sha)` of one tree entry, when the entry is a blob.
pub open spec fn blob_of(c: Seq<char>) -> Seq<(Seq<char>, Seq<char>)> {
    if c.len() > 0 && c[0] == '"' {
        match find_char(c, '"', 1) {
            None => Seq::empty(),
            Some(end) => {
                if find_from(c, blob_type_pat(), 0) is Some {
                    match find_from(c, sha_pat(), 0) {
                        Some(i) => match find_char(c, '"', i + 7) {
                            Some(e) => seq![(c.subrange(1, end), c.subrange(i + 7, e))],
                            None => Seq::empty(),
                        },
                        None => Seq::empty(),
                    }
                } else {
                    Seq::empty()
                }
            },
        }
    } else {
        Seq::empty()
    }
}

/// The chunks of `h` from `start` on, split at each `{"path":`, and the
/// blobs they describe.
pub open spec fn blobs_from(h: Seq<char>, start: int) -> Seq<(Seq<char>, Seq<char>)>
    decreases h.len() - start,
{
    if start < 0 || start > h.len() {
        Seq::empty()
    } else {
        match find_from(h, sep_pat(), start) {
            Some(x) => {
                proof {
                    lemma_find_from(h, sep_pat(), start);
                }
                blob_of(h.subrange(start, x)) + blobs_from(h, x + 8)
            },
            None => blob_of(h.subrange(start, h.len() as int)),
        }
    }
}

pub open spec fn string_pairs(v: Seq<(String, String)>) -> Seq<(Seq<char>, Seq<char>)> {
    v.map_values(|p: (String, String)| (p.0@, p.1@))
}

fn blob_of_exec(text: &str, h: &Vec<char>, start: usize, end: usize) -> (r: Vec<(String, String)>)
    requires
        text@ == h@,
        start <= end <= h@.len(),
    ensures
        string_pairs(r@) == blob_of(h@.subrange(start as int, end as int)),
{
    let c = subvec(h, start, end);
    let mut out: Vec<(String, String)> = Vec::new();
    if c.len() > 0 && c[0] == '"' {
        let p_end = match find_char_exec(&c, '"', 1) {
            Some(e) => e,
            None => return out,
        };
        proof {
            lemma_find_char_bound(c@, '"', 1);
        }
        let ty: Vec<char> = vec!['"', 't', 'y', 'p', 'e', '"', ':', '"', 'b', 'l', 'o', 'b', '"'];
        assert(ty@ =~= blob_type_pat());
        if find_chars(&c, &ty, 0).is_none() {
            return out;
        }
        let sp: Vec<char> = vec!['"', 's', 'h', 'a', '"', ':', '"'];
        assert(sp@ =~= sha_pat());
        let i = match find_chars(&c, &sp, 0) {
            Some(i) => i,
            None => return out,
        };
        proof {
            lemma_find_from(c@, sp@, 0);
            lemma_find_char_bound(c@, '"', i + 7);
        }
        let e = match find_char_exec(&c, '"', i + 7) {
            Some(e) => e,
            None => return out,
        };
        let path = text.substring_char(start + 1, start + p_end).to_owned();
        let sha = text.substring_char(start + i + 7, start + e).to_owned();
        assert(path@ =~= c@.subrange(1, p_end as int));
        assert(sha@ =~= c@.subrange(i + 7, e as int));
        out.push((path, sha));
        assert(string_pairs(out@) =~= blob_of(c@));
    } else {
        assert(string_pairs(out@) =~= blob_of(c@));
    }
    out
}

/// `(path, sha)` for every blob in a git tree response. Directories are not
/// deletable objects and are not listed.
pub fn tree_blobs(text: &str) -> (r: Vec<(String, String)>)
    ensures
        string_pairs(r@) == blobs_from(text@, 0),
{
    let h = chars_of(text);
    let sep: Vec<char> = vec!['{', '"', 'p', 'a', 't', 'h', '"', ':'];
    assert(sep@ =~= sep_pat());
    let mut out: Vec<(String, String)> = Vec::new();
    let mut start: usize = 0;
    let hl = h.len();
    loop
        invariant
            hl == h@.len(),
            h@ == text@,
            sep@ == sep_pat(),
            start <= h@.len(),
            blobs_from(h@, 0) == string_pairs(out@) + blobs_from(h@, start as int),
        decreases h@.len() - start,
    {
        match find_chars(&h, &sep, start) {
            Some(x) => {
                proof {
                    lemma_find_from(h@, sep@, start as int);
                }
                let b = blob_of_exec(text, &h, start, x);
                let ghost before = out@;
                let mut b2 = b;
                out.append(&mut b2);
                assert(string_pairs(out@) =~= string_pairs(before) + blob_of(h@.subrange(start as int, x as int)));
                start = x + 8;
            },
            None => {
                let b = blob_of_exec(text, &h, start, h.len());
                let ghost before = out@;
                let mut b2 = b;
                out.append(&mut b2);
                assert(string_pairs(out@) =~= string_pairs(before) + blob_of(h@.subrange(start as int, h@.len() as int)));
                return out;
            },
        }
    }
}

pub open spec fn errors_pat() -> Seq<char> {
    seq!['"', 'e', 'r', 'r', 'o', 'r', 's', '"']
}

/// At most 240 characters of the text from the first `"errors"` on.
pub open spec fn errors_extract(t: Seq<char>) -> Seq<char> {
    match find_from(t, errors_pat(), 0) {
        Some(i) => t.subrange(i, if i + 240 < t.len() { i + 240 } else { t.len() as int }),
        None => Seq::empty(),
    }
}

pub const NO_MESSAGE: &'static str = "no message";

/// GitHub's own explanation of a refusal: its `message`, and the start of its
/// `errors` array when there is one.
pub open spec fn detail_text(body: Seq<u8>) -> Seq<char> {
    let msg = match spec_body_json_str(body, "message"@) {
        Some(m) => m,
        None => NO_MESSAGE@,
    };
    let extra = errors_extract(lossy_text(body));
    if extra.len() == 0 {
        msg
    } else {
        msg + " | "@ + extra
    }
}

/// Pull GitHub's explanation out of an error body.
pub fn detail(status: u16, body: &[u8]) -> (e: GhError)
    ensures
        e matches GhError::StatusDetail(s, t) && s == status && t@ == detail_text(body@),
{
    let text = text_lossy(body);
    let msg = match json_str(body, "message") {
        Some(m) => m,
        None => String::from_str(NO_MESSAGE),
    };
    let h = chars_of(text.as_str());
    let ep: Vec<char> = vec!['"', 'e', 'r', 'r', 'o', 'r', 's', '"'];
    assert(ep@ =~= errors_pat());
    let extra = match find_chars(&h, &ep, 0) {
        Some(i) => {
            proof {
                lemma_find_from(h@, ep@, 0);
            }
            let end = if h.len() - i > 240 { i + 240 } else { h.len() };
            text.as_str().substring_char(i, end).to_owned()
        },
        None => String::new(),
    };
    if extra.as_str().unicode_len() == 0 {
        GhError::StatusDetail(status, msg)
    } else {
        let mut m = msg;
        m.append(" | ");
        m.append(extra.as_str());
        GhError::StatusDetail(status, m)
    }
}

} // verus!
