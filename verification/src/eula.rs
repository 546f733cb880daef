//! The end user licence agreement: NYEDArch is not used until it is
//! explicitly accepted. Here are the text, the paragraphs an interface
//! renders, the record of an acceptance and the decisions on it; reading and
//! writing the authenticated record on disk is the program's part.
use vstd::prelude::*;
use crate::artifact::lower;
use crate::curl::{trim_bounds, trimmed};
use crate::scan::{find_chars, find_from, lemma_find_from, occurs_at};
use crate::text::{chars_of, is_word};

verus! {

/// The agreement version an acceptance must name to count.
pub const EULA_VERSION: &'static str = "1.0";

/// What was accepted, when, by which build, on which machine.
#[derive(Debug)]
pub struct Acceptance {
    pub eula_version: String,
    pub accepted_unix: i64,
    pub app_version: String,
    /// Opaque local machine reference (digest, never raw identifiers).
    pub machine_ref: String,
}

impl Acceptance {
    /// An acceptance counts only for the current agreement version.
    pub fn is_current(&self) -> (r: bool)
        ensures
            r == (self.eula_version@ == EULA_VERSION@),
    {
        let current = String::from_str(EULA_VERSION);
        self.eula_version == current
    }
}

/// The operator's answer accepts the agreement: `accept`, in any case, with
/// white space around it.
pub fn accepts(answer: &str) -> (r: bool)
    ensures
        r == (lower(trimmed(answer@)) == "accept"@),
{
    let c = chars_of(answer);
    let (a, b) = trim_bounds(&c);
    let mut l: Vec<char> = Vec::new();
    let mut i: usize = a;
    while i < b
        invariant
            a <= i <= b <= c@.len(),
            l@ == lower(c@.subrange(a as int, i as int)),
        decreases b - i,
    {
        let ch = c[i];
        let x = if 'A' <= ch && ch <= 'Z' {
            ((ch as u8) + 32) as char
        } else {
            ch
        };
        l.push(x);
        assert(l@ =~= lower(c@.subrange(a as int, i + 1)));
        i = i + 1;
    }
    is_word(&l, "accept")
}

/// The text shown before acceptance.
pub fn summary() -> (r: &'static str)
    ensures
        r@ == SUMMARY@,
{
    SUMMARY
}

pub const SUMMARY: &'static str = "\
  NYEDArch collects system information (firmware/platform identifiers, OS install
  identity, CPU/host details) to build a machine fingerprint. Some of this is
  sensitive. Only salted digests are stored; raw identifiers never are.

  If you use the remote build feature, NYEDArch operates a repository in YOUR
  GitHub account. Private is recommended and default; a PUBLIC repository
  exposes your generated runtime source and build logs to anyone.

  Private key material is stored in your platform's secure storage. LOSS OF KEY
  MATERIAL MAY MAKE PREVIOUSLY GENERATED CAPSULES PERMANENTLY UNRECOVERABLE.
  There is no recovery mechanism and no backdoor.

  The location protection requests your location with permission and rejects readings
  less accurate than your tolerance. The time protection uses the LOCAL SYSTEM CLOCK,
  which whoever controls the machine can change; it is a recurring policy
  control, not a tamper-proof expiry.

  One-shot destruction is best effort. SOFTWARE CANNOT GUARANTEE SECURE
  DELETION on SSDs or copy-on-write filesystems.

  NYEDArch raises the cost of unauthorized access. It is NOT unbreakable and does
  NOT provide absolute security. You are responsible for lawful use, for your
  passphrase, and for keeping independent backups.

  Full text: docs/EULA.md";

/// A trimmed piece, kept when it is not empty.
pub open spec fn kept(t: Seq<char>) -> Seq<Seq<char>> {
    if t.len() > 0 {
        seq![t]
    } else {
        seq![]
    }
}

/// The pieces of `s` from `start` on, as `split("\n\n")` cuts them, each
/// trimmed, the empty ones left out.
pub open spec fn paragraphs_from(s: Seq<char>, start: int) -> Seq<Seq<char>>
    decreases s.len() - start,
{
    match find_from(s, "\n\n"@, start) {
        Some(i) => if start <= i && i + 2 <= s.len() {
            kept(trimmed(s.subrange(start, i))) + paragraphs_from(s, i + 2)
        } else {
            kept(trimmed(s.subrange(start, s.len() as int)))
        },
        None => kept(trimmed(s.subrange(start, s.len() as int))),
    }
}

pub open spec fn paragraphs(s: Seq<char>) -> Seq<Seq<char>> {
    paragraphs_from(s, 0)
}

pub open spec fn strs(v: Seq<&str>) -> Seq<Seq<char>> {
    v.map_values(|t: &str| t@)
}

fn copy_range(c: &Vec<char>, a: usize, b: usize) -> (r: Vec<char>)
    requires
        a <= b <= c@.len(),
    ensures
        r@ == c@.subrange(a as int, b as int),
{
    let mut r: Vec<char> = Vec::new();
    let mut i = a;
    while i < b
        invariant
            a <= i <= b <= c@.len(),
            r@ == c@.subrange(a as int, i as int),
        decreases b - i,
    {
        r.push(c[i]);
        assert(r@ =~= c@.subrange(a as int, i + 1));
        i = i + 1;
    }
    r
}

/// The paragraph of `text` between `start` and `end`, trimmed, if it is not
/// empty.
fn paragraph(text: &'static str, c: &Vec<char>, start: usize, end: usize) -> (r: Option<&'static str>)
    requires
        c@ == text@,
        start <= end <= c@.len(),
    ensures
        match r {
            Some(t) => kept(trimmed(c@.subrange(start as int, end as int))) == seq![t@],
            None => kept(trimmed(c@.subrange(start as int, end as int))) == Seq::<Seq<char>>::empty(),
        },
{
    let piece = copy_range(c, start, end);
    let (a, b) = trim_bounds(&piece);
    if a == b {
        return None;
    }
    let t = text.substring_char(start + a, start + b);
    assert(t@ =~= trimmed(c@.subrange(start as int, end as int)));
    Some(t)
}

/// The disclosures, as a list of paragraphs, for an interface to render.
pub fn disclosures() -> (r: Vec<&'static str>)
    ensures
        strs(r@) == paragraphs(SUMMARY@),
{
    let text = summary();
    let c = chars_of(text);
    let sep = chars_of("\n\n");
    proof {
        reveal_strlit("\n\n");
    }
    let mut out: Vec<&'static str> = Vec::new();
    let mut start: usize = 0;
    loop
        invariant
            c@ == text@,
            text@ == SUMMARY@,
            sep@ == "\n\n"@,
            sep@.len() == 2,
            start <= c@.len(),
            strs(out@) + paragraphs_from(c@, start as int) == paragraphs(SUMMARY@),
        decreases c@.len() - start,
    {
        let ghost before = out@;
        let n = c.len();
        match find_chars(&c, &sep, start) {
            Some(i) => {
                proof {
                    lemma_find_from(c@, sep@, start as int);
                    match find_from(c@, sep@, start as int) {
                        Some(j) => {
                            assert(occurs_at(c@, sep@, j));
                            assert(0 <= j <= n);
                            assert(j as usize == i);
                            assert(j == i);
                        },
                        None => {},
                    }
                    assert(sep@.len() == 2);
                    assert(occurs_at(c@, sep@, i as int));
                }
                let p = paragraph(text, &c, start, i);
                if let Some(t) = p {
                    out.push(t);
                }
                proof {
                    assert(strs(out@) =~= strs(before) + kept(trimmed(c@.subrange(start as int, i as int))));
                    assert(strs(out@) + paragraphs_from(c@, i + 2) =~= strs(before) + paragraphs_from(c@, start as int));
                }
                start = i + 2;
            },
            None => {
                let p = paragraph(text, &c, start, c.len());
                if let Some(t) = p {
                    out.push(t);
                }
                proof {
                    assert(strs(out@) =~= strs(before) + paragraphs_from(c@, start as int));
                    assert(strs(out@) =~= strs(out@) + Seq::<Seq<char>>::empty());
                }
                return out;
            },
        }
    }
}

} // verus!
