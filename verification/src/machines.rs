//! The trusted machine registry: which machines a capsule will trust, and
//! how the operator picks them. Records live as authenticated files, one per
//! machine; this module holds the selection rules over the records read.
//! The machine the client runs on is always trusted: a capsule always
//! includes its creator, so no filter hides it.
use vstd::prelude::*;
use crate::artifact::lower;
use crate::curl::{trimmed, trim_bounds};
use crate::orchestrator::{mentions, texts, char_vecs};
use crate::scan::find_chars;
use crate::text::{chars_of, decimal, decimal_string};

verus! {

/// One trusted machine.
pub struct Machine {
    /// Opaque fingerprint id, hex; never a raw hardware identifier.
    pub id: String,
    pub labels: Vec<String>,
    /// Where the authenticated record lives; empty when it is not stored.
    pub path: String,
    /// True for the machine this client is running on.
    pub is_this_machine: bool,
}

/// How multiple selected tags combine.
#[derive(Clone, Copy, Debug, PartialEq, Eq, Structural)]
pub enum TagMode {
    /// A machine matches if it carries any selected tag.
    Any,
    /// A machine matches only if it carries all selected tags.
    All,
}

impl TagMode {
    /// `any` or `all`, in any case.
    pub fn parse(s: &str) -> (r: Option<TagMode>)
        ensures
            r == (if lower(s@) == "any"@ {
                Some(TagMode::Any)
            } else if lower(s@) == "all"@ {
                Some(TagMode::All)
            } else {
                None
            }),
    {
        let l = lower_str(s);
        let any: Vec<char> = vec!['a', 'n', 'y'];
        let all: Vec<char> = vec!['a', 'l', 'l'];
        proof {
            reveal_strlit("any");
            reveal_strlit("all");
        }
        assert(any@ =~= "any"@);
        assert(all@ =~= "all"@);
        if same_chars(&l, &any) {
            Some(TagMode::Any)
        } else if same_chars(&l, &all) {
            Some(TagMode::All)
        } else {
            None
        }
    }
}

fn lower_str(s: &str) -> (r: Vec<char>)
    ensures
        r@ == lower(s@),
{
    let c = chars_of(s);
    lower_vec(&c)
}

fn lower_vec(c: &Vec<char>) -> (r: Vec<char>)
    ensures
        r@ == lower(c@),
{
    let mut r: Vec<char> = Vec::new();
    let mut i: usize = 0;
    while i < c.len()
        invariant
            i <= c@.len(),
            r@ == lower(c@.take(i as int)),
        decreases c@.len() - i,
    {
        let ch = c[i];
        let l = if 'A' <= ch && ch <= 'Z' {
            ((ch as u8) + 32) as char
        } else {
            ch
        };
        r.push(l);
        assert(r@ =~= lower(c@.take(i + 1)));
        i = i + 1;
    }
    assert(c@.take(i as int) =~= c@);
    r
}

fn same_chars(a: &Vec<char>, b: &Vec<char>) -> (r: bool)
    ensures
        r == (a@ == b@),
{
    if a.len() != b.len() {
        return false;
    }
    let mut i: usize = 0;
    while i < a.len()
        invariant
            a@.len() == b@.len(),
            i <= a@.len(),
            forall|j: int| 0 <= j < i ==> a@[j] == b@[j],
        decreases a@.len() - i,
    {
        if a[i] != b[i] {
            return false;
        }
        i = i + 1;
    }
    assert(a@ =~= b@);
    true
}

pub fn starts_with_chars(s: &Vec<char>, p: &Vec<char>) -> (r: bool)
    ensures
        r == p@.is_prefix_of(s@),
{
    if p.len() > s.len() {
        return false;
    }
    let mut i: usize = 0;
    while i < p.len()
        invariant
            p@.len() <= s@.len(),
            i <= p@.len(),
            forall|j: int| 0 <= j < i ==> s@[j] == p@[j],
        decreases p@.len() - i,
    {
        if s[i] != p[i] {
            return false;
        }
        i = i + 1;
    }
    true
}

/// A machine's id, labels, record path and whether it is this machine.
pub open spec fn machine_view(m: Machine) -> (Seq<char>, Seq<Seq<char>>, Seq<char>, bool) {
    (m.id@, texts(m.labels@), m.path@, m.is_this_machine)
}

pub open spec fn machines_view(v: Seq<Machine>) -> Seq<(Seq<char>, Seq<Seq<char>>, Seq<char>, bool)> {
    v.map_values(|m: Machine| machine_view(m))
}

/// The labels of a machine, in lower case.
pub open spec fn lower_labels(labels: Seq<Seq<char>>) -> Seq<Seq<char>> {
    labels.map_values(|l: Seq<char>| lower(l))
}

/// The free text matches: it is empty, starts the id, or occurs in a label,
/// ignoring case.
pub open spec fn text_matches(id: Seq<char>, labels: Seq<Seq<char>>, q: Seq<char>) -> bool {
    ||| q.len() == 0
    ||| q.is_prefix_of(lower(id))
    ||| exists|k: int| 0 <= k < labels.len() && mentions(#[trigger] lower_labels(labels)[k], q)
}

/// The machine carries tag `t` (already in lower case).
pub open spec fn carries(labels: Seq<Seq<char>>, t: Seq<char>) -> bool {
    lower_labels(labels).contains(t)
}

/// The tags match: none were selected, or the machine carries any (`Any`)
/// or all (`All`) of them.
pub open spec fn tags_match(labels: Seq<Seq<char>>, want: Seq<Seq<char>>, mode: TagMode) -> bool {
    want.len() == 0 || match mode {
        TagMode::Any => exists|k: int| 0 <= k < want.len() && carries(labels, #[trigger] want[k]),
        TagMode::All => forall|k: int| 0 <= k < want.len() ==> carries(labels, #[trigger] want[k]),
    }
}

/// A machine is selected when it is this machine, or when both the text and
/// the tags match.
pub open spec fn selected(
    m: (Seq<char>, Seq<Seq<char>>, Seq<char>, bool),
    q: Seq<char>,
    want: Seq<Seq<char>>,
    mode: TagMode,
) -> bool {
    m.3 || (text_matches(m.0, m.1, q) && tags_match(m.1, want, mode))
}

/// The machines that `selected` keeps, in order.
pub open spec fn selection(
    ms: Seq<(Seq<char>, Seq<Seq<char>>, Seq<char>, bool)>,
    q: Seq<char>,
    want: Seq<Seq<char>>,
    mode: TagMode,
) -> Seq<(Seq<char>, Seq<Seq<char>>, Seq<char>, bool)>
    decreases ms.len(),
{
    if ms.len() == 0 {
        Seq::empty()
    } else {
        let r = selection(ms.drop_last(), q, want, mode);
        if selected(ms.last(), q, want, mode) {
            r.push(ms.last())
        } else {
            r
        }
    }
}

/// The query as matching uses it: trimmed and in lower case.
pub open spec fn query_key(query: Seq<char>) -> Seq<char> {
    lower(trimmed(query))
}

/// The selected tags as matching uses them: in lower case.
pub open spec fn tag_keys(tags: Seq<String>) -> Seq<Seq<char>> {
    tags.map_values(|t: String| lower(t@))
}

fn clone_machine(m: &Machine) -> (r: Machine)
    ensures
        machine_view(r) == machine_view(*m),
{
    let mut labels: Vec<String> = Vec::new();
    let mut i: usize = 0;
    while i < m.labels.len()
        invariant
            i <= m.labels@.len(),
            texts(labels@) == texts(m.labels@.take(i as int)),
        decreases m.labels@.len() - i,
    {
        let ghost before = labels@;
        let c = m.labels[i].clone();
        labels.push(c);
        assert(texts(labels@) =~= texts(m.labels@.take(i + 1))) by {
            assert(labels@ =~= before.push(c));
            assert(before.len() == i) by {
                assert(texts(before).len() == before.len());
            }
            assert forall|j: int| 0 <= j < i + 1 implies #[trigger] texts(labels@)[j] == texts(m.labels@.take(i + 1))[j] by {
                if j < i {
                    assert(texts(before)[j] == texts(m.labels@.take(i as int))[j]);
                }
            }
        }
        i = i + 1;
    }
    assert(m.labels@.take(i as int) =~= m.labels@);
    Machine { id: m.id.clone(), labels, path: m.path.clone(), is_this_machine: m.is_this_machine }
}

fn lower_labels_exec(labels: &Vec<String>) -> (r: Vec<Vec<char>>)
    ensures
        char_vecs(r@) == lower_labels(texts(labels@)),
{
    let mut r: Vec<Vec<char>> = Vec::new();
    let mut i: usize = 0;
    while i < labels.len()
        invariant
            i <= labels@.len(),
            char_vecs(r@) == lower_labels(texts(labels@.take(i as int))),
        decreases labels@.len() - i,
    {
        let ghost before = r@;
        let c = lower_str(labels[i].as_str());
        r.push(c);
        assert(char_vecs(r@) =~= lower_labels(texts(labels@.take(i + 1)))) by {
            assert(r@ =~= before.push(c));
            assert(before.len() == i) by {
                assert(char_vecs(before).len() == before.len());
            }
            assert forall|j: int| 0 <= j < i + 1 implies #[trigger] char_vecs(r@)[j] == lower_labels(texts(labels@.take(i + 1)))[j] by {
                if j < i {
                    assert(char_vecs(before)[j] == lower_labels(texts(labels@.take(i as int)))[j]);
                }
            }
        }
        i = i + 1;
    }
    assert(labels@.take(i as int) =~= labels@);
    r
}

fn text_matches_exec(m: &Machine, q: &Vec<char>, ll: &Vec<Vec<char>>) -> (r: bool)
    requires
        char_vecs(ll@) == lower_labels(texts(m.labels@)),
    ensures
        r == text_matches(m.id@, texts(m.labels@), q@),
{
    let ghost lv = char_vecs(ll@);
    if q.len() == 0 {
        return true;
    }
    let id = lower_str(m.id.as_str());
    if starts_with_chars(&id, q) {
        return true;
    }
    let mut k: usize = 0;
    while k < ll.len()
        invariant
            k <= ll@.len(),
            lv == char_vecs(ll@),
            lv == lower_labels(texts(m.labels@)),
            forall|j: int| 0 <= j < k ==> !mentions(#[trigger] lv[j], q@),
        decreases ll@.len() - k,
    {
        if find_chars(&ll[k], q, 0).is_some() {
            assert(mentions(lv[k as int], q@));
            assert(mentions(lower_labels(texts(m.labels@))[k as int], q@));
            assert(lv.len() == texts(m.labels@).len());
            assert(k < texts(m.labels@).len());
            return true;
        }
        k = k + 1;
    }
    assert(lv.len() == texts(m.labels@).len());
    assert(!q@.is_prefix_of(lower(m.id@)));
    assert forall|j: int| 0 <= j < texts(m.labels@).len() implies !mentions(
        #[trigger] lower_labels(texts(m.labels@))[j],
        q@,
    ) by {
        assert(lv[j] == lower_labels(texts(m.labels@))[j]);
    }
    false
}

fn carries_exec(ll: &Vec<Vec<char>>, t: &Vec<char>) -> (r: bool)
    ensures
        r == char_vecs(ll@).contains(t@),
{
    let ghost lv = char_vecs(ll@);
    let mut k: usize = 0;
    while k < ll.len()
        invariant
            k <= ll@.len(),
            lv == char_vecs(ll@),
            forall|j: int| 0 <= j < k ==> lv[j] != t@,
        decreases ll@.len() - k,
    {
        if same_chars(&ll[k], t) {
            assert(lv[k as int] == t@);
            return true;
        }
        k = k + 1;
    }
    false
}

fn tags_match_exec(ll: &Vec<Vec<char>>, want: &Vec<Vec<char>>, mode: TagMode, Ghost(labels): Ghost<Seq<Seq<char>>>) -> (r: bool)
    requires
        char_vecs(ll@) == lower_labels(labels),
    ensures
        r == tags_match(labels, char_vecs(want@), mode),
{
    let ghost wv = char_vecs(want@);
    if want.len() == 0 {
        return true;
    }
    let mut k: usize = 0;
    while k < want.len()
        invariant
            k <= want@.len(),
            wv == char_vecs(want@),
            char_vecs(ll@) == lower_labels(labels),
            mode == TagMode::Any ==> forall|j: int| 0 <= j < k ==> !carries(labels, #[trigger] wv[j]),
            mode == TagMode::All ==> forall|j: int| 0 <= j < k ==> carries(labels, #[trigger] wv[j]),
        decreases want@.len() - k,
    {
        let c = carries_exec(ll, &want[k]);
        assert(c == carries(labels, wv[k as int]));
        match mode {
            TagMode::Any => {
                if c {
                    return true;
                }
            },
            TagMode::All => {
                if !c {
                    return false;
                }
            },
        }
        k = k + 1;
    }
    match mode {
        TagMode::Any => false,
        TagMode::All => true,
    }
}

/// Filter the registry by free text and by tags. The query matches an id
/// prefix or any part of a label, ignoring case; tags combine by `mode`.
/// This machine is always kept.
pub fn select(machines: &Vec<Machine>, query: &str, tags: &Vec<String>, mode: TagMode) -> (r: Vec<Machine>)
    ensures
        machines_view(r@) == selection(machines_view(machines@), query_key(query@), tag_keys(tags@), mode),
{
    let qc = chars_of(query);
    let (a, b) = trim_bounds(&qc);
    let qt = query.substring_char(a, b);
    let q = lower_str(qt);
    let mut want: Vec<Vec<char>> = Vec::new();
    let mut t: usize = 0;
    while t < tags.len()
        invariant
            t <= tags@.len(),
            char_vecs(want@) == tag_keys(tags@.take(t as int)),
        decreases tags@.len() - t,
    {
        let ghost before = want@;
        let c = lower_str(tags[t].as_str());
        want.push(c);
        assert(char_vecs(want@) =~= tag_keys(tags@.take(t + 1))) by {
            assert(want@ =~= before.push(c));
            assert(before.len() == t) by {
                assert(char_vecs(before).len() == before.len());
            }
            assert forall|j: int| 0 <= j < t + 1 implies #[trigger] char_vecs(want@)[j] == tag_keys(tags@.take(t + 1))[j] by {
                if j < t {
                    assert(char_vecs(before)[j] == tag_keys(tags@.take(t as int))[j]);
                }
            }
        }
        t = t + 1;
    }
    assert(tags@.take(t as int) =~= tags@);
    let ghost mv = machines_view(machines@);
    let mut out: Vec<Machine> = Vec::new();
    let mut i: usize = 0;
    while i < machines.len()
        invariant
            i <= machines@.len(),
            mv == machines_view(machines@),
            q@ == query_key(query@),
            char_vecs(want@) == tag_keys(tags@),
            machines_view(out@) == selection(mv.take(i as int), q@, tag_keys(tags@), mode),
        decreases machines@.len() - i,
    {
        let m = &machines[i];
        assert(mv.take(i + 1).drop_last() =~= mv.take(i as int));
        assert(mv[i as int] == machine_view(*m));
        let keep = if m.is_this_machine {
            true
        } else {
            let ll = lower_labels_exec(&m.labels);
            text_matches_exec(m, &q, &ll) && tags_match_exec(&ll, &want, mode, Ghost(texts(m.labels@)))
        };
        if keep {
            let ghost before = out@;
            out.push(clone_machine(m));
            assert(machines_view(out@) =~= machines_view(before).push(machine_view(*m)));
        }
        i = i + 1;
    }
    assert(mv.take(i as int) =~= mv);
    out
}

/// This machine survives every filter.
pub proof fn lemma_this_machine_is_selected(
    ms: Seq<(Seq<char>, Seq<Seq<char>>, Seq<char>, bool)>,
    q: Seq<char>,
    want: Seq<Seq<char>>,
    mode: TagMode,
    k: int,
)
    requires
        0 <= k < ms.len(),
        ms[k].3,
    ensures
        selection(ms, q, want, mode).contains(ms[k]),
    decreases ms.len(),
{
    let r = selection(ms.drop_last(), q, want, mode);
    if k == ms.len() - 1 {
        assert(selection(ms, q, want, mode).last() == ms[k]);
    } else {
        lemma_this_machine_is_selected(ms.drop_last(), q, want, mode, k);
        let j = choose|j: int| 0 <= j < r.len() && r[j] == ms.drop_last()[k];
        if selected(ms.last(), q, want, mode) {
            assert(r.push(ms.last())[j] == ms[k]);
        }
    }
}

/// With any-of tags, selecting by two groups of tags is selecting by either:
/// the union.
pub proof fn lemma_any_is_union(
    m: (Seq<char>, Seq<Seq<char>>, Seq<char>, bool),
    q: Seq<char>,
    a: Seq<Seq<char>>,
    b: Seq<Seq<char>>,
)
    requires
        a.len() > 0,
        b.len() > 0,
    ensures
        selected(m, q, a + b, TagMode::Any) == (selected(m, q, a, TagMode::Any) || selected(
            m,
            q,
            b,
            TagMode::Any,
        )),
{
    let ab = a + b;
    if tags_match(m.1, ab, TagMode::Any) {
        let k = choose|k: int| 0 <= k < ab.len() && carries(m.1, #[trigger] ab[k]);
        if k < a.len() {
            assert(ab[k] == a[k]);
        } else {
            assert(ab[k] == b[k - a.len()]);
        }
    }
    if tags_match(m.1, a, TagMode::Any) {
        let k = choose|k: int| 0 <= k < a.len() && carries(m.1, #[trigger] a[k]);
        assert(ab[k] == a[k]);
    }
    if tags_match(m.1, b, TagMode::Any) {
        let k = choose|k: int| 0 <= k < b.len() && carries(m.1, #[trigger] b[k]);
        assert(ab[a.len() + k] == b[k]);
    }
}

/// With all-of tags, selecting by two groups of tags is selecting by both:
/// the intersection.
pub proof fn lemma_all_is_intersection(
    m: (Seq<char>, Seq<Seq<char>>, Seq<char>, bool),
    q: Seq<char>,
    a: Seq<Seq<char>>,
    b: Seq<Seq<char>>,
)
    requires
        a.len() > 0,
        b.len() > 0,
    ensures
        selected(m, q, a + b, TagMode::All) == (selected(m, q, a, TagMode::All) && selected(
            m,
            q,
            b,
            TagMode::All,
        )),
{
    let ab = a + b;
    if tags_match(m.1, a, TagMode::All) && tags_match(m.1, b, TagMode::All) {
        assert forall|k: int| 0 <= k < ab.len() implies carries(m.1, #[trigger] ab[k]) by {
            if k < a.len() {
                assert(ab[k] == a[k]);
            } else {
                assert(ab[k] == b[k - a.len()]);
            }
        }
    }
    if tags_match(m.1, ab, TagMode::All) {
        assert forall|k: int| 0 <= k < a.len() implies carries(m.1, #[trigger] a[k]) by {
            assert(ab[k] == a[k]);
        }
        assert forall|k: int| 0 <= k < b.len() implies carries(m.1, #[trigger] b[k]) by {
            assert(ab[a.len() + k] == b[k]);
        }
    }
}

/// The machines whose id starts with `prefix`.
pub open spec fn hits(ms: Seq<(Seq<char>, Seq<Seq<char>>, Seq<char>, bool)>, prefix: Seq<char>) -> Seq<
    (Seq<char>, Seq<Seq<char>>, Seq<char>, bool),
>
    decreases ms.len(),
{
    if ms.len() == 0 {
        Seq::empty()
    } else {
        let r = hits(ms.drop_last(), prefix);
        if prefix.is_prefix_of(ms.last().0) {
            r.push(ms.last())
        } else {
            r
        }
    }
}

/// `id` begins with the characters of `p`.
pub open spec fn begins_with(id: Seq<char>, p: Seq<char>) -> bool {
    p.len() <= id.len() && id.subrange(0, p.len() as int) == p
}

/// The machines a prefix names are exactly the registry's machines whose id
/// begins with it: each one found begins with the prefix and is in the
/// registry, and each machine of the registry whose id begins with it is
/// found. So no machine is found when no id begins with the prefix.
pub proof fn lemma_hits_begin_with(ms: Seq<(Seq<char>, Seq<Seq<char>>, Seq<char>, bool)>, prefix: Seq<char>)
    ensures
        forall|k: int|
            0 <= k < hits(ms, prefix).len() ==> begins_with((#[trigger] hits(ms, prefix)[k]).0, prefix) && ms.contains(
                hits(ms, prefix)[k],
            ),
        forall|j: int| 0 <= j < ms.len() && begins_with((#[trigger] ms[j]).0, prefix) ==> hits(ms, prefix).contains(ms[j]),
        hits(ms, prefix).len() == 0 <==> forall|j: int| 0 <= j < ms.len() ==> !begins_with((#[trigger] ms[j]).0, prefix),
    decreases ms.len(),
{
    if ms.len() > 0 {
        let d = ms.drop_last();
        lemma_hits_begin_with(d, prefix);
        let h = hits(ms, prefix);
        let hd = hits(d, prefix);
        assert forall|k: int| 0 <= k < h.len() implies begins_with((#[trigger] h[k]).0, prefix) && ms.contains(h[k]) by {
            if k < hd.len() {
                assert(h[k] == hd[k]);
                let q = choose|q: int| 0 <= q < d.len() && d[q] == hd[k];
                assert(ms[q] == d[q]);
            } else {
                assert(h[k] == ms.last());
                assert(ms[ms.len() - 1] == ms.last());
            }
        }
        assert forall|j: int| 0 <= j < ms.len() && begins_with((#[trigger] ms[j]).0, prefix) implies h.contains(ms[j]) by {
            if j < ms.len() - 1 {
                assert(d[j] == ms[j]);
                let q = choose|q: int| 0 <= q < hd.len() && hd[q] == d[j];
                assert(h[q] == hd[q]);
            } else {
                assert(h[h.len() - 1] == ms.last());
            }
        }
        if h.len() == 0 {
            assert forall|j: int| 0 <= j < ms.len() implies !begins_with((#[trigger] ms[j]).0, prefix) by {
                if begins_with(ms[j].0, prefix) {
                    assert(h.contains(ms[j]));
                }
            }
        } else {
            assert(begins_with(h[0].0, prefix) && ms.contains(h[0]));
            let q = choose|q: int| 0 <= q < ms.len() && ms[q] == h[0];
            assert(begins_with(ms[q].0, prefix));
        }
    }
}

/// Two machines of the registry whose ids begin with a prefix are both
/// found: the prefix names at least two machines.
pub proof fn lemma_two_hits(ms: Seq<(Seq<char>, Seq<Seq<char>>, Seq<char>, bool)>, prefix: Seq<char>, i: int, j: int)
    requires
        0 <= i < j < ms.len(),
        begins_with(ms[i].0, prefix),
        begins_with(ms[j].0, prefix),
    ensures
        hits(ms, prefix).len() >= 2,
    decreases ms.len(),
{
    let d = ms.drop_last();
    if j == ms.len() - 1 {
        assert(d[i] == ms[i]);
        lemma_hits_begin_with(d, prefix);
        assert(hits(d, prefix).contains(d[i]));
    } else {
        assert(d[i] == ms[i] && d[j] == ms[j]);
        lemma_two_hits(d, prefix, i, j);
    }
}

/// A prefix that begins exactly one id of the registry resolves to that
/// machine alone.
pub proof fn lemma_single_hit(ms: Seq<(Seq<char>, Seq<Seq<char>>, Seq<char>, bool)>, prefix: Seq<char>, i: int)
    requires
        0 <= i < ms.len(),
        begins_with(ms[i].0, prefix),
        forall|j: int| 0 <= j < ms.len() && j != i ==> !begins_with((#[trigger] ms[j]).0, prefix),
    ensures
        hits(ms, prefix) == seq![ms[i]],
    decreases ms.len(),
{
    let d = ms.drop_last();
    if i == ms.len() - 1 {
        assert forall|j: int| 0 <= j < d.len() implies !begins_with((#[trigger] d[j]).0, prefix) by {
            assert(d[j] == ms[j]);
        }
        lemma_hits_begin_with(d, prefix);
        assert(hits(ms, prefix) =~= seq![ms[i]]);
    } else {
        assert(!begins_with(ms[ms.len() - 1].0, prefix));
        assert forall|j: int| 0 <= j < d.len() && j != i implies !begins_with((#[trigger] d[j]).0, prefix) by {
            assert(d[j] == ms[j]);
        }
        assert(d[i] == ms[i]);
        lemma_single_hit(d, prefix, i);
    }
}

/// Why a prefix resolves to no machine.
pub open spec fn no_match_message(prefix: Seq<char>) -> Seq<char> {
    "no trusted machine starts with '"@ + prefix + "'"@
}

/// Why a prefix is ambiguous.
pub open spec fn ambiguous_message(prefix: Seq<char>, n: nat) -> Seq<char> {
    "'"@ + prefix + "' matches "@ + decimal(n) + " machines; use more characters"@
}

/// Resolve a machine by an unambiguous id prefix.
pub fn find(machines: &Vec<Machine>, id_prefix: &str) -> (r: Result<Machine, String>)
    ensures
        ({
            let h = hits(machines_view(machines@), id_prefix@);
            &&& h.len() == 0 ==> (r matches Err(e) && e@ == no_match_message(id_prefix@))
            &&& h.len() == 1 ==> (r matches Ok(m) && machine_view(m) == h[0])
            &&& h.len() > 1 ==> (r matches Err(e) && e@ == ambiguous_message(id_prefix@, h.len()))
        }),
        r matches Ok(m) ==> begins_with(m.id@, id_prefix@) && machines_view(machines@).contains(machine_view(m)),
        forall|i: int|
            #![trigger machines@[i]]
            0 <= i < machines@.len() && begins_with(machines@[i].id@, id_prefix@) && (forall|j: int|
                0 <= j < machines@.len() && j != i ==> !begins_with((#[trigger] machines@[j]).id@, id_prefix@)) ==> (r matches Ok(
                m,
            ) && machine_view(m) == machine_view(machines@[i])),
        (forall|j: int| 0 <= j < machines@.len() ==> !begins_with((#[trigger] machines@[j]).id@, id_prefix@)) ==> r is Err,
        forall|i: int, j: int|
            #![trigger machines@[i], machines@[j]]
            0 <= i < j < machines@.len() && begins_with(machines@[i].id@, id_prefix@) && begins_with(
                machines@[j].id@,
                id_prefix@,
            ) ==> r is Err,
{
    let p = chars_of(id_prefix);
    let ghost mv = machines_view(machines@);
    let mut count: usize = 0;
    let mut first: usize = 0;
    let mut i: usize = 0;
    while i < machines.len()
        invariant
            i <= machines@.len(),
            mv == machines_view(machines@),
            p@ == id_prefix@,
            count == hits(mv.take(i as int), id_prefix@).len(),
            count <= i,
            count > 0 ==> first < i && hits(mv.take(i as int), id_prefix@)[0] == mv[first as int],
        decreases machines@.len() - i,
    {
        assert(mv.take(i + 1).drop_last() =~= mv.take(i as int));
        assert(mv[i as int] == machine_view(machines@[i as int]));
        let id = chars_of(machines[i].id.as_str());
        if starts_with_chars(&id, &p) {
            if count == 0 {
                first = i;
            }
            count = count + 1;
        }
        i = i + 1;
    }
    assert(mv.take(i as int) =~= mv);
    proof {
        reveal_strlit("'");
        lemma_hits_begin_with(mv, id_prefix@);
        assert forall|i: int|
            #![trigger machines@[i]]
            0 <= i < machines@.len() && begins_with(machines@[i].id@, id_prefix@) && (forall|j: int|
                0 <= j < machines@.len() && j != i ==> !begins_with((#[trigger] machines@[j]).id@, id_prefix@)) implies hits(
            mv,
            id_prefix@,
        ) == seq![mv[i]] by {
            assert forall|j: int| 0 <= j < mv.len() && j != i implies !begins_with((#[trigger] mv[j]).0, id_prefix@) by {
                assert(mv[j] == machine_view(machines@[j]));
            }
            assert(mv[i] == machine_view(machines@[i]));
            lemma_single_hit(mv, id_prefix@, i);
        }
        assert forall|i: int, j: int|
            #![trigger machines@[i], machines@[j]]
            0 <= i < j < machines@.len() && begins_with(machines@[i].id@, id_prefix@) && begins_with(
                machines@[j].id@,
                id_prefix@,
            ) implies hits(mv, id_prefix@).len() >= 2 by {
            assert(mv[i] == machine_view(machines@[i]) && mv[j] == machine_view(machines@[j]));
            lemma_two_hits(mv, id_prefix@, i, j);
        }
        assert((forall|j: int| 0 <= j < machines@.len() ==> !begins_with((#[trigger] machines@[j]).id@, id_prefix@)) ==> hits(
            mv,
            id_prefix@,
        ).len() == 0) by {
            if forall|j: int| 0 <= j < machines@.len() ==> !begins_with((#[trigger] machines@[j]).id@, id_prefix@) {
                assert forall|j: int| 0 <= j < mv.len() implies !begins_with((#[trigger] mv[j]).0, id_prefix@) by {
                    assert(mv[j] == machine_view(machines@[j]));
                }
            }
        }
    }
    if count == 0 {
        let mut e = String::from_str("no trusted machine starts with '");
        e.append(id_prefix);
        e.append("'");
        Err(e)
    } else if count == 1 {
        Ok(clone_machine(&machines[first]))
    } else {
        let mut e = String::from_str("'");
        e.append(id_prefix);
        e.append("' matches ");
        e.append(decimal_string(count as u64).as_str());
        e.append(" machines; use more characters");
        Err(e)
    }
}

/// `a` comes before `b` in code point order, as strings compare.
pub open spec fn lex_lt(a: Seq<char>, b: Seq<char>) -> bool
    decreases a.len(),
{
    if a.len() == 0 {
        b.len() > 0
    } else if b.len() == 0 {
        false
    } else if a[0] != b[0] {
        (a[0] as u32) < (b[0] as u32)
    } else {
        lex_lt(a.skip(1), b.skip(1))
    }
}

pub proof fn lemma_lex_irreflexive(a: Seq<char>)
    ensures
        !lex_lt(a, a),
    decreases a.len(),
{
    if a.len() > 0 {
        lemma_lex_irreflexive(a.skip(1));
    }
}

pub proof fn lemma_lex_total(a: Seq<char>, b: Seq<char>)
    ensures
        a == b || lex_lt(a, b) || lex_lt(b, a),
    decreases a.len(),
{
    if a.len() == 0 || b.len() == 0 {
        if a.len() == 0 && b.len() == 0 {
            assert(a =~= b);
        }
    } else {
        lemma_lex_total(a.skip(1), b.skip(1));
        if a[0] != b[0] {
            vstd::utf8::char_u32_cast(a[0], a[0] as u32);
            vstd::utf8::char_u32_cast(b[0], b[0] as u32);
        }
        if a[0] == b[0] && a.skip(1) == b.skip(1) {
            assert(a.skip(1).len() == a.len() - 1 && b.skip(1).len() == b.len() - 1);
            assert(a.len() == b.len());
            assert forall|i: int| 0 <= i < a.len() implies a[i] == b[i] by {
                if i > 0 {
                    assert(a[i] == a.skip(1)[i - 1]);
                    assert(b[i] == b.skip(1)[i - 1]);
                }
            }
            assert(a =~= b);
        }
    }
}

/// Two orderings of the same items by a key that no two of them share are
/// one and the same sequence.
pub proof fn lemma_sorted_unique<T>(a: Seq<T>, b: Seq<T>, key: spec_fn(T) -> Seq<char>)
    requires
        a.to_multiset() == b.to_multiset(),
        forall|i: int, j: int| 0 <= i < j < a.len() ==> !lex_lt(key(#[trigger] a[j]), key(#[trigger] a[i])),
        forall|i: int, j: int| 0 <= i < j < b.len() ==> !lex_lt(key(#[trigger] b[j]), key(#[trigger] b[i])),
        forall|i: int, j: int|
            0 <= i < a.len() && 0 <= j < a.len() && i != j ==> key(#[trigger] a[i]) != key(#[trigger] a[j]),
    ensures
        a == b,
    decreases a.len(),
{
    broadcast use vstd::seq_lib::group_to_multiset_ensures;
    assert(a.len() == a.to_multiset().len() && b.len() == b.to_multiset().len());
    if a.len() == 0 {
        assert(a =~= b);
    } else {
        let x = a[0];
        let y = b[0];
        assert(b.to_multiset().count(x) > 0);
        let k = b.lemma_contains_to_index(x);
        assert(a.to_multiset().count(y) > 0);
        let m = a.lemma_contains_to_index(y);
        if k > 0 {
            assert(!lex_lt(key(b[k]), key(b[0])));
        }
        if m > 0 {
            assert(!lex_lt(key(a[m]), key(a[0])));
        }
        lemma_lex_total(key(x), key(y));
        if m != 0 {
            assert(key(a[m]) != key(a[0]));
        }
        assert(x == y);
        vstd::seq_lib::to_multiset_remove(a, 0);
        vstd::seq_lib::to_multiset_remove(b, 0);
        assert(a.remove(0) =~= a.drop_first());
        assert(b.remove(0) =~= b.drop_first());
        let a1 = a.drop_first();
        let b1 = b.drop_first();
        assert forall|i: int, j: int| 0 <= i < j < a1.len() implies !lex_lt(key(#[trigger] a1[j]), key(#[trigger] a1[i])) by {
            assert(a1[j] == a[j + 1] && a1[i] == a[i + 1]);
        }
        assert forall|i: int, j: int| 0 <= i < j < b1.len() implies !lex_lt(key(#[trigger] b1[j]), key(#[trigger] b1[i])) by {
            assert(b1[j] == b[j + 1] && b1[i] == b[i + 1]);
        }
        assert forall|i: int, j: int| 0 <= i < a1.len() && 0 <= j < a1.len() && i != j implies key(#[trigger] a1[i]) != key(#[trigger] a1[j]) by {
            assert(a1[j] == a[j + 1] && a1[i] == a[i + 1]);
        }
        lemma_sorted_unique(a1, b1, key);
        assert(a =~= b) by {
            assert forall|i: int| 0 <= i < a.len() implies a[i] == b[i] by {
                if i > 0 {
                    assert(a[i] == a1[i - 1] && b[i] == b1[i - 1]);
                }
            }
        }
    }
}

/// Rearranging items whose keys are all different keeps their keys all
/// different.
pub proof fn lemma_distinct_keys_carry<T>(f: Seq<T>, s: Seq<T>, key: spec_fn(T) -> Seq<char>)
    requires
        f.to_multiset() == s.to_multiset(),
        forall|i: int, j: int|
            0 <= i < f.len() && 0 <= j < f.len() && i != j ==> key(#[trigger] f[i]) != key(#[trigger] f[j]),
    ensures
        forall|i: int, j: int|
            0 <= i < s.len() && 0 <= j < s.len() && i != j ==> key(#[trigger] s[i]) != key(#[trigger] s[j]),
{
    broadcast use vstd::seq_lib::group_to_multiset_ensures;
    assert(f.no_duplicates());
    f.lemma_multiset_has_no_duplicates();
    s.lemma_multiset_has_no_duplicates_conv();
    assert forall|i: int, j: int| 0 <= i < s.len() && 0 <= j < s.len() && i != j implies key(
        #[trigger] s[i],
    ) != key(#[trigger] s[j]) by {
        assert(s[i] != s[j]);
        assert(f.to_multiset().count(s[i]) > 0);
        assert(f.to_multiset().count(s[j]) > 0);
        let p = f.lemma_contains_to_index(s[i]);
        let q = f.lemma_contains_to_index(s[j]);
        assert(p != q);
    }
}

/// Coming before is transitive.
pub proof fn lemma_lex_trans(a: Seq<char>, b: Seq<char>, c: Seq<char>)
    requires
        lex_lt(a, b),
        lex_lt(b, c),
    ensures
        lex_lt(a, c),
    decreases a.len(),
{
    if a.len() > 0 && b.len() > 0 && c.len() > 0 && a[0] == b[0] && b[0] == c[0] {
        lemma_lex_trans(a.skip(1), b.skip(1), c.skip(1));
    }
}

pub fn lex_less(a: &Vec<char>, b: &Vec<char>) -> (r: bool)
    ensures
        r == lex_lt(a@, b@),
{
    let mut i: usize = 0;
    assert(a@.skip(0) =~= a@);
    assert(b@.skip(0) =~= b@);
    while i < a.len() && i < b.len()
        invariant
            i <= a@.len(),
            i <= b@.len(),
            lex_lt(a@, b@) == lex_lt(a@.skip(i as int), b@.skip(i as int)),
        decreases a@.len() - i,
    {
        let ghost sa = a@.skip(i as int);
        let ghost sb = b@.skip(i as int);
        assert(sa[0] == a@[i as int] && sb[0] == b@[i as int]);
        if a[i] != b[i] {
            return (a[i] as u32) < (b[i] as u32);
        }
        assert(sa.skip(1) =~= a@.skip(i + 1));
        assert(sb.skip(1) =~= b@.skip(i + 1));
        i = i + 1;
    }
    i == a.len() && i < b.len()
}

/// Each text comes strictly before the next.
pub open spec fn strictly_sorted(v: Seq<Seq<char>>) -> bool {
    forall|i: int| 0 <= i < v.len() - 1 ==> lex_lt(#[trigger] v[i], v[i + 1])
}

/// Every label any machine carries.
pub open spec fn label_set(ms: Seq<(Seq<char>, Seq<Seq<char>>, Seq<char>, bool)>) -> Set<Seq<char>> {
    Set::new(|l: Seq<char>| exists|i: int| 0 <= i < ms.len() && #[trigger] ms[i].1.contains(l))
}

/// Insert `x` into a strictly sorted list unless it is there already.
fn insert_label(v: &mut Vec<String>, x: &String)
    requires
        strictly_sorted(texts(old(v)@)),
    ensures
        strictly_sorted(texts(final(v)@)),
        texts(final(v)@).to_set() == texts(old(v)@).to_set().insert(x@),
{
    let xc = chars_of(x.as_str());
    let ghost tv = texts(v@);
    let mut i: usize = 0;
    while i < v.len() && lex_less(&chars_of(v[i].as_str()), &xc)
        invariant
            i <= v@.len(),
            tv == texts(v@),
            xc@ == x@,
            strictly_sorted(tv),
            forall|j: int| 0 <= j < i ==> lex_lt(#[trigger] tv[j], x@),
        decreases v@.len() - i,
    {
        assert(tv[i as int] == v@[i as int]@);
        i = i + 1;
    }
    if i < v.len() {
        assert(tv[i as int] == v@[i as int]@);
        assert(!lex_lt(tv[i as int], x@));
        let c = chars_of(v[i].as_str());
        if same_chars(&c, &xc) {
            proof {
                assert(tv[i as int] == x@);
                assert(tv.to_set().insert(x@) =~= tv.to_set());
            }
            return;
        }
        proof {
            lemma_lex_total(tv[i as int], x@);
        }
    }
    let ghost before = v@;
    v.insert(i, x.clone());
    proof {
        let nv = texts(v@);
        assert(v@ =~= before.subrange(0, i as int).push(v@[i as int]) + before.subrange(i as int, before.len() as int));
        assert(nv.len() == tv.len() + 1);
        assert forall|j: int| 0 <= j < nv.len() implies #[trigger] nv[j] == if j < i {
            tv[j]
        } else if j == i {
            x@
        } else {
            tv[j - 1]
        } by {
            if j < i {
                assert(v@[j] == before[j]);
            } else if j > i {
                assert(v@[j] == before[j - 1]);
            }
        }
        assert forall|j: int| 0 <= j < nv.len() - 1 implies lex_lt(#[trigger] nv[j], nv[j + 1]) by {
            if j + 1 < i {
                assert(lex_lt(tv[j], tv[j + 1]));
            } else if j + 1 == i {
                assert(lex_lt(tv[j], x@));
            } else if j == i {
                assert(lex_lt(x@, tv[i as int]));
            } else {
                assert(lex_lt(tv[j - 1], tv[j]));
            }
        }
        assert(nv.to_set() =~= tv.to_set().insert(x@)) by {
            assert forall|l: Seq<char>| nv.to_set().contains(l) implies tv.to_set().insert(x@).contains(l) by {
                let j = choose|j: int| 0 <= j < nv.len() && nv[j] == l;
                if j < i {
                    assert(tv[j] == l);
                } else if j > i {
                    assert(tv[j - 1] == l);
                }
            }
            assert forall|l: Seq<char>| tv.to_set().insert(x@).contains(l) implies nv.to_set().contains(l) by {
                if l == x@ {
                    assert(nv[i as int] == l);
                } else {
                    let j = choose|j: int| 0 <= j < tv.len() && tv[j] == l;
                    if j < i {
                        assert(nv[j] == l);
                    } else {
                        assert(nv[j + 1] == l);
                    }
                }
            }
        }
    }
}

/// Every distinct label in the registry, sorted; used to offer tag filters.
pub fn all_labels(machines: &Vec<Machine>) -> (r: Vec<String>)
    ensures
        strictly_sorted(texts(r@)),
        texts(r@).to_set() == label_set(machines_view(machines@)),
{
    let ghost mv = machines_view(machines@);
    let mut out: Vec<String> = Vec::new();
    let mut i: usize = 0;
    assert(texts(out@).to_set() =~= Set::<Seq<char>>::empty());
    while i < machines.len()
        invariant
            i <= machines@.len(),
            mv == machines_view(machines@),
            strictly_sorted(texts(out@)),
            texts(out@).to_set() == label_set(mv.take(i as int)),
        decreases machines@.len() - i,
    {
        let labels = &machines[i].labels;
        assert(mv[i as int] == machine_view(machines@[i as int]));
        let ghost base = texts(out@).to_set();
        let mut k: usize = 0;
        while k < labels.len()
            invariant
                k <= labels@.len(),
                strictly_sorted(texts(out@)),
                texts(out@).to_set() == base + texts(labels@.take(k as int)).to_set(),
            decreases labels@.len() - k,
        {
            let ghost prev = texts(out@).to_set();
            insert_label(&mut out, &labels[k]);
            assert(texts(labels@.take(k + 1)) =~= texts(labels@.take(k as int)).push(labels@[k as int]@));
            proof {
                texts(labels@.take(k as int)).lemma_push_to_set_commute(labels@[k as int]@);
            }
            assert(texts(out@).to_set() =~= base + texts(labels@.take(k + 1)).to_set());
            k = k + 1;
        }
        assert(labels@.take(k as int) =~= labels@);
        assert(label_set(mv.take(i + 1)) =~= label_set(mv.take(i as int)) + mv[i as int].1.to_set()) by {
            let a = mv.take(i as int);
            let b = mv.take(i + 1);
            assert forall|l: Seq<char>| label_set(b).contains(l) implies (label_set(a) + mv[i as int].1.to_set()).contains(l) by {
                let j = choose|j: int| 0 <= j < b.len() && #[trigger] b[j].1.contains(l);
                if j < i {
                    assert(a[j] == b[j]);
                }
            }
            assert forall|l: Seq<char>| (label_set(a) + mv[i as int].1.to_set()).contains(l) implies label_set(b).contains(l) by {
                if label_set(a).contains(l) {
                    let j = choose|j: int| 0 <= j < a.len() && #[trigger] a[j].1.contains(l);
                    assert(b[j] == a[j]);
                } else {
                    assert(b[i as int] == mv[i as int]);
                }
            }
        }
        i = i + 1;
    }
    assert(mv.take(i as int) =~= mv);
    out
}


pub const CREATOR_NOT_REMOVABLE: &'static str = "this machine cannot be removed: every capsule includes its creator by design";

/// Why a machine may not leave the registry: this machine never can, since a
/// capsule always includes its creator and it would reappear at once.
pub fn removal_refusal(m: &Machine) -> (r: Option<String>)
    ensures
        m.is_this_machine ==> (r matches Some(e) && e@ == CREATOR_NOT_REMOVABLE@),
        !m.is_this_machine ==> r is None,
{
    if m.is_this_machine {
        Some(String::from_str(CREATOR_NOT_REMOVABLE))
    } else {
        None
    }
}

/// The registry as listed: the stored machines, with this machine put first
/// under the label `this machine` when no stored record is this machine's.
pub open spec fn with_this_machine_spec(
    found: Seq<(Seq<char>, Seq<Seq<char>>, Seq<char>, bool)>,
    here_id: Seq<char>,
) -> Seq<(Seq<char>, Seq<Seq<char>>, Seq<char>, bool)> {
    if exists|i: int| 0 <= i < found.len() && (#[trigger] found[i]).3 {
        found
    } else {
        seq![(here_id, seq!["this machine"@], Seq::<char>::empty(), true)] + found
    }
}

pub fn with_this_machine(found: Vec<Machine>, here_id: String) -> (r: Vec<Machine>)
    ensures
        machines_view(r@) == with_this_machine_spec(machines_view(found@), here_id@),
{
    let mut i: usize = 0;
    while i < found.len()
        invariant
            i <= found@.len(),
            forall|j: int| 0 <= j < i ==> !(#[trigger] found@[j]).is_this_machine,
        decreases found@.len() - i,
    {
        if found[i].is_this_machine {
            assert(machines_view(found@)[i as int].3);
            return found;
        }
        i = i + 1;
    }
    assert forall|j: int| 0 <= j < machines_view(found@).len() implies !(#[trigger] machines_view(found@)[j]).3 by {
        assert(machines_view(found@)[j] == machine_view(found@[j]));
    }
    let mut labels: Vec<String> = Vec::new();
    labels.push(String::from_str("this machine"));
    let here = Machine { id: here_id, labels, path: String::new(), is_this_machine: true };
    let mut out: Vec<Machine> = Vec::new();
    out.push(here);
    let mut rest = found;
    out.append(&mut rest);
    proof {
        let lv = seq!["this machine"@];
        assert(out@[0].labels@.map_values(|l: String| l@) =~= lv);
    }
    assert(machines_view(out@) =~= seq![(here_id@, seq!["this machine"@], Seq::<char>::empty(), true)] + machines_view(found@));
    out
}

} // verus!
