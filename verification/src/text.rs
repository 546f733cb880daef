//! Text helpers shared by the request builders, the log formatter and the
//! small JSON readers: decimal rendering, ASCII case folding and searching.
use vstd::prelude::*;
use crate::artifact::lower;
use crate::json::lemma_find_char_bound;
use crate::scan::{find_char, find_char_exec};

verus! {

/// The ASCII digit for `d < 10`.
pub open spec fn digit_char(d: nat) -> char {
    (d + 48) as char
}

/// Decimal rendering of a natural number, without leading zeros.
pub open spec fn decimal(n: nat) -> Seq<char>
    decreases n,
{
    if n < 10 {
        seq![digit_char(n)]
    } else {
        decimal(n / 10).push(digit_char(n % 10))
    }
}

/// `n` in decimal, left-padded with zeros to at least `width` characters.
pub open spec fn zero_padded(n: nat, width: nat) -> Seq<char> {
    let d = decimal(n);
    if d.len() < width {
        Seq::new((width - d.len()) as nat, |i: int| '0') + d
    } else {
        d
    }
}

/// A one-character string holding the digit `d`.
pub fn digit_str(d: u64) -> (r: &'static str)
    requires
        d < 10,
    ensures
        r@ == seq![digit_char(d as nat)],
{
    proof {
        reveal_strlit("0");
        reveal_strlit("1");
        reveal_strlit("2");
        reveal_strlit("3");
        reveal_strlit("4");
        reveal_strlit("5");
        reveal_strlit("6");
        reveal_strlit("7");
        reveal_strlit("8");
        reveal_strlit("9");
    }
    match d {
        0 => "0",
        1 => "1",
        2 => "2",
        3 => "3",
        4 => "4",
        5 => "5",
        6 => "6",
        7 => "7",
        8 => "8",
        _ => "9",
    }
}

/// Decimal rendering of `n`.
pub fn decimal_string(n: u64) -> (r: String)
    ensures
        r@ == decimal(n as nat),
    decreases n,
{
    if n < 10 {
        String::from_str(digit_str(n))
    } else {
        let mut s = decimal_string(n / 10);
        s.append(digit_str(n % 10));
        s
    }
}

} // verus!

verus! {

/// The characters of a string, in order.
pub fn chars_of(s: &str) -> (v: Vec<char>)
    ensures
        v@ == s@,
{
    broadcast use vstd::string::group_string_axioms;
    let mut v: Vec<char> = Vec::new();
    for c in it: s.chars()
        invariant
            v@ == it.seq().take(it.index() as int),
            it.seq() == s@,
    {
        v.push(c);
    }
    v
}

/// `str::to_ascii_lowercase`, as characters.
pub fn lower_text(s: &str) -> (r: Vec<char>)
    ensures
        r@ == lower(s@),
{
    let c = chars_of(s);
    let mut r: Vec<char> = Vec::new();
    let mut i: usize = 0;
    while i < c.len()
        invariant
            i <= c@.len(),
            c@ == s@,
            r@ == lower(c@.take(i as int)),
        decreases c@.len() - i,
    {
        let ch = c[i];
        let l = if 'A' <= ch && ch <= 'Z' {
            ((ch as u8) + 32) as char
        } else {
            ch
        };
        r.push(l);
        assert(r@ =~= lower(c@.take(i + 1)));
        i = i + 1;
    }
    assert(c@.take(i as int) =~= c@);
    r
}

/// The characters in `v` spell `w`.
pub fn is_word(v: &Vec<char>, w: &str) -> (r: bool)
    ensures
        r == (v@ == w@),
{
    let t = chars_of(w);
    if v.len() != t.len() {
        return false;
    }
    let mut i: usize = 0;
    while i < v.len()
        invariant
            v@.len() == t@.len(),
            t@ == w@,
            i <= v@.len(),
            forall|j: int| 0 <= j < i ==> v@[j] == t@[j],
        decreases v@.len() - i,
    {
        if v[i] != t[i] {
            return false;
        }
        i = i + 1;
    }
    assert(v@ =~= t@);
    true
}


/// `str::to_ascii_lowercase`.
pub fn lower_string(s: &str) -> (r: String)
    ensures
        r@ == lower(s@),
{
    let c = chars_of(s);
    let mut out = String::new();
    let mut i: usize = 0;
    while i < c.len()
        invariant
            i <= c@.len(),
            c@ == s@,
            out@ == lower(c@.take(i as int)),
        decreases c@.len() - i,
    {
        let ch = c[i];
        if 'A' <= ch && ch <= 'Z' {
            let b: u8 = (ch as u8) + 32;
            let one = crate::base64::ascii_string(vec![b]);
            assert(one@ =~= seq![crate::artifact::ascii_lower(ch)]);
            out.append(one.as_str());
        } else {
            let one = s.substring_char(i, i + 1);
            assert(one@ =~= seq![crate::artifact::ascii_lower(ch)]);
            out.append(one);
        }
        assert(lower(c@.take(i + 1)) =~= lower(c@.take(i as int)).push(crate::artifact::ascii_lower(ch)));
        i = i + 1;
    }
    assert(c@.take(i as int) =~= c@);
    out
}


/// `line` without a trailing carriage return.
pub open spec fn without_cr(line: Seq<char>) -> Seq<char> {
    if line.len() > 0 && line.last() == '\r' {
        line.drop_last()
    } else {
        line
    }
}

/// The lines of `t` from `start` on, as `str::lines` yields them: split at
/// each newline, with a carriage return before the newline dropped (a last
/// line with no newline after it is kept whole).
pub open spec fn lines_from(t: Seq<char>, start: int) -> Seq<Seq<char>>
    decreases t.len() - start,
{
    if start < 0 || start >= t.len() {
        Seq::empty()
    } else {
        match find_char(t, '\n', start) {
            Some(k) => if start <= k < t.len() {
                seq![without_cr(t.subrange(start, k))] + lines_from(t, k + 1)
            } else {
                Seq::empty()
            },
            None => seq![t.subrange(start, t.len() as int)],
        }
    }
}

/// The line held in `t` between `start` and the newline at `end` (or the end of `t`).
pub open spec fn line_between(t: Seq<char>, start: int, end: int) -> Seq<char> {
    if end < t.len() {
        without_cr(t.subrange(start, end))
    } else {
        t.subrange(start, end)
    }
}

/// One step of `lines_from`: the line that starts at `start` and ends at the
/// next newline `end` (or at the end of `t`), then the lines after it.
pub proof fn lemma_line_step(t: Seq<char>, start: int, end: int)
    requires
        0 <= start < t.len(),
        find_char(t, '\n', start) == Some(end) || (find_char(t, '\n', start) is None && end == t.len()),
    ensures
        start <= end <= t.len(),
        lines_from(t, start) == seq![line_between(t, start, end)] + lines_from(t, end + 1),
{
    lemma_find_char_bound(t, '\n', start);
    if end == t.len() {
        assert(lines_from(t, end + 1) =~= Seq::<Seq<char>>::empty());
        assert(lines_from(t, start) =~= seq![line_between(t, start, end)] + lines_from(t, end + 1));
    }
}


/// `str::lines`: each line of `text` as a string of its own.
pub fn split_lines(text: &str) -> (r: Vec<String>)
    ensures
        r@.len() == lines_from(text@, 0).len(),
        forall|i: int| 0 <= i < r@.len() ==> #[trigger] r@[i]@ == lines_from(text@, 0)[i],
{
    let c = chars_of(text);
    let n = c.len();
    let mut out: Vec<String> = Vec::new();
    let mut start: usize = 0;
    let ghost ls = lines_from(c@, 0);
    while start < n
        invariant
            c@ == text@,
            n == c@.len(),
            ls == lines_from(c@, 0),
            start <= n,
            out@.len() <= ls.len(),
            lines_from(c@, start as int) == ls.skip(out@.len() as int),
            forall|i: int| 0 <= i < out@.len() ==> #[trigger] out@[i]@ == ls[i],
        decreases n - start,
    {
        let end = match find_char_exec(&c, '\n', start) {
            Some(k) => k,
            None => n,
        };
        proof {
            lemma_find_char_bound(c@, '\n', start as int);
            lemma_line_step(c@, start as int, end as int);
        }
        let mut stop = end;
        if end < n && stop > start && c[stop - 1] == '\r' {
            stop = stop - 1;
        }
        let piece = text.substring_char(start, stop);
        let ghost li = out@.len() as int;
        proof {
            let whole = c@.subrange(start as int, end as int);
            if stop < end {
                assert(whole.drop_last() =~= c@.subrange(start as int, stop as int));
            }
            assert(piece@ == line_between(c@, start as int, end as int));
            assert(ls.skip(li).len() > 0);
            assert(ls.skip(li)[0] == ls[li]);
            assert(ls.skip(li + 1) =~= ls.skip(li).drop_first());
        }
        out.push(String::from_str(piece));
        start = if end < n { end + 1 } else { n };
    }
    proof {
        assert(ls.skip(out@.len() as int).len() == 0);
    }
    out
}


/// Each line takes at least one character, so there are no more lines than
/// characters.
pub proof fn lemma_lines_count(t: Seq<char>, start: int)
    requires
        0 <= start <= t.len(),
    ensures
        lines_from(t, start).len() <= t.len() - start,
    decreases t.len() - start,
{
    if start < t.len() {
        lemma_find_char_bound(t, '\n', start);
        let end = match find_char(t, '\n', start) {
            Some(k) => k,
            None => t.len() as int,
        };
        lemma_line_step(t, start, end);
        if end < t.len() {
            lemma_lines_count(t, end + 1);
        }
    }
}


/// Searching past a prefix `x` finds what searching `y` alone finds, shifted.
pub proof fn lemma_find_char_shift(x: Seq<char>, y: Seq<char>, c: char, t: int)
    requires
        0 <= t <= y.len(),
    ensures
        find_char(x + y, c, x.len() + t) == match find_char(y, c, t) {
            Some(k) => Some(k + x.len()),
            None => None::<int>,
        },
    decreases y.len() - t,
{
    if t < y.len() {
        assert((x + y)[x.len() + t] == y[t]);
        if y[t] != c {
            lemma_find_char_shift(x, y, c, t + 1);
        }
    }
}

/// A character found in `x` is found at the same place in `x + y`.
pub proof fn lemma_find_char_prefix(x: Seq<char>, y: Seq<char>, c: char, s: int)
    requires
        0 <= s,
        find_char(x, c, s) is Some,
    ensures
        find_char(x + y, c, s) == find_char(x, c, s),
    decreases x.len() - s,
{
    assert((x + y)[s] == x[s]);
    if x[s] != c {
        lemma_find_char_prefix(x, y, c, s + 1);
    }
}

/// A text that ends with a newline has a newline at or after any position.
pub proof fn lemma_find_char_last(x: Seq<char>, c: char, s: int)
    requires
        0 <= s < x.len(),
        x.last() == c,
    ensures
        find_char(x, c, s) is Some,
    decreases x.len() - s,
{
    if x[s] != c {
        lemma_find_char_last(x, c, s + 1);
    }
}

/// The lines of `x + y` after the whole of `x` are the lines of `y`.
pub proof fn lemma_lines_shift(x: Seq<char>, y: Seq<char>, t: int)
    requires
        0 <= t <= y.len(),
    ensures
        lines_from(x + y, x.len() + t) == lines_from(y, t),
    decreases y.len() - t,
{
    if t < y.len() {
        lemma_find_char_shift(x, y, '\n', t);
        lemma_find_char_bound(y, '\n', t);
        let end = match find_char(y, '\n', t) {
            Some(k) => k,
            None => y.len() as int,
        };
        lemma_line_step(y, t, end);
        lemma_line_step(x + y, x.len() + t, x.len() + end);
        assert((x + y).subrange(x.len() + t, x.len() + end) =~= y.subrange(t, end));
        if end < y.len() {
            lemma_lines_shift(x, y, end + 1);
        } else {
            assert(lines_from(x + y, x.len() + end + 1) =~= Seq::<Seq<char>>::empty());
        }
    }
}

/// Texts joined at a line boundary: the lines of `x` (empty, or ending with
/// a newline) from `s` on, then the lines of `y`.
pub proof fn lemma_lines_concat(x: Seq<char>, y: Seq<char>, s: int)
    requires
        0 <= s <= x.len(),
        x.len() == 0 || x.last() == '\n',
    ensures
        lines_from(x + y, s) == lines_from(x, s) + lines_from(y, 0),
    decreases x.len() - s,
{
    if s == x.len() {
        lemma_lines_shift(x, y, 0);
        assert(lines_from(x, s) =~= Seq::<Seq<char>>::empty());
        assert(lines_from(x + y, s) =~= lines_from(x, s) + lines_from(y, 0));
    } else {
        lemma_find_char_last(x, '\n', s);
        lemma_find_char_bound(x, '\n', s);
        lemma_find_char_prefix(x, y, '\n', s);
        let k = find_char(x, '\n', s)->0;
        lemma_line_step(x, s, k);
        lemma_line_step(x + y, s, k);
        assert((x + y).subrange(s, k) =~= x.subrange(s, k));
        lemma_lines_concat(x, y, k + 1);
        assert(lines_from(x + y, s) =~= lines_from(x, s) + lines_from(y, 0));
    }
}


/// What `str::to_lowercase` makes of a text: Unicode lower case, which may
/// change its length.
pub uninterp spec fn unicode_lower(s: Seq<char>) -> Seq<char>;

/// `str::to_lowercase`. Claimed: the result is a function of the text
/// alone; what the Unicode case tables make of each character is left to
/// the name.
#[verifier::external_body]
pub fn to_lowercase(s: &str) -> (r: String)
    ensures
        r@ == unicode_lower(s@),
{
    s.to_lowercase()
}

} // verus!
