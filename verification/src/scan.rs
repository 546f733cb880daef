//! Searching text and bytes, and the minimal JSON field readers the
//! orchestrator needs. Every reader is total: malformed input yields nothing
//! rather than a panic.
use vstd::prelude::*;

verus! {

/// `n` occurs in `h` at position `i`.
pub open spec fn occurs_at<T>(h: Seq<T>, n: Seq<T>, i: int) -> bool {
    0 <= i && i + n.len() <= h.len() && h.subrange(i, i + n.len()) == n
}

/// The first position at or after `from` where `n` occurs in `h`.
pub open spec fn find_from<T>(h: Seq<T>, n: Seq<T>, from: int) -> Option<int>
    decreases h.len() - from,
{
    if from < 0 || from + n.len() > h.len() {
        None
    } else if occurs_at(h, n, from) {
        Some(from)
    } else if from >= h.len() {
        None
    } else {
        find_from(h, n, from + 1)
    }
}

/// A found position really is an occurrence, at or after `from`, and no
/// earlier occurrence exists from `from` on.
pub proof fn lemma_find_from<T>(h: Seq<T>, n: Seq<T>, from: int)
    requires
        0 <= from,
    ensures
        match find_from(h, n, from) {
            Some(i) => from <= i && occurs_at(h, n, i) && forall|j: int| from <= j < i ==> !occurs_at(h, n, j),
            None => forall|j: int| from <= j ==> !occurs_at(h, n, j),
        },
    decreases h.len() - from,
{
    if from + n.len() > h.len() {
    } else if occurs_at(h, n, from) {
    } else if from >= h.len() {
        assert(h.subrange(from, from + n.len()) =~= n);
    } else {
        lemma_find_from(h, n, from + 1);
    }
}

fn occurs_at_chars(h: &Vec<char>, n: &Vec<char>, i: usize) -> (r: bool)
    requires
        i + n@.len() <= h@.len(),
    ensures
        r == occurs_at(h@, n@, i as int),
{
    let mut k: usize = 0;
    let hlen = h.len();
    while k < n.len()
        invariant
            hlen == h@.len(),
            i + n@.len() <= h@.len(),
            k <= n@.len(),
            forall|j: int| 0 <= j < k ==> h@[i + j] == n@[j],
        decreases n@.len() - k,
    {
        assert(i + k < h@.len());
        if h[i + k] != n[k] {
            assert(h@.subrange(i as int, i + n@.len())[k as int] != n@[k as int]);
            return false;
        }
        k = k + 1;
    }
    assert(h@.subrange(i as int, i + n@.len()) =~= n@);
    true
}

/// The first occurrence of `n` in `h` at or after `from`.
pub fn find_chars(h: &Vec<char>, n: &Vec<char>, from: usize) -> (r: Option<usize>)
    ensures
        match find_from(h@, n@, from as int) {
            Some(i) => r == Some(i as usize),
            None => r is None,
        },
{
    if n.len() > h.len() {
        return None;
    }
    let last = h.len() - n.len();
    let mut i = from;
    while i <= last
        invariant
            last + n@.len() == h@.len(),
            from <= i,
            find_from(h@, n@, from as int) == find_from(h@, n@, i as int),
        decreases last + 1 - i,
    {
        if occurs_at_chars(h, n, i) {
            return Some(i);
        }
        if i == last {
            return None;
        }
        i = i + 1;
    }
    None
}

fn occurs_at_bytes(h: &[u8], n: &[u8], i: usize) -> (r: bool)
    requires
        i + n@.len() <= h@.len(),
    ensures
        r == occurs_at(h@, n@, i as int),
{
    let mut k: usize = 0;
    let hlen = h.len();
    while k < n.len()
        invariant
            hlen == h@.len(),
            i + n@.len() <= h@.len(),
            k <= n@.len(),
            forall|j: int| 0 <= j < k ==> h@[i + j] == n@[j],
        decreases n@.len() - k,
    {
        assert(i + k < h@.len());
        if h[i + k] != n[k] {
            assert(h@.subrange(i as int, i + n@.len())[k as int] != n@[k as int]);
            return false;
        }
        k = k + 1;
    }
    assert(h@.subrange(i as int, i + n@.len()) =~= n@);
    true
}

/// The first occurrence of `n` in `h` at or after `from`.
pub fn find_bytes(h: &[u8], n: &[u8], from: usize) -> (r: Option<usize>)
    ensures
        match find_from(h@, n@, from as int) {
            Some(i) => r == Some(i as usize),
            None => r is None,
        },
{
    if n.len() > h.len() {
        return None;
    }
    let last = h.len() - n.len();
    let mut i = from;
    while i <= last
        invariant
            last + n@.len() == h@.len(),
            from <= i,
            find_from(h@, n@, from as int) == find_from(h@, n@, i as int),
        decreases last + 1 - i,
    {
        if occurs_at_bytes(h, n, i) {
            return Some(i);
        }
        if i == last {
            return None;
        }
        i = i + 1;
    }
    None
}

/// Whether `c` is white space in the Unicode sense (`char::is_whitespace`).
pub open spec fn is_ws(c: char) -> bool {
    ||| c == '\t' || c == '\n' || c == '\x0B' || c == '\x0C' || c == '\r' || c == ' '
    ||| c == '\u{85}' || c == '\u{A0}' || c == '\u{1680}'
    ||| ('\u{2000}' <= c && c <= '\u{200A}')
    ||| c == '\u{2028}' || c == '\u{2029}' || c == '\u{202F}' || c == '\u{205F}' || c == '\u{3000}'
}

pub fn is_whitespace(c: char) -> (r: bool)
    ensures
        r == is_ws(c),
{
    c == '\t' || c == '\n' || c == '\x0B' || c == '\x0C' || c == '\r' || c == ' '
        || c == '\u{85}' || c == '\u{A0}' || c == '\u{1680}'
        || ('\u{2000}' <= c && c <= '\u{200A}')
        || c == '\u{2028}' || c == '\u{2029}' || c == '\u{202F}' || c == '\u{205F}' || c == '\u{3000}'
}

/// The first position at or after `from` holding a character that is not
/// white space (or the end).
pub open spec fn skip_ws(h: Seq<char>, from: int) -> int
    decreases h.len() - from,
{
    if from < 0 || from >= h.len() {
        from
    } else if is_ws(h[from]) {
        skip_ws(h, from + 1)
    } else {
        from
    }
}

pub fn skip_whitespace(h: &Vec<char>, from: usize) -> (r: usize)
    requires
        from <= h@.len(),
    ensures
        r as int == skip_ws(h@, from as int),
        r <= h@.len(),
{
    let mut i = from;
    while i < h.len() && is_whitespace(h[i])
        invariant
            from <= i <= h@.len(),
            skip_ws(h@, from as int) == skip_ws(h@, i as int),
        decreases h@.len() - i,
    {
        i = i + 1;
    }
    i
}

/// Skipping white space moves forward, and stops on a character that is not
/// white space (or at the end).
pub proof fn lemma_skip_ws(h: Seq<char>, from: int)
    requires
        0 <= from <= h.len(),
    ensures
        from <= skip_ws(h, from) <= h.len(),
        skip_ws(h, from) < h.len() ==> !is_ws(h[skip_ws(h, from)]),
    decreases h.len() - from,
{
    if from < h.len() && is_ws(h[from]) {
        lemma_skip_ws(h, from + 1);
    }
}

/// The first position at or after `from` holding `c`, if any.
pub open spec fn find_char(h: Seq<char>, c: char, from: int) -> Option<int>
    decreases h.len() - from,
{
    if from < 0 || from >= h.len() {
        None
    } else if h[from] == c {
        Some(from)
    } else {
        find_char(h, c, from + 1)
    }
}

pub fn find_char_exec(h: &Vec<char>, c: char, from: usize) -> (r: Option<usize>)
    ensures
        match find_char(h@, c, from as int) {
            Some(i) => r == Some(i as usize),
            None => r is None,
        },
{
    let mut i = from;
    while i < h.len()
        invariant
            from <= i,
            find_char(h@, c, from as int) == find_char(h@, c, i as int),
        decreases h@.len() - i,
    {
        if h[i] == c {
            return Some(i);
        }
        i = i + 1;
    }
    None
}

pub open spec fn is_digit(c: char) -> bool {
    '0' <= c && c <= '9'
}

/// How many ASCII digits follow position `from`.
pub open spec fn digit_run(h: Seq<char>, from: int) -> nat
    decreases h.len() - from,
{
    if from < 0 || from >= h.len() || !is_digit(h[from]) {
        0
    } else {
        1 + digit_run(h, from + 1)
    }
}

/// The value of a string of ASCII digits.
pub open spec fn digits_value(d: Seq<char>) -> nat
    decreases d.len(),
{
    if d.len() == 0 {
        0
    } else {
        digits_value(d.drop_last()) * 10 + ((d.last() as int - '0' as int) as nat)
    }
}

/// What `str::parse::<u64>` gives for a run of digits: a value when the run
/// is non-empty and fits.
pub open spec fn parse_digits(d: Seq<char>) -> Option<u64> {
    if d.len() > 0 && digits_value(d) <= u64::MAX {
        Some(digits_value(d) as u64)
    } else {
        None
    }
}

/// The digit run at `from`, parsed.
pub open spec fn number_at(h: Seq<char>, from: int) -> Option<u64> {
    parse_digits(h.subrange(from, from + digit_run(h, from)))
}

proof fn lemma_digit_run_bound(h: Seq<char>, from: int)
    requires
        0 <= from <= h.len(),
    ensures
        from + digit_run(h, from) <= h.len(),
        forall|j: int| from <= j < from + digit_run(h, from) ==> is_digit(h[j]),
        from + digit_run(h, from) < h.len() ==> !is_digit(h[from + digit_run(h, from)]),
    decreases h.len() - from,
{
    if from < h.len() && is_digit(h[from]) {
        lemma_digit_run_bound(h, from + 1);
    }
}

/// Parse the digit run that starts at `from`.
pub fn number_at_exec(h: &Vec<char>, from: usize) -> (r: Option<u64>)
    requires
        from <= h@.len(),
    ensures
        r == number_at(h@, from as int),
{
    proof {
        lemma_digit_run_bound(h@, from as int);
    }
    let ghost run = digit_run(h@, from as int);
    let mut i = from;
    let mut v: u128 = 0;
    let mut over = false;
    while i < h.len() && '0' <= h[i] && h[i] <= '9'
        invariant
            from <= i <= from + run,
            from + run <= h@.len(),
            forall|j: int| from <= j < from + run ==> is_digit(h@[j]),
            from + run < h@.len() ==> !is_digit(h@[from + run]),
            over ==> digits_value(h@.subrange(from as int, i as int)) > u64::MAX,
            !over ==> v == digits_value(h@.subrange(from as int, i as int)) && v <= u64::MAX,
        decreases h@.len() - i,
    {
        let c = h[i];
        let d = (c as u32 - '0' as u32) as u128;
        assert(h@.subrange(from as int, i + 1).drop_last() =~= h@.subrange(from as int, i as int));
        let ghost prev = digits_value(h@.subrange(from as int, i as int));
        assert(digits_value(h@.subrange(from as int, i + 1)) == prev * 10 + d);
        if !over {
            let nv = v * 10 + d;
            if nv > u64::MAX as u128 {
                over = true;
            } else {
                v = nv;
            }
        }
        i = i + 1;
    }
    assert(i == from + run);
    if i == from || over {
        None
    } else {
        Some(v as u64)
    }
}

} // verus!
