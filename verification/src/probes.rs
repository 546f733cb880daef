//! What the hardening probes read, reduced to the numbers they contribute.
//! The probes themselves only read the machine (`/proc/self/status`,
//! `/proc/self/stat`, `/proc/self/maps`, thread names, the environment);
//! everything they decide from what they read is here. None of these values
//! decides anything on its own: each is folded into an accumulator.
use vstd::prelude::*;
use crate::artifact::lower;
use crate::config::trim_str;
use crate::curl::{all_digits, decimal_value, lemma_decimal_grows, trimmed};
use crate::hardware::contains_text;
use crate::machines::starts_with_chars;
use crate::orchestrator::mentions;
use crate::scan::{is_ws, skip_whitespace, skip_ws};
use crate::text::{chars_of, lemma_lines_count, lines_from, lower_text, split_lines};

verus! {

/// `str::parse::<u64>`: an optional `+`, then one or more digits whose value
/// fits.
pub open spec fn spec_parse_u64(t: Seq<char>) -> Option<u64> {
    let d = if t.len() > 0 && t[0] == '+' {
        t.skip(1)
    } else {
        t
    };
    if d.len() > 0 && all_digits(d) && decimal_value(d) <= u64::MAX {
        Some(decimal_value(d) as u64)
    } else {
        None
    }
}

/// `str::parse::<u64>`.
pub fn parse_u64(s: &str) -> (r: Option<u64>)
    ensures
        r == spec_parse_u64(s@),
{
    let c = chars_of(s);
    let n = c.len();
    let mut p: usize = 0;
    if n > 0 && c[0] == '+' {
        p = 1;
    }
    let ghost d = c@.subrange(p as int, n as int);
    assert(d =~= if c@.len() > 0 && c@[0] == '+' {
        c@.skip(1)
    } else {
        c@
    });
    if p >= n {
        return None;
    }
    let mut v: u64 = 0;
    let mut q = p;
    while q < n
        invariant
            p <= q <= n,
            n == c@.len(),
            c@ == s@,
            d == c@.subrange(p as int, n as int),
            d == (if c@.len() > 0 && c@[0] == '+' {
                c@.skip(1)
            } else {
                c@
            }),
            all_digits(c@.subrange(p as int, q as int)),
            v == decimal_value(c@.subrange(p as int, q as int)),
        decreases n - q,
    {
        let ch = c[q];
        if ch < '0' || ch > '9' {
            assert(!all_digits(d)) by {
                assert(d[q - p] == ch);
            }
            return None;
        }
        let dv = (ch as u64) - 48;
        assert(c@.subrange(p as int, q + 1).drop_last() =~= c@.subrange(p as int, q as int));
        let nv: u128 = (v as u128) * 10 + (dv as u128);
        if nv > 0xffff_ffff_ffff_ffffu128 {
            proof {
                if all_digits(d) {
                    assert(c@.subrange(p as int, q + 1) =~= d.subrange(0, q + 1 - p));
                    lemma_decimal_grows(d, c@.subrange(p as int, q + 1));
                }
            }
            return None;
        }
        v = nv as u64;
        q = q + 1;
    }
    assert(c@.subrange(p as int, q as int) =~= d);
    Some(v)
}

/// The tracer's process id from the first `TracerPid:` line at or after line
/// `i`, or 0 when there is none or it does not read as a number.
pub open spec fn tracer_from(lines: Seq<Seq<char>>, i: int) -> u64
    decreases lines.len() - i,
{
    if i < 0 || i >= lines.len() {
        0
    } else if "TracerPid:"@.is_prefix_of(lines[i]) {
        match spec_parse_u64(trimmed(lines[i].skip(10))) {
            Some(v) => v,
            None => 0,
        }
    } else {
        tracer_from(lines, i + 1)
    }
}

/// The debugger probe's reading of `/proc/self/status`: the `TracerPid`
/// field, 0 when no debugger is attached or the field cannot be read.
pub fn tracer_pid(status: &str) -> (r: u64)
    ensures
        r == tracer_from(lines_from(status@, 0), 0),
{
    proof {
        reveal_strlit("TracerPid:");
    }
    let ls = split_lines(status);
    let ghost lines = lines_from(status@, 0);
    let key = chars_of("TracerPid:");
    let mut i: usize = 0;
    while i < ls.len()
        invariant
            lines == lines_from(status@, 0),
            ls@.len() == lines.len(),
            forall|j: int| 0 <= j < ls@.len() ==> #[trigger] ls@[j]@ == lines[j],
            key@ == "TracerPid:"@,
            key@.len() == 10,
            i <= ls@.len(),
            tracer_from(lines, 0) == tracer_from(lines, i as int),
        decreases ls@.len() - i,
    {
        let line = ls[i].as_str();
        let lc = chars_of(line);
        if starts_with_chars(&lc, &key) {
            let rest = trim_str(line.substring_char(10, lc.len()));
            proof {
                assert(lines[i as int] == line@);
                assert(line@.subrange(10, line@.len() as int) =~= line@.skip(10));
                assert("TracerPid:"@.is_prefix_of(lines[i as int]));
            }
            let v = parse_u64(rest);
            assert(tracer_from(lines, i as int) == match v {
                Some(v) => v,
                None => 0u64,
            });
            return match v {
                Some(v) => v,
                None => 0,
            };
        }
        i = i + 1;
    }
    0
}


/// The end of the word that starts at `i`: the next white space, or the end.
pub open spec fn word_end(h: Seq<char>, i: int) -> int
    decreases h.len() - i,
{
    if 0 <= i < h.len() && !is_ws(h[i]) {
        word_end(h, i + 1)
    } else {
        i
    }
}

/// Where the `n`th white-space separated word at or after `from` starts, as
/// `split_whitespace().nth(n)` finds it.
pub open spec fn word_start(h: Seq<char>, from: int, n: nat) -> Option<int>
    decreases n,
{
    let s = skip_ws(h, from);
    if s < 0 || s >= h.len() {
        None
    } else if n == 0 {
        Some(s)
    } else {
        word_start(h, word_end(h, s), (n - 1) as nat)
    }
}

/// The `n`th white-space separated word of `h`, if there is one.
pub open spec fn nth_word(h: Seq<char>, n: nat) -> Option<Seq<char>> {
    match word_start(h, 0, n) {
        Some(s) => Some(h.subrange(s, word_end(h, s))),
        None => None,
    }
}

/// The first byte of `c` in UTF-8.
pub open spec fn utf8_lead(c: char) -> u64 {
    let v = c as u32;
    if v < 0x80 {
        v as u64
    } else if v < 0x800 {
        (0xC0 + v / 64) as u64
    } else if v < 0x10000 {
        (0xE0 + v / 4096) as u64
    } else {
        (0xF0 + v / 262144) as u64
    }
}

/// The self-trace probe's reading of `/proc/self/stat`: the first byte of
/// its third field (the process state), or 0 when there is no such field.
pub open spec fn state_byte(stat: Seq<char>) -> u64 {
    match word_start(stat, 0, 2) {
        Some(s) => utf8_lead(stat[s]),
        None => 0,
    }
}

pub proof fn lemma_word_end(h: Seq<char>, i: int)
    requires
        0 <= i <= h.len(),
    ensures
        i <= word_end(h, i) <= h.len(),
        0 <= i < h.len() && !is_ws(h[i]) ==> i < word_end(h, i),
    decreases h.len() - i,
{
    if 0 <= i < h.len() && !is_ws(h[i]) {
        lemma_word_end(h, i + 1);
    }
}

pub fn word_end_exec(h: &Vec<char>, i: usize) -> (r: usize)
    requires
        i <= h@.len(),
    ensures
        r as int == word_end(h@, i as int),
        i <= r <= h@.len(),
{
    proof {
        lemma_word_end(h@, i as int);
    }
    let mut k = i;
    while k < h.len() && !crate::scan::is_whitespace(h[k])
        invariant
            i <= k <= h@.len(),
            word_end(h@, i as int) == word_end(h@, k as int),
        decreases h@.len() - k,
    {
        k = k + 1;
    }
    k
}

/// Where the `n`th word at or after `from` starts.
pub fn word_start_exec(h: &Vec<char>, from: usize, n: u64) -> (r: Option<usize>)
    requires
        from <= h@.len(),
    ensures
        match r {
            Some(k) => k < h@.len() && word_start(h@, from as int, n as nat) == Some(k as int),
            None => word_start(h@, from as int, n as nat) is None,
        },
{
    let mut at = from;
    let mut left = n;
    loop
        invariant
            at <= h@.len(),
            word_start(h@, from as int, n as nat) == word_start(h@, at as int, left as nat),
        decreases left,
    {
        let s = skip_whitespace(h, at);
        if s >= h.len() {
            return None;
        }
        if left == 0 {
            return Some(s);
        }
        at = word_end_exec(h, s);
        left = left - 1;
    }
}

/// The self-trace probe: the first byte of the third field of
/// `/proc/self/stat`.
pub fn process_state(stat: &str) -> (r: u64)
    ensures
        r == state_byte(stat@),
{
    let c = chars_of(stat);
    match word_start_exec(&c, 0, 2) {
        Some(s) => {
            let v = c[s] as u32;
            if v < 0x80 {
                v as u64
            } else if v < 0x800 {
                (0xC0 + v / 64) as u64
            } else if v < 0x10000 {
                (0xE0 + v / 4096) as u64
            } else {
                (0xF0 + v / 262144) as u64
            }
        },
        None => 0,
    }
}


pub open spec fn one_if(b: bool) -> nat {
    if b {
        1
    } else {
        0
    }
}

/// How many known instrumentation names a (lower-cased) mapping line holds.
pub open spec fn module_marker_hits(l: Seq<char>) -> nat {
    one_if(mentions(l, "frida"@)) + one_if(mentions(l, "gum"@)) + one_if(mentions(l, "gdb"@))
        + one_if(mentions(l, "ltrace"@)) + one_if(mentions(l, "valgrind"@))
        + one_if(mentions(l, "pintool"@)) + one_if(mentions(l, "dynamorio"@))
}

/// A mapping whose permissions (its second field) allow both writing and
/// executing.
pub open spec fn writable_and_executable(line: Seq<char>) -> bool {
    match nth_word(line, 1) {
        Some(p) => p.contains('w') && p.contains('x'),
        None => false,
    }
}

/// One line of `/proc/self/maps`: 16 for each instrumentation name it holds,
/// in any case, and 1 if it is writable and executable.
pub open spec fn mapping_score(line: Seq<char>) -> nat {
    16 * module_marker_hits(lower(line)) + one_if(writable_and_executable(line))
}

/// The scores of the first `k` lines, summed.
pub open spec fn maps_score_upto(lines: Seq<Seq<char>>, k: int) -> nat
    decreases k,
{
    if k <= 0 || k > lines.len() {
        0
    } else {
        maps_score_upto(lines, k - 1) + mapping_score(lines[k - 1])
    }
}

/// The injected-module probe's reading of `/proc/self/maps`.
pub open spec fn maps_score(maps: Seq<char>) -> nat {
    let lines = lines_from(maps, 0);
    maps_score_upto(lines, lines.len() as int)
}

/// Whether `h[from..to]` holds `ch`.
fn has_char(h: &Vec<char>, from: usize, to: usize, ch: char) -> (r: bool)
    requires
        from <= to <= h@.len(),
    ensures
        r == h@.subrange(from as int, to as int).contains(ch),
{
    let ghost part = h@.subrange(from as int, to as int);
    let mut k = from;
    while k < to
        invariant
            from <= k <= to <= h@.len(),
            part == h@.subrange(from as int, to as int),
            forall|j: int| from <= j < k ==> h@[j] != ch,
        decreases to - k,
    {
        if h[k] == ch {
            assert(part[k - from] == ch);
            return true;
        }
        k = k + 1;
    }
    assert forall|j: int| 0 <= j < part.len() implies part[j] != ch by {
        assert(part[j] == h@[from + j]);
    }
    false
}

fn writable_and_executable_exec(line: &Vec<char>) -> (r: bool)
    ensures
        r == writable_and_executable(line@),
{
    match word_start_exec(line, 0, 1) {
        Some(s) => {
            proof {
                lemma_word_end(line@, s as int);
            }
            let e = word_end_exec(line, s);
            let w = has_char(line, s, e, 'w');
            let x = has_char(line, s, e, 'x');
            w && x
        },
        None => false,
    }
}

fn module_hits_exec(l: &Vec<char>) -> (r: u64)
    ensures
        r == module_marker_hits(l@),
{
    let mut k: u64 = 0;
    if contains_text(l, "frida") {
        k = k + 1;
    }
    if contains_text(l, "gum") {
        k = k + 1;
    }
    if contains_text(l, "gdb") {
        k = k + 1;
    }
    if contains_text(l, "ltrace") {
        k = k + 1;
    }
    if contains_text(l, "valgrind") {
        k = k + 1;
    }
    if contains_text(l, "pintool") {
        k = k + 1;
    }
    if contains_text(l, "dynamorio") {
        k = k + 1;
    }
    k
}

/// The injected-module probe: instrumentation named among the process's
/// mappings, and writable-and-executable regions, which loaded code does not
/// need but hooking trampolines do.
pub fn module_score(maps: &str) -> (r: u64)
    requires
        113 * maps@.len() <= u64::MAX,
    ensures
        r == maps_score(maps@),
{
    let ls = split_lines(maps);
    let ghost lines = lines_from(maps@, 0);
    proof {
        lemma_lines_count(maps@, 0);
    }
    let mut score: u64 = 0;
    let mut i: usize = 0;
    while i < ls.len()
        invariant
            lines == lines_from(maps@, 0),
            ls@.len() == lines.len(),
            lines.len() <= maps@.len(),
            113 * maps@.len() <= u64::MAX,
            forall|j: int| 0 <= j < ls@.len() ==> #[trigger] ls@[j]@ == lines[j],
            i <= ls@.len(),
            score == maps_score_upto(lines, i as int),
            score <= 113 * i,
        decreases ls@.len() - i,
    {
        let lc = chars_of(ls[i].as_str());
        let low = lower_text(ls[i].as_str());
        let hits = module_hits_exec(&low);
        let wx = writable_and_executable_exec(&lc);
        let line_score = 16 * hits + if wx { 1 } else { 0 };
        proof {
            assert(lines[i as int] == lc@);
        }
        score = score + line_score;
        i = i + 1;
    }
    score
}

/// How many known instrumentation names a (lower-cased) thread name holds.
pub open spec fn thread_marker_hits(l: Seq<char>) -> nat {
    one_if(mentions(l, "gum-js"@)) + one_if(mentions(l, "gmain"@)) + one_if(mentions(l, "frida"@))
        + one_if(mentions(l, "pool-frida"@))
}

/// The thread probe's score for the first `k` thread names: 8 for each
/// instrumentation name each holds, trimmed and in any case.
pub open spec fn threads_score_upto(names: Seq<String>, k: int) -> nat
    decreases k,
{
    if k <= 0 || k > names.len() {
        0
    } else {
        threads_score_upto(names, k - 1) + 8 * thread_marker_hits(lower(trimmed(names[k - 1]@)))
    }
}

/// The instrumentation-thread probe, over the names of the process's threads
/// (`/proc/self/task/*/comm`).
pub fn thread_score(names: &Vec<String>) -> (r: u64)
    requires
        32 * names@.len() <= u64::MAX,
    ensures
        r == threads_score_upto(names@, names@.len() as int),
{
    let mut score: u64 = 0;
    let mut i: usize = 0;
    while i < names.len()
        invariant
            32 * names@.len() <= u64::MAX,
            i <= names@.len(),
            score == threads_score_upto(names@, i as int),
            score <= 32 * i,
        decreases names@.len() - i,
    {
        let low = lower_text(trim_str(names[i].as_str()));
        let mut k: u64 = 0;
        if contains_text(&low, "gum-js") {
            k = k + 1;
        }
        if contains_text(&low, "gmain") {
            k = k + 1;
        }
        if contains_text(&low, "frida") {
            k = k + 1;
        }
        if contains_text(&low, "pool-frida") {
            k = k + 1;
        }
        score = score + 8 * k;
        i = i + 1;
    }
    score
}

/// How many of `flags` are set.
pub open spec fn count_set(flags: Seq<bool>) -> nat
    decreases flags.len(),
{
    if flags.len() == 0 {
        0
    } else {
        count_set(flags.drop_last()) + one_if(flags.last())
    }
}

/// How many of the probed environment variables are set.
pub fn count_present(flags: &Vec<bool>) -> (r: u64)
    ensures
        r == count_set(flags@),
{
    let mut n: u64 = 0;
    let mut i: usize = 0;
    while i < flags.len()
        invariant
            i <= flags@.len(),
            n == count_set(flags@.take(i as int)),
            n <= i,
        decreases flags@.len() - i,
    {
        assert(flags@.take(i + 1).drop_last() =~= flags@.take(i as int));
        if flags[i] {
            n = n + 1;
        }
        i = i + 1;
    }
    assert(flags@.take(i as int) =~= flags@);
    n
}

/// The library-injection variables the client's startup probe looks for.
pub fn injection_variables() -> (r: Vec<&'static str>)
    ensures
        r@.len() == 4,
        r@[0]@ == "LD_PRELOAD"@,
        r@[1]@ == "LD_AUDIT"@,
        r@[2]@ == "DYLD_INSERT_LIBRARIES"@,
        r@[3]@ == "DYLD_LIBRARY_PATH"@,
{
    vec!["LD_PRELOAD", "LD_AUDIT", "DYLD_INSERT_LIBRARIES", "DYLD_LIBRARY_PATH"]
}

/// The analysis-environment variables a capsule's runtime probe looks for.
pub fn marker_variables() -> (r: Vec<&'static str>)
    ensures
        r@.len() == 3,
        r@[0]@ == "LD_PRELOAD"@,
        r@[1]@ == "LD_AUDIT"@,
        r@[2]@ == "DYLD_INSERT_LIBRARIES"@,
{
    vec!["LD_PRELOAD", "LD_AUDIT", "DYLD_INSERT_LIBRARIES"]
}

} // verus!
