//! Build-time protection configuration parsed from the command line (the
//! GUI supplies the same structure from its panel: independent toggles,
//! never radio modes). Unknown or malformed flags are rejected rather than
//! ignored, so a mistyped security flag can never silently disable a
//! protection.
use vstd::prelude::*;
use crate::artifact::lower;
use crate::curl::{all_digits, decimal_value, lemma_decimal_grows, trim_bounds, trimmed};
use crate::hardware::{policy_named, HardwarePolicy};
use crate::scan::{find_char, find_char_exec};
use crate::text::{chars_of, is_word, lower_string, lower_text};

verus! {

/// The digits `d` read as a number no greater than `limit`.
pub open spec fn bounded_value(d: Seq<char>, limit: nat) -> Option<nat> {
    if d.len() > 0 && all_digits(d) && decimal_value(d) <= limit {
        Some(decimal_value(d))
    } else {
        None
    }
}

/// `str::parse::<u32>`: an optional `+`, then digits whose value fits.
pub open spec fn spec_parse_u32(t: Seq<char>) -> Option<u32> {
    let d = if t.len() > 0 && t[0] == '+' {
        t.skip(1)
    } else {
        t
    };
    match bounded_value(d, 4294967295) {
        Some(v) => Some(v as u32),
        None => None,
    }
}

/// `str::parse::<i32>`: an optional sign, then digits whose value fits.
pub open spec fn spec_parse_i32(t: Seq<char>) -> Option<i32> {
    if t.len() > 0 && t[0] == '-' {
        match bounded_value(t.skip(1), 2147483648) {
            Some(v) => Some((-v) as i32),
            None => None,
        }
    } else {
        let d = if t.len() > 0 && t[0] == '+' {
            t.skip(1)
        } else {
            t
        };
        match bounded_value(d, 2147483647) {
            Some(v) => Some(v as i32),
            None => None,
        }
    }
}

/// The value of the digits in `c[p..b]`, if they are all digits, there is
/// at least one, and the value is at most `limit`.
fn digits_value(c: &Vec<char>, p: usize, b: usize, limit: u64) -> (r: Option<u64>)
    requires
        p <= b <= c@.len(),
        limit <= 4294967296,
    ensures
        match bounded_value(c@.subrange(p as int, b as int), limit as nat) {
            Some(v) => r == Some(v as u64),
            None => r is None,
        },
{
    let ghost d = c@.subrange(p as int, b as int);
    if p >= b {
        return None;
    }
    let mut v: u64 = 0;
    let mut q = p;
    while q < b
        invariant
            p <= q <= b <= c@.len(),
            d == c@.subrange(p as int, b as int),
            limit <= 4294967296,
            all_digits(c@.subrange(p as int, q as int)),
            v == decimal_value(c@.subrange(p as int, q as int)),
            v <= limit,
        decreases b - q,
    {
        let ch = c[q];
        if ch < '0' || ch > '9' {
            assert(!all_digits(d)) by {
                assert(d[q - p] == ch);
            }
            return None;
        }
        let dv = (ch as u64) - 48;
        assert(c@.subrange(p as int, q + 1).drop_last() =~= c@.subrange(p as int, q as int));
        let nv = v * 10 + dv;
        if nv > limit {
            proof {
                if all_digits(d) {
                    assert(c@.subrange(p as int, q + 1) =~= d.subrange(0, q + 1 - p));
                    lemma_decimal_grows(d, c@.subrange(p as int, q + 1));
                }
            }
            return None;
        }
        v = nv;
        q = q + 1;
    }
    assert(c@.subrange(p as int, q as int) =~= d);
    Some(v)
}

/// `str::parse::<u32>`.
pub fn parse_u32(s: &str) -> (r: Option<u32>)
    ensures
        r == spec_parse_u32(s@),
{
    let c = chars_of(s);
    let n = c.len();
    let mut p: usize = 0;
    if n > 0 && c[0] == '+' {
        p = 1;
    }
    assert(c@.subrange(p as int, n as int) =~= if c@.len() > 0 && c@[0] == '+' {
        c@.skip(1)
    } else {
        c@
    });
    match digits_value(&c, p, n, 4294967295) {
        Some(v) => Some(v as u32),
        None => None,
    }
}

/// `str::parse::<i32>`.
pub fn parse_i32(s: &str) -> (r: Option<i32>)
    ensures
        r == spec_parse_i32(s@),
{
    let c = chars_of(s);
    let n = c.len();
    if n > 0 && c[0] == '-' {
        assert(c@.subrange(1, n as int) =~= c@.skip(1));
        match digits_value(&c, 1, n, 2147483648) {
            Some(v) => {
                let neg: i64 = 0i64 - (v as i64);
                Some(neg as i32)
            },
            None => None,
        }
    } else {
        let mut p: usize = 0;
        if n > 0 && c[0] == '+' {
            p = 1;
        }
        assert(c@.subrange(p as int, n as int) =~= if c@.len() > 0 && c@[0] == '+' {
            c@.skip(1)
        } else {
            c@
        });
        match digits_value(&c, p, n, 2147483647) {
            Some(v) => Some(v as i32),
            None => None,
        }
    }
}

/// `str::trim`, as a slice of the same text.
pub fn trim_str(s: &str) -> (r: &str)
    ensures
        r@ == trimmed(s@),
{
    let c = chars_of(s);
    let (a, b) = trim_bounds(&c);
    s.substring_char(a, b)
}

/// `HH:MM` read into minutes past midnight, as the command line reads it:
/// the first `:` splits the text, each side is trimmed and read as a number,
/// and the hour must be at most 23 and the minute at most 59.
pub open spec fn spec_config_hhmm(s: Seq<char>) -> Result<u32, Seq<char>> {
    match find_char(s, ':', 0) {
        None => Err("bad time '"@ + s + "', expected HH:MM"@),
        Some(k) => match spec_parse_u32(trimmed(s.subrange(0, k))) {
            None => Err("bad hour in '"@ + s + "'"@),
            Some(h) => match spec_parse_u32(trimmed(s.subrange(k + 1, s.len() as int))) {
                None => Err("bad minute in '"@ + s + "'"@),
                Some(m) => if h > 23 || m > 59 {
                    Err("time out of range: '"@ + s + "'"@)
                } else {
                    Ok((h * 60 + m) as u32)
                },
            },
        },
    }
}

fn quoted(head: &str, s: &str, tail: &str) -> (r: String)
    ensures
        r@ == head@ + s@ + tail@,
{
    let mut m = String::from_str(head);
    m.append(s);
    m.append(tail);
    m
}

/// Parse `HH:MM` into minutes past midnight.
pub fn parse_hhmm(s: &str) -> (r: Result<u32, String>)
    ensures
        match r {
            Ok(v) => spec_config_hhmm(s@) == Ok::<u32, Seq<char>>(v) && v < 1440,
            Err(e) => spec_config_hhmm(s@) == Err::<u32, Seq<char>>(e@),
        },
{
    let c = chars_of(s);
    let n = c.len();
    match find_char_exec(&c, ':', 0) {
        None => Err(quoted("bad time '", s, "', expected HH:MM")),
        Some(k) => {
            proof {
                crate::json::lemma_find_char_bound(c@, ':', 0);
            }
            let hs = trim_str(s.substring_char(0, k));
            match parse_u32(hs) {
                None => Err(quoted("bad hour in '", s, "'")),
                Some(h) => {
                    let ms = trim_str(s.substring_char(k + 1, n));
                    match parse_u32(ms) {
                        None => Err(quoted("bad minute in '", s, "'")),
                        Some(m) => {
                            if h > 23 || m > 59 {
                                Err(quoted("time out of range: '", s, "'"))
                            } else {
                                Ok(h * 60 + m)
                            }
                        },
                    }
                },
            }
        },
    }
}


/// A daily schedule of unlock slots (the time protection).
pub struct DailySchedule {
    pub slots_minutes: Vec<u32>,
    pub tolerance_minutes: u32,
    pub tz_offset_minutes: i32,
}

/// Compression effort for the sealed package.
#[derive(Clone, Copy, Debug, PartialEq, Eq, Structural)]
pub enum CompressionMode {
    Automatic,
    Maximum,
    Balanced,
    Fast,
}

pub open spec fn compression_named(s: Seq<char>) -> Option<CompressionMode> {
    if s == "automatic"@ {
        Some(CompressionMode::Automatic)
    } else if s == "maximum"@ {
        Some(CompressionMode::Maximum)
    } else if s == "balanced"@ {
        Some(CompressionMode::Balanced)
    } else if s == "fast"@ {
        Some(CompressionMode::Fast)
    } else {
        None
    }
}

/// The name a compression mode goes by on the command line.
pub open spec fn mode_name(m: CompressionMode) -> Seq<char> {
    match m {
        CompressionMode::Automatic => "automatic"@,
        CompressionMode::Maximum => "maximum"@,
        CompressionMode::Balanced => "balanced"@,
        CompressionMode::Fast => "fast"@,
    }
}

/// Each compression mode is named by its own name and by nothing else: a
/// text parses to mode `m` exactly when it is `m`'s name. So the four names
/// parse to four different modes, and every other text to none.
pub proof fn lemma_compression_names(s: Seq<char>, m: CompressionMode)
    ensures
        compression_named(s) == Some(m) <==> s == mode_name(m),
        compression_named(s) is None <==> (s != mode_name(CompressionMode::Automatic) && s != mode_name(
            CompressionMode::Maximum,
        ) && s != mode_name(CompressionMode::Balanced) && s != mode_name(CompressionMode::Fast)),
{
    reveal_strlit("automatic");
    reveal_strlit("maximum");
    reveal_strlit("balanced");
    reveal_strlit("fast");
    assert("automatic"@.len() == 9 && "maximum"@.len() == 7 && "balanced"@.len() == 8 && "fast"@.len() == 4);
    if s == "automatic"@ || s == "maximum"@ || s == "balanced"@ || s == "fast"@ {
        assert(s.len() == 9 || s.len() == 7 || s.len() == 8 || s.len() == 4);
    }
    match m {
        CompressionMode::Automatic => {},
        CompressionMode::Maximum => {},
        CompressionMode::Balanced => {},
        CompressionMode::Fast => {},
    }
}

impl CompressionMode {
    /// One of `automatic`, `maximum`, `balanced` or `fast`.
    pub fn parse(s: &str) -> (r: Option<Self>)
        ensures
            r == compression_named(s@),
            forall|m: CompressionMode| #[trigger] mode_name(m) == s@ <==> r == Some(m),
    {
        proof {
            assert forall|m: CompressionMode| #[trigger] mode_name(m) == s@ <==> compression_named(s@) == Some(m) by {
                lemma_compression_names(s@, m);
            }
        }
        let c = chars_of(s);
        if is_word(&c, "automatic") {
            Some(CompressionMode::Automatic)
        } else if is_word(&c, "maximum") {
            Some(CompressionMode::Maximum)
        } else if is_word(&c, "balanced") {
            Some(CompressionMode::Balanced)
        } else if is_word(&c, "fast") {
            Some(CompressionMode::Fast)
        } else {
            None
        }
    }
}

pub struct ProtectionConfig {
    /// Optional time protection.
    pub schedule: Option<DailySchedule>,
    /// Optional location protection tolerance in metres.
    pub location_tolerance_m: Option<u32>,
    /// Execution policy: the capsule destroys itself after one run.
    pub one_shot: bool,
    /// Extra trusted fingerprint records to include.
    pub trust_files: Vec<String>,
    /// Select trusted machines from the registry by label.
    pub trust_tags: Vec<String>,
    /// How multiple tags combine: ANY selected tag, or ALL of them.
    pub tag_mode_all: bool,
    /// Free-text filter over ids and labels.
    pub trust_query: String,
    /// Compression effort.
    pub compression: CompressionMode,
    /// Creator mode: diagnostics only, never additional authority.
    pub creator_mode: bool,
    /// Hardware-backed machine protection policy.
    pub hardware: HardwarePolicy,
}

/// What a protection configuration says, as values.
pub struct ConfigModel {
    pub schedule: Option<(Seq<u32>, u32, i32)>,
    pub location: Option<u32>,
    pub one_shot: bool,
    pub trust_files: Seq<Seq<char>>,
    pub trust_tags: Seq<Seq<char>>,
    pub tag_mode_all: bool,
    pub trust_query: Seq<char>,
    pub compression: CompressionMode,
    pub creator_mode: bool,
    pub hardware: HardwarePolicy,
}

pub open spec fn texts(v: Seq<String>) -> Seq<Seq<char>> {
    v.map_values(|s: String| s@)
}

pub open spec fn config_model(c: ProtectionConfig) -> ConfigModel {
    ConfigModel {
        schedule: match c.schedule {
            Some(d) => Some((d.slots_minutes@, d.tolerance_minutes, d.tz_offset_minutes)),
            None => None,
        },
        location: c.location_tolerance_m,
        one_shot: c.one_shot,
        trust_files: texts(c.trust_files@),
        trust_tags: texts(c.trust_tags@),
        tag_mode_all: c.tag_mode_all,
        trust_query: c.trust_query@,
        compression: c.compression,
        creator_mode: c.creator_mode,
        hardware: c.hardware,
    }
}

/// The default: no time or location protection, no trusted extras, ANY tag,
/// automatic compression, creator mode off, hardware preferred.
pub open spec fn default_model() -> ConfigModel {
    ConfigModel {
        schedule: None,
        location: None,
        one_shot: false,
        trust_files: Seq::empty(),
        trust_tags: Seq::empty(),
        tag_mode_all: false,
        trust_query: Seq::empty(),
        compression: CompressionMode::Automatic,
        creator_mode: false,
        hardware: HardwarePolicy::Preferred,
    }
}

impl Default for ProtectionConfig {
    fn default() -> (c: Self)
        ensures
            config_model(c) == default_model(),
    {
        let c = ProtectionConfig {
            schedule: None,
            location_tolerance_m: None,
            one_shot: false,
            trust_files: Vec::new(),
            trust_tags: Vec::new(),
            tag_mode_all: false,
            trust_query: String::new(),
            compression: CompressionMode::Automatic,
            creator_mode: false,
            hardware: HardwarePolicy::Preferred,
        };
        assert(texts(c.trust_files@) =~= Seq::<Seq<char>>::empty());
        assert(texts(c.trust_tags@) =~= Seq::<Seq<char>>::empty());
        c
    }
}


/// The state of a parse part way through the flags.
pub struct ParseState {
    pub m: ConfigModel,
    pub slots: Seq<u32>,
    pub tol: u32,
    pub tz: i32,
    pub time: bool,
}

pub open spec fn initial_state() -> ParseState {
    ParseState { m: default_model(), slots: Seq::empty(), tol: 15, tz: 0, time: false }
}

/// The slots of a `--time` value: split at each `,`, each piece trimmed and
/// read as `HH:MM`; the first bad piece is the error.
pub open spec fn slots_from(v: Seq<char>, start: int) -> Result<Seq<u32>, Seq<char>>
    decreases v.len() - start,
{
    match find_char(v, ',', start) {
        Some(k) => if 0 <= start <= k < v.len() {
            match spec_config_hhmm(trimmed(v.subrange(start, k))) {
                Err(e) => Err(e),
                Ok(m) => match slots_from(v, k + 1) {
                    Ok(rest) => Ok(seq![m] + rest),
                    Err(e) => Err(e),
                },
            }
        } else {
            Err(Seq::empty())
        },
        None => match spec_config_hhmm(trimmed(v.subrange(start, v.len() as int))) {
            Ok(m) => Ok(seq![m]),
            Err(e) => Err(e),
        },
    }
}

/// What the flag at `i` does: the index of the last argument it used and
/// the state after it, or why the command line is refused.
pub open spec fn flag_step(args: Seq<Seq<char>>, i: int, st: ParseState) -> Result<(int, ParseState), Seq<char>> {
    let a = args[i];
    let given = i + 1 < args.len();
    let v = args[i + 1];
    let missing = Err(a + " requires a value"@);
    if a == "--time"@ {
        if !given {
            missing
        } else {
            match slots_from(v, 0) {
                Ok(s) => Ok((i + 1, ParseState { slots: st.slots + s, time: true, ..st })),
                Err(e) => Err(e),
            }
        }
    } else if a == "--time-tolerance-min"@ {
        if !given {
            missing
        } else {
            match spec_parse_u32(v) {
                Some(n) => Ok((i + 1, ParseState { tol: n, ..st })),
                None => Err("bad tolerance"@),
            }
        }
    } else if a == "--tz-offset-min"@ {
        if !given {
            missing
        } else {
            match spec_parse_i32(v) {
                Some(n) => Ok((i + 1, ParseState { tz: n, ..st })),
                None => Err("bad tz offset"@),
            }
        }
    } else if a == "--location"@ {
        if !given {
            missing
        } else {
            match spec_parse_u32(v) {
                Some(n) => if n == 0 {
                    Err("location tolerance must be > 0"@)
                } else {
                    Ok((i + 1, ParseState { m: ConfigModel { location: Some(n), ..st.m }, ..st }))
                },
                None => Err("bad location tolerance"@),
            }
        }
    } else if a == "--one-shot"@ {
        Ok((i, ParseState { m: ConfigModel { one_shot: true, ..st.m }, ..st }))
    } else if a == "--creator"@ {
        Ok((i, ParseState { m: ConfigModel { creator_mode: true, ..st.m }, ..st }))
    } else if a == "--hardware"@ {
        if !given {
            missing
        } else {
            match policy_named(v) {
                Some(h) => Ok((i + 1, ParseState { m: ConfigModel { hardware: h, ..st.m }, ..st })),
                None => Err("--hardware must be 'preferred' or 'required', not '"@ + v + "'"@),
            }
        }
    } else if a == "--compression"@ {
        if !given {
            missing
        } else {
            match compression_named(v) {
                Some(c) => Ok((i + 1, ParseState { m: ConfigModel { compression: c, ..st.m }, ..st })),
                None => Err("--compression must be automatic, maximum, balanced or fast, not '"@ + v + "'"@),
            }
        }
    } else if a == "--trust"@ {
        if !given {
            missing
        } else {
            Ok((i + 1, ParseState { m: ConfigModel { trust_files: st.m.trust_files.push(v), ..st.m }, ..st }))
        }
    } else if a == "--trust-tag"@ {
        if !given {
            missing
        } else {
            Ok((i + 1, ParseState { m: ConfigModel { trust_tags: st.m.trust_tags.push(v), ..st.m }, ..st }))
        }
    } else if a == "--trust-search"@ {
        if !given {
            missing
        } else {
            Ok((i + 1, ParseState { m: ConfigModel { trust_query: v, ..st.m }, ..st }))
        }
    } else if a == "--tag-mode"@ {
        if !given {
            missing
        } else if lower(v) == "all"@ {
            Ok((i + 1, ParseState { m: ConfigModel { tag_mode_all: true, ..st.m }, ..st }))
        } else if lower(v) == "any"@ {
            Ok((i + 1, ParseState { m: ConfigModel { tag_mode_all: false, ..st.m }, ..st }))
        } else {
            Err("--tag-mode must be 'any' or 'all', not '"@ + lower(v) + "'"@)
        }
    } else {
        Err("unknown flag '"@ + a + "'"@)
    }
}

/// The flags from `i` on, applied in order; the first refusal stops.
pub open spec fn parse_from(args: Seq<Seq<char>>, i: int, st: ParseState) -> Result<ParseState, Seq<char>>
    decreases args.len() - i,
{
    if i < 0 || i >= args.len() {
        Ok(st)
    } else {
        match flag_step(args, i, st) {
            Err(e) => Err(e),
            Ok((j, next)) => if i <= j {
                parse_from(args, j + 1, next)
            } else {
                Ok(next)
            },
        }
    }
}

/// What a command line configures, or why it is refused.
pub open spec fn spec_parse(args: Seq<Seq<char>>) -> Result<ConfigModel, Seq<char>> {
    match parse_from(args, 0, initial_state()) {
        Err(e) => Err(e),
        Ok(st) => if st.time {
            if st.slots.len() == 0 {
                Err("--time given with no slots"@)
            } else if st.tol == 0 {
                Err("time tolerance must be > 0"@)
            } else {
                Ok(ConfigModel { schedule: Some((st.slots, st.tol, st.tz)), ..st.m })
            }
        } else {
            Ok(st.m)
        },
    }
}


pub open spec fn joined(done: Seq<u32>, r: Result<Seq<u32>, Seq<char>>) -> Result<Seq<u32>, Seq<char>> {
    match r {
        Ok(s) => Ok(done + s),
        Err(e) => Err(e),
    }
}

/// Read the slots of a `--time` value onto `slots`.
fn time_slots(v: &str, slots: &mut Vec<u32>) -> (r: Result<(), String>)
    ensures
        match slots_from(v@, 0) {
            Ok(s) => r is Ok && final(slots)@ == old(slots)@ + s,
            Err(e) => r matches Err(m) && m@ == e,
        },
{
    let c = chars_of(v);
    let n = c.len();
    let ghost base = old(slots)@;
    let mut start: usize = 0;
    assert(base =~= base + Seq::<u32>::empty());
    assert(joined(Seq::<u32>::empty(), slots_from(v@, 0)) == slots_from(v@, 0)) by {
        match slots_from(v@, 0) {
            Ok(x) => {
                assert(Seq::<u32>::empty() + x =~= x);
            },
            Err(e) => {},
        }
    }
    loop
        invariant
            c@ == v@,
            n == c@.len(),
            start <= n,
            base == old(slots)@,
            exists|done: Seq<u32>| slots@ == base + done && slots_from(v@, 0) == #[trigger] joined(done, slots_from(v@, start as int)),
        decreases n - start,
    {
        let ghost done = choose|done: Seq<u32>| slots@ == base + done && slots_from(v@, 0) == #[trigger] joined(done, slots_from(v@, start as int));
        match find_char_exec(&c, ',', start) {
            Some(k) => {
                proof {
                    crate::json::lemma_find_char_bound(c@, ',', start as int);
                }
                let piece = trim_str(v.substring_char(start, k));
                match parse_hhmm(piece) {
                    Err(e) => {
                        return Err(e);
                    },
                    Ok(m) => {
                        slots.push(m);
                        proof {
                            let nd = done.push(m);
                            assert(slots@ =~= base + nd);
                            match slots_from(v@, k + 1) {
                                Ok(rest) => {
                                    assert(done + (seq![m] + rest) =~= nd + rest);
                                },
                                Err(e) => {},
                            }
                            assert(slots_from(v@, 0) == joined(nd, slots_from(v@, k + 1)));
                        }
                        start = k + 1;
                    },
                }
            },
            None => {
                let piece = trim_str(v.substring_char(start, n));
                match parse_hhmm(piece) {
                    Err(e) => {
                        return Err(e);
                    },
                    Ok(m) => {
                        slots.push(m);
                        assert(find_char(v@, ',', start as int) is None);
                        assert(slots_from(v@, start as int) == Ok::<Seq<u32>, Seq<char>>(seq![m]));
                        assert(slots@ =~= base + (done + seq![m]));
                        return Ok(());
                    },
                }
            },
        }
    }
}

/// A parse in progress.
struct Parsing {
    cfg: ProtectionConfig,
    slots: Vec<u32>,
    tol: u32,
    tz: i32,
    time: bool,
}

spec fn parsing_view(p: Parsing) -> ParseState {
    ParseState { m: config_model(p.cfg), slots: p.slots@, tol: p.tol, tz: p.tz, time: p.time }
}

fn requires_value(a: &str) -> (r: String)
    ensures
        r@ == a@ + " requires a value"@,
{
    let mut m = String::from_str(a);
    m.append(" requires a value");
    m
}

impl Parsing {
    /// Apply the flag at `i`; the index of the last argument it used.
    fn apply(&mut self, args: &Vec<String>, i: usize) -> (r: Result<usize, String>)
        requires
            i < args@.len(),
            old(self).cfg.schedule is None,
        ensures
            match flag_step(texts(args@), i as int, parsing_view(*old(self))) {
                Ok((j, st)) => r == Ok::<usize, String>(j as usize) && parsing_view(*final(self)) == st
                    && final(self).cfg.schedule is None,
                Err(e) => r matches Err(m) && m@ == e,
            },
    {
        let ghost av = texts(args@);
        let ghost st = parsing_view(*self);
        let a = args[i].as_str();
        assert(a@ == av[i as int]);
        let ac = chars_of(a);
        let given = args.len() - i > 1;
        if is_word(&ac, "--time") {
            if !given {
                return Err(requires_value(a));
            }
            let v = args[i + 1].as_str();
            assert(v@ == av[i + 1]);
            let r = time_slots(v, &mut self.slots);
            match r {
                Ok(()) => {
                    self.time = true;
                    Ok(i + 1)
                },
                Err(e) => Err(e),
            }
        } else if is_word(&ac, "--time-tolerance-min") {
            if !given {
                return Err(requires_value(a));
            }
            assert(args[i + 1 as int]@ == av[i + 1]);
            match parse_u32(args[i + 1].as_str()) {
                Some(n) => {
                    self.tol = n;
                    Ok(i + 1)
                },
                None => Err(String::from_str("bad tolerance")),
            }
        } else if is_word(&ac, "--tz-offset-min") {
            if !given {
                return Err(requires_value(a));
            }
            assert(args[i + 1 as int]@ == av[i + 1]);
            match parse_i32(args[i + 1].as_str()) {
                Some(n) => {
                    self.tz = n;
                    Ok(i + 1)
                },
                None => Err(String::from_str("bad tz offset")),
            }
        } else if is_word(&ac, "--location") {
            if !given {
                return Err(requires_value(a));
            }
            assert(args[i + 1 as int]@ == av[i + 1]);
            match parse_u32(args[i + 1].as_str()) {
                Some(n) => {
                    if n == 0 {
                        return Err(String::from_str("location tolerance must be > 0"));
                    }
                    self.cfg.location_tolerance_m = Some(n);
                    Ok(i + 1)
                },
                None => Err(String::from_str("bad location tolerance")),
            }
        } else if is_word(&ac, "--one-shot") {
            self.cfg.one_shot = true;
            Ok(i)
        } else if is_word(&ac, "--creator") {
            self.cfg.creator_mode = true;
            Ok(i)
        } else if is_word(&ac, "--hardware") {
            if !given {
                return Err(requires_value(a));
            }
            let v = args[i + 1].as_str();
            assert(v@ == av[i + 1]);
            match HardwarePolicy::parse(v) {
                Some(h) => {
                    self.cfg.hardware = h;
                    Ok(i + 1)
                },
                None => Err(quoted("--hardware must be 'preferred' or 'required', not '", v, "'")),
            }
        } else if is_word(&ac, "--compression") {
            if !given {
                return Err(requires_value(a));
            }
            let v = args[i + 1].as_str();
            assert(v@ == av[i + 1]);
            match CompressionMode::parse(v) {
                Some(c) => {
                    self.cfg.compression = c;
                    Ok(i + 1)
                },
                None => Err(quoted("--compression must be automatic, maximum, balanced or fast, not '", v, "'")),
            }
        } else if is_word(&ac, "--trust") {
            if !given {
                return Err(requires_value(a));
            }
            let v = args[i + 1].clone();
            assert(v@ == av[i + 1]);
            let ghost before = self.cfg.trust_files@;
            self.cfg.trust_files.push(v);
            assert(texts(self.cfg.trust_files@) =~= texts(before).push(av[i + 1]));
            Ok(i + 1)
        } else if is_word(&ac, "--trust-tag") {
            if !given {
                return Err(requires_value(a));
            }
            let v = args[i + 1].clone();
            assert(v@ == av[i + 1]);
            let ghost before = self.cfg.trust_tags@;
            self.cfg.trust_tags.push(v);
            assert(texts(self.cfg.trust_tags@) =~= texts(before).push(av[i + 1]));
            Ok(i + 1)
        } else if is_word(&ac, "--trust-search") {
            if !given {
                return Err(requires_value(a));
            }
            let v = args[i + 1].clone();
            assert(v@ == av[i + 1]);
            self.cfg.trust_query = v;
            Ok(i + 1)
        } else if is_word(&ac, "--tag-mode") {
            if !given {
                return Err(requires_value(a));
            }
            let v = args[i + 1].as_str();
            assert(v@ == av[i + 1]);
            let l = lower_text(v);
            if is_word(&l, "all") {
                self.cfg.tag_mode_all = true;
                Ok(i + 1)
            } else if is_word(&l, "any") {
                self.cfg.tag_mode_all = false;
                Ok(i + 1)
            } else {
                let other = lower_string(v);
                Err(quoted("--tag-mode must be 'any' or 'all', not '", other.as_str(), "'"))
            }
        } else {
            Err(quoted("unknown flag '", a, "'"))
        }
    }
}

/// Parse protection flags. Unknown flags are rejected rather than ignored,
/// so a mistyped security flag can never silently disable a protection.
pub fn parse(args: &Vec<String>) -> (r: Result<ProtectionConfig, String>)
    ensures
        match spec_parse(texts(args@)) {
            Ok(m) => r matches Ok(c) && config_model(c) == m,
            Err(e) => r matches Err(m) && m@ == e,
        },
{
    let ghost av = texts(args@);
    let mut p = Parsing {
        cfg: ProtectionConfig::default(),
        slots: Vec::new(),
        tol: 15,
        tz: 0,
        time: false,
    };
    assert(p.slots@ =~= Seq::<u32>::empty());
    assert(parsing_view(p) == initial_state());
    let mut i: usize = 0;
    while i < args.len()
        invariant
            av == texts(args@),
            i <= args@.len(),
            p.cfg.schedule is None,
            parse_from(av, 0, initial_state()) == parse_from(av, i as int, parsing_view(p)),
        decreases args@.len() - i,
    {
        match p.apply(args, i) {
            Ok(j) => {
                i = j + 1;
            },
            Err(e) => {
                return Err(e);
            },
        }
    }
    let Parsing { cfg, slots, tol, tz, time } = p;
    let mut cfg = cfg;
    if time {
        if slots.len() == 0 {
            return Err(String::from_str("--time given with no slots"));
        }
        if tol == 0 {
            return Err(String::from_str("time tolerance must be > 0"));
        }
        cfg.schedule = Some(DailySchedule { slots_minutes: slots, tolerance_minutes: tol, tz_offset_minutes: tz });
    }
    Ok(cfg)
}


/// The flags the command line knows.
pub open spec fn known_flag(a: Seq<char>) -> bool {
    a == "--time"@ || a == "--time-tolerance-min"@ || a == "--tz-offset-min"@ || a == "--location"@ || a
        == "--one-shot"@ || a == "--creator"@ || a == "--hardware"@ || a == "--compression"@ || a == "--trust"@
        || a == "--trust-tag"@ || a == "--trust-search"@ || a == "--tag-mode"@
}

/// A mistyped flag never passes silently: wherever the parse reaches a flag
/// it does not know, the whole command line is refused, naming it.
pub proof fn lemma_unknown_flag_refused(args: Seq<Seq<char>>, i: int, st: ParseState)
    requires
        0 <= i < args.len(),
        !known_flag(args[i]),
    ensures
        parse_from(args, i, st) == Err::<ParseState, Seq<char>>("unknown flag '"@ + args[i] + "'"@),
{
}

/// Every time a parse accepts is a time of day: at most 23:59.
pub proof fn lemma_slots_are_times_of_day(v: Seq<char>, start: int)
    requires
        0 <= start <= v.len(),
    ensures
        slots_from(v, start) matches Ok(s) ==> forall|k: int| 0 <= k < s.len() ==> #[trigger] s[k] < 1440,
    decreases v.len() - start,
{
    match find_char(v, ',', start) {
        Some(k) => {
            if 0 <= start <= k < v.len() {
                lemma_slots_are_times_of_day(v, k + 1);
            }
        },
        None => {},
    }
}

} // verus!
