//! Verbose diagnostics, timestamped in IST (Asia/Kolkata, UTC+05:30; India
//! has no daylight saving, so the offset is constant and every line carries
//! it). Off by default: a security tool that narrates every step trains
//! people to stop reading it. Lines can be buffered for a caller without a
//! console; the buffer is bounded, and old lines are dropped first.
use vstd::prelude::*;
use crate::text::{decimal, decimal_string, zero_padded};

verus! {

/// Seconds east of UTC for Asia/Kolkata.
pub const IST_OFFSET_SECS: i64 = 19800;

/// At most this many lines are held for a caller that does not drain them.
pub const BUFFER_LIMIT: usize = 2000;

/// `a / b` rounded down, for `b > 0`.
pub fn floor_div(a: i64, b: i64) -> (r: i64)
    requires
        b > 0,
        a > i64::MIN,
    ensures
        r == a / b,
        a - r * b == a % b,
        0 <= a - r * b < b,
{
    proof {
        vstd::arithmetic::div_mod::lemma_fundamental_div_mod(a as int, b as int);
    }
    if a >= 0 {
        let q = ((a as u64) / (b as u64)) as i64;
        proof {
            vstd::arithmetic::div_mod::lemma_fundamental_div_mod(a as int, b as int);
            assert(q == a / b);
            assert(a - q * b == a % b) by (nonlinear_arith)
                requires
                    a == b * (a / b) + a % b,
                    q == a / b,
            ;
            vstd::arithmetic::div_mod::lemma_mod_bound(a as int, b as int);
        }
        q
    } else {
        let p = (-a) as u64;
        let bb = b as u64;
        let s = p + (bb - 1);
        let q = s / bb;
        proof {
            vstd::arithmetic::div_mod::lemma_fundamental_div_mod(s as int, bb as int);
            let t = s % bb;
            assert(s == bb * q + t);
            assert(0 <= t < bb);
            let rem = a - (-(q as int)) * b;
            assert(rem == q * b - p) by (nonlinear_arith)
                requires
                    rem == a - (-(q as int)) * b,
                    a == -(p as int),
                    bb == b,
            ;
            assert(q * bb == s - t) by (nonlinear_arith)
                requires
                    s == bb * q + t,
            ;
            assert(0 <= rem < b);
            vstd::arithmetic::div_mod::lemma_fundamental_div_mod_converse(a as int, b as int, -(q as int), rem);
            assert(q <= p) by (nonlinear_arith)
                requires
                    q * bb == s - t,
                    s == p + bb - 1,
                    0 <= t,
                    bb >= 1,
                    p >= 1,
            ;
        }
        -(q as i64)
    }
}

/// The proleptic Gregorian date of day `z` counted from 1970-01-01, by
/// Howard Hinnant's `civil_from_days`: exact for the whole range, no table.
pub open spec fn civil(z: int) -> (int, int, int) {
    let z1 = z + 719468;
    let era = z1 / 146097;
    let doe = z1 % 146097;
    let yoe = (doe - doe / 1460 + doe / 36524 - doe / 146096) / 365;
    let y = yoe + era * 400;
    let doy = doe - (365 * yoe + yoe / 4 - yoe / 100);
    let mp = (5 * doy + 2) / 153;
    let d = doy - (153 * mp + 2) / 5 + 1;
    let m = if mp < 10 {
        mp + 3
    } else {
        mp - 9
    };
    (if m <= 2 {
        y + 1
    } else {
        y
    }, m, d)
}

/// Civil date from a day count since 1970-01-01.
pub fn civil_from_days(z: i64) -> (r: (i64, u32, u32))
    requires
        -0x4_0000_0000_0000 < z < 0x4_0000_0000_0000,
    ensures
        r.0 == civil(z as int).0,
        r.1 == civil(z as int).1,
        r.2 == civil(z as int).2,
        1 <= r.1 <= 12,
        1 <= r.2 <= 31,
{
    let z1 = z + 719468;
    let era = floor_div(z1, 146097);
    let doe = (z1 - era * 146097) as u64;
    assert(doe < 146097);
    let yoe = (doe - doe / 1460 + doe / 36524 - doe / 146096) / 365;
    assert(yoe <= 399) by (nonlinear_arith)
        requires
            doe < 146097,
            yoe == (doe - doe / 1460 + doe / 36524 - doe / 146096) / 365,
    ;
    let y = yoe as i64 + era * 400;
    assert(365 * yoe + yoe / 4 - yoe / 100 <= doe) by (nonlinear_arith)
        requires
            doe < 146097,
            yoe == (doe - doe / 1460 + doe / 36524 - doe / 146096) / 365,
    ;
    let doy = doe - (365 * yoe + yoe / 4 - yoe / 100);
    assert(doy <= 365) by (nonlinear_arith)
        requires
            doe < 146097,
            yoe == (doe - doe / 1460 + doe / 36524 - doe / 146096) / 365,
            doy == doe - (365 * yoe + yoe / 4 - yoe / 100),
    ;
    let mp = (5 * doy + 2) / 153;
    assert((153 * mp + 2) / 5 <= doy) by (nonlinear_arith)
        requires
            mp == (5 * doy + 2) / 153,
    ;
    let d = (doy - (153 * mp + 2) / 5 + 1) as u32;
    assert(d <= 31) by (nonlinear_arith)
        requires
            mp == (5 * doy + 2) / 153,
            d == doy - (153 * mp + 2) / 5 + 1,
    ;
    let m = if mp < 10 { mp + 3 } else { mp - 9 } as u32;
    (if m <= 2 { y + 1 } else { y }, m, d)
}

/// `n` in decimal, left-padded with zeros to at least `width` digits.
pub fn padded(n: u64, width: u64) -> (s: String)
    ensures
        s@ == zero_padded(n as nat, width as nat),
{
    let digits = decimal_string(n);
    let len = digits.as_str().unicode_len() as u64;
    if len >= width {
        return digits;
    }
    let mut s = String::new();
    let mut k: u64 = 0;
    while k < width - len
        invariant
            len < width,
            k <= width - len,
            s@ == Seq::new(k as nat, |i: int| '0'),
        decreases width - len - k,
    {
        s.append("0");
        proof {
            reveal_strlit("0");
        }
        assert(s@ =~= Seq::new((k + 1) as nat, |i: int| '0'));
        k = k + 1;
    }
    s.append(digits.as_str());
    assert(s@ =~= zero_padded(n as nat, width as nat));
    s
}

/// A year as `{:04}` writes it: zero-padded to four characters, a minus
/// sign counting as one of them.
pub open spec fn year_text(y: int) -> Seq<char> {
    if y >= 0 {
        zero_padded(y as nat, 4)
    } else {
        seq!['-'] + zero_padded((-y) as nat, 3)
    }
}

/// `YYYY-MM-DD HH:MM:SS.mmm +05:30` for an instant in Unix seconds.
pub open spec fn ist_text(unix_secs: int, millis: nat) -> Seq<char> {
    let local = unix_secs + 19800;
    let days = local / 86400;
    let sod = local % 86400;
    let date = civil(days);
    year_text(date.0) + "-"@ + zero_padded(date.1 as nat, 2) + "-"@ + zero_padded(date.2 as nat, 2) + " "@
        + zero_padded((sod / 3600) as nat, 2) + ":"@ + zero_padded(((sod % 3600) / 60) as nat, 2) + ":"@
        + zero_padded((sod % 60) as nat, 2) + "."@ + zero_padded(millis, 3) + " +05:30"@
}

/// The instant `unix_secs` (with `millis`) in IST.
pub fn format_ist(unix_secs: i64, millis: u32) -> (s: String)
    requires
        unix_secs <= i64::MAX - IST_OFFSET_SECS,
    ensures
        s@ == ist_text(unix_secs as int, millis as nat),
{
    let local = unix_secs + IST_OFFSET_SECS;
    let days = floor_div(local, 86400);
    assert(-0x4_0000_0000_0000 < days < 0x4_0000_0000_0000) by (nonlinear_arith)
        requires
            0 <= local - days * 86400 < 86400,
            i64::MIN <= local <= i64::MAX,
    ;
    let sod = ((local as i128) - (days as i128) * 86400) as i64;
    let (y, m, d) = civil_from_days(days);
    let mut s = if y >= 0 {
        padded(y as u64, 4)
    } else {
        let mut t = String::from_str("-");
        t.append(padded((-y) as u64, 3).as_str());
        t
    };
    proof {
        reveal_strlit("-");
    }
    s.append("-");
    s.append(padded(m as u64, 2).as_str());
    s.append("-");
    s.append(padded(d as u64, 2).as_str());
    s.append(" ");
    s.append(padded((sod / 3600) as u64, 2).as_str());
    s.append(":");
    s.append(padded(((sod % 3600) / 60) as u64, 2).as_str());
    s.append(":");
    s.append(padded((sod % 60) as u64, 2).as_str());
    s.append(".");
    s.append(padded(millis as u64, 3).as_str());
    s.append(" +05:30");
    s
}

/// `SystemTime::now()` since the Unix epoch, as whole seconds and the
/// nanoseconds past them; nothing for a clock set before the epoch. Claimed:
/// the nanoseconds are below 10^9, as `Duration::subsec_nanos` documents; the
/// instant itself depends on the clock and is left unsaid.
#[verifier::external_body]
pub(crate) fn unix_time() -> (r: Option<(u64, u32)>)
    ensures
        r matches Some(t) ==> t.1 < 1_000_000_000,
{
    match std::time::SystemTime::now().duration_since(std::time::UNIX_EPOCH) {
        Ok(d) => Some((d.as_secs(), d.subsec_nanos())),
        Err(_) => None,
    }
}

/// The current time in IST, as `YYYY-MM-DD HH:MM:SS.mmm +05:30`. A clock
/// set before the epoch reads as the epoch; one beyond the representable
/// range reads as its last instant.
pub fn timestamp() -> (s: String)
    ensures
        exists|secs: int, millis: nat| 0 <= secs && millis < 1000 && s@ == ist_text(secs, millis),
{
    let (secs, millis) = match unix_time() {
        Some((secs, nanos)) => (secs, nanos / 1_000_000),
        None => (0, 0),
    };
    let limit: u64 = (i64::MAX - IST_OFFSET_SECS) as u64;
    let t: i64 = if secs > limit { limit as i64 } else { secs as i64 };
    format_ist(t, millis)
}

/// `{:<11}`: the area, left-aligned in eleven characters.
pub open spec fn area_field(area: Seq<char>) -> Seq<char> {
    if area.len() < 11 {
        area + Seq::new((11 - area.len()) as nat, |i: int| ' ')
    } else {
        area
    }
}

/// A diagnostic line: `[timestamp] area message`.
pub open spec fn spec_log_line(stamp: Seq<char>, area: Seq<char>, message: Seq<char>) -> Seq<char> {
    "["@ + stamp + "] "@ + area_field(area) + " "@ + message
}

pub fn log_line(stamp: &str, area: &str, message: &str) -> (s: String)
    ensures
        s@ == spec_log_line(stamp@, area@, message@),
{
    let mut s = String::from_str("[");
    s.append(stamp);
    s.append("] ");
    s.append(area);
    let n = area.unicode_len();
    let ghost head = s@;
    if n < 11 {
        let mut k: usize = 0;
        while k < 11 - n
            invariant
                n < 11,
                k <= 11 - n,
                s@ == head + Seq::new(k as nat, |i: int| ' '),
            decreases 11 - n - k,
        {
            s.append(" ");
            proof {
                reveal_strlit(" ");
            }
            assert(s@ =~= head + Seq::new((k + 1) as nat, |i: int| ' '));
            k = k + 1;
        }
    }
    s.append(" ");
    s.append(message);
    proof {
        reveal_strlit("[");
        reveal_strlit("] ");
        reveal_strlit(" ");
    }
    assert(s@ =~= spec_log_line(stamp@, area@, message@));
    s
}

/// The diagnostics switches and the buffer of captured lines.
pub struct Diagnostics {
    verbose: bool,
    capture: bool,
    buffer: Vec<String>,
}

impl Diagnostics {
    /// The buffer never holds more than `BUFFER_LIMIT` lines.
    pub closed spec fn wf(&self) -> bool {
        self.buffer@.len() <= BUFFER_LIMIT
    }

    pub closed spec fn spec_verbose(&self) -> bool {
        self.verbose
    }

    pub closed spec fn spec_capture(&self) -> bool {
        self.capture
    }

    /// The captured lines, oldest first.
    pub closed spec fn lines(&self) -> Seq<Seq<char>> {
        self.buffer@.map_values(|l: String| l@)
    }

    /// Verbose logging off, nothing captured.
    pub fn new() -> (d: Self)
        ensures
            d.wf(),
            !d.spec_verbose(),
            !d.spec_capture(),
            d.lines() == Seq::<Seq<char>>::empty(),
    {
        let d = Diagnostics { verbose: false, capture: false, buffer: Vec::new() };
        assert(d.lines() =~= Seq::<Seq<char>>::empty());
        d
    }

    /// Buffer lines instead of writing them to standard error.
    pub fn set_capture(&mut self, on: bool)
        requires
            old(self).wf(),
        ensures
            final(self).wf(),
            final(self).spec_capture() == on,
            final(self).spec_verbose() == old(self).spec_verbose(),
            final(self).lines() == old(self).lines(),
    {
        self.capture = on;
    }

    pub fn set_verbose(&mut self, on: bool)
        requires
            old(self).wf(),
        ensures
            final(self).wf(),
            final(self).spec_verbose() == on,
            final(self).spec_capture() == old(self).spec_capture(),
            final(self).lines() == old(self).lines(),
    {
        self.verbose = on;
    }

    pub fn verbose(&self) -> (r: bool)
        ensures
            r == self.spec_verbose(),
    {
        self.verbose
    }

    /// Take everything buffered since the last call; each line is handed over
    /// once.
    pub fn drain(&mut self) -> (r: Vec<String>)
        requires
            old(self).wf(),
        ensures
            final(self).wf(),
            r@.map_values(|l: String| l@) == old(self).lines(),
            final(self).lines() == Seq::<Seq<char>>::empty(),
            final(self).spec_verbose() == old(self).spec_verbose(),
            final(self).spec_capture() == old(self).spec_capture(),
    {
        let mut taken: Vec<String> = Vec::new();
        std::mem::swap(&mut taken, &mut self.buffer);
        assert(self.lines() =~= Seq::<Seq<char>>::empty());
        taken
    }

    /// Record one diagnostic line, if verbose logging is on. A captured line
    /// goes to the buffer, dropping the oldest when it is full; otherwise the
    /// line is returned, for the caller to write to standard error.
    pub fn log(&mut self, stamp: &str, area: &str, message: &str) -> (r: Option<String>)
        requires
            old(self).wf(),
        ensures
            final(self).wf(),
            final(self).spec_verbose() == old(self).spec_verbose(),
            final(self).spec_capture() == old(self).spec_capture(),
            !old(self).spec_verbose() ==> r is None && final(self).lines() == old(self).lines(),
            old(self).spec_verbose() && old(self).spec_capture() ==> r is None && final(self).lines() == (
            if old(self).lines().len() >= BUFFER_LIMIT {
                old(self).lines().skip(1)
            } else {
                old(self).lines()
            }).push(spec_log_line(stamp@, area@, message@)),
            old(self).spec_verbose() && !old(self).spec_capture() ==> (r matches Some(l) && l@
                == spec_log_line(stamp@, area@, message@)) && final(self).lines() == old(self).lines(),
    {
        if !self.verbose {
            return None;
        }
        let line = log_line(stamp, area, message);
        if self.capture {
            let ghost before = self.lines();
            if self.buffer.len() >= BUFFER_LIMIT {
                self.buffer.remove(0);
                assert(self.lines() =~= before.skip(1));
            }
            let ghost mid = self.lines();
            self.buffer.push(line);
            assert(self.lines() =~= mid.push(spec_log_line(stamp@, area@, message@)));
            return None;
        }
        Some(line)
    }
}

} // verus!
