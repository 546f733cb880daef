//! Capsule destruction outcomes. Software cannot guarantee that data is
//! unrecoverable from modern storage, so destruction is best effort and
//! reports what actually happened rather than assuming success. The file
//! operations are the caller's; this module decides what their results mean,
//! and builds the shell command that a delegated scrub runs.
use vstd::prelude::*;
use crate::text::{decimal, decimal_string, chars_of};
use vstd::utf8::encode_utf8;
use crate::base64::ascii_chars;
use crate::keystore::{hex, hex_bytes};
use crate::logging::unix_time;

verus! {

/// What actually happened. Every variant is a fact the caller can act on.
#[derive(Clone, Debug, PartialEq, Eq)]
pub enum Destruction {
    /// Overwritten and the path no longer exists; still not a guarantee of
    /// physical erasure.
    Removed,
    /// Contents were overwritten but the file could not be unlinked.
    OverwrittenButPresent { reason: String },
    /// The file could not be overwritten but was unlinked anyway; the
    /// contents may survive in free space.
    RemovedWithoutOverwrite { reason: String },
    /// Nothing could be done.
    Failed { reason: String },
    /// There was nothing at that path to begin with.
    NothingToDo,
    /// Overwrite-and-remove was handed to mechanisms that run after this
    /// process exits: requested, not confirmed.
    Delegated { via: String },
}

/// The artifact is gone from its path.
pub open spec fn spec_path_cleared(d: Destruction) -> bool {
    d is Removed || d is RemovedWithoutOverwrite || d is NothingToDo
}

/// The original bytes were overwritten in place.
pub open spec fn spec_contents_overwritten(d: Destruction) -> bool {
    d is Removed || d is OverwrittenButPresent
}

pub const REMOVED_TEXT: &'static str = "overwritten and removed (best effort; physical erasure is not guaranteed)";
pub const NOTHING_TEXT: &'static str = "nothing at that path";
pub const STILL_EXISTS: &'static str = "the file still exists after removal reported success";
pub const IS_DIRECTORY: &'static str = "path is a directory";

/// How an outcome is described to the operator.
pub open spec fn spec_describe(d: Destruction) -> Seq<char> {
    match d {
        Destruction::Removed => REMOVED_TEXT@,
        Destruction::OverwrittenButPresent { reason } => "contents overwritten but the file could not be removed: "@
            + reason@,
        Destruction::RemovedWithoutOverwrite { reason } => "removed without overwriting: "@ + reason@,
        Destruction::Failed { reason } => "destruction failed: "@ + reason@,
        Destruction::NothingToDo => NOTHING_TEXT@,
        Destruction::Delegated { via } => "overwrite and removal handed to "@ + via@
            + ", running after this process exits (requested, not confirmed)"@,
    }
}

impl Destruction {
    /// Whether the artifact is gone from its path.
    pub fn path_cleared(&self) -> (r: bool)
        ensures
            r == spec_path_cleared(*self),
    {
        match self {
            Destruction::Removed => true,
            Destruction::RemovedWithoutOverwrite { .. } => true,
            Destruction::NothingToDo => true,
            _ => false,
        }
    }

    /// Destruction was requested but its completion is not observable here.
    pub fn is_delegated(&self) -> (r: bool)
        ensures
            r == (*self is Delegated),
    {
        match self {
            Destruction::Delegated { .. } => true,
            _ => false,
        }
    }

    /// Whether the original bytes were overwritten in place.
    pub fn contents_overwritten(&self) -> (r: bool)
        ensures
            r == spec_contents_overwritten(*self),
    {
        match self {
            Destruction::Removed => true,
            Destruction::OverwrittenButPresent { .. } => true,
            _ => false,
        }
    }

    pub fn describe(&self) -> (s: String)
        ensures
            s@ == spec_describe(*self),
    {
        match self {
            Destruction::Removed => String::from_str(REMOVED_TEXT),
            Destruction::OverwrittenButPresent { reason } => {
                let mut s = String::from_str("contents overwritten but the file could not be removed: ");
                s.append(reason.as_str());
                s
            },
            Destruction::RemovedWithoutOverwrite { reason } => {
                let mut s = String::from_str("removed without overwriting: ");
                s.append(reason.as_str());
                s
            },
            Destruction::Failed { reason } => {
                let mut s = String::from_str("destruction failed: ");
                s.append(reason.as_str());
                s
            },
            Destruction::NothingToDo => String::from_str(NOTHING_TEXT),
            Destruction::Delegated { via } => {
                let mut s = String::from_str("overwrite and removal handed to ");
                s.append(via.as_str());
                s.append(", running after this process exits (requested, not confirmed)");
                s
            },
        }
    }
}

/// A delegated destruction is never reported as done: the path is not
/// claimed cleared and the contents are not claimed overwritten.
pub proof fn lemma_delegated_never_overclaims(d: Destruction)
    requires
        d is Delegated,
    ensures
        !spec_path_cleared(d),
        !spec_contents_overwritten(d),
{
}

/// A failure claims neither; a file still present is not claimed cleared.
pub proof fn lemma_failures_never_overclaim(d: Destruction)
    ensures
        d is Failed ==> !spec_path_cleared(d) && !spec_contents_overwritten(d),
        d is OverwrittenButPresent ==> !spec_path_cleared(d),
{
}

/// Before anything is touched: nothing at the path, or a directory, which is
/// not a capsule and is refused rather than recursed into.
pub fn precheck(exists: bool, is_dir: bool) -> (r: Option<Destruction>)
    ensures
        !exists ==> r == Some(Destruction::NothingToDo),
        exists && is_dir ==> (r matches Some(Destruction::Failed { reason }) && reason@ == IS_DIRECTORY@),
        exists && !is_dir ==> r is None,
{
    if !exists {
        Some(Destruction::NothingToDo)
    } else if is_dir {
        Some(Destruction::Failed { reason: String::from_str(IS_DIRECTORY) })
    } else {
        None
    }
}

/// The reason given when neither the overwrite nor the removal worked.
pub open spec fn both_failed(overwrite_err: Seq<char>, remove_err: Seq<char>) -> Seq<char> {
    "could not overwrite ("@ + overwrite_err + ") and could not remove ("@ + remove_err + ")"@
}

fn both_failed_text(overwrite_err: &String, remove_err: &String) -> (s: String)
    ensures
        s@ == both_failed(overwrite_err@, remove_err@),
{
    let mut s = String::from_str("could not overwrite (");
    s.append(overwrite_err.as_str());
    s.append(") and could not remove (");
    s.append(remove_err.as_str());
    s.append(")");
    s
}

/// What a destruction achieved, from what the overwrite and the removal
/// reported and whether the file is still there afterwards. `Removed` is
/// claimed only when the contents were overwritten and the file is gone; a
/// removal that reported success while the file remains is not believed.
pub fn removal_outcome(overwrote: &Result<(), String>, removed: &Result<(), String>, still_exists: bool) -> (r:
    Destruction)
    ensures
        r is Removed <==> (overwrote is Ok && removed is Ok && !still_exists),
        removed is Ok && still_exists ==> (r matches Destruction::OverwrittenButPresent { reason } && reason@
            == STILL_EXISTS@),
        removed is Ok && !still_exists ==> match overwrote {
            Ok(_) => r is Removed,
            Err(e) => r matches Destruction::RemovedWithoutOverwrite { reason } && reason@ == e@,
        },
        removed matches Err(e) ==> match overwrote {
            Ok(_) => r matches Destruction::OverwrittenButPresent { reason } && reason@ == e@,
            Err(oe) => r matches Destruction::Failed { reason } && reason@ == both_failed(oe@, e@),
        },
        spec_path_cleared(r) ==> removed is Ok && !still_exists,
        spec_contents_overwritten(r) ==> overwrote is Ok || (removed is Ok && still_exists),
{
    match removed {
        Ok(()) => {
            if still_exists {
                return Destruction::OverwrittenButPresent { reason: String::from_str(STILL_EXISTS) };
            }
            match overwrote {
                Ok(()) => Destruction::Removed,
                Err(e) => Destruction::RemovedWithoutOverwrite { reason: e.clone() },
            }
        },
        Err(e) => match overwrote {
            Ok(()) => Destruction::OverwrittenButPresent { reason: e.clone() },
            Err(oe) => Destruction::Failed { reason: both_failed_text(oe, e) },
        },
    }
}

/// A running image that could not be overwritten, with no helper to hand it
/// to: it is unlinked unscrubbed, and the outcome says so.
pub fn unscrubbed_outcome(overwrite_err: &String, removed: &Result<(), String>, still_exists: bool) -> (r:
    Destruction)
    ensures
        removed is Ok && !still_exists ==> (r matches Destruction::RemovedWithoutOverwrite { reason } && reason@
            == overwrite_err@),
        removed is Ok && still_exists ==> (r matches Destruction::OverwrittenButPresent { reason } && reason@
            == STILL_EXISTS@),
        removed matches Err(e) ==> r matches Destruction::Failed { reason } && reason@ == both_failed(
            overwrite_err@,
            e@,
        ),
        !spec_contents_overwritten(r) || (removed is Ok && still_exists),
{
    match removed {
        Ok(()) => {
            if !still_exists {
                Destruction::RemovedWithoutOverwrite { reason: overwrite_err.clone() }
            } else {
                Destruction::OverwrittenButPresent { reason: String::from_str(STILL_EXISTS) }
            }
        },
        Err(e) => Destruction::Failed { reason: both_failed_text(overwrite_err, e) },
    }
}

/// A path can be embedded in a single-quoted shell argument safely: it holds
/// no quote, newline, carriage return, NUL or double quote.
pub open spec fn shell_safe(p: Seq<char>) -> bool {
    forall|i: int|
        0 <= i < p.len() ==> #[trigger] p[i] != '\'' && p[i] != '\n' && p[i] != '\r' && p[i] != '\0' && p[i]
            != '"'
}

/// Whether a path may be handed to a shell, a scheduler or PowerShell.
/// Anything that could escape the quoting is refused rather than escaped.
pub fn is_shell_safe(p: &str) -> (r: bool)
    ensures
        r == shell_safe(p@),
{
    let c = chars_of(p);
    let mut i: usize = 0;
    while i < c.len()
        invariant
            i <= c@.len(),
            c@ == p@,
            forall|j: int|
                0 <= j < i ==> #[trigger] c@[j] != '\'' && c@[j] != '\n' && c@[j] != '\r' && c@[j] != '\0'
                    && c@[j] != '"',
        decreases c@.len() - i,
    {
        let ch = c[i];
        if ch == '\'' || ch == '\n' || ch == '\r' || ch == '\0' || ch == '"' {
            return false;
        }
        i = i + 1;
    }
    true
}

/// The wait for a process to exit, bounded at sixty seconds.
pub open spec fn wait_clause(pid: u32) -> Seq<char> {
    "i=0; while [ $i -lt 600 ] && kill -0 "@ + decimal(pid as nat)
        + " 2>/dev/null; do sleep 0.1; i=$((i+1)); done; "@
}

/// The scrub-and-delete command as a POSIX shell fragment: `shred` when it
/// is there, else one pass of random blocks, then removal.
pub open spec fn spec_posix_script(p: Seq<char>, wait_pid: Option<u32>) -> Seq<char> {
    (match wait_pid {
        Some(pid) => wait_clause(pid),
        None => Seq::empty(),
    }) + "if [ -e '"@ + p + "' ]; then if command -v shred >/dev/null 2>&1; then shred -u -n 1 '"@ + p
        + "' >/dev/null 2>&1; else sz=$(wc -c < '"@ + p
        + "' 2>/dev/null | tr -d '[:space:]'); sz=${sz:-0}; blk=$(( (sz + 4095) / 4096 )); dd if=/dev/urandom of='"@
        + p + "' bs=4096 count=$blk conv=notrunc >/dev/null 2>&1; fi; rm -f '"@ + p + "' >/dev/null 2>&1; fi"@
}

pub fn posix_script(p: &str, wait_pid: Option<u32>) -> (s: String)
    requires
        shell_safe(p@),
    ensures
        s@ == spec_posix_script(p@, wait_pid),
{
    let mut s = String::new();
    match wait_pid {
        Some(pid) => {
            s.append("i=0; while [ $i -lt 600 ] && kill -0 ");
            s.append(decimal_string(pid as u64).as_str());
            s.append(" 2>/dev/null; do sleep 0.1; i=$((i+1)); done; ");
        },
        None => {},
    }
    s.append("if [ -e '");
    s.append(p);
    s.append("' ]; then if command -v shred >/dev/null 2>&1; then shred -u -n 1 '");
    s.append(p);
    s.append("' >/dev/null 2>&1; else sz=$(wc -c < '");
    s.append(p);
    s.append("' 2>/dev/null | tr -d '[:space:]'); sz=${sz:-0}; blk=$(( (sz + 4095) / 4096 )); dd if=/dev/urandom of='");
    s.append(p);
    s.append("' bs=4096 count=$blk conv=notrunc >/dev/null 2>&1; fi; rm -f '");
    s.append(p);
    s.append("' >/dev/null 2>&1; fi");
    s
}

/// The detached PowerShell scrub: wait (at most sixty seconds) for process
/// `pid` to exit, overwrite the file with random bytes, then remove it.
pub open spec fn spec_powershell_script(p: Seq<char>, pid: u32) -> Seq<char> {
    "$ErrorActionPreference='SilentlyContinue';              $n=0; while ((Get-Process -Id "@ + decimal(pid as nat)
        + " -ErrorAction SilentlyContinue) -and $n -lt 600) { Start-Sleep -Milliseconds 100; $n++ };              if (Test-Path -LiteralPath '"@
        + p + "') {              try { $f=Get-Item -LiteralPath '"@ + p
        + "'; $len=$f.Length;              $s=[IO.File]::Open('"@ + p
        + "',[IO.FileMode]::Open,[IO.FileAccess]::Write);              $b=New-Object byte[] 65536; $r=New-Object Random; $w=0;              while ($w -lt $len) { $c=[Math]::Min(65536,$len-$w); $r.NextBytes($b); $s.Write($b,0,$c); $w+=$c };              $s.Flush(); $s.Close() } catch {};              Remove-Item -LiteralPath '"@
        + p + "' -Force }"@
}

pub fn powershell_script(p: &str, pid: u32) -> (s: String)
    requires
        shell_safe(p@),
    ensures
        s@ == spec_powershell_script(p@, pid),
{
    let mut s = String::from_str("$ErrorActionPreference='SilentlyContinue';              $n=0; while ((Get-Process -Id ");
    s.append(decimal_string(pid as u64).as_str());
    s.append(" -ErrorAction SilentlyContinue) -and $n -lt 600) { Start-Sleep -Milliseconds 100; $n++ };              if (Test-Path -LiteralPath '");
    s.append(p);
    s.append("') {              try { $f=Get-Item -LiteralPath '");
    s.append(p);
    s.append("'; $len=$f.Length;              $s=[IO.File]::Open('");
    s.append(p);
    s.append("',[IO.FileMode]::Open,[IO.FileAccess]::Write);              $b=New-Object byte[] 65536; $r=New-Object Random; $w=0;              while ($w -lt $len) { $c=[Math]::Min(65536,$len-$w); $r.NextBytes($b); $s.Write($b,0,$c); $w+=$c };              $s.Flush(); $s.Close() } catch {};              Remove-Item -LiteralPath '");
    s.append(p);
    s.append("' -Force }");
    s
}

/// The command a Windows scheduled task runs: it removes the file and then
/// its own registration, so nothing persists.
pub open spec fn spec_removal_task(p: Seq<char>, tag: Seq<char>) -> Seq<char> {
    "cmd /c del /f /q \""@ + p + "\" & schtasks /delete /tn "@ + tag + " /f"@
}

/// The scheduled task's command, or nothing when it is longer than the 255
/// bytes that `schtasks /tr` takes without truncating it.
pub fn removal_task(p: &str, tag: &str) -> (r: Option<String>)
    requires
        shell_safe(p@),
    ensures
        match r {
            Some(cmd) => cmd@ == spec_removal_task(p@, tag@) && encode_utf8(cmd@).len() <= 255,
            None => encode_utf8(spec_removal_task(p@, tag@)).len() > 255,
        },
{
    let mut cmd = String::from_str("cmd /c del /f /q \"");
    cmd.append(p);
    cmd.append("\" & schtasks /delete /tn ");
    cmd.append(tag);
    cmd.append(" /f");
    let n = cmd.as_str().as_bytes().len();
    if n > 255 {
        None
    } else {
        Some(cmd)
    }
}

/// `getrandom::getrandom` on `n` bytes: the bytes when the operating
/// system's random source filled them, nothing when it failed. Claimed: there
/// are `n` of them; what they are is chance and is left unsaid.
#[verifier::external_body]
pub(crate) fn os_random(n: usize) -> (r: Option<Vec<u8>>)
    ensures
        r matches Some(v) ==> v@.len() == n,
{
    let mut b = vec![0u8; n];
    match getrandom::getrandom(&mut b) {
        Ok(()) => Some(b),
        Err(_) => None,
    }
}

/// What an overwrite writes when the random source fails: a fixed pattern,
/// byte `i` being `i * 31` (in a byte) mixed with `0xA5`.
pub open spec fn fallback_fill(n: nat) -> Seq<u8> {
    Seq::new(n, |i: int| ((((i % 256) * 31) % 256) as u8) ^ 0xA5u8)
}

pub fn fallback_bytes(n: usize) -> (r: Vec<u8>)
    ensures
        r@ == fallback_fill(n as nat),
{
    let mut r: Vec<u8> = Vec::new();
    let mut i: usize = 0;
    while i < n
        invariant
            i <= n,
            r@ == fallback_fill(i as nat),
        decreases n - i,
    {
        let x: u8 = (((i % 256) * 31) % 256) as u8;
        r.push(x ^ 0xA5u8);
        assert(r@ =~= fallback_fill((i + 1) as nat));
        i = i + 1;
    }
    r
}

/// One chunk of an overwrite: `n` random bytes, or the fallback pattern when
/// the random source fails.
pub fn scrub_chunk(n: usize) -> (r: Vec<u8>)
    ensures
        r@.len() == n,
{
    match os_random(n) {
        Some(v) => v,
        None => fallback_bytes(n),
    }
}

/// Name bytes from a clock reading in nanoseconds, for when the random
/// source fails: byte `i` is the reading shifted right by `i`, masked to a
/// byte and mixed with `0x5A`.
pub open spec fn clock_name_bytes(t: u128) -> Seq<u8> {
    Seq::new(12, |i: int| ((t >> (i as u128)) as u8) ^ 0x5Au8)
}

pub fn clock_bytes(t: u128) -> (b: [u8; 12])
    ensures
        b@ == clock_name_bytes(t),
{
    let mut b = [0u8; 12];
    let mut i: usize = 0;
    while i < 12
        invariant
            i <= 12,
            forall|j: int| 0 <= j < i ==> b@[j] == clock_name_bytes(t)[j],
        decreases 12 - i,
    {
        b[i] = ((t >> (i as u128)) as u8) ^ 0x5Au8;
        i = i + 1;
    }
    assert(b@ =~= clock_name_bytes(t));
    b
}

/// A fresh name for a file about to be removed: twelve random bytes in
/// lower-case hexadecimal, or bytes from the clock when the random source
/// fails (the clock reading is 1 when it is set before the epoch).
pub fn random_name() -> (s: String)
    ensures
        exists|b: Seq<u8>| b.len() == 12 && s@ == ascii_chars(hex_bytes(b)),
{
    match os_random(12) {
        Some(b) => hex(b.as_slice()),
        None => {
            let t: u128 = match unix_time() {
                Some((secs, nanos)) => (secs as u128) * 1_000_000_000 + (nanos as u128),
                None => 1,
            };
            let b = clock_bytes(t);
            hex(&b)
        },
    }
}

/// The names joined by ` and `.
pub open spec fn joined(names: Seq<Seq<char>>) -> Seq<char>
    decreases names.len(),
{
    if names.len() == 0 {
        Seq::empty()
    } else if names.len() == 1 {
        names[0]
    } else {
        joined(names.drop_last()) + " and "@ + names.last()
    }
}

/// What delegating achieved, from the mechanisms that engaged: nothing when
/// none did, else a delegated destruction naming every one of them.
pub fn delegation_outcome(engaged: &Vec<&str>) -> (r: Option<Destruction>)
    ensures
        engaged@.len() == 0 ==> r is None,
        engaged@.len() > 0 ==> (r matches Some(Destruction::Delegated { via }) && via@ == joined(
            engaged@.map_values(|s: &str| s@),
        )),
{
    if engaged.len() == 0 {
        return None;
    }
    let ghost names = engaged@.map_values(|s: &str| s@);
    let mut text = String::from_str(engaged[0]);
    let mut i: usize = 1;
    assert(names.take(1).len() == 1);
    while i < engaged.len()
        invariant
            1 <= i <= engaged@.len(),
            names == engaged@.map_values(|s: &str| s@),
            text@ == joined(names.take(i as int)),
        decreases engaged@.len() - i,
    {
        text.append(" and ");
        text.append(engaged[i]);
        assert(names.take(i + 1).drop_last() =~= names.take(i as int));
        i = i + 1;
    }
    assert(names.take(i as int) =~= names);
    Some(Destruction::Delegated { via: text })
}


/// The mechanisms that can take over a destruction once this process exits.
/// What they engage depends on the machine, so nothing is promised of them.
pub trait Delegate {
    /// Hand the scrub of `p` to the operating system's own one-shot
    /// scheduler; the mechanism's name when it was engaged.
    fn schedule_with_os(&self, p: &str) -> Option<&'static str>;

    /// Start a detached helper that scrubs `p` once this process is gone;
    /// the mechanism's name when it was started.
    fn spawn_detached_scrubber(&self, p: &str) -> Option<&'static str>;
}

pub open spec fn names_of(v: Seq<&str>) -> Seq<Seq<char>> {
    v.map_values(|s: &str| s@)
}

/// What delegating may come to, once the mechanisms engaged are known.
pub open spec fn delegated_as(r: Option<Destruction>, engaged: Seq<&str>) -> bool {
    &&& engaged.len() == 0 ==> r is None
    &&& engaged.len() > 0 ==> (r matches Some(Destruction::Delegated { via }) && via@ == joined(names_of(engaged)))
}

/// Hand the destruction of `p` to mechanisms that outlive this process: the
/// system scheduler and a detached helper, both, since either may be absent
/// or killed. A path that could escape shell quoting never reaches any of
/// them.
pub fn delegate_destruction<D: Delegate>(p: &str, d: &D) -> (r: Option<Destruction>)
    ensures
        !shell_safe(p@) ==> r is None,
        shell_safe(p@) ==> exists|engaged: Seq<&str>| engaged.len() <= 2 && #[trigger] delegated_as(r, engaged),
{
    if !is_shell_safe(p) {
        return None;
    }
    let mut used: Vec<&'static str> = Vec::new();
    if let Some(name) = d.schedule_with_os(p) {
        used.push(name);
    }
    if let Some(name) = d.spawn_detached_scrubber(p) {
        used.push(name);
    }
    let r = delegation_outcome(&used);
    assert(delegated_as(r, used@));
    r
}

} // verus!
