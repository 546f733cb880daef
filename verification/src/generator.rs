//! What the generated capsule project is made of. The runtime source is
//! assembled per build; here is the part that decides which optional
//! protections it imports. Writing the project to disk is the program's part.
use vstd::prelude::*;
use crate::cli::{signed_decimal, signed_string};
use crate::config::{DailySchedule, ProtectionConfig};
use crate::text::{decimal, decimal_string};
use crate::json::{lemma_find_char_bound, subvec};
use crate::machines::starts_with_chars;
use crate::scan::{find_char, find_char_exec, skip_whitespace, skip_ws};
use crate::text::{chars_of, lemma_line_step, line_between, lines_from};

verus! {

pub const LOCATION_IMPORT: &'static str = "use nyedarch_runtime::SystemLocation;\n";
pub const SCHEDULE_IMPORT: &'static str = "use nyedarch_crypto::timewin::DailySchedule;\n";

/// The imports a generated capsule needs, given what is enabled: the
/// location provider only with the location protection, the schedule only
/// with the time protection.
pub open spec fn imports_for(location: bool, schedule: bool) -> Seq<char> {
    (if location {
        LOCATION_IMPORT@
    } else {
        Seq::empty()
    }) + (if schedule {
        SCHEDULE_IMPORT@
    } else {
        Seq::empty()
    })
}

/// The imports a generated capsule needs, given what is enabled.
///
/// Importing unconditionally produced "unused import" warnings in the build
/// log, readable by anyone when the repository is public and a hint about
/// which protections a capsule does not use.
pub fn conditional_imports(protections: &ProtectionConfig) -> (r: String)
    ensures
        r@ == imports_for(protections.location_tolerance_m is Some, protections.schedule is Some),
{
    let mut imports = String::new();
    if protections.location_tolerance_m.is_some() {
        imports.append(LOCATION_IMPORT);
    }
    if protections.schedule.is_some() {
        imports.append(SCHEDULE_IMPORT);
    }
    assert(imports@ =~= imports_for(protections.location_tolerance_m is Some, protections.schedule is Some));
    imports
}


pub const DEV_REMOVED: &'static str = "# [dev-dependencies] removed: a capsule project has no tests.\n";

/// A line that opens a section (`[...]` after leading white space), and
/// whether that section is the development dependencies.
pub open spec fn opens_section(line: Seq<char>) -> bool {
    let t = line.skip(skip_ws(line, 0));
    t.len() > 0 && t[0] == '['
}

pub open spec fn opens_dev(line: Seq<char>) -> bool {
    "[dev-dependencies"@.is_prefix_of(line.skip(skip_ws(line, 0)))
}

/// The manifest from line `i` on, with every `[dev-dependencies]` section
/// (nested tables included) replaced by a note; `skipping` is whether line
/// `i` is inside such a section.
pub open spec fn stripped_from(lines: Seq<Seq<char>>, i: int, skipping: bool) -> Seq<char>
    decreases lines.len() - i,
{
    if i < 0 || i >= lines.len() {
        Seq::empty()
    } else {
        let line = lines[i];
        let now = if opens_section(line) {
            opens_dev(line)
        } else {
            skipping
        };
        if opens_section(line) && now {
            DEV_REMOVED@ + stripped_from(lines, i + 1, now)
        } else if !now {
            line + "\n"@ + stripped_from(lines, i + 1, now)
        } else {
            stripped_from(lines, i + 1, now)
        }
    }
}

/// One line of `stripped_from`: what line `i` contributes, given whether it
/// opens a section and whether the scan is inside a development section after it.
proof fn lemma_strip_step(lines: Seq<Seq<char>>, i: int, was: bool, opens: bool, now: bool)
    requires
        0 <= i < lines.len(),
        opens == opens_section(lines[i]),
        opens ==> now == opens_dev(lines[i]),
        !opens ==> now == was,
    ensures
        stripped_from(lines, i, was) == if opens && now {
            DEV_REMOVED@ + stripped_from(lines, i + 1, now)
        } else if !now {
            lines[i] + "\n"@ + stripped_from(lines, i + 1, now)
        } else {
            stripped_from(lines, i + 1, now)
        },
{
}

/// A vendored crate's manifest without its development dependencies: a
/// capsule project has no tests, and what is shipped should match what is
/// needed. Everything else is kept line by line.
pub fn strip_dev_dependencies(text: &str) -> (r: String)
    ensures
        r@ == stripped_from(lines_from(text@, 0), 0, false),
{
    let c = chars_of(text);
    let n = c.len();
    let dev = chars_of("[dev-dependencies");
    let mut out = String::new();
    let mut start: usize = 0;
    let mut skipping = false;
    let ghost ls = lines_from(c@, 0);
    let ghost mut li: int = 0;
    assert(out@ =~= Seq::<char>::empty());
    while start < n
        invariant
            c@ == text@,
            n == c@.len(),
            dev@ == "[dev-dependencies"@,
            ls == lines_from(c@, 0),
            start <= n,
            0 <= li <= ls.len(),
            lines_from(c@, start as int) == ls.skip(li),
            out@ + stripped_from(ls, li, skipping) == stripped_from(ls, 0, false),
        decreases n - start,
    {
        let end = match find_char_exec(&c, '\n', start) {
            Some(k) => k,
            None => n,
        };
        proof {
            lemma_find_char_bound(c@, '\n', start as int);
        }
        let mut stop = end;
        if end < n && stop > start && c[stop - 1] == '\r' {
            stop = stop - 1;
        }
        let line = subvec(&c, start, stop);
        let piece = text.substring_char(start, stop);
        proof {
            lemma_line_step(c@, start as int, end as int);
            let whole = c@.subrange(start as int, end as int);
            if stop < end {
                assert(whole.len() > 0 && whole.last() == '\r');
                assert(whole.drop_last() =~= c@.subrange(start as int, stop as int));
            } else if end < n {
                assert(!(whole.len() > 0 && whole.last() == '\r'));
            }
            assert(line@ == line_between(c@, start as int, end as int));
            assert(ls.skip(li).len() > 0);
            assert(li < ls.len());
            assert(ls.skip(li)[0] == ls[li]);
            assert(ls[li] == line@);
            assert(ls.skip(li + 1) =~= ls.skip(li).drop_first());
            assert(ls.skip(li).drop_first() =~= lines_from(c@, end + 1));
        }
        let ghost l = ls[li];
        let w = skip_whitespace(&line, 0);
        let rest = subvec(&line, w, line.len());
        assert(rest@ =~= line@.skip(w as int));
        let opens = rest.len() > 0 && rest[0] == '[';
        let ghost before = out@;
        let ghost was = skipping;
        if opens {
            skipping = starts_with_chars(&rest, &dev);
            if skipping {
                out.append(DEV_REMOVED);
            }
        }
        if !skipping && !(opens && skipping) {
            out.append(piece);
            out.append("\n");
        }
        proof {
            assert(piece@ == line@);
            assert(w == skip_ws(l, 0));
            assert(opens == opens_section(l));
            assert(opens ==> (skipping == opens_dev(l)));
            assert(!opens ==> skipping == was);
            lemma_strip_step(ls, li, was, opens, skipping);
            if opens && skipping {
                assert(out@ =~= before + DEV_REMOVED@);
            } else if !skipping {
                assert(out@ =~= before + l + "\n"@);
            }
            li = li + 1;
        }
        start = if end < n { end + 1 } else { n };
    }
    proof {
        assert(ls.skip(li).len() == 0);
        assert(li == ls.len());
        assert(stripped_from(ls, li, skipping) =~= Seq::<char>::empty());
        assert(out@ =~= out@ + Seq::<char>::empty());
    }
    out
}


/// The capsule project's manifest, before and after its package name's
/// build nonce.
pub const MANIFEST_HEAD: &'static str = "# NYEDArch capsule project. Self-contained: the runtime crates
# are vendored under vendor/ so this builds anywhere cargo runs.
#
# The vendored crates inherit fields from a workspace root, so this project
# declares that root itself. Without it, cargo cannot resolve
# `edition.workspace = true` on a machine that has no NYEDArch source tree.
[workspace]
resolver = \"2\"

[workspace.package]
version = \"0.0.1\"
edition = \"2021\"
license = \"UNLICENSED\"
authors = [\"NYEDArch\"]
rust-version = \"1.82\"

[workspace.dependencies]
serde = { version = \"1\", features = [\"derive\"] }
bincode = \"1.3\"
thiserror = \"1\"
zeroize = { version = \"1\", features = [\"derive\"] }
getrandom = \"0.2\"

[package]
name = \"nyedarch-capsule-";

pub const MANIFEST_TAIL: &'static str = "\"
version = \"0.0.1\"
edition = \"2021\"

[[bin]]
name = \"nyedarch-capsule\"
path = \"src/main.rs\"

# Anti-RE hardening. Every setting is explicit rather than relying
# on a cargo default that could change between toolchains.
[profile.release]
opt-level = 3
lto = \"fat\"
codegen-units = 1
panic = \"abort\"
strip = \"symbols\"
debug = false
debug-assertions = false
incremental = false
rpath = false

[dependencies]
nyedarch-runtime = { path = \"vendor/nyedarch-runtime\" }
nyedarch-crypto  = { path = \"vendor/nyedarch-crypto\" }
";

/// The capsule binary's own dependency, appended to the manifest.
pub const MANIFEST_ZEROIZE: &'static str = "zeroize = { version = \"1\", features = [\"derive\"] }\n";

/// The capsule's `main.rs`, around the values spliced into it.
pub const MAIN_0: &'static str = "// NYEDArch capsule runtime for build nonce ";

pub const MAIN_1: &'static str = ".
use std::io::Read;
use std::path::PathBuf;
use nyedarch_runtime::{run, one_shot_destroy, Capsule, LocalTime, LocationProvider, Outcome, PassphraseProvider};
";

pub const MAIN_2: &'static str = "use zeroize::Zeroizing;

const PACKAGE: &[u8] = include_bytes!(\"../capsule.nyeda\");
const BOOTSTRAP_KEY: [u8; 32] = [";

pub const MAIN_3: &'static str = "];
// This runtime's own identity commitment. It is asserted
// against the package header AND mixed into the policy-seal subkey, so another
// runtime cannot open this package's authorization record.
const RUNTIME_COMMITMENT: [u8; 32] = [";

pub const MAIN_4: &'static str = "];
const BUILD_NONCE: u64 = 0x";

pub const MAIN_5: &'static str = ";
const ONE_SHOT: bool = ";

pub const MAIN_6: &'static str = ";

struct StdinPass;
impl PassphraseProvider for StdinPass {
    fn passphrase(&self) -> Option<Zeroizing<Vec<u8>>> {
        // Prototype: read from NYEDARCH_PASSPHRASE env or stdin. The GUI supplies a
        // masked field. No manual location/time entry is ever offered.
        if let Ok(p) = std::env::var(\"NYEDARCH_PASSPHRASE\") {
            return Some(Zeroizing::new(p.into_bytes()));
        }
        let mut s = String::new();
        std::io::stdin().read_to_string(&mut s).ok()?;
        Some(Zeroizing::new(s.trim_end().as_bytes().to_vec()))
    }
}

fn main() {
    let _ = BUILD_NONCE;
    let out = std::env::args().nth(1).map(PathBuf::from)
        .unwrap_or_else(|| PathBuf::from(\"./nyeda-extracted\"));
    let cap = Capsule {
        package: PACKAGE,
        bootstrap_key: BOOTSTRAP_KEY,
        runtime_commitment: RUNTIME_COMMITMENT,
        schedule: ";

pub const MAIN_7: &'static str = ",
        location_tolerance_m: ";

pub const MAIN_8: &'static str = ",
        out_dir: out,
    };
    let location: Option<&dyn LocationProvider> = ";

pub const MAIN_9: &'static str = ";
    let creator = std::env::var(\"NYEDARCH_CREATOR\").is_ok();
    let mut trace = |s| eprintln!(\"[state] {:?}\", s);
    let t: Option<&mut dyn FnMut(nyedarch_runtime::State)> = if creator { Some(&mut trace) } else { None };
    match run(&cap, &StdinPass, location, &LocalTime, t) {
        Outcome::Success { files, dirs, bytes, out_dir } => {
            println!(\"NYEDArch: extraction complete - {} files, {} dirs, {} bytes -> {}\",
                files, dirs, bytes, out_dir.display());
            if ONE_SHOT {
                // Only after verified extraction. Best effort:
                // erasure cannot be guaranteed on SSD or copy-on-write
                // filesystems, so the outcome is reported rather than assumed.
                if let Ok(me) = std::env::current_exe() {
                    let outcome = one_shot_destroy(&me);
                    if outcome.is_delegated() {
                        println!(\"NYEDArch: capsule scheduled for destruction ({})\", outcome.describe());
                    } else if outcome.path_cleared() {
                        println!(\"NYEDArch: capsule destroyed ({})\", outcome.describe());
                    } else {
                        // Saying nothing here would leave the user believing a
                        // one-shot capsule was gone when it is still on disk.
                        eprintln!(\"NYEDArch: the capsule could NOT be destroyed - {}\", outcome.describe());
                        eprintln!(\"NYEDArch: delete it yourself. Its payload stays encrypted either way.\");
                    }
                }
            }
        }
        Outcome::Failed => {
            // Single generic message: no authorization oracle.
            eprintln!(\"Authorization failed.\");
            std::process::exit(1);
        }
    }
}
";

/// The staging script, around the capsule extension and the build nonce.
pub const STAGE_0: &'static str = "#!/bin/sh
# Stage the compiled capsule as a NYEDArch capsule (.";

pub const STAGE_1: &'static str = ").
set -e
cargo build --release
bin=\"target/release/nyedarch-capsule\"
[ -f \"$bin.exe\" ] && bin=\"$bin.exe\"
out=\"nyedarch-";

pub const STAGE_2: &'static str = ".";

pub const STAGE_3: &'static str = "\"
cp \"$bin\" \"$out\"
chmod +x \"$out\" 2>/dev/null || true
echo \"capsule: $out\"
";


/// A lower-case hexadecimal digit.
pub open spec fn hex_char(d: nat) -> char {
    if d < 10 {
        (d + 48) as char
    } else {
        (d + 87) as char
    }
}

/// The `w` low hexadecimal digits of `v`, zero-padded, as `{:0w$x}` writes
/// a value below 16^w.
pub open spec fn hex_width(v: nat, w: nat) -> Seq<char>
    decreases w,
{
    if w == 0 {
        Seq::empty()
    } else {
        hex_width(v / 16, (w - 1) as nat).push(hex_char(v % 16))
    }
}

fn hex_digit_str(d: u64) -> (r: &'static str)
    requires
        d < 16,
    ensures
        r@ == seq![hex_char(d as nat)],
{
    proof {
        reveal_strlit("0");
        reveal_strlit("1");
        reveal_strlit("2");
        reveal_strlit("3");
        reveal_strlit("4");
        reveal_strlit("5");
        reveal_strlit("6");
        reveal_strlit("7");
        reveal_strlit("8");
        reveal_strlit("9");
        reveal_strlit("a");
        reveal_strlit("b");
        reveal_strlit("c");
        reveal_strlit("d");
        reveal_strlit("e");
        reveal_strlit("f");
    }
    if d < 8 {
        if d < 4 {
            if d == 0 { "0" } else if d == 1 { "1" } else if d == 2 { "2" } else { "3" }
        } else {
            if d == 4 { "4" } else if d == 5 { "5" } else if d == 6 { "6" } else { "7" }
        }
    } else {
        if d < 12 {
            if d == 8 { "8" } else if d == 9 { "9" } else if d == 10 { "a" } else { "b" }
        } else {
            if d == 12 { "c" } else if d == 13 { "d" } else if d == 14 { "e" } else { "f" }
        }
    }
}

/// `format!("{v:0w$x}")` for `w` digits.
pub fn hex_text(v: u64, w: u64) -> (r: String)
    ensures
        r@ == hex_width(v as nat, w as nat),
    decreases w,
{
    if w == 0 {
        String::new()
    } else {
        let mut s = hex_text(v / 16, w - 1);
        s.append(hex_digit_str(v % 16));
        s
    }
}

/// A byte as a Rust literal, `0x` and two digits.
pub open spec fn byte_literal(x: u8) -> Seq<char> {
    "0x"@ + hex_width(x as nat, 2)
}

/// Bytes as Rust literals, separated by `, `.
pub open spec fn byte_literals(b: Seq<u8>) -> Seq<char>
    decreases b.len(),
{
    if b.len() == 0 {
        Seq::empty()
    } else if b.len() == 1 {
        byte_literal(b[0])
    } else {
        byte_literals(b.drop_last()) + ", "@ + byte_literal(b.last())
    }
}

pub fn byte_literals_text(b: &[u8]) -> (r: String)
    ensures
        r@ == byte_literals(b@),
{
    let mut s = String::new();
    let mut i: usize = 0;
    while i < b.len()
        invariant
            i <= b@.len(),
            s@ == byte_literals(b@.take(i as int)),
        decreases b@.len() - i,
    {
        if i > 0 {
            s.append(", ");
        }
        s.append("0x");
        let h = hex_text(b[i] as u64, 2);
        s.append(h.as_str());
        assert(b@.take(i + 1).drop_last() =~= b@.take(i as int));
        i = i + 1;
    }
    assert(b@.take(i as int) =~= b@);
    s
}

/// Numbers in decimal, separated by `, `.
pub open spec fn decimals_joined(v: Seq<u32>) -> Seq<char>
    decreases v.len(),
{
    if v.len() == 0 {
        Seq::empty()
    } else if v.len() == 1 {
        decimal(v[0] as nat)
    } else {
        decimals_joined(v.drop_last()) + ", "@ + decimal(v.last() as nat)
    }
}

/// The schedule the capsule is built with, as a Rust expression.
pub open spec fn schedule_expr(s: Option<DailySchedule>) -> Seq<char> {
    match s {
        Some(sc) => "Some(DailySchedule { slots_minutes: vec!["@ + decimals_joined(sc.slots_minutes@)
            + "], tolerance_minutes: "@ + decimal(sc.tolerance_minutes as nat) + ", tz_offset_minutes: "@
            + signed_decimal(sc.tz_offset_minutes as int) + " })"@,
        None => "None"@,
    }
}

fn schedule_text(s: &Option<DailySchedule>) -> (r: String)
    ensures
        r@ == schedule_expr(*s),
{
    match s {
        Some(sc) => {
            let mut t = String::from_str("Some(DailySchedule { slots_minutes: vec![");
            let v = &sc.slots_minutes;
            let mut i: usize = 0;
            let ghost head = t@;
            while i < v.len()
                invariant
                    i <= v@.len(),
                    t@ == head + decimals_joined(v@.take(i as int)),
                decreases v@.len() - i,
            {
                if i > 0 {
                    t.append(", ");
                }
                let d = decimal_string(v[i] as u64);
                t.append(d.as_str());
                assert(v@.take(i + 1).drop_last() =~= v@.take(i as int));
                i = i + 1;
            }
            assert(v@.take(i as int) =~= v@);
            t.append("], tolerance_minutes: ");
            t.append(decimal_string(sc.tolerance_minutes as u64).as_str());
            t.append(", tz_offset_minutes: ");
            t.append(signed_string(sc.tz_offset_minutes).as_str());
            t.append(" })");
            t
        },
        None => String::from_str("None"),
    }
}

/// The location tolerance, as a Rust expression.
pub open spec fn tolerance_expr(m: Option<u32>) -> Seq<char> {
    match m {
        Some(m) => "Some("@ + decimal(m as nat) + "u32)"@,
        None => "None"@,
    }
}

/// The location provider: the system's only with the location protection.
pub open spec fn provider_expr(location: bool) -> Seq<char> {
    if location {
        "Some(&SystemLocation as &dyn LocationProvider)"@
    } else {
        "None"@
    }
}

/// The capsule project's manifest for a build.
pub open spec fn spec_capsule_manifest(diversifier: u64) -> Seq<char> {
    MANIFEST_HEAD@ + hex_width(diversifier as nat, 16) + MANIFEST_TAIL@ + MANIFEST_ZEROIZE@
}

/// The capsule project's `Cargo.toml`: self-contained (the runtime crates
/// are vendored beside it), named by the build nonce, and built with every
/// hardening setting explicit.
pub fn capsule_manifest(diversifier: u64) -> (r: String)
    ensures
        r@ == spec_capsule_manifest(diversifier),
{
    let mut s = String::from_str(MANIFEST_HEAD);
    s.append(hex_text(diversifier, 16).as_str());
    s.append(MANIFEST_TAIL);
    s.append(MANIFEST_ZEROIZE);
    s
}

/// The capsule's `main.rs` for a build: its nonce, the bootstrap key and
/// runtime commitment as literals, and only the protections it was built with.
pub open spec fn spec_capsule_main(diversifier: u64, boot: Seq<u8>, commit: Seq<u8>, p: ProtectionConfig) -> Seq<char> {
    let div = hex_width(diversifier as nat, 16);
    MAIN_0@ + div + MAIN_1@ + imports_for(p.location_tolerance_m is Some, p.schedule is Some) + MAIN_2@
        + byte_literals(boot) + MAIN_3@ + byte_literals(commit) + MAIN_4@ + div + MAIN_5@
        + (if p.one_shot { "true"@ } else { "false"@ }) + MAIN_6@ + schedule_expr(p.schedule) + MAIN_7@
        + tolerance_expr(p.location_tolerance_m) + MAIN_8@ + provider_expr(p.location_tolerance_m is Some)
        + MAIN_9@
}

pub fn capsule_main(diversifier: u64, bootstrap_key: &[u8; 32], runtime_commitment: &[u8; 32], protections: &ProtectionConfig) -> (r: String)
    ensures
        r@ == spec_capsule_main(diversifier, bootstrap_key@, runtime_commitment@, *protections),
{
    let div = hex_text(diversifier, 16);
    let mut s = String::from_str(MAIN_0);
    s.append(div.as_str());
    s.append(MAIN_1);
    s.append(conditional_imports(protections).as_str());
    s.append(MAIN_2);
    s.append(byte_literals_text(bootstrap_key).as_str());
    s.append(MAIN_3);
    s.append(byte_literals_text(runtime_commitment).as_str());
    s.append(MAIN_4);
    s.append(div.as_str());
    s.append(MAIN_5);
    s.append(if protections.one_shot { "true" } else { "false" });
    s.append(MAIN_6);
    s.append(schedule_text(&protections.schedule).as_str());
    s.append(MAIN_7);
    match protections.location_tolerance_m {
        Some(m) => {
            s.append("Some(");
            s.append(decimal_string(m as u64).as_str());
            s.append("u32)");
        },
        None => s.append("None"),
    }
    s.append(MAIN_8);
    s.append(
        if protections.location_tolerance_m.is_some() {
            "Some(&SystemLocation as &dyn LocationProvider)"
        } else {
            "None"
        },
    );
    s.append(MAIN_9);
    s
}

/// The script that stages a locally built capsule under the same name the
/// remote build gives it.
pub open spec fn spec_stage_script(diversifier: u64, ext: Seq<char>) -> Seq<char> {
    STAGE_0@ + ext + STAGE_1@ + hex_width(diversifier as nat, 16) + STAGE_2@ + ext + STAGE_3@
}

pub fn stage_script(diversifier: u64, ext: &str) -> (r: String)
    ensures
        r@ == spec_stage_script(diversifier, ext@),
{
    let mut s = String::from_str(STAGE_0);
    s.append(ext);
    s.append(STAGE_1);
    s.append(hex_text(diversifier, 16).as_str());
    s.append(STAGE_2);
    s.append(ext);
    s.append(STAGE_3);
    s
}

} // verus!
