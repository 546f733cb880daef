//! What the installer decides: the macOS bundle's `Info.plist`, where each
//! release item lands inside a bundle, executable names, and how a line of
//! `SHA256SUMS` is read. Copying, hashing and prompting are the program's
//! part.
use vstd::prelude::*;
use crate::curl::{trim_bounds, trimmed};
use crate::scan::{find_chars, find_from, lemma_find_from, occurs_at};
use crate::artifact::lower;
use crate::config::trim_str;
use crate::scan::find_char;
use crate::text::{chars_of, is_word, lemma_line_step, lemma_lines_concat, lines_from, lower_text, split_lines};

verus! {

pub const APP: &'static str = "NYEDArch";
pub const MANIFEST: &'static str = "installed-files.txt";
pub const BUNDLE_ID: &'static str = "net.nyedarch.client";

pub const PLIST_HEAD: &'static str = "<?xml version=\"1.0\" encoding=\"UTF-8\"?>
<!DOCTYPE plist PUBLIC \"-//Apple//DTD PLIST 1.0//EN\" \"http://www.apple.com/DTDs/PropertyList-1.0.dtd\">
<plist version=\"1.0\">
<dict>
  <key>CFBundleName</key><string>NYEDArch</string>
  <key>CFBundleDisplayName</key><string>NYEDArch</string>
  <key>CFBundleIdentifier</key><string>net.nyedarch.client</string>
  <key>CFBundleVersion</key><string>";

pub const PLIST_MIDDLE: &'static str = "</string>
  <key>CFBundleShortVersionString</key><string>";

pub const PLIST_TAIL: &'static str = "</string>
  <key>CFBundlePackageType</key><string>APPL</string>
  <key>CFBundleIconFile</key>
    <string>AppIcon</string>
    <key>CFBundleExecutable</key><string>NYEDArch</string>
  <key>LSMinimumSystemVersion</key><string>11.0</string>
  <key>NSHighResolutionCapable</key><true/>
  <!-- Shown by macOS in its own permission prompt. Location is optional and is
       only requested when a capsule is built with the location protection. -->
  <key>NSLocationWhenInUseUsageDescription</key>
  <string>NYEDArch uses your location only when you enable the location protection, so a capsule can be bound to the place you choose. Your coordinates are converted to a region identifier and are never stored or transmitted.</string>
  <key>NSLocationUsageDescription</key>
  <string>NYEDArch uses your location only when you enable the location protection, so a capsule can be bound to the place you choose.</string>
</dict>
</plist>
";

/// The `Info.plist` for the macOS application bundle.
///
/// The location usage description is the load-bearing part: macOS refuses
/// location to a process whose bundle does not carry it.
pub fn info_plist(version: &str) -> (r: String)
    ensures
        r@ == PLIST_HEAD@ + version@ + PLIST_MIDDLE@ + version@ + PLIST_TAIL@,
{
    let mut s = String::from_str(PLIST_HEAD);
    s.append(version);
    s.append(PLIST_MIDDLE);
    s.append(version);
    s.append(PLIST_TAIL);
    s
}

/// True when installing as a macOS application bundle: the installer was
/// built for macOS.
pub fn is_bundle_target(target_os: &str) -> (r: bool)
    ensures
        r == (target_os@ == "macos"@),
{
    let c = chars_of(target_os);
    is_word(&c, "macos")
}

/// Where a release item lands inside a `.app` bundle; `bin` is placed file
/// by file.
pub open spec fn spec_bundle_destination(item: Seq<char>) -> Option<Seq<char>> {
    if item == "bin"@ {
        None
    } else if item == "runtime-src"@ {
        Some("Contents/Resources/runtime-src"@)
    } else if item == "docs"@ {
        Some("Contents/Resources/docs"@)
    } else if item == "AppIcon.icns"@ || item == "icon.png"@ {
        Some("Contents/Resources/AppIcon.icns"@)
    } else if item == "install"@ || item == "install.exe"@ {
        Some("Contents/MacOS/install"@)
    } else if item == MANIFEST@ {
        Some("Contents/"@ + MANIFEST@)
    } else {
        Some("Contents/Resources/"@ + item)
    }
}

/// Where a release item lands inside a `.app` bundle.
///
/// Executables sit in `Contents/MacOS` and everything else in
/// `Contents/Resources`, or macOS will not treat the directory as an
/// application; nothing lands at the bundle root.
pub fn bundle_destination(item: &str) -> (r: Option<String>)
    ensures
        r matches Some(d) ==> spec_bundle_destination(item@) == Some(d@),
        r is None ==> spec_bundle_destination(item@) is None,
        r matches Some(d) ==> "Contents/"@.is_prefix_of(d@),
{
    proof {
        reveal_strlit("Contents/");
        reveal_strlit("Contents/Resources/");
        reveal_strlit("Contents/Resources/runtime-src");
        reveal_strlit("Contents/Resources/docs");
        reveal_strlit("Contents/Resources/AppIcon.icns");
        reveal_strlit("Contents/MacOS/install");
    }
    let c = chars_of(item);
    if is_word(&c, "bin") {
        None
    } else if is_word(&c, "runtime-src") {
        Some(String::from_str("Contents/Resources/runtime-src"))
    } else if is_word(&c, "docs") {
        Some(String::from_str("Contents/Resources/docs"))
    } else if is_word(&c, "AppIcon.icns") || is_word(&c, "icon.png") {
        Some(String::from_str("Contents/Resources/AppIcon.icns"))
    } else if is_word(&c, "install") || is_word(&c, "install.exe") {
        Some(String::from_str("Contents/MacOS/install"))
    } else if is_word(&c, MANIFEST) {
        let mut d = String::from_str("Contents/");
        d.append(MANIFEST);
        assert("Contents/"@.is_prefix_of(d@)) by {
            assert(d@.subrange(0, 9) =~= "Contents/"@);
        }
        Some(d)
    } else {
        let mut d = String::from_str("Contents/Resources/");
        d.append(item);
        assert("Contents/"@.is_prefix_of(d@)) by {
            assert(d@.subrange(0, 9) =~= "Contents/"@);
        }
        Some(d)
    }
}

/// The file name of an executable: `.exe` is added on Windows.
pub fn exe_name(stem: &str, windows: bool) -> (r: String)
    ensures
        r@ == if windows {
            stem@ + ".exe"@
        } else {
            stem@
        },
{
    let mut s = String::from_str(stem);
    if windows {
        s.append(".exe");
    }
    s
}

/// `s` with every leading `./` removed, as `trim_start_matches("./")` does.
pub open spec fn without_dot_slash(s: Seq<char>) -> Seq<char>
    decreases s.len(),
{
    if s.len() >= 2 && s[0] == '.' && s[1] == '/' {
        without_dot_slash(s.skip(2))
    } else {
        s
    }
}

/// A line of `SHA256SUMS`, `<hex>  <path>`: the digest and the path it
/// covers, once the line is trimmed and any leading `./` is dropped. Blank
/// lines, lines without the two-space separator and the entry for
/// `SHA256SUMS` itself name nothing to check.
pub open spec fn spec_checksum_line(line: Seq<char>) -> Option<(Seq<char>, Seq<char>)> {
    let t = trimmed(line);
    if t.len() == 0 {
        None
    } else {
        match find_from(t, "  "@, 0) {
            Some(i) => if 0 <= i && i + 2 <= t.len() {
                let rel = without_dot_slash(t.subrange(i + 2, t.len() as int));
                if rel == "SHA256SUMS"@ {
                    None
                } else {
                    Some((t.subrange(0, i), rel))
                }
            } else {
                None
            },
            None => None,
        }
    }
}

/// Read one line of `SHA256SUMS` into the digest and the path it covers.
pub fn checksum_line(line: &str) -> (r: Option<(String, String)>)
    ensures
        match r {
            Some((h, p)) => spec_checksum_line(line@) == Some((h@, p@)),
            None => spec_checksum_line(line@) is None,
        },
{
    let c = chars_of(line);
    let (a, b) = trim_bounds(&c);
    if a == b {
        return None;
    }
    let t = line.substring_char(a, b);
    let tc = chars_of(t);
    let sep = chars_of("  ");
    proof {
        reveal_strlit("  ");
    }
    assert(sep@.len() == 2);
    let n = tc.len();
    match find_chars(&tc, &sep, 0) {
        None => None,
        Some(i) => {
            proof {
                lemma_find_from(tc@, sep@, 0);
                match find_from(tc@, sep@, 0) {
                    Some(j) => {
                        assert(occurs_at(tc@, sep@, j));
                        assert(0 <= j <= n);
                        assert(j == i);
                    },
                    None => {},
                }
            }
            let mut s = i + 2;
            while s < n && n - s >= 2 && tc[s] == '.' && tc[s + 1] == '/'
                invariant
                    n == tc@.len(),
                    i + 2 <= s <= n,
                    without_dot_slash(tc@.subrange(i + 2, n as int)) == without_dot_slash(
                        tc@.subrange(s as int, n as int),
                    ),
                decreases n - s,
            {
                assert(tc@.subrange(s as int, n as int).skip(2) =~= tc@.subrange(s + 2, n as int));
                s = s + 2;
            }
            assert(without_dot_slash(tc@.subrange(s as int, n as int)) == tc@.subrange(s as int, n as int));
            let rel = t.substring_char(s, n);
            let rc = chars_of(rel);
            if is_word(&rc, "SHA256SUMS") {
                return None;
            }
            let hex = t.substring_char(0, i);
            Some((hex.to_owned(), rel.to_owned()))
        },
    }
}


/// `s` in the terminal style `code` when colour is on, else as it is.
pub open spec fn spec_styled(code: Seq<char>, s: Seq<char>, color: bool) -> Seq<char> {
    if color {
        "\x1b["@ + code + "m"@ + s + "\x1b[0m"@
    } else {
        s
    }
}

/// Colour the text only when attached to a terminal that plausibly supports
/// it (the caller decides that from the environment).
pub fn styled(code: &str, s: &str, color: bool) -> (r: String)
    ensures
        r@ == spec_styled(code@, s@, color),
{
    if color {
        let mut m = String::from_str("\x1b[");
        m.append(code);
        m.append("m");
        m.append(s);
        m.append("\x1b[0m");
        m
    } else {
        String::from_str(s)
    }
}

pub fn bold(s: &str, color: bool) -> (r: String)
    ensures
        r@ == spec_styled("1"@, s@, color),
{
    styled("1", s, color)
}

pub fn dim(s: &str, color: bool) -> (r: String)
    ensures
        r@ == spec_styled("2"@, s@, color),
{
    styled("2", s, color)
}

pub fn ok_s(s: &str, color: bool) -> (r: String)
    ensures
        r@ == spec_styled("32"@, s@, color),
{
    styled("32", s, color)
}

pub fn warn_s(s: &str, color: bool) -> (r: String)
    ensures
        r@ == spec_styled("33"@, s@, color),
{
    styled("33", s, color)
}

pub fn err_s(s: &str, color: bool) -> (r: String)
    ensures
        r@ == spec_styled("31"@, s@, color),
{
    styled("31", s, color)
}


/// What the installer was asked to do.
pub struct Opts {
    pub prefix: Option<String>,
    pub uninstall: bool,
    pub verify_only: bool,
    pub assume_yes: bool,
    pub force: bool,
    /// `--help` was given: show the usage and do nothing else.
    pub help: bool,
}

/// What the options say, as values.
pub struct OptsModel {
    pub prefix: Option<Seq<char>>,
    pub uninstall: bool,
    pub verify_only: bool,
    pub assume_yes: bool,
    pub force: bool,
    pub help: bool,
}

pub open spec fn opts_model(o: Opts) -> OptsModel {
    OptsModel {
        prefix: match o.prefix {
            Some(p) => Some(p@),
            None => None,
        },
        uninstall: o.uninstall,
        verify_only: o.verify_only,
        assume_yes: o.assume_yes,
        force: o.force,
        help: o.help,
    }
}

/// The options from position `i` on, applied to `o`: `--help` stops at
/// once; an unknown option or a `--prefix` without its directory is refused.
pub open spec fn options_from(args: Seq<Seq<char>>, i: int, o: OptsModel) -> Result<OptsModel, Seq<char>>
    decreases args.len() - i,
{
    if i < 0 || i >= args.len() {
        Ok(o)
    } else {
        let a = args[i];
        if a == "--prefix"@ {
            if i + 1 < args.len() {
                options_from(args, i + 2, OptsModel { prefix: Some(args[i + 1]), ..o })
            } else {
                Err("--prefix needs a directory"@)
            }
        } else if a == "--uninstall"@ {
            options_from(args, i + 1, OptsModel { uninstall: true, ..o })
        } else if a == "--verify"@ {
            options_from(args, i + 1, OptsModel { verify_only: true, ..o })
        } else if a == "--yes"@ || a == "-y"@ {
            options_from(args, i + 1, OptsModel { assume_yes: true, ..o })
        } else if a == "--force"@ {
            options_from(args, i + 1, OptsModel { force: true, ..o })
        } else if a == "--help"@ || a == "-h"@ {
            Ok(OptsModel { help: true, ..o })
        } else {
            Err("unknown option: "@ + a)
        }
    }
}

pub open spec fn no_options() -> OptsModel {
    OptsModel { prefix: None, uninstall: false, verify_only: false, assume_yes: false, force: false, help: false }
}

pub open spec fn texts(v: Seq<String>) -> Seq<Seq<char>> {
    v.map_values(|s: String| s@)
}

/// Read the installer's options (the arguments after the program name).
pub fn parse_args(args: &Vec<String>) -> (r: Result<Opts, String>)
    ensures
        match options_from(texts(args@), 0, no_options()) {
            Ok(m) => r matches Ok(o) && opts_model(o) == m,
            Err(e) => r matches Err(m) && m@ == e,
        },
{
    let ghost av = texts(args@);
    let mut o = Opts { prefix: None, uninstall: false, verify_only: false, assume_yes: false, force: false, help: false };
    let mut i: usize = 0;
    while i < args.len()
        invariant
            av == texts(args@),
            i <= args@.len(),
            !o.help,
            options_from(av, 0, no_options()) == options_from(av, i as int, opts_model(o)),
        decreases args@.len() - i,
    {
        let a = chars_of(args[i].as_str());
        assert(a@ == av[i as int]);
        if is_word(&a, "--prefix") {
            if args.len() - i > 1 {
                assert(args@[i + 1]@ == av[i + 1]);
                o.prefix = Some(args[i + 1].clone());
                i = i + 2;
            } else {
                return Err(String::from_str("--prefix needs a directory"));
            }
        } else if is_word(&a, "--uninstall") {
            o.uninstall = true;
            i = i + 1;
        } else if is_word(&a, "--verify") {
            o.verify_only = true;
            i = i + 1;
        } else if is_word(&a, "--yes") || is_word(&a, "-y") {
            o.assume_yes = true;
            i = i + 1;
        } else if is_word(&a, "--force") {
            o.force = true;
            i = i + 1;
        } else if is_word(&a, "--help") || is_word(&a, "-h") {
            o.help = true;
            return Ok(o);
        } else {
            let mut m = String::from_str("unknown option: ");
            m.append(args[i].as_str());
            return Err(m);
        }
    }
    Ok(o)
}


/// Where a per-user path starts: a directory the environment names, or the
/// current directory when it names none.
#[derive(Clone, Copy, Debug, PartialEq, Eq, Structural)]
pub enum PathRoot {
    /// `%LOCALAPPDATA%`.
    LocalAppData,
    /// `$HOME`.
    Home,
    /// `$XDG_DATA_HOME`.
    XdgDataHome,
    /// `.`
    CurrentDir,
}

pub open spec fn views(v: Seq<&str>) -> Seq<Seq<char>> {
    v.map_values(|s: &str| s@)
}

/// The per-user install root, by each platform's convention: the root and
/// the components joined under it.
pub open spec fn spec_default_prefix(target_os: Seq<char>, local_app_data: bool, home: bool, xdg_data_home: bool) -> (PathRoot, Seq<Seq<char>>) {
    if target_os == "windows"@ {
        if local_app_data {
            (PathRoot::LocalAppData, seq!["Programs"@, "NYEDArch"@])
        } else {
            (PathRoot::CurrentDir, seq!["NYEDArch"@])
        }
    } else if target_os == "macos"@ {
        if home {
            (PathRoot::Home, seq!["Applications"@, "NYEDArch.app"@])
        } else {
            (PathRoot::CurrentDir, seq!["NYEDArch.app"@])
        }
    } else if xdg_data_home {
        (PathRoot::XdgDataHome, seq!["nyedarch"@])
    } else if home {
        (PathRoot::Home, seq![".local"@, "share"@, "nyedarch"@])
    } else {
        (PathRoot::CurrentDir, seq!["nyedarch"@])
    }
}

/// The per-user install root for `target_os`, given which of the user's
/// directories the environment names. Windows: `%LOCALAPPDATA%\Programs\NYEDArch`;
/// macOS: `~/Applications/NYEDArch.app`, a real application bundle; elsewhere
/// the XDG data directory.
pub fn default_prefix(target_os: &str, local_app_data: bool, home: bool, xdg_data_home: bool) -> (r: (PathRoot, Vec<&'static str>))
    ensures
        (r.0, views(r.1@)) == spec_default_prefix(target_os@, local_app_data, home, xdg_data_home),
{
    let os = chars_of(target_os);
    let r = if is_word(&os, "windows") {
        if local_app_data {
            (PathRoot::LocalAppData, vec!["Programs", "NYEDArch"])
        } else {
            (PathRoot::CurrentDir, vec!["NYEDArch"])
        }
    } else if is_word(&os, "macos") {
        if home {
            (PathRoot::Home, vec!["Applications", "NYEDArch.app"])
        } else {
            (PathRoot::CurrentDir, vec!["NYEDArch.app"])
        }
    } else if xdg_data_home {
        (PathRoot::XdgDataHome, vec!["nyedarch"])
    } else if home {
        (PathRoot::Home, vec![".local", "share", "nyedarch"])
    } else {
        (PathRoot::CurrentDir, vec!["nyedarch"])
    };
    assert(views(r.1@) =~= spec_default_prefix(target_os@, local_app_data, home, xdg_data_home).1);
    r
}

/// Where a user's executables normally live, for the `PATH` hint and the
/// convenience link: `~/.local/bin`; Windows has no such directory.
pub fn user_bin_dir(target_os: &str, home: bool) -> (r: Option<Vec<&'static str>>)
    ensures
        match r {
            Some(tail) => target_os@ != "windows"@ && home && views(tail@) == seq![".local"@, "bin"@],
            None => target_os@ == "windows"@ || !home,
        },
{
    let os = chars_of(target_os);
    if is_word(&os, "windows") || !home {
        None
    } else {
        let tail = vec![".local", "bin"];
        assert(views(tail@) =~= seq![".local"@, "bin"@]);
        Some(tail)
    }
}

/// A prompt's answer means yes: `y` or `yes`, in any case, around white space.
pub open spec fn means_yes(answer: Seq<char>) -> bool {
    let a = lower(trimmed(answer));
    a == "y"@ || a == "yes"@
}

/// Whether a typed answer to a yes/no prompt accepts it.
pub fn answers_yes(answer: &str) -> (r: bool)
    ensures
        r == means_yes(answer@),
{
    let a = lower_text(trim_str(answer));
    is_word(&a, "y") || is_word(&a, "yes")
}

/// The release items the installer copies, itself first, so that
/// `--uninstall` still works once the distribution media is gone.
pub fn release_items(windows: bool) -> (r: Vec<&'static str>)
    ensures
        views(r@) == seq![
            if windows { "install.exe"@ } else { "install"@ },
            "bin"@, "runtime-src"@, "docs"@,
            "START_HERE.md"@, "README.md"@, "EULA.md"@,
            "BUILD_INFO.txt"@, "BENCHMARKS.txt"@, "SHA256SUMS"@,
            "NYEDArch_Technical_Documentation.docx"@,
            "NYEDArch_Technical_Documentation.pdf"@,
        ],
{
    let self_name = if windows { "install.exe" } else { "install" };
    let r = vec![
        self_name,
        "bin", "runtime-src", "docs",
        "START_HERE.md", "README.md", "EULA.md",
        "BUILD_INFO.txt", "BENCHMARKS.txt", "SHA256SUMS",
        "NYEDArch_Technical_Documentation.docx",
        "NYEDArch_Technical_Documentation.pdf",
    ];
    assert(views(r@) =~= seq![
        if windows { "install.exe"@ } else { "install"@ },
        "bin"@, "runtime-src"@, "docs"@,
        "START_HERE.md"@, "README.md"@, "EULA.md"@,
        "BUILD_INFO.txt"@, "BENCHMARKS.txt"@, "SHA256SUMS"@,
        "NYEDArch_Technical_Documentation.docx"@,
        "NYEDArch_Technical_Documentation.pdf"@,
    ]);
    r
}

/// The name an executable from `bin` takes inside the bundle: the GUI is
/// renamed to match `CFBundleExecutable`.
pub fn bundle_executable_name(name: &str) -> (r: String)
    ensures
        r@ == if name@ == "nyedarch-gui"@ { APP@ } else { name@ },
{
    let c = chars_of(name);
    if is_word(&c, "nyedarch-gui") {
        String::from_str(APP)
    } else {
        String::from_str(name)
    }
}

/// The install manifest from the first `k` installed paths: one per line.
pub open spec fn manifest_upto(installed: Seq<String>, k: int) -> Seq<char>
    decreases k,
{
    if k <= 0 || k > installed.len() {
        Seq::empty()
    } else {
        manifest_upto(installed, k - 1) + installed[k - 1]@ + "\n"@
    }
}

/// The install manifest, so that an uninstall removes exactly what was
/// installed and no more.
pub fn install_manifest(installed: &Vec<String>) -> (r: String)
    ensures
        r@ == manifest_upto(installed@, installed@.len() as int),
{
    let mut body = String::new();
    let mut i: usize = 0;
    while i < installed.len()
        invariant
            i <= installed@.len(),
            body@ == manifest_upto(installed@, i as int),
        decreases installed@.len() - i,
    {
        body.append(installed[i].as_str());
        body.append("\n");
        i = i + 1;
    }
    body
}

/// The non-blank lines among the first `k` lines.
pub open spec fn entries_upto(lines: Seq<Seq<char>>, k: int) -> Seq<Seq<char>>
    decreases k,
{
    if k <= 0 || k > lines.len() {
        Seq::empty()
    } else if trimmed(lines[k - 1]).len() > 0 {
        entries_upto(lines, k - 1).push(lines[k - 1])
    } else {
        entries_upto(lines, k - 1)
    }
}

/// The installed paths a manifest lists: its non-blank lines, as written.
pub fn manifest_entries(text: &str) -> (r: Vec<String>)
    ensures
        r@.len() == entries_upto(lines_from(text@, 0), lines_from(text@, 0).len() as int).len(),
        forall|j: int| 0 <= j < r@.len() ==> #[trigger] r@[j]@
            == entries_upto(lines_from(text@, 0), lines_from(text@, 0).len() as int)[j],
{
    let ls = split_lines(text);
    let ghost lines = lines_from(text@, 0);
    let mut out: Vec<String> = Vec::new();
    let mut i: usize = 0;
    while i < ls.len()
        invariant
            lines == lines_from(text@, 0),
            ls@.len() == lines.len(),
            forall|j: int| 0 <= j < ls@.len() ==> #[trigger] ls@[j]@ == lines[j],
            i <= ls@.len(),
            out@.len() == entries_upto(lines, i as int).len(),
            forall|j: int| 0 <= j < out@.len() ==> #[trigger] out@[j]@ == entries_upto(lines, i as int)[j],
        decreases ls@.len() - i,
    {
        let t = trim_str(ls[i].as_str());
        let tc = chars_of(t);
        if tc.len() > 0 {
            out.push(ls[i].clone());
            assert(out@[out@.len() - 1] == ls@[i as int]);
        }
        i = i + 1;
    }
    out
}

/// What the release's integrity check found.
#[derive(Clone, Copy, Debug, PartialEq, Eq, Structural)]
pub enum Integrity {
    /// Nothing was verified: there is no `SHA256SUMS`, or nothing it lists
    /// could be checked. The install goes on with a warning.
    Unchecked,
    /// Every listed file matched.
    Verified { files: usize },
    /// At least one file is missing, unreadable or does not match: the copy
    /// must not be installed.
    Failed,
}

/// The verdict on `checked` matching files and `bad` problems.
pub fn integrity_verdict(checked: usize, bad: usize) -> (r: Integrity)
    ensures
        r == if checked == 0 {
            Integrity::Unchecked
        } else if bad == 0 {
            Integrity::Verified { files: checked }
        } else {
            Integrity::Failed
        },
{
    if checked == 0 {
        Integrity::Unchecked
    } else if bad == 0 {
        Integrity::Verified { files: checked }
    } else {
        Integrity::Failed
    }
}


/// Whether the installer colours its output: not when `NO_COLOR` is set, and
/// otherwise only on a terminal that plausibly supports it (any Unix, Windows
/// Terminal, or a `TERM` that is set).
pub fn colors_enabled(no_color: bool, unix: bool, wt_session: bool, term: bool) -> (r: bool)
    ensures
        r == (!no_color && (unix || wt_session || term)),
{
    !no_color && (unix || wt_session || term)
}


/// A path the manifest can hold one per line: no line break in it, not
/// blank, and not ending in a carriage return.
pub open spec fn manifest_safe(p: Seq<char>) -> bool {
    &&& !p.contains('\n')
    &&& trimmed(p).len() > 0
    &&& !(p.len() > 0 && p.last() == '\r')
}

proof fn lemma_find_newline_at_end(p: Seq<char>, s: int)
    requires
        0 <= s <= p.len(),
        !p.contains('\n'),
    ensures
        find_char(p + "\n"@, '\n', s) == Some(p.len() as int),
    decreases p.len() - s,
{
    reveal_strlit("\n");
    let h = p + "\n"@;
    if s < p.len() {
        assert(h[s] == p[s]);
        assert(p[s] != '\n');
        lemma_find_newline_at_end(p, s + 1);
    } else {
        assert(h[s] == '\n');
    }
}

/// One safe path and its newline make exactly one line.
proof fn lemma_one_line(p: Seq<char>)
    requires
        manifest_safe(p),
    ensures
        lines_from(p + "\n"@, 0) == seq![p],
{
    reveal_strlit("\n");
    let h = p + "\n"@;
    lemma_find_newline_at_end(p, 0);
    lemma_line_step(h, 0, p.len() as int);
    assert(h.subrange(0, p.len() as int) =~= p);
    assert(lines_from(h, p.len() + 1int) =~= Seq::<Seq<char>>::empty());
    assert(lines_from(h, 0) =~= seq![p]);
}

proof fn lemma_manifest_lines(installed: Seq<String>, k: int)
    requires
        0 <= k <= installed.len(),
        forall|i: int| 0 <= i < installed.len() ==> manifest_safe(#[trigger] installed[i]@),
    ensures
        lines_from(manifest_upto(installed, k), 0) == texts(installed.take(k)),
        manifest_upto(installed, k).len() == 0 || manifest_upto(installed, k).last() == '\n',
    decreases k,
{
    reveal_strlit("\n");
    if k == 0 {
        assert(texts(installed.take(0)) =~= Seq::<Seq<char>>::empty());
    } else {
        lemma_manifest_lines(installed, k - 1);
        let m = manifest_upto(installed, k - 1);
        let p = installed[k - 1]@;
        assert(manifest_upto(installed, k) =~= m + (p + "\n"@));
        lemma_lines_concat(m, p + "\n"@, 0);
        lemma_one_line(p);
        assert(texts(installed.take(k)) =~= texts(installed.take(k - 1)) + seq![p]);
    }
}

proof fn lemma_entries_keep_nonblank(lines: Seq<Seq<char>>, k: int)
    requires
        0 <= k <= lines.len(),
        forall|i: int| 0 <= i < lines.len() ==> trimmed(#[trigger] lines[i]).len() > 0,
    ensures
        entries_upto(lines, k) == lines.take(k),
    decreases k,
{
    if k == 0 {
        assert(lines.take(0) =~= Seq::<Seq<char>>::empty());
    } else {
        lemma_entries_keep_nonblank(lines, k - 1);
        assert(lines.take(k) =~= lines.take(k - 1).push(lines[k - 1]));
    }
}

/// What the installer records reads back as exactly what it installed, in
/// order: an uninstall removes what was installed and nothing else. This
/// holds for every list of paths none of which holds a line break, is blank,
/// or ends in a carriage return.
pub proof fn lemma_manifest_round_trip(installed: Seq<String>)
    requires
        forall|i: int| 0 <= i < installed.len() ==> manifest_safe(#[trigger] installed[i]@),
    ensures
        ({
            let lines = lines_from(manifest_upto(installed, installed.len() as int), 0);
            entries_upto(lines, lines.len() as int) == texts(installed)
        }),
{
    let n = installed.len() as int;
    lemma_manifest_lines(installed, n);
    assert(installed.take(n) =~= installed);
    let lines = lines_from(manifest_upto(installed, n), 0);
    assert forall|i: int| 0 <= i < lines.len() implies trimmed(#[trigger] lines[i]).len() > 0 by {
        assert(lines[i] == installed[i]@);
    }
    lemma_entries_keep_nonblank(lines, lines.len() as int);
    assert(lines.take(lines.len() as int) =~= lines);
}

} // verus!
