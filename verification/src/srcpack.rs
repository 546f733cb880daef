//! Encrypted source transport for the remote build.
//!
//! The remote build needs the generated capsule source on GitHub, but that
//! source is not neutral: it contains the sealed package, the per-build
//! bootstrap key and the runtime commitment. Everything except a small,
//! secret-free unlocker is packed into one archive, encrypted under a fresh
//! random key and pushed as ciphertext; the key travels as a repository
//! secret sealed to the repository's own public key, so only the Actions
//! runner can read it.
//!
//! This does not defend against the repository owner: whoever controls the
//! repository controls its workflows, and anything a workflow can decrypt, a
//! modified workflow can print.
//!
//! Here are the archive format, with its reading back, and the unlocker's
//! sources. Walking the project and encrypting are the program's part.
use vstd::prelude::*;
use vstd::utf8::{decode_utf8, encode_scalar, encode_utf8};
use crate::machines::{lemma_distinct_keys_carry, lemma_lex_irreflexive, lemma_lex_trans, lemma_sorted_unique, lex_less, lex_lt};
use crate::remote::slashed;
use crate::text::{chars_of, is_word};

verus! {

/// Archive magic, `NYARCHIVE2`, versioned so a future format is rejected
/// rather than misread.
pub open spec fn magic_bytes() -> Seq<u8> {
    seq![78u8, 89u8, 65u8, 82u8, 67u8, 72u8, 73u8, 86u8, 69u8, 50u8]
}

/// Domain separation for the archive's authenticated encryption.
pub const ARCHIVE_AAD: &'static str = "nyedarch:v1:source-archive";

/// The unlocker's manifest.
pub const UNLOCKER_CARGO: &'static str = r#"# Its own workspace on purpose: this crate is unpacked next to the encrypted
# capsule source, and without this cargo would try to treat it as a member of
# whatever workspace happens to sit above it and refuse to build.
[workspace]

[package]
name = "nyedarch-unlock"
version = "0.0.1"
edition = "2021"

[[bin]]
name = "nyedarch-unlock"
path = "src/main.rs"

[dependencies]
chacha20poly1305 = "0.10"

# Hardened like everything else NYEDArch ships. This crate holds no secret, but
# it is compiled in a repository that may be public, and a stripped binary keeps
# the build log and the artifact free of symbol noise.
[profile.release]
opt-level = 3
lto = true
codegen-units = 1
panic = "abort"
strip = true
debug = false
incremental = false
"#;

/// The unlocker's program. It holds no secret: it reads the key from the
/// environment, opens the archive and writes the files out.
pub const UNLOCKER_MAIN: &'static str = r#"//! Opens the encrypted capsule source inside the build runner.
//!
//! This program contains no secret. The key arrives in NYEDARCH_SOURCE_KEY,
//! which the workflow populates from a repository secret, so it exists only in
//! the runner's memory for the length of the build.
//!
//! Failure is always fatal: a build must never continue with a partially
//! written or unauthenticated source tree.

use std::io::Read;
use std::path::{Path, PathBuf};

use chacha20poly1305::aead::{Aead, KeyInit, Payload};
use chacha20poly1305::{XChaCha20Poly1305, XNonce};

const MAGIC: &[u8; 10] = b"NYARCHIVE2";
const AAD: &[u8] = b"nyedarch:v1:source-archive";

fn die(msg: &str) -> ! {
    eprintln!("nyedarch-unlock: {msg}");
    std::process::exit(1);
}

fn unhex(s: &str) -> Option<Vec<u8>> {
    let s = s.trim();
    if s.len() % 2 != 0 { return None; }
    (0..s.len()).step_by(2).map(|i| u8::from_str_radix(&s[i..i+2], 16).ok()).collect()
}

fn main() {
    let args: Vec<String> = std::env::args().collect();
    if args.len() < 3 {
        die("usage: nyedarch-unlock <archive> <output-directory>");
    }
    let key_hex = std::env::var("NYEDARCH_SOURCE_KEY")
        .unwrap_or_else(|_| die("NYEDARCH_SOURCE_KEY is not set; the repository secret is missing"));
    let key = unhex(&key_hex).unwrap_or_else(|| die("NYEDARCH_SOURCE_KEY is not valid hex"));
    if key.len() != 32 {
        die("NYEDARCH_SOURCE_KEY must be 32 bytes");
    }

    let mut blob = Vec::new();
    std::fs::File::open(&args[1])
        .unwrap_or_else(|e| die(&format!("cannot open the archive: {e}")))
        .read_to_end(&mut blob)
        .unwrap_or_else(|e| die(&format!("cannot read the archive: {e}")));

    if blob.len() < 24 {
        die("the archive is truncated");
    }
    let (nonce, ct) = blob.split_at(24);

    let cipher = XChaCha20Poly1305::new_from_slice(&key)
        .unwrap_or_else(|_| die("invalid key"));
    // Authenticated: a modified archive fails here rather than producing a
    // subtly wrong source tree.
    let plain = cipher
        .decrypt(XNonce::from_slice(nonce), Payload { msg: ct, aad: AAD })
        .unwrap_or_else(|_| die("the archive failed authentication: wrong key or modified content"));

    if plain.len() < MAGIC.len() || &plain[..MAGIC.len()] != MAGIC {
        die("unrecognised archive format");
    }

    let out_root = PathBuf::from(&args[2]);
    let mut i = MAGIC.len();
    let mut count = 0usize;
    while i < plain.len() {
        if i + 4 > plain.len() { die("truncated entry header"); }
        let nlen = u32::from_le_bytes(plain[i..i+4].try_into().unwrap()) as usize;
        i += 4;
        if i + nlen > plain.len() { die("truncated entry name"); }
        let name = String::from_utf8_lossy(&plain[i..i+nlen]).to_string();
        i += nlen;
        if i >= plain.len() { die("truncated entry flags"); }
        let flags = plain[i];
        i += 1;
        if i + 8 > plain.len() { die("truncated entry length"); }
        let dlen = u64::from_le_bytes(plain[i..i+8].try_into().unwrap()) as usize;
        i += 8;
        if i + dlen > plain.len() { die("truncated entry data"); }
        let data = &plain[i..i+dlen];
        i += dlen;

        // Refuse anything that would escape the output directory.
        if name.starts_with('/') || name.split('/').any(|c| c == ".." || c.is_empty()) {
            die(&format!("refusing unsafe path in archive: {name}"));
        }
        let dest = out_root.join(&name);
        if let Some(parent) = dest.parent() {
            std::fs::create_dir_all(parent)
                .unwrap_or_else(|e| die(&format!("cannot create {}: {e}", parent.display())));
        }
        std::fs::write(&dest, data)
            .unwrap_or_else(|e| die(&format!("cannot write {}: {e}", dest.display())));
        // Restore the executable bit. Without this an unpacked script cannot
        // run, which is how this was found.
        #[cfg(unix)]
        if flags & 1 != 0 {
            use std::os::unix::fs::PermissionsExt;
            let _ = std::fs::set_permissions(&dest, std::fs::Permissions::from_mode(0o755));
        }
        #[cfg(not(unix))]
        let _ = flags;
        count += 1;
    }
    println!("nyedarch-unlock: restored {count} file(s) into {}", out_root.display());
    let _ = Path::new(&args[1]);
}
"#;

/// The unlocker crate, written into the build repository in the clear.
///
/// Anyone reading it learns the format and nothing else.
pub fn unlocker_sources() -> (r: Vec<(&'static str, String)>)
    ensures
        r@.len() == 2,
        r@[0].0@ == "unlock/Cargo.toml"@,
        r@[0].1@ == UNLOCKER_CARGO@,
        r@[1].0@ == "unlock/src/main.rs"@,
        r@[1].1@ == UNLOCKER_MAIN@,
{
    let mut v: Vec<(&'static str, String)> = Vec::new();
    v.push(("unlock/Cargo.toml", String::from_str(UNLOCKER_CARGO)));
    v.push(("unlock/src/main.rs", String::from_str(UNLOCKER_MAIN)));
    v
}


/// `256` to the power `n`.
pub open spec fn pow256(n: nat) -> nat
    decreases n,
{
    if n == 0 {
        1
    } else {
        256 * pow256((n - 1) as nat)
    }
}

/// `v` in `n` little-endian bytes.
pub open spec fn le_bytes(v: nat, n: nat) -> Seq<u8>
    decreases n,
{
    if n == 0 {
        Seq::empty()
    } else {
        seq![(v % 256) as u8] + le_bytes(v / 256, (n - 1) as nat)
    }
}

/// The number little-endian bytes `b` stand for.
pub open spec fn le_value(b: Seq<u8>) -> nat
    decreases b.len(),
{
    if b.len() == 0 {
        0
    } else {
        b[0] as nat + 256 * le_value(b.skip(1))
    }
}

/// What an archive holds: each file's path, bytes, and whether it is
/// executable.
pub open spec fn file_view(e: (String, Vec<u8>, bool)) -> (Seq<char>, Seq<u8>, bool) {
    (e.0@, e.1@, e.2)
}

pub open spec fn files_view(es: Seq<(String, Vec<u8>, bool)>) -> Seq<(Seq<char>, Seq<u8>, bool)> {
    es.map_values(|e: (String, Vec<u8>, bool)| file_view(e))
}

/// One entry: `u32` path length, the path in UTF-8, a flags byte (bit 0:
/// executable), `u64` data length, then the bytes.
pub open spec fn entry_bytes(e: (Seq<char>, Seq<u8>, bool)) -> Seq<u8> {
    le_bytes(encode_utf8(e.0).len(), 4) + encode_utf8(e.0) + seq![if e.2 { 1u8 } else { 0u8 }] + le_bytes(e.1.len(), 8) + e.1
}

pub open spec fn entries_bytes(es: Seq<(Seq<char>, Seq<u8>, bool)>) -> Seq<u8>
    decreases es.len(),
{
    if es.len() == 0 {
        Seq::empty()
    } else {
        entries_bytes(es.drop_last()) + entry_bytes(es.last())
    }
}

/// The archive of `es`: the magic, then each entry in order.
pub open spec fn archive_bytes(es: Seq<(Seq<char>, Seq<u8>, bool)>) -> Seq<u8> {
    magic_bytes() + entries_bytes(es)
}

/// Whether every entry's lengths fit their fields.
pub open spec fn fits(es: Seq<(Seq<char>, Seq<u8>, bool)>) -> bool {
    forall|i: int|
        0 <= i < es.len() ==> encode_utf8(#[trigger] es[i].0).len() < pow256(4) && es[i].1.len() < pow256(8)
}

fn push_le(out: &mut Vec<u8>, v: u64, n: usize)
    ensures
        final(out)@ == old(out)@ + le_bytes(v as nat, n as nat),
{
    let ghost start = old(out)@;
    let mut x = v;
    let mut k = n;
    assert(start + le_bytes(v as nat, n as nat) =~= out@ + le_bytes(x as nat, k as nat));
    while k > 0
        invariant
            start + le_bytes(v as nat, n as nat) == out@ + le_bytes(x as nat, k as nat),
        decreases k,
    {
        let b = (x % 256) as u8;
        let ghost before = out@;
        out.push(b);
        assert(before + le_bytes(x as nat, k as nat) =~= out@ + le_bytes((x / 256) as nat, (k - 1) as nat));
        x = x / 256;
        k = k - 1;
    }
    assert(out@ + le_bytes(x as nat, 0) =~= out@);
}

/// The archive bytes for the given files, in the order given.
pub fn encode_archive(files: &Vec<(String, Vec<u8>, bool)>) -> (r: Vec<u8>)
    requires
        forall|i: int| 0 <= i < files@.len() ==> encode_utf8((#[trigger] files@[i]).0@).len() < pow256(4),
    ensures
        r@ == archive_bytes(files_view(files@)),
{
    let mut out: Vec<u8> = vec![78u8, 89u8, 65u8, 82u8, 67u8, 72u8, 73u8, 86u8, 69u8, 50u8];
    assert(out@ =~= magic_bytes());
    let mut i: usize = 0;
    assert(files_view(files@).take(0) =~= Seq::<(Seq<char>, Seq<u8>, bool)>::empty());
    assert(out@ =~= magic_bytes() + entries_bytes(files_view(files@).take(0)));
    while i < files.len()
        invariant
            i <= files@.len(),
            forall|j: int| 0 <= j < files@.len() ==> encode_utf8((#[trigger] files@[j]).0@).len() < pow256(4),
            out@ == magic_bytes() + entries_bytes(files_view(files@).take(i as int)),
        decreases files@.len() - i,
    {
        let ghost before = out@;
        let e = &files[i];
        let name = e.0.as_str().as_bytes();
        assert(encode_utf8(files@[i as int].0@).len() < pow256(4));
        assert(pow256(4) == 4294967296) by {
            reveal_with_fuel(pow256, 5);
        }
        push_le(&mut out, name.len() as u64, 4);
        let mut k: usize = 0;
        let ghost mid = out@;
        while k < name.len()
            invariant
                k <= name@.len(),
                out@ == mid + name@.take(k as int),
            decreases name@.len() - k,
        {
            out.push(name[k]);
            assert(out@ =~= mid + name@.take(k + 1));
            k = k + 1;
        }
        let flag: u8 = if e.2 {
            1
        } else {
            0
        };
        out.push(flag);
        push_le(&mut out, e.1.len() as u64, 8);
        let mut d: usize = 0;
        let ghost mid2 = out@;
        while d < e.1.len()
            invariant
                d <= e.1@.len(),
                out@ == mid2 + e.1@.take(d as int),
            decreases e.1@.len() - d,
        {
            out.push(e.1[d]);
            assert(out@ =~= mid2 + e.1@.take(d + 1));
            d = d + 1;
        }
        proof {
            let fv = files_view(files@);
            assert(fv.take(i + 1).drop_last() =~= fv.take(i as int));
            assert(fv.take(i + 1).last() == file_view(files@[i as int]));
            assert(name@.take(k as int) =~= encode_utf8(files@[i as int].0@));
            assert(e.1@.take(d as int) =~= e.1@);
            assert(out@ =~= before + entry_bytes(file_view(files@[i as int])));
        }
        i = i + 1;
    }
    assert(files_view(files@).take(i as int) =~= files_view(files@));
    out
}


/// The entries that archive bytes after the magic stand for, read as the
/// unlocker reads them; `None` when an entry is cut short.
pub open spec fn read_entries(b: Seq<u8>) -> Option<Seq<(Seq<char>, Seq<u8>, bool)>>
    decreases b.len(),
{
    if b.len() == 0 {
        Some(Seq::empty())
    } else if b.len() < 4 {
        None
    } else {
        let at: int = 4 + le_value(b.take(4)) as int;
        if at + 9 > b.len() {
            None
        } else {
            let end: int = at + 9 + le_value(b.subrange(at + 1, at + 9));
            if end > b.len() {
                None
            } else {
                match read_entries(b.skip(end)) {
                    None => None,
                    Some(rest) => Some(
                        seq![(decode_utf8(b.subrange(4, at)), b.subrange(at + 9, end), b[at] % 2 == 1)] + rest,
                    ),
                }
            }
        }
    }
}

/// What an archive holds, if it is one.
pub open spec fn read_archive(b: Seq<u8>) -> Option<Seq<(Seq<char>, Seq<u8>, bool)>> {
    if b.len() >= 10 && b.take(10) == magic_bytes() {
        read_entries(b.skip(10))
    } else {
        None
    }
}

proof fn lemma_le_roundtrip(v: nat, n: nat)
    requires
        v < pow256(n),
    ensures
        le_bytes(v, n).len() == n,
        le_value(le_bytes(v, n)) == v,
    decreases n,
{
    if n > 0 {
        let p = pow256((n - 1) as nat);
        assert(v / 256 < p) by (nonlinear_arith)
            requires
                v < 256 * p,
        ;
        lemma_le_roundtrip(v / 256, (n - 1) as nat);
        let b = le_bytes(v, n);
        assert(b.skip(1) =~= le_bytes(v / 256, (n - 1) as nat));
        assert(b[0] as nat == v % 256);
    }
}

proof fn lemma_entries_front(es: Seq<(Seq<char>, Seq<u8>, bool)>)
    requires
        es.len() > 0,
    ensures
        entries_bytes(es) == entry_bytes(es[0]) + entries_bytes(es.skip(1)),
    decreases es.len(),
{
    if es.len() == 1 {
        assert(es.drop_last() =~= Seq::<(Seq<char>, Seq<u8>, bool)>::empty());
        assert(es.skip(1) =~= Seq::<(Seq<char>, Seq<u8>, bool)>::empty());
        assert(entries_bytes(es.drop_last()) =~= Seq::<u8>::empty());
        assert(entries_bytes(es) =~= entry_bytes(es[0]) + entries_bytes(es.skip(1)));
    } else {
        lemma_entries_front(es.drop_last());
        assert(es.drop_last().skip(1) =~= es.skip(1).drop_last());
        assert(es.skip(1).last() == es.last());
        assert(es.drop_last()[0] == es[0]);
        assert(entries_bytes(es) =~= entry_bytes(es[0]) + entries_bytes(es.skip(1)));
    }
}

proof fn lemma_entries_read_back(es: Seq<(Seq<char>, Seq<u8>, bool)>)
    requires
        fits(es),
    ensures
        read_entries(entries_bytes(es)) == Some(es),
    decreases es.len(),
{
    broadcast use vstd::utf8::encode_utf8_decode_utf8;
    if es.len() == 0 {
        assert(es =~= Seq::<(Seq<char>, Seq<u8>, bool)>::empty());
    } else {
        let e = es[0];
        let rest = es.skip(1);
        assert(fits(rest)) by {
            assert forall|i: int| 0 <= i < rest.len() implies encode_utf8(#[trigger] rest[i].0).len() < pow256(4)
                && rest[i].1.len() < pow256(8) by {
                assert(rest[i] == es[i + 1]);
            }
        }
        lemma_entries_read_back(rest);
        lemma_entries_front(es);
        let name = encode_utf8(e.0);
        assert(name.len() < pow256(4) && e.1.len() < pow256(8));
        lemma_le_roundtrip(name.len(), 4);
        lemma_le_roundtrip(e.1.len(), 8);
        let nb = le_bytes(name.len(), 4);
        let flag: u8 = if e.2 { 1u8 } else { 0u8 };
        let db = le_bytes(e.1.len(), 8);
        let tail = entries_bytes(rest);
        let b = entries_bytes(es);
        assert(b =~= nb + name + seq![flag] + db + e.1 + tail);
        let at: int = 4 + name.len() as int;
        let end: int = at + 9 + e.1.len();
        assert(b.take(4) =~= nb);
        assert(b.subrange(4, at) =~= name);
        assert(b[at] == flag);
        assert(b.subrange(at + 1, at + 9) =~= db);
        assert(b.subrange(at + 9, end) =~= e.1);
        assert(b.skip(end) =~= tail);
        assert(seq![(e.0, e.1, e.2)] + rest =~= es);
    }
}

/// An archive reads back as exactly the files packed into it, in order: the
/// unlocker restores what the builder packed.
pub proof fn lemma_archive_reads_back(es: Seq<(Seq<char>, Seq<u8>, bool)>)
    requires
        fits(es),
    ensures
        read_archive(archive_bytes(es)) == Some(es),
{
    let b = archive_bytes(es);
    assert(b.take(10) =~= magic_bytes());
    assert(b.skip(10) =~= entries_bytes(es));
    lemma_entries_read_back(es);
}


/// A directory entry an archive never holds, at any depth: build output,
/// version control, or one of the names in `skip`.
pub fn archive_skips(name: &str, skip: &[&str]) -> (r: bool)
    ensures
        r == (name@ == "target"@ || name@ == ".git"@ || exists|i: int| 0 <= i < skip@.len() && (#[trigger] skip@[i])@ == name@),
{
    let c = chars_of(name);
    if is_word(&c, "target") || is_word(&c, ".git") {
        return true;
    }
    let mut i: usize = 0;
    while i < skip.len()
        invariant
            i <= skip@.len(),
            c@ == name@,
            forall|j: int| 0 <= j < i ==> (#[trigger] skip@[j])@ != name@,
        decreases skip@.len() - i,
    {
        if is_word(&c, skip[i]) {
            return true;
        }
        i = i + 1;
    }
    false
}

/// No path comes before the one ahead of it.
pub open spec fn name_sorted(s: Seq<(Seq<char>, Seq<u8>, bool)>) -> bool {
    forall|i: int, j: int| 0 <= i < j < s.len() ==> !lex_lt(#[trigger] s[j].0, #[trigger] s[i].0)
}

proof fn lemma_insert_name_sorted(s: Seq<(Seq<char>, Seq<u8>, bool)>, k: int, x: (Seq<char>, Seq<u8>, bool))
    requires
        name_sorted(s),
        0 <= k <= s.len(),
        forall|m: int| 0 <= m < k ==> !lex_lt(x.0, #[trigger] s[m].0),
        k < s.len() ==> lex_lt(x.0, s[k].0),
    ensures
        name_sorted(s.insert(k, x)),
{
    let n = s.insert(k, x);
    assert forall|i: int, j: int| 0 <= i < j < n.len() implies !lex_lt(#[trigger] n[j].0, #[trigger] n[i].0) by {
        if j < k {
            assert(n[i] == s[i] && n[j] == s[j]);
        } else if j == k {
            assert(n[i] == s[i]);
        } else if i == k {
            assert(n[j] == s[j - 1]);
            if lex_lt(s[j - 1].0, x.0) {
                lemma_lex_trans(s[j - 1].0, x.0, s[k].0);
                if j - 1 == k {
                    lemma_lex_irreflexive(s[k].0);
                } else {
                    assert(!lex_lt(s[j - 1].0, s[k].0));
                }
            }
        } else if i < k {
            assert(n[i] == s[i] && n[j] == s[j - 1]);
        } else {
            assert(n[i] == s[i - 1] && n[j] == s[j - 1]);
        }
    }
}

fn name_before(key: &Vec<char>, e: &(String, Vec<u8>, bool)) -> (r: bool)
    ensures
        r == lex_lt(key@, e.0@),
{
    let other = chars_of(e.0.as_str());
    lex_less(key, &other)
}

/// The files found, ordered by path (files with the same path keep their
/// order), so that packing the same tree twice gives the same archive.
pub fn sort_by_name(found: Vec<(String, Vec<u8>, bool)>) -> (r: Vec<(String, Vec<u8>, bool)>)
    ensures
        files_view(r@).to_multiset() == files_view(found@).to_multiset(),
        name_sorted(files_view(r@)),
{
    broadcast use vstd::seq_lib::group_to_multiset_ensures;
    let ghost orig = found@;
    let mut rest = found;
    let mut out: Vec<(String, Vec<u8>, bool)> = Vec::new();
    let ghost mut i: int = 0;
    assert(files_view(orig.take(0)) =~= Seq::<(Seq<char>, Seq<u8>, bool)>::empty());
    assert(files_view(out@) =~= Seq::<(Seq<char>, Seq<u8>, bool)>::empty());
    while rest.len() > 0
        invariant
            0 <= i <= orig.len(),
            rest@ == orig.skip(i),
            files_view(out@).to_multiset() == files_view(orig.take(i)).to_multiset(),
            name_sorted(files_view(out@)),
        decreases rest@.len(),
    {
        let ghost before = out@;
        let e = rest.remove(0);
        assert(e == orig[i]);
        let key = chars_of(e.0.as_str());
        let mut k: usize = 0;
        while k < out.len() && !name_before(&key, &out[k])
            invariant
                out@ == before,
                k <= out@.len(),
                key@ == orig[i].0@,
                forall|m: int| 0 <= m < k ==> !lex_lt(key@, #[trigger] files_view(out@)[m].0),
            decreases out@.len() - k,
        {
            k = k + 1;
        }
        proof {
            let sv = files_view(before);
            lemma_insert_name_sorted(sv, k as int, file_view(e));
            assert(files_view(before.insert(k as int, e)) =~= sv.insert(k as int, file_view(e)));
            assert(files_view(orig.take(i + 1)) =~= files_view(orig.take(i)).push(file_view(orig[i])));
            vstd::seq_lib::to_multiset_insert(sv, k as int, file_view(e));
            vstd::seq_lib::to_multiset_build(files_view(orig.take(i)), file_view(orig[i]));
        }
        out.insert(k, e);
        proof {
            assert(files_view(out@) == files_view(before).insert(k as int, file_view(e)));
            assert(rest@ =~= orig.skip(i + 1));
            i = i + 1;
        }
    }
    assert(orig.take(i) =~= orig);
    out
}

/// Each path with `/` separators.
pub open spec fn slashed_files(es: Seq<(Seq<char>, Seq<u8>, bool)>) -> Seq<(Seq<char>, Seq<u8>, bool)> {
    es.map_values(|e: (Seq<char>, Seq<u8>, bool)| (slashed(e.0), e.1, e.2))
}

proof fn lemma_slashed_utf8_len(s: Seq<char>)
    ensures
        encode_utf8(slashed(s)).len() == encode_utf8(s).len(),
    decreases s.len(),
{
    if s.len() > 0 {
        assert(slashed(s).drop_first() =~= slashed(s.drop_first()));
        lemma_slashed_utf8_len(s.drop_first());
        if s[0] == '\\' {
            assert(encode_scalar('\\' as u32).len() == 1);
            assert(encode_scalar('/' as u32).len() == 1);
        }
    }
}

fn slashed_name(s: &String) -> (r: String)
    ensures
        r@ == slashed(s@),
{
    let c = chars_of(s.as_str());
    let mut out = String::new();
    let mut i: usize = 0;
    while i < c.len()
        invariant
            i <= c@.len(),
            c@ == s@,
            out@ == slashed(c@.take(i as int)),
        decreases c@.len() - i,
    {
        let ch = c[i];
        if ch == '\\' {
            out.append("/");
        } else {
            let one = s.as_str().substring_char(i, i + 1);
            assert(one@ =~= seq![ch]);
            out.append(one);
        }
        proof {
            reveal_strlit("/");
        }
        assert(slashed(c@.take(i + 1)) =~= slashed(c@.take(i as int)).push(if ch == '\\' { '/' } else { ch }));
        i = i + 1;
    }
    assert(c@.take(i as int) =~= c@);
    out
}

/// The archive `r` packs the files `found`: they are ordered by path, each
/// path then written with `/` separators.
pub open spec fn packs_to(found: Seq<(Seq<char>, Seq<u8>, bool)>, r: Seq<u8>) -> bool {
    exists|sorted: Seq<(Seq<char>, Seq<u8>, bool)>|
        sorted.to_multiset() == found.to_multiset() && name_sorted(sorted) && r == archive_bytes(
            slashed_files(sorted),
        )
}

/// No path occurs twice, as in the files of one directory tree.
pub open spec fn distinct_paths(found: Seq<(Seq<char>, Seq<u8>, bool)>) -> bool {
    forall|i: int, j: int| 0 <= i < found.len() && 0 <= j < found.len() && i != j ==> found[i].0 != found[j].0
}

/// Packing does not depend on the order in which the files were found: the
/// same files, no path twice, always pack to the same archive, so the
/// commitment over it is stable across runs.
pub proof fn lemma_packing_is_deterministic(
    f1: Seq<(Seq<char>, Seq<u8>, bool)>,
    f2: Seq<(Seq<char>, Seq<u8>, bool)>,
    r1: Seq<u8>,
    r2: Seq<u8>,
)
    requires
        f1.to_multiset() == f2.to_multiset(),
        distinct_paths(f1),
        packs_to(f1, r1),
        packs_to(f2, r2),
    ensures
        r1 == r2,
{
    let key = |e: (Seq<char>, Seq<u8>, bool)| e.0;
    let s1 = choose|s: Seq<(Seq<char>, Seq<u8>, bool)>|
        s.to_multiset() == f1.to_multiset() && name_sorted(s) && r1 == archive_bytes(slashed_files(s));
    let s2 = choose|s: Seq<(Seq<char>, Seq<u8>, bool)>|
        s.to_multiset() == f2.to_multiset() && name_sorted(s) && r2 == archive_bytes(slashed_files(s));
    assert forall|i: int, j: int| 0 <= i < f1.len() && 0 <= j < f1.len() && i != j implies key(
        #[trigger] f1[i],
    ) != key(#[trigger] f1[j]) by {}
    lemma_distinct_keys_carry(f1, s1, key);
    assert forall|i: int, j: int| 0 <= i < j < s1.len() implies !lex_lt(key(#[trigger] s1[j]), key(#[trigger] s1[i])) by {}
    assert forall|i: int, j: int| 0 <= i < j < s2.len() implies !lex_lt(key(#[trigger] s2[j]), key(#[trigger] s2[i])) by {}
    lemma_sorted_unique(s1, s2, key);
}

/// Pack the files found under a directory: ordered by path, each path then
/// written with `/` separators, each with its bytes and whether it is
/// executable.
pub fn pack_files(found: Vec<(String, Vec<u8>, bool)>) -> (r: Vec<u8>)
    requires
        forall|i: int| 0 <= i < found@.len() ==> encode_utf8((#[trigger] found@[i]).0@).len() < pow256(4),
    ensures
        packs_to(files_view(found@), r@),
{
    broadcast use vstd::seq_lib::group_to_multiset_ensures;
    let ghost fv = files_view(found@);
    let sorted = sort_by_name(found);
    let ghost sv = files_view(sorted@);
    let mut files: Vec<(String, Vec<u8>, bool)> = Vec::new();
    let mut i: usize = 0;
    while i < sorted.len()
        invariant
            i <= sorted@.len(),
            sv == files_view(sorted@),
            sv.to_multiset() == fv.to_multiset(),
            forall|j: int| 0 <= j < fv.len() ==> encode_utf8((#[trigger] fv[j]).0).len() < pow256(4),
            files_view(files@) == slashed_files(sv.take(i as int)),
        decreases sorted@.len() - i,
    {
        let e = &sorted[i];
        let name = slashed_name(&e.0);
        let data = e.1.clone();
        assert(data@ =~= e.1@);
        let ghost before = files@;
        files.push((name, data, e.2));
        proof {
            assert(sv[i as int] == file_view(sorted@[i as int]));
            assert(sv.take(i + 1) =~= sv.take(i as int).push(sv[i as int]));
            assert(files_view(files@) =~= files_view(before).push(file_view(files@[i as int])));
            assert(files_view(files@) =~= slashed_files(sv.take(i + 1)));
        }
        i = i + 1;
    }
    assert(sv.take(i as int) =~= sv);
    assert forall|j: int| 0 <= j < files@.len() implies encode_utf8((#[trigger] files@[j]).0@).len() < pow256(4) by {
        assert(files_view(files@)[j] == file_view(files@[j]));
        assert(slashed_files(sv)[j] == (slashed(sv[j].0), sv[j].1, sv[j].2));
        assert(files@[j].0@ == slashed(sv[j].0));
        lemma_slashed_utf8_len(sv[j].0);
        assert(sv.to_multiset().count(sv[j]) > 0);
        assert(fv.contains(sv[j]));
    }
    encode_archive(&files)
}

} // verus!
