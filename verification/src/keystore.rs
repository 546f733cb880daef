//! Local key storage. A random 32-byte client master key is generated on
//! first run and kept in the platform's secure storage (Keychain, DPAPI or
//! the Secret Service); where none exists it goes to an owner-only file and
//! the user is told. This module holds the decisions: which stored key is
//! adopted, where it came from, and the text encodings the key crosses
//! process boundaries in. Reading and writing the stores is the caller's.
use vstd::prelude::*;
use vstd::utf8::{encode_utf8, is_continuation_byte};
use crate::base64::{
    ascii_chars, ascii_string, lemma_ascii_bytes, b64_value, group_bytes, encode_group, sextets,
    encode, lemma_encode_text, lemma_group_bits, lemma_alphabet_byte, lemma_sextets_small,
};
use crate::curl::{trimmed, trim_bounds, trim_start_at, trim_end_at};
use crate::scan::is_ws;
use crate::text::chars_of;

verus! {

/// Where the master key came from, recorded so a weaker source is never
/// passed off as a stronger one.
#[derive(Clone, Copy, Debug, PartialEq, Eq, Structural)]
pub enum KeySource {
    /// Platform keystore: Keychain, DPAPI, or Secret Service.
    PlatformKeystore,
    /// Owner-only file, because no keystore was available.
    RestrictedFile,
}

pub const DEGRADED_WARNING: &'static str = "No platform keystore was available, so NYEDArch stored its client key in a file readable only by your user account. Anything running as you can read it. Install a Secret Service provider (gnome-keyring, KWallet) for stronger storage.";

impl KeySource {
    pub fn is_degraded(self) -> (r: bool)
        ensures
            r == (self == KeySource::RestrictedFile),
    {
        self == KeySource::RestrictedFile
    }

    /// A warning to show the operator, or nothing when the keystore was used.
    pub fn warning(self) -> (r: Option<&'static str>)
        ensures
            match self {
                KeySource::PlatformKeystore => r is None,
                KeySource::RestrictedFile => r matches Some(w) && w@ == DEGRADED_WARNING@,
            },
    {
        match self {
            KeySource::PlatformKeystore => None,
            KeySource::RestrictedFile => Some(DEGRADED_WARNING),
        }
    }
}

/// Where the master key currently lives, given what each store returned:
/// the keystore first, then the restricted file.
pub fn current_source(keystore: &Option<Vec<u8>>, file: &Option<Vec<u8>>) -> (r: Option<KeySource>)
    ensures
        r == if keystore is Some {
            Some(KeySource::PlatformKeystore)
        } else if file is Some {
            Some(KeySource::RestrictedFile)
        } else {
            None
        },
{
    if keystore.is_some() {
        Some(KeySource::PlatformKeystore)
    } else if file.is_some() {
        Some(KeySource::RestrictedFile)
    } else {
        None
    }
}

/// A stored value is a key only when it is exactly 32 bytes.
pub open spec fn as_key(v: Option<Seq<u8>>) -> Option<Seq<u8>> {
    match v {
        Some(k) => if k.len() == 32 {
            Some(k)
        } else {
            None
        },
        None => None,
    }
}

pub open spec fn opt_seq(v: Option<Vec<u8>>) -> Option<Seq<u8>> {
    match v {
        Some(k) => Some(k@),
        None => None,
    }
}

/// The key already stored, preferring the platform keystore: the first of
/// the two values that is exactly 32 bytes, with where it came from.
pub open spec fn spec_existing_key(keystore: Option<Seq<u8>>, file: Option<Seq<u8>>) -> Option<(Seq<u8>, KeySource)> {
    match as_key(keystore) {
        Some(k) => Some((k, KeySource::PlatformKeystore)),
        None => match as_key(file) {
            Some(k) => Some((k, KeySource::RestrictedFile)),
            None => None,
        },
    }
}

fn to_key(v: &Vec<u8>) -> (r: [u8; 32])
    requires
        v@.len() == 32,
    ensures
        r@ == v@,
{
    let mut out = [0u8; 32];
    let mut i: usize = 0;
    while i < 32
        invariant
            v@.len() == 32,
            0 <= i <= 32,
            forall|j: int| 0 <= j < i ==> out@[j] == v@[j],
        decreases 32 - i,
    {
        out[i] = v[i];
        i = i + 1;
    }
    assert(out@ =~= v@);
    out
}

/// Adopt a key that is already stored.
pub fn existing_key(keystore: &Option<Vec<u8>>, file: &Option<Vec<u8>>) -> (r: Option<([u8; 32], KeySource)>)
    ensures
        match spec_existing_key(opt_seq(*keystore), opt_seq(*file)) {
            Some((k, src)) => r matches Some(p) && p.0@ == k && p.1 == src,
            None => r is None,
        },
{
    if let Some(k) = keystore {
        if k.len() == 32 {
            return Some((to_key(k), KeySource::PlatformKeystore));
        }
    }
    if let Some(k) = file {
        if k.len() == 32 {
            return Some((to_key(k), KeySource::RestrictedFile));
        }
    }
    None
}

/// A freshly stored key is trusted only as what the store returns again: a
/// store that reports success without round-tripping would make every later
/// run mint a new key and invalidate what was signed. `None` when the store
/// failed or returned something other than 32 bytes.
pub fn read_back(stored: bool, back: &Option<Vec<u8>>, src: KeySource) -> (r: Option<([u8; 32], KeySource)>)
    ensures
        match (stored, as_key(opt_seq(*back))) {
            (true, Some(k)) => r matches Some(p) && p.0@ == k && p.1 == src,
            _ => r is None,
        },
{
    if !stored {
        return None;
    }
    match back {
        Some(k) => {
            if k.len() == 32 {
                Some((to_key(k), src))
            } else {
                None
            }
        },
        None => None,
    }
}

// ------------------------------------------------------------------ hex ---

/// The lower-case hexadecimal digit of `v < 16`, as a byte.
pub open spec fn hex_digit(v: u8) -> u8 {
    if v < 10 {
        (v + 48) as u8
    } else {
        (v - 10 + 97) as u8
    }
}

/// Two lower-case digits per byte.
pub open spec fn hex_bytes(b: Seq<u8>) -> Seq<u8>
    decreases b.len(),
{
    if b.len() == 0 {
        Seq::empty()
    } else {
        seq![hex_digit(b[0] / 16), hex_digit(b[0] % 16)] + hex_bytes(b.skip(1))
    }
}

/// The name of the file, under the client's configuration directory
/// `config_dir`, that holds the fallback copy of the client key.
pub fn key_file(config_dir: &str) -> (r: String)
    ensures
        r@ == config_dir@ + "/client-key"@,
{
    let mut p = String::from_str(config_dir);
    p.append("/client-key");
    p
}

/// The name of the file that holds the key as DPAPI protects it: the key
/// file's name with the `dpapi` extension. Only the name is derived; nothing
/// on disk is read or written.
pub fn dpapi_file(config_dir: &str) -> (r: String)
    ensures
        r@ == config_dir@ + "/client-key.dpapi"@,
{
    let mut p = String::from_str(config_dir);
    p.append("/client-key.dpapi");
    p
}

/// Lower-case hexadecimal of some bytes.
pub fn hex(b: &[u8]) -> (s: String)
    ensures
        s@ == ascii_chars(hex_bytes(b@)),
{
    let mut out: Vec<u8> = Vec::new();
    let mut i: usize = 0;
    assert(b@.skip(0) =~= b@);
    assert(out@ + hex_bytes(b@) =~= hex_bytes(b@));
    while i < b.len()
        invariant
            i <= b@.len(),
            out@ + hex_bytes(b@.skip(i as int)) == hex_bytes(b@),
            forall|k: int| 0 <= k < out@.len() ==> out@[k] < 128,
        decreases b@.len() - i,
    {
        let x = b[i];
        let hi = x / 16;
        let lo = x % 16;
        let ghost before = out@;
        out.push(if hi < 10 { hi + 48 } else { hi - 10 + 97 });
        out.push(if lo < 10 { lo + 48 } else { lo - 10 + 97 });
        assert(b@.skip(i as int).skip(1) =~= b@.skip(i + 1));
        assert(out@ + hex_bytes(b@.skip(i + 1)) =~= before + hex_bytes(b@.skip(i as int)));
        i = i + 1;
    }
    assert(b@.skip(i as int) =~= Seq::<u8>::empty());
    assert(out@ =~= hex_bytes(b@));
    ascii_string(out)
}

/// The value of a hexadecimal digit byte, either case.
pub open spec fn hex_value(c: u8) -> Option<u8> {
    if 48 <= c <= 57 {
        Some((c - 48) as u8)
    } else if 97 <= c <= 102 {
        Some((c - 97 + 10) as u8)
    } else if 65 <= c <= 70 {
        Some((c - 65 + 10) as u8)
    } else {
        None
    }
}

/// `u8::from_str_radix` on two bytes in base 16: two digits, or `+` and one.
pub open spec fn pair_value(a: u8, b: u8) -> Option<u8> {
    if a == 43 {
        hex_value(b)
    } else {
        match (hex_value(a), hex_value(b)) {
            (Some(x), Some(y)) => Some((x * 16 + y) as u8),
            _ => None,
        }
    }
}

/// The bytes the pairs of `t` hold, stopping at the first that fails.
pub open spec fn unhex_bytes(t: Seq<u8>) -> Option<Seq<u8>>
    decreases t.len(),
{
    if t.len() < 2 {
        Some(Seq::empty())
    } else {
        match pair_value(t[0], t[1]) {
            None => None,
            Some(v) => match unhex_bytes(t.skip(2)) {
                Some(r) => Some(seq![v] + r),
                None => None,
            },
        }
    }
}

/// Reading the pairs of `t` would slice through a character: the pairs
/// before it parsed, and the next pair ends inside a multi-byte character.
pub open spec fn unhex_panics(t: Seq<u8>) -> bool
    decreases t.len(),
{
    if t.len() <= 2 {
        false
    } else if is_continuation_byte(t[2]) {
        true
    } else if pair_value(t[0], t[1]) is None {
        false
    } else {
        unhex_panics(t.skip(2))
    }
}

/// The bytes of the trimmed text.
pub open spec fn trimmed_bytes(s: Seq<char>) -> Seq<u8> {
    encode_utf8(trimmed(s))
}

/// Hexadecimal text back to bytes: trimmed, non-empty, of even length, and
/// every pair a hexadecimal number.
pub open spec fn spec_unhex(s: Seq<char>) -> Option<Seq<u8>> {
    let t = trimmed_bytes(s);
    if t.len() % 2 != 0 || t.len() == 0 {
        None
    } else {
        unhex_bytes(t)
    }
}

/// Whether `unhex` is defined on `s` (it slices the text by bytes, so a pair
/// must not end inside a multi-byte character).
pub open spec fn unhex_defined(s: Seq<char>) -> bool {
    let t = trimmed_bytes(s);
    t.len() % 2 != 0 || t.len() == 0 || !unhex_panics(t)
}

fn hex_value_exec(c: u8) -> (r: Option<u8>)
    ensures
        r == hex_value(c),
{
    if 48 <= c && c <= 57 {
        Some(c - 48)
    } else if 97 <= c && c <= 102 {
        Some(c - 97 + 10)
    } else if 65 <= c && c <= 70 {
        Some(c - 65 + 10)
    } else {
        None
    }
}

fn pair_value_exec(a: u8, b: u8) -> (r: Option<u8>)
    ensures
        r == pair_value(a, b),
{
    if a == 43 {
        hex_value_exec(b)
    } else {
        match (hex_value_exec(a), hex_value_exec(b)) {
            (Some(x), Some(y)) => Some(x * 16 + y),
            _ => None,
        }
    }
}

/// The bytes of the text that `unhex` reads.
fn trimmed_text_bytes(s: &str) -> (t: Vec<u8>)
    ensures
        t@ == trimmed_bytes(s@),
{
    let c = chars_of(s);
    let (a, b) = trim_bounds(&c);
    let sub = s.substring_char(a, b);
    vstd::slice::slice_to_vec(sub.as_bytes())
}

/// Whether `unhex` may be called on `s`.
pub fn unhex_is_defined(s: &str) -> (r: bool)
    ensures
        r == unhex_defined(s@),
{
    let t = trimmed_text_bytes(s);
    if t.len() % 2 != 0 || t.len() == 0 {
        return true;
    }
    let n = t.len();
    let mut i: usize = 0;
    assert(t@.skip(0) =~= t@);
    while i < n && n - i > 2
        invariant
            n == t@.len(),
            t@ == trimmed_bytes(s@),
            n % 2 == 0,
            n > 0,
            i % 2 == 0,
            i <= n,
            unhex_panics(t@) == unhex_panics(t@.skip(i as int)),
        decreases n - i,
    {
        let ghost u = t@.skip(i as int);
        assert(u[0] == t@[i as int] && u[1] == t@[i + 1] && u[2] == t@[i + 2]);
        if 0x80 <= t[i + 2] && t[i + 2] <= 0xbf {
            return false;
        }
        if pair_value_exec(t[i], t[i + 1]).is_none() {
            return true;
        }
        assert(t@.skip(i as int).skip(2) =~= t@.skip(i + 2));
        i = i + 2;
    }
    true
}

/// Hexadecimal text back to bytes.
pub fn unhex(s: &str) -> (r: Option<Vec<u8>>)
    requires
        unhex_defined(s@),
    ensures
        match spec_unhex(s@) {
            Some(v) => r matches Some(x) && x@ == v,
            None => r is None,
        },
{
    let t = trimmed_text_bytes(s);
    if t.len() % 2 != 0 || t.len() == 0 {
        return None;
    }
    let n = t.len();
    let mut out: Vec<u8> = Vec::new();
    let mut i: usize = 0;
    assert(t@.skip(0) =~= t@);
    while i < n
        invariant
            n == t@.len(),
            t@ == trimmed_bytes(s@),
            n % 2 == 0,
            n > 0,
            i % 2 == 0,
            i <= n,
            !unhex_panics(t@.skip(i as int)),
            unhex_bytes(t@) == match unhex_bytes(t@.skip(i as int)) {
                Some(r) => Some(out@ + r),
                None => None,
            },
        decreases n - i,
    {
        let ghost u = t@.skip(i as int);
        assert(u[0] == t@[i as int] && u[1] == t@[i + 1]);
        match pair_value_exec(t[i], t[i + 1]) {
            None => return None,
            Some(v) => {
                let ghost before = out@;
                out.push(v);
                assert(u.skip(2) =~= t@.skip(i + 2));
                proof {
                    match unhex_bytes(u.skip(2)) {
                        Some(r) => {
                            assert(before + (seq![v] + r) =~= out@ + r);
                        },
                        None => {},
                    }
                }
            },
        }
        i = i + 2;
    }
    assert(t@.skip(n as int) =~= Seq::<u8>::empty());
    assert(out@ + Seq::<u8>::empty() =~= out@);
    Some(out)
}

proof fn lemma_hex_ascii(b: Seq<u8>)
    ensures
        hex_bytes(b).len() == 2 * b.len(),
        forall|k: int| 0 <= k < hex_bytes(b).len() ==> 48 <= #[trigger] hex_bytes(b)[k] < 128 && hex_value(
            hex_bytes(b)[k],
        ) is Some,
    decreases b.len(),
{
    if b.len() > 0 {
        lemma_hex_ascii(b.skip(1));
        let h = hex_bytes(b);
        let t = hex_bytes(b.skip(1));
        assert forall|k: int| 0 <= k < h.len() implies 48 <= #[trigger] h[k] < 128 && hex_value(h[k]) is Some by {
            if k >= 2 {
                assert(h[k] == t[k - 2]);
            }
        }
    }
}

proof fn lemma_unhex_hex_bytes(b: Seq<u8>)
    ensures
        unhex_bytes(hex_bytes(b)) == Some(b),
        !unhex_panics(hex_bytes(b)),
    decreases b.len(),
{
    if b.len() > 0 {
        lemma_unhex_hex_bytes(b.skip(1));
        lemma_hex_ascii(b.skip(1));
        let h = hex_bytes(b);
        assert(h.skip(2) =~= hex_bytes(b.skip(1)));
        let x = b[0];
        assert(pair_value(h[0], h[1]) == Some(x)) by {
            assert(x / 16 * 16 + x % 16 == x);
        }
        assert(seq![x] + b.skip(1) =~= b);
        if h.len() > 2 {
            assert(h[2] == hex_bytes(b.skip(1))[0]);
        }
    } else {
        assert(hex_bytes(b) =~= Seq::<u8>::empty());
    }
}

/// What `hex` writes, `unhex` reads back, for any non-empty bytes.
pub proof fn lemma_unhex_hex(b: Seq<u8>)
    requires
        b.len() > 0,
    ensures
        unhex_defined(ascii_chars(hex_bytes(b))),
        spec_unhex(ascii_chars(hex_bytes(b))) == Some(b),
{
    let h = hex_bytes(b);
    let s = ascii_chars(h);
    lemma_hex_ascii(b);
    lemma_unhex_hex_bytes(b);
    assert(trim_start_at(s, 0) == 0) by {
        assert(s[0] == h[0] as char);
    }
    assert(trim_end_at(s, s.len() as int, 0) == s.len()) by {
        assert(s[s.len() - 1] == h[h.len() - 1] as char);
    }
    assert(trimmed(s) =~= s);
    lemma_ascii_bytes(h);
}

// ------------------------------------------------- base64 for the store ---

/// ASCII white space, as `u8::is_ascii_whitespace` has it.
pub open spec fn ascii_ws(b: u8) -> bool {
    b == 32 || b == 9 || b == 10 || b == 12 || b == 13
}

/// The bytes without ASCII white space.
pub open spec fn without_ws(s: Seq<u8>) -> Seq<u8>
    decreases s.len(),
{
    if s.len() == 0 {
        Seq::empty()
    } else {
        let r = without_ws(s.drop_last());
        if ascii_ws(s.last()) {
            r
        } else {
            r.push(s.last())
        }
    }
}

/// A character's six-bit value, padding counting as zero.
pub open spec fn pad_value(c: u8) -> Option<u8> {
    if c == 61 {
        Some(0u8)
    } else {
        b64_value(c)
    }
}

pub open spec fn pad_value_at(g: Seq<u8>, i: int) -> u8 {
    if i < g.len() {
        match pad_value(g[i]) {
            Some(v) => v,
            None => 0,
        }
    } else {
        0
    }
}

/// How many padding characters a group holds.
pub open spec fn pad_count(g: Seq<u8>) -> nat
    decreases g.len(),
{
    if g.len() == 0 {
        0
    } else {
        pad_count(g.drop_last()) + if g.last() == 61 { 1nat } else { 0nat }
    }
}

/// A group of up to four characters: at least two, all in the alphabet or
/// padding; three bytes, less one for each padding character up to two.
pub open spec fn store_group(g: Seq<u8>) -> Option<Seq<u8>> {
    if g.len() < 2 {
        None
    } else if forall|i: int| 0 <= i < g.len() ==> pad_value(#[trigger] g[i]) is Some {
        let n = if pad_count(g) >= 2 {
            1int
        } else if pad_count(g) == 1 {
            2int
        } else {
            3int
        };
        Some(group_bytes(pad_value_at(g, 0), pad_value_at(g, 1), pad_value_at(g, 2), pad_value_at(g, 3)).take(n))
    } else {
        None
    }
}

pub open spec fn store_groups(t: Seq<u8>) -> Option<Seq<u8>>
    decreases t.len(),
{
    if t.len() == 0 {
        Some(Seq::empty())
    } else if t.len() <= 4 {
        store_group(t)
    } else {
        match store_group(t.take(4)) {
            None => None,
            Some(b) => match store_groups(t.skip(4)) {
                None => None,
                Some(r) => Some(b + r),
            },
        }
    }
}

/// Decoding of the key that crossed a process boundary in base64.
pub open spec fn spec_store_b64_decode(s: Seq<char>) -> Option<Seq<u8>> {
    store_groups(without_ws(encode_utf8(s)))
}

/// Base64 of the key, to cross a process boundary on standard input.
pub fn b64_encode(data: &[u8]) -> (s: String)
    ensures
        s@ == ascii_chars(crate::base64::b64_encode(data@)),
{
    encode(data)
}

fn pad_value_exec(c: u8) -> (r: Option<u8>)
    ensures
        r == pad_value(c),
        r matches Some(v) ==> v < 64,
{
    if c == 61 {
        Some(0)
    } else if 65 <= c && c <= 90 {
        Some(c - 65)
    } else if 97 <= c && c <= 122 {
        Some(c - 97 + 26)
    } else if 48 <= c && c <= 57 {
        Some(c - 48 + 52)
    } else if c == 43 {
        Some(62)
    } else if c == 47 {
        Some(63)
    } else {
        None
    }
}

fn store_group_at(t: &Vec<u8>, j: usize, k: usize) -> (r: Option<Vec<u8>>)
    requires
        1 <= k <= 4,
        j + k <= t@.len(),
    ensures
        match store_group(t@.subrange(j as int, j + k)) {
            Some(v) => r matches Some(x) && x@ == v,
            None => r is None,
        },
{
    let ghost g = t@.subrange(j as int, j + k);
    if k < 2 {
        return None;
    }
    let mut vals: Vec<u8> = Vec::new();
    let mut pads: usize = 0;
    let mut q: usize = 0;
    let tl = t.len();
    while q < k
        invariant
            2 <= k <= 4,
            tl == t@.len(),
            j + k <= t@.len(),
            g == t@.subrange(j as int, j + k),
            q <= k,
            vals@.len() == q,
            pads == pad_count(g.take(q as int)),
            pads <= q,
            forall|p: int| 0 <= p < q ==> pad_value(#[trigger] g[p]) == Some(vals@[p]),
        decreases k - q,
    {
        let c = t[j + q];
        assert(g.take(q + 1).drop_last() =~= g.take(q as int));
        match pad_value_exec(c) {
            Some(v) => {
                vals.push(v);
            },
            None => {
                assert(pad_value(g[q as int]) is None);
                return None;
            },
        }
        if c == 61 {
            pads = pads + 1;
        }
        q = q + 1;
    }
    assert(g.take(k as int) =~= g);
    let v0 = vals[0];
    let v1 = vals[1];
    let v2 = if k > 2 { vals[2] } else { 0 };
    let v3 = if k > 3 { vals[3] } else { 0 };
    assert(v0 == pad_value_at(g, 0));
    assert(v1 == pad_value_at(g, 1));
    assert(v2 == pad_value_at(g, 2));
    assert(v3 == pad_value_at(g, 3));
    let mut out: Vec<u8> = Vec::new();
    out.push((v0 << 2) | (v1 >> 4));
    if pads < 2 {
        out.push(((v1 & 15) << 4) | (v2 >> 2));
    }
    if pads < 1 {
        out.push(((v2 & 3) << 6) | v3);
    }
    let ghost n = if pad_count(g) >= 2 {
        1int
    } else if pad_count(g) == 1 {
        2int
    } else {
        3int
    };
    assert(out@ =~= group_bytes(v0, v1, v2, v3).take(n));
    Some(out)
}

/// Decode the key from base64, passing over ASCII white space.
pub fn b64_decode(s: &str) -> (r: Option<Vec<u8>>)
    ensures
        match spec_store_b64_decode(s@) {
            Some(v) => r matches Some(x) && x@ == v,
            None => r is None,
        },
{
    let bytes = s.as_bytes();
    let n = bytes.len();
    let mut t: Vec<u8> = Vec::new();
    let mut i: usize = 0;
    while i < n
        invariant
            n == bytes@.len(),
            i <= n,
            t@ == without_ws(bytes@.take(i as int)),
        decreases n - i,
    {
        let b = bytes[i];
        assert(bytes@.take(i + 1).drop_last() =~= bytes@.take(i as int));
        if !(b == 32 || b == 9 || b == 10 || b == 12 || b == 13) {
            t.push(b);
        }
        i = i + 1;
    }
    assert(bytes@.take(n as int) =~= bytes@);
    let m = t.len();
    let mut out: Vec<u8> = Vec::new();
    let mut j: usize = 0;
    assert(t@.skip(0) =~= t@);
    assert(out@ + Seq::<u8>::empty() =~= Seq::<u8>::empty());
    while j < m
        invariant
            m == t@.len(),
            j <= m,
            t@ == without_ws(bytes@),
            bytes@ == encode_utf8(s@),
            store_groups(t@) == crate::base64::prepend(store_groups(t@.skip(j as int)), out@),
        decreases m - j,
    {
        let rest = m - j;
        let k = if rest < 4 { rest } else { 4 };
        let ghost u = t@.skip(j as int);
        proof {
            if rest > 4 {
                assert(u.take(4) =~= t@.subrange(j as int, j + 4));
            } else {
                assert(u =~= t@.subrange(j as int, j + k));
            }
        }
        match store_group_at(&t, j, k) {
            None => {
                return None;
            },
            Some(b) => {
                let ghost before = out@;
                out.append(&mut b.clone());
                if rest <= 4 {
                    assert(t@.skip(m as int) =~= Seq::<u8>::empty());
                    assert(before + b@ + Seq::<u8>::empty() =~= out@);
                    j = m;
                } else {
                    assert(u.skip(4) =~= t@.skip(j + 4));
                    assert forall|r: Seq<u8>| #![auto] before + (b@ + r) =~= out@ + r by {}
                    j = j + 4;
                }
            },
        }
    }
    assert(t@.skip(m as int) =~= Seq::<u8>::empty());
    assert(out@ + Seq::<u8>::empty() =~= out@);
    Some(out)
}

proof fn lemma_without_ws_add(a: Seq<u8>, b: Seq<u8>)
    ensures
        without_ws(a + b) == without_ws(a) + without_ws(b),
    decreases b.len(),
{
    if b.len() == 0 {
        assert(a + b =~= a);
        assert(without_ws(a) + without_ws(b) =~= without_ws(a));
    } else {
        assert((a + b).drop_last() =~= a + b.drop_last());
        lemma_without_ws_add(a, b.drop_last());
        if !ascii_ws(b.last()) {
            assert(without_ws(a) + without_ws(b.drop_last()).push(b.last()) =~= (without_ws(a)
                + without_ws(b.drop_last())).push(b.last()));
        }
    }
}

proof fn lemma_store_group_roundtrip(g: Seq<u8>)
    requires
        1 <= g.len() <= 3,
    ensures
        without_ws(encode_group(g)) == encode_group(g),
        store_group(encode_group(g)) == Some(g),
{
    let a = g[0];
    let b = if g.len() > 1 { g[1] } else { 0u8 };
    let c = if g.len() > 2 { g[2] } else { 0u8 };
    let s = sextets(a, b, c);
    lemma_sextets_small(a, b, c);
    lemma_alphabet_byte(s.0);
    lemma_alphabet_byte(s.1);
    lemma_alphabet_byte(s.2);
    lemma_alphabet_byte(s.3);
    lemma_group_bits(a, b, c);
    let e = encode_group(g);
    reveal_with_fuel(without_ws, 5);
    assert(e.drop_last().drop_last().drop_last().drop_last() =~= Seq::<u8>::empty());
    assert(without_ws(e) =~= e);
    reveal_with_fuel(pad_count, 5);
    assert(e.drop_last().drop_last().drop_last().drop_last() =~= Seq::<u8>::empty());
    assert(pad_value_at(e, 0) == s.0);
    assert(pad_value_at(e, 1) == s.1);
    assert(pad_value_at(e, 2) == s.2);
    assert(pad_value_at(e, 3) == s.3);
    assert(forall|i: int| 0 <= i < e.len() ==> pad_value(#[trigger] e[i]) is Some);
    assert(seq![a, b, c].take(g.len() as int) =~= g);
}

/// Decoding the key's base64 gives the key back, for any bytes.
pub proof fn lemma_store_b64_roundtrip(d: Seq<u8>)
    ensures
        spec_store_b64_decode(ascii_chars(crate::base64::b64_encode(d))) == Some(d),
    decreases d.len(),
{
    lemma_encode_text(d);
    lemma_store_groups_roundtrip(d);
}

proof fn lemma_store_groups_roundtrip(d: Seq<u8>)
    ensures
        store_groups(without_ws(crate::base64::b64_encode(d))) == Some(d),
    decreases d.len(),
{
    if d.len() == 0 {
        assert(without_ws(Seq::<u8>::empty()) =~= Seq::<u8>::empty());
    } else if d.len() <= 3 {
        lemma_store_group_roundtrip(d);
    } else {
        let g = d.take(3);
        let rest = d.skip(3);
        lemma_store_groups_roundtrip(rest);
        lemma_store_group_roundtrip(g);
        lemma_without_ws_add(encode_group(g), crate::base64::b64_encode(rest));
        crate::base64::lemma_encode_ascii(rest);
        let x = encode_group(g);
        let y = without_ws(crate::base64::b64_encode(rest));
        assert(y.len() > 0) by {
            if y.len() == 0 {
                assert(store_groups(y) == Some(Seq::<u8>::empty()));
            }
        }
        assert((x + y).take(4) =~= x);
        assert((x + y).skip(4) =~= y);
        assert(g + rest =~= d);
    }
}


/// Where the client keeps its files: the first configuration directory the
/// environment names.
#[derive(Clone, Copy, Debug, PartialEq, Eq, Structural)]
pub enum ConfigRoot {
    /// `$XDG_CONFIG_HOME`.
    XdgConfigHome,
    /// `$HOME/.config`.
    HomeConfig,
    /// `%APPDATA%`.
    AppData,
    /// `.`
    CurrentDir,
}

/// `$XDG_CONFIG_HOME`, else `$HOME/.config`, else `%APPDATA%`, else the
/// current directory; each flag says whether the environment names it.
pub fn config_root(xdg_config_home: bool, home: bool, appdata: bool) -> (r: ConfigRoot)
    ensures
        r == if xdg_config_home {
            ConfigRoot::XdgConfigHome
        } else if home {
            ConfigRoot::HomeConfig
        } else if appdata {
            ConfigRoot::AppData
        } else {
            ConfigRoot::CurrentDir
        },
{
    if xdg_config_home {
        ConfigRoot::XdgConfigHome
    } else if home {
        ConfigRoot::HomeConfig
    } else if appdata {
        ConfigRoot::AppData
    } else {
        ConfigRoot::CurrentDir
    }
}

} // verus!
