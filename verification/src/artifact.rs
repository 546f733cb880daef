//! Reading a build artifact. GitHub returns artifacts as a zip; the user
//! wants the capsule inside it. This reads the central directory (and, for
//! an archive without one, the local headers in order) and handles the two
//! methods an Actions artifact uses: stored and deflate.
//!
//! The input comes from an untrusted build environment, so every length is
//! checked against what remains before it is used: a malformed or hostile
//! archive yields nothing rather than a panic or a huge allocation.
use vstd::prelude::*;
use crate::json::{lossy_text, text_lossy};
use crate::orchestrator::mentions;
use crate::scan::{find_chars, lemma_find_from};
use crate::text::chars_of;
use vstd::slice::slice_to_vec;

verus! {

/// One file recovered from an archive.
pub struct Entry {
    pub name: String,
    pub data: Vec<u8>,
}

pub open spec fn entry_view(e: Entry) -> (Seq<char>, Seq<u8>) {
    (e.name@, e.data@)
}

pub open spec fn entries_view(v: Seq<Entry>) -> Seq<(Seq<char>, Seq<u8>)> {
    v.map_values(|e: Entry| entry_view(e))
}

pub const LOCAL_HEADER: u32 = 0x0403_4b50;
pub const CENTRAL_HEADER: u32 = 0x0201_4b50;
pub const EOCD: u32 = 0x0605_4b50;
pub const STORED: u16 = 0;
pub const DEFLATE: u16 = 8;

/// `x`, or the largest `usize` when it is larger: `usize::saturating_add`.
pub open spec fn sat(x: int) -> int {
    if x > usize::MAX {
        usize::MAX as int
    } else {
        x
    }
}

/// The little-endian `u16` at `i`, if two bytes are there.
pub open spec fn le16_at(b: Seq<u8>, i: int) -> Option<u16> {
    if 0 <= i && i + 2 <= b.len() {
        Some((b[i] + b[i + 1] * 256) as u16)
    } else {
        None
    }
}

/// The little-endian `u32` at `i`, if four bytes are there.
pub open spec fn le32_at(b: Seq<u8>, i: int) -> Option<u32> {
    if 0 <= i && i + 4 <= b.len() {
        Some((b[i] + b[i + 1] * 256 + b[i + 2] * 65536 + b[i + 3] * 16777216) as u32)
    } else {
        None
    }
}

fn u16_at(b: &[u8], i: usize) -> (r: Option<u16>)
    ensures
        r == le16_at(b@, i as int),
{
    if i < b.len() && b.len() - i >= 2 {
        Some(b[i] as u16 + (b[i + 1] as u16) * 256)
    } else {
        None
    }
}

fn u32_at(b: &[u8], i: usize) -> (r: Option<u32>)
    ensures
        r == le32_at(b@, i as int),
{
    if i < b.len() && b.len() - i >= 4 {
        Some(b[i] as u32 + (b[i + 1] as u32) * 256 + (b[i + 2] as u32) * 65536 + (b[i + 3] as u32)
            * 16777216)
    } else {
        None
    }
}

/// The `u16` at `base + off`.
fn u16_field(b: &[u8], base: usize, off: usize) -> (r: Option<u16>)
    requires
        off <= 64,
    ensures
        r == le16_at(b@, base + off),
{
    if base <= b.len() && b.len() - base >= off {
        u16_at(b, base + off)
    } else {
        None
    }
}

/// The `u32` at `base + off`.
fn u32_field(b: &[u8], base: usize, off: usize) -> (r: Option<u32>)
    requires
        off <= 64,
    ensures
        r == le32_at(b@, base + off),
{
    if base <= b.len() && b.len() - base >= off {
        u32_at(b, base + off)
    } else {
        None
    }
}

/// What inflating a deflate stream gives, when it does not exceed a limit.
pub uninterp spec fn inflated(raw: Seq<u8>, limit: usize) -> Option<Seq<u8>>;

/// `miniz_oxide::inflate::decompress_to_vec_with_limit`: raw deflate
/// decoding into a vector grown to at most `limit` bytes; the error (a bad
/// stream, or output that would not fit) becomes `None`. Claimed: the result
/// depends on the input and the limit alone, and never exceeds the limit.
#[verifier::external_body]
fn inflate(raw: &[u8], limit: usize) -> (r: Option<Vec<u8>>)
    ensures
        match r {
            Some(v) => inflated(raw@, limit) == Some(v@) && v@.len() <= limit,
            None => inflated(raw@, limit) is None,
        },
{
    miniz_oxide::inflate::decompress_to_vec_with_limit(raw, limit).ok()
}

/// The header at `h` of archive `b` (a central record or a local header)
/// declares the uncompressed size `stated`.
pub open spec fn declares_size(b: Seq<u8>, h: int, stated: u32) -> bool {
    ||| le32_at(b, h) == Some(CENTRAL_HEADER) && le32_at(b, h + 24) == Some(stated)
    ||| le32_at(b, h) == Some(LOCAL_HEADER) && le32_at(b, h + 22) == Some(stated)
}

/// A file read out of archive `b` is a slice of it, as stored, or no larger
/// than the uncompressed size that its header declares, plus 1024 bytes.
#[verifier::opaque]
pub open spec fn size_bounded(b: Seq<u8>, data: Seq<u8>) -> bool {
    ||| exists|x: int, y: int| 0 <= x <= y <= b.len() && data == #[trigger] b.subrange(x, y)
    ||| exists|h: int, stated: u32| #[trigger] declares_size(b, h, stated) && data.len() <= stated + 1024
}

/// `v` is a slice of `b`, or no larger than `stated` plus 1024 bytes.
#[verifier::opaque]
pub open spec fn slice_or_within(b: Seq<u8>, v: Seq<u8>, stated: u32) -> bool {
    (exists|x: int, y: int| 0 <= x <= y <= b.len() && v == #[trigger] b.subrange(x, y)) || v.len() <= stated + 1024
}

proof fn lemma_size_bounded(b: Seq<u8>, v: Seq<u8>, h: int, stated: u32)
    requires
        slice_or_within(b, v, stated),
        declares_size(b, h, stated),
    ensures
        size_bounded(b, v),
{
    reveal(size_bounded);
    reveal(slice_or_within);
}

/// A name ending in `/` is a directory entry.
pub open spec fn is_dir_name(name: Seq<char>) -> bool {
    name.len() > 0 && name.last() == '/'
}

/// The file data of a member: stored bytes as they are, deflated bytes
/// inflated within the stated size (plus slack); anything else nothing.
pub open spec fn member_data(raw: Seq<u8>, method: u16, stated: u32) -> Option<Seq<u8>> {
    if method == STORED {
        Some(raw)
    } else if method == DEFLATE {
        inflated(raw, sat(stated + 1024) as usize)
    } else {
        None
    }
}

/// The data a central record points at through its local header, which may
/// carry name and extra fields of other lengths than the central one.
pub open spec fn local_data(b: Seq<u8>, lo: int, method: u16, csize: u32, stated: u32, name: Seq<char>) -> Option<
    Seq<u8>,
> {
    if le32_at(b, lo) == Some(LOCAL_HEADER) {
        match (le16_at(b, lo + 26), le16_at(b, lo + 28)) {
            (Some(ln), Some(lx)) => {
                let data_at = lo + 30 + ln + lx;
                let end = data_at + csize;
                if end <= b.len() && !is_dir_name(name) {
                    member_data(b.subrange(data_at, end), method, stated)
                } else {
                    None
                }
            },
            _ => None,
        }
    } else {
        None
    }
}

/// The files of up to `count` central directory records from `i`; reading
/// stops at the first record that is not one or does not fit.
pub open spec fn central_from(b: Seq<u8>, i: int, count: nat) -> Seq<(Seq<char>, Seq<u8>)>
    decreases count,
{
    if count == 0 || le32_at(b, i) != Some(CENTRAL_HEADER) {
        Seq::empty()
    } else {
        match (
            le16_at(b, i + 10),
            le32_at(b, i + 20),
            le32_at(b, i + 24),
            le16_at(b, i + 28),
            le16_at(b, i + 30),
            le16_at(b, i + 32),
            le32_at(b, i + 42),
        ) {
            (Some(method), Some(csize), Some(stated), Some(nl), Some(el), Some(cl), Some(lo)) => {
                let name_at = i + 46;
                if name_at + nl > b.len() {
                    Seq::empty()
                } else {
                    let name = lossy_text(b.subrange(name_at, name_at + nl));
                    let rest = central_from(b, name_at + nl + el + cl, (count - 1) as nat);
                    match local_data(b, lo as int, method, csize, stated, name) {
                        Some(d) => seq![(name, d)] + rest,
                        None => rest,
                    }
                }
            },
            _ => Seq::empty(),
        }
    }
}

/// The last end-of-central-directory signature below `k`, at or above `lo`.
pub open spec fn eocd_below(b: Seq<u8>, lo: int, k: int) -> Option<int>
    decreases k - lo,
{
    if k <= lo {
        None
    } else if le32_at(b, k - 1) == Some(EOCD) {
        Some(k - 1)
    } else {
        eocd_below(b, lo, k - 1)
    }
}

/// `a - b`, or 0: `usize::saturating_sub`.
pub open spec fn sat_sub(a: int, b: int) -> int {
    if a > b {
        a - b
    } else {
        0
    }
}

/// The files the central directory lists. The end record is sought in the
/// last 66000 bytes, as it may be followed by a comment.
pub open spec fn spec_read_central(b: Seq<u8>) -> Seq<(Seq<char>, Seq<u8>)> {
    match eocd_below(b, sat_sub(b.len() as int, 66000), sat_sub(b.len() as int, 21)) {
        None => Seq::empty(),
        Some(e) => match (le16_at(b, e + 10), le32_at(b, e + 16)) {
            (Some(count), Some(off)) => central_from(b, off as int, count as nat),
            _ => Seq::empty(),
        },
    }
}

/// The files of the local headers from `i` on, for an archive without a
/// central directory. Reading stops at anything that is not a local header,
/// at an entry whose sizes follow its data, and at anything that does not fit.
pub open spec fn local_from(b: Seq<u8>, i: int) -> Seq<(Seq<char>, Seq<u8>)>
    decreases b.len() - i,
{
    if i < 0 || i + 30 > b.len() || le32_at(b, i) != Some(LOCAL_HEADER) {
        Seq::empty()
    } else {
        let flags = le16_at(b, i + 6)->0;
        let method = le16_at(b, i + 8)->0;
        let csize = le32_at(b, i + 18)->0;
        let stated = le32_at(b, i + 22)->0;
        let nl = le16_at(b, i + 26)->0;
        let el = le16_at(b, i + 28)->0;
        let name_at = i + 30;
        let data_at = name_at + nl + el;
        if data_at > b.len() || flags & 8u16 != 0 {
            Seq::empty()
        } else {
            let name = lossy_text(b.subrange(name_at, name_at + nl));
            let end = data_at + csize;
            if end > b.len() {
                Seq::empty()
            } else {
                let rest = local_from(b, end);
                if is_dir_name(name) {
                    rest
                } else {
                    match member_data(b.subrange(data_at, end), method, stated) {
                        Some(d) => seq![(name, d)] + rest,
                        None => rest,
                    }
                }
            }
        }
    }
}

/// Every file an artifact holds: the central directory's when it lists any,
/// else the local headers'.
pub open spec fn spec_read_all(b: Seq<u8>) -> Seq<(Seq<char>, Seq<u8>)> {
    if spec_read_central(b).len() > 0 {
        spec_read_central(b)
    } else {
        local_from(b, 0)
    }
}

fn ends_with_slash(name: &String) -> (r: bool)
    ensures
        r == is_dir_name(name@),
{
    let c = chars_of(name.as_str());
    c.len() > 0 && c[c.len() - 1] == '/'
}

fn member(raw: &[u8], method: u16, stated: u32) -> (r: Option<Vec<u8>>)
    ensures
        match member_data(raw@, method, stated) {
            Some(d) => r matches Some(v) && v@ == d,
            None => r is None,
        },
        r matches Some(v) ==> v@ == raw@ || v@.len() <= stated + 1024,
{
    if method == STORED {
        Some(slice_to_vec(raw))
    } else if method == DEFLATE {
        // Bounded by the stated size, so a hostile archive cannot ask for an
        // unbounded allocation.
        inflate(raw, (stated as usize).saturating_add(1024))
    } else {
        None
    }
}

proof fn lemma_central_far(b: Seq<u8>, i: int, count: nat)
    requires
        i + 4 > b.len(),
    ensures
        central_from(b, i, count) == Seq::<(Seq<char>, Seq<u8>)>::empty(),
{
}

fn local_member(bytes: &[u8], lo: usize, method: u16, csize: u32, stated: u32, name: &String) -> (r: Option<
    Vec<u8>,
>)
    ensures
        match local_data(bytes@, lo as int, method, csize, stated, name@) {
            Some(d) => r matches Some(v) && v@ == d,
            None => r is None,
        },
        r matches Some(v) ==> slice_or_within(bytes@, v@, stated),
{
    let n = bytes.len();
    if u32_at(bytes, lo) != Some(LOCAL_HEADER) {
        return None;
    }
    let ln = match u16_field(bytes, lo, 26) {
        Some(v) => v,
        None => return None,
    };
    let lx = match u16_field(bytes, lo, 28) {
        Some(v) => v,
        None => return None,
    };
    // The header was read, so `lo + 32 <= n`; the sums below cannot overflow.
    let skip = 30 + ln as usize + lx as usize;
    if n - lo < skip {
        return None;
    }
    let data_at = lo + skip;
    if n - data_at < csize as usize || ends_with_slash(name) {
        return None;
    }
    let end = data_at + csize as usize;
    let raw = slice_range(bytes, data_at, end);
    let r = member(raw, method, stated);
    proof {
        reveal(slice_or_within);
        if r is Some && r->0@ == raw@ {
            assert(r->0@ == bytes@.subrange(data_at as int, end as int));
        }
    }
    r
}

/// `b[from..to]`.
fn slice_range(b: &[u8], from: usize, to: usize) -> (r: &[u8])
    requires
        from <= to <= b@.len(),
    ensures
        r@ == b@.subrange(from as int, to as int),
{
    let (head, _) = b.split_at(to);
    let (_, tail) = head.split_at(from);
    tail
}

proof fn lemma_eocd_range(b: Seq<u8>, lo: int, k: int)
    ensures
        eocd_below(b, lo, k) matches Some(e) ==> lo <= e < k,
    decreases k - lo,
{
    if k > lo && le32_at(b, k - 1) != Some(EOCD) {
        lemma_eocd_range(b, lo, k - 1);
    }
}

/// Where the end-of-central-directory record starts, if it is there.
fn find_eocd(bytes: &[u8]) -> (r: Option<usize>)
    ensures
        match eocd_below(bytes@, sat_sub(bytes@.len() as int, 66000), sat_sub(bytes@.len() as int, 21)) {
            Some(e) => r == Some(e as usize),
            None => r is None,
        },
{
    let n = bytes.len();
    let start = n.saturating_sub(66000);
    let mut k = n.saturating_sub(21);
    while k > start
        invariant
            n == bytes@.len(),
            start <= k <= n,
            start == sat_sub(n as int, 66000),
            eocd_below(bytes@, start as int, k as int) == eocd_below(
                bytes@,
                sat_sub(n as int, 66000),
                sat_sub(n as int, 21),
            ),
        decreases k - start,
    {
        if u32_at(bytes, k - 1) == Some(EOCD) {
            return Some(k - 1);
        }
        k = k - 1;
    }
    None
}

/// Extract every file by reading the central directory. This is the only
/// reliable way to read a GitHub artifact: Actions streams the zip, so each
/// local header says "sizes follow the data" with zeroes where the lengths
/// belong, while the central directory at the end carries the real sizes and
/// offsets.
pub fn read_central(bytes: &[u8]) -> (r: Vec<Entry>)
    ensures
        entries_view(r@) == spec_read_central(bytes@),
        forall|k: int| 0 <= k < r@.len() ==> size_bounded(bytes@, #[trigger] r@[k].data@),
{
    let mut out: Vec<Entry> = Vec::new();
    let n = bytes.len();
    assert(entries_view(out@) =~= Seq::<(Seq<char>, Seq<u8>)>::empty());
    proof {
        lemma_eocd_range(bytes@, sat_sub(n as int, 66000), sat_sub(n as int, 21));
    }
    let e = match find_eocd(bytes) {
        Some(e) => e,
        None => return out,
    };
    let count = match u16_field(bytes, e, 10) {
        Some(c) => c,
        None => return out,
    };
    let off = match u32_field(bytes, e, 16) {
        Some(o) => o,
        None => return out,
    };
    let mut i: usize = off as usize;
    let mut left: u16 = count;
    let ghost total = central_from(bytes@, off as int, count as nat);
    assert(entries_view(out@) + central_from(bytes@, i as int, left as nat) =~= total);
    while left > 0
        invariant
            n == bytes@.len(),
            total == spec_read_central(bytes@),
            entries_view(out@) + central_from(bytes@, i as int, left as nat) == total,
            forall|k: int| 0 <= k < out@.len() ==> size_bounded(bytes@, #[trigger] out@[k].data@),
        decreases left,
    {
        let ghost here = central_from(bytes@, i as int, left as nat);
        assert(entries_view(out@) + Seq::<(Seq<char>, Seq<u8>)>::empty() =~= entries_view(out@));
        if u32_at(bytes, i) != Some(CENTRAL_HEADER) {
            return out;
        }
        let method = match u16_field(bytes, i, 10) {
            Some(v) => v,
            None => return out,
        };
        let csize = match u32_field(bytes, i, 20) {
            Some(v) => v,
            None => return out,
        };
        let stated = match u32_field(bytes, i, 24) {
            Some(v) => v,
            None => return out,
        };
        let nl = match u16_field(bytes, i, 28) {
            Some(v) => v,
            None => return out,
        };
        let el = match u16_field(bytes, i, 30) {
            Some(v) => v,
            None => return out,
        };
        let cl = match u16_field(bytes, i, 32) {
            Some(v) => v,
            None => return out,
        };
        let lo = match u32_field(bytes, i, 42) {
            Some(v) => v,
            None => return out,
        };
        let name_at = i + 46;
        if n - name_at < nl as usize {
            return out;
        }
        let name = text_lossy(slice_range(bytes, name_at, name_at + nl as usize));
        let data = local_member(bytes, lo as usize, method, csize, stated, &name);
        let ghost next_int = name_at + nl + el + cl;
        let next = (name_at + nl as usize).saturating_add(el as usize).saturating_add(cl as usize);
        proof {
            if next_int > usize::MAX {
                lemma_central_far(bytes@, next_int, (left - 1) as nat);
                lemma_central_far(bytes@, next as int, (left - 1) as nat);
            }
        }
        let ghost before = out@;
        match data {
            Some(d) => {
                proof {
                    assert(declares_size(bytes@, i as int, stated));
                    lemma_size_bounded(bytes@, d@, i as int, stated);
                }
                out.push(Entry { name, data: d });
                assert(entries_view(out@) =~= entries_view(before).push((name@, d@)));
                assert(forall|k: int| 0 <= k < before.len() ==> out@[k] == before[k]);
            },
            None => {},
        }
        proof {
            let rest = central_from(bytes@, next_int, (left - 1) as nat);
            match local_data(bytes@, lo as int, method, csize, stated, name@) {
                Some(d) => {
                    assert(here == seq![(name@, d)] + rest);
                    assert(entries_view(out@) + rest =~= entries_view(before) + here);
                },
                None => {
                    assert(here == rest);
                },
            }
        }
        i = next;
        left = left - 1;
    }
    assert(entries_view(out@) =~= total);
    out
}

proof fn lemma_local_far(b: Seq<u8>, i: int)
    requires
        i + 30 > b.len(),
    ensures
        local_from(b, i) == Seq::<(Seq<char>, Seq<u8>)>::empty(),
{
}

/// A file read out of archive `b`: not a directory entry, and its data is a
/// slice of the archive as stored, or what inflating such a slice gives.
pub open spec fn read_from(b: Seq<u8>, e: (Seq<char>, Seq<u8>)) -> bool {
    &&& !is_dir_name(e.0)
    &&& exists|x: int, y: int|
        #![trigger b.subrange(x, y)]
        0 <= x <= y <= b.len() && (e.1 == b.subrange(x, y) || exists|limit: usize|
            inflated(b.subrange(x, y), limit) == Some(e.1))
}

proof fn lemma_member_from(b: Seq<u8>, x: int, y: int, method: u16, stated: u32, name: Seq<char>)
    requires
        0 <= x <= y <= b.len(),
        !is_dir_name(name),
        member_data(b.subrange(x, y), method, stated) is Some,
    ensures
        read_from(b, (name, member_data(b.subrange(x, y), method, stated)->0)),
{
    let d = member_data(b.subrange(x, y), method, stated)->0;
    if method == DEFLATE {
        assert(inflated(b.subrange(x, y), sat(stated + 1024) as usize) == Some(d));
    }
    assert(0 <= x <= y <= b.len() && (d == b.subrange(x, y) || exists|limit: usize|
        inflated(b.subrange(x, y), limit) == Some(d)));
}

#[verifier::spinoff_prover]
proof fn lemma_local_from_read(b: Seq<u8>, i: int)
    ensures
        forall|k: int| 0 <= k < local_from(b, i).len() ==> read_from(b, #[trigger] local_from(b, i)[k]),
    decreases b.len() - i,
{
    if !(i < 0 || i + 30 > b.len() || le32_at(b, i) != Some(LOCAL_HEADER)) {
        let flags = le16_at(b, i + 6)->0;
        let method = le16_at(b, i + 8)->0;
        let csize = le32_at(b, i + 18)->0;
        let stated = le32_at(b, i + 22)->0;
        let nl = le16_at(b, i + 26)->0;
        let el = le16_at(b, i + 28)->0;
        let data_at = i + 30 + nl + el;
        if !(data_at > b.len() || flags & 8u16 != 0) {
            let name = lossy_text(b.subrange(i + 30, i + 30 + nl));
            let end = data_at + csize;
            if end <= b.len() {
                lemma_local_from_read(b, end);
                if !is_dir_name(name) && member_data(b.subrange(data_at, end), method, stated) is Some {
                    lemma_member_from(b, data_at, end, method, stated, name);
                    let rest = local_from(b, end);
                    let all = local_from(b, i);
                    assert forall|k: int| 0 <= k < all.len() implies read_from(b, #[trigger] all[k]) by {
                        if k > 0 {
                            assert(all[k] == rest[k - 1]);
                        }
                    }
                }
            }
        }
    }
}

proof fn lemma_central_from_read(b: Seq<u8>, i: int, count: nat)
    ensures
        forall|k: int| 0 <= k < central_from(b, i, count).len() ==> read_from(b, #[trigger] central_from(b, i, count)[k]),
    decreases count,
{
    if !(count == 0 || le32_at(b, i) != Some(CENTRAL_HEADER)) {
        match (
            le16_at(b, i + 10),
            le32_at(b, i + 20),
            le32_at(b, i + 24),
            le16_at(b, i + 28),
            le16_at(b, i + 30),
            le16_at(b, i + 32),
            le32_at(b, i + 42),
        ) {
            (Some(method), Some(csize), Some(stated), Some(nl), Some(el), Some(cl), Some(lo)) => {
                let name_at = i + 46;
                if name_at + nl <= b.len() {
                    let name = lossy_text(b.subrange(name_at, name_at + nl));
                    lemma_central_from_read(b, name_at + nl + el + cl, (count - 1) as nat);
                    let rest = central_from(b, name_at + nl + el + cl, (count - 1) as nat);
                    if local_data(b, lo as int, method, csize, stated, name) is Some {
                        let l = lo as int;
                        let ln = le16_at(b, l + 26)->0;
                        let lx = le16_at(b, l + 28)->0;
                        let data_at = l + 30 + ln + lx;
                        lemma_member_from(b, data_at, data_at + csize, method, stated, name);
                        let all = central_from(b, i, count);
                        assert forall|k: int| 0 <= k < all.len() implies read_from(b, #[trigger] all[k]) by {
                            if k > 0 {
                                assert(all[k] == rest[k - 1]);
                            }
                        }
                    }
                }
            },
            _ => {},
        }
    }
}

/// Every file read out of an archive is a file, not a directory entry, and
/// its data comes from the archive itself: a slice of it as stored, or what
/// inflating such a slice gives.
pub proof fn lemma_read_all_comes_from_the_archive(b: Seq<u8>)
    ensures
        forall|k: int| 0 <= k < spec_read_all(b).len() ==> read_from(b, #[trigger] spec_read_all(b)[k]),
{
    lemma_local_from_read(b, 0);
    match eocd_below(b, sat_sub(b.len() as int, 66000), sat_sub(b.len() as int, 21)) {
        None => {},
        Some(e) => match (le16_at(b, e + 10), le32_at(b, e + 16)) {
            (Some(count), Some(off)) => {
                lemma_central_from_read(b, off as int, count as nat);
            },
            _ => {},
        },
    }
}

/// Extract every file an artifact contains. Directory entries are skipped.
/// An archive that cannot be read gives an empty vector: the caller decides
/// what a missing capsule means. No entry is a directory, and each file's
/// data comes from the archive itself: a slice of it as stored, or what
/// inflating such a slice gives, and never more than a slice or a header's
/// declared size plus 1024 bytes.
pub fn read_all(bytes: &[u8]) -> (r: Vec<Entry>)
    ensures
        entries_view(r@) == spec_read_all(bytes@),
        forall|k: int| 0 <= k < r@.len() ==> size_bounded(bytes@, #[trigger] r@[k].data@),
        forall|k: int| 0 <= k < r@.len() ==> read_from(bytes@, #[trigger] entries_view(r@)[k]),
        forall|k: int| 0 <= k < r@.len() ==> !is_dir_name(#[trigger] r@[k].name@),
{
    let r = read_entries(bytes);
    proof {
        lemma_read_all_comes_from_the_archive(bytes@);
        assert forall|k: int| 0 <= k < r@.len() implies read_from(bytes@, #[trigger] entries_view(r@)[k]) by {
            assert(entries_view(r@)[k] == spec_read_all(bytes@)[k]);
        }
        assert forall|k: int| 0 <= k < r@.len() implies !is_dir_name(#[trigger] r@[k].name@) by {
            assert(read_from(bytes@, entries_view(r@)[k]));
            assert(entries_view(r@)[k] == entry_view(r@[k]));
        }
    }
    r
}

fn read_entries(bytes: &[u8]) -> (r: Vec<Entry>)
    ensures
        entries_view(r@) == spec_read_all(bytes@),
        forall|k: int| 0 <= k < r@.len() ==> size_bounded(bytes@, #[trigger] r@[k].data@),
{
    let central = read_central(bytes);
    if central.len() > 0 {
        assert(entries_view(central@).len() == central@.len());
        return central;
    }
    assert(spec_read_central(bytes@).len() == 0);
    let n = bytes.len();
    let mut out: Vec<Entry> = Vec::new();
    let mut i: usize = 0;
    let ghost total = local_from(bytes@, 0);
    assert(entries_view(out@) + local_from(bytes@, 0) =~= total);
    while i <= n && n - i >= 30
        invariant
            n == bytes@.len(),
            i <= n,
            total == spec_read_all(bytes@),
            entries_view(out@) + local_from(bytes@, i as int) == total,
            forall|k: int| 0 <= k < out@.len() ==> size_bounded(bytes@, #[trigger] out@[k].data@),
        decreases n - i,
    {
        let ghost here = local_from(bytes@, i as int);
        assert(entries_view(out@) + Seq::<(Seq<char>, Seq<u8>)>::empty() =~= entries_view(out@));
        if u32_at(bytes, i) != Some(LOCAL_HEADER) {
            return out;
        }
        let flags = match u16_field(bytes, i, 6) {
            Some(v) => v,
            None => return out,
        };
        let method = match u16_field(bytes, i, 8) {
            Some(v) => v,
            None => return out,
        };
        let csize = match u32_field(bytes, i, 18) {
            Some(v) => v,
            None => return out,
        };
        let stated = match u32_field(bytes, i, 22) {
            Some(v) => v,
            None => return out,
        };
        let nl = match u16_field(bytes, i, 26) {
            Some(v) => v,
            None => return out,
        };
        let el = match u16_field(bytes, i, 28) {
            Some(v) => v,
            None => return out,
        };
        let name_at = i + 30;
        if n - name_at < nl as usize + el as usize {
            return out;
        }
        let data_at = name_at + nl as usize + el as usize;
        // Sizes in a trailing data descriptor: an Actions artifact does not
        // use them, so reading stops rather than guessing.
        if flags & 8 != 0 {
            return out;
        }
        let name = text_lossy(slice_range(bytes, name_at, name_at + nl as usize));
        if n - data_at < csize as usize {
            return out;
        }
        let end = data_at + csize as usize;
        let ghost before = out@;
        if !ends_with_slash(&name) {
            let raw = slice_range(bytes, data_at, end);
            match member(raw, method, stated) {
                Some(d) => {
                    proof {
                        assert(declares_size(bytes@, i as int, stated));
                        assert(slice_or_within(bytes@, d@, stated)) by {
                            reveal(slice_or_within);
                            if d@ == raw@ {
                                assert(d@ == bytes@.subrange(data_at as int, end as int));
                            }
                        }
                        lemma_size_bounded(bytes@, d@, i as int, stated);
                    }
                    out.push(Entry { name, data: d });
                    assert(entries_view(out@) =~= entries_view(before).push((name@, d@)));
                    assert(forall|k: int| 0 <= k < before.len() ==> out@[k] == before[k]);
                },
                None => {},
            }
        }
        proof {
            let rest = local_from(bytes@, end as int);
            if !is_dir_name(name@) {
                match member_data(bytes@.subrange(data_at as int, end as int), method, stated) {
                    Some(d) => {
                        assert(here == seq![(name@, d)] + rest);
                        assert(entries_view(out@) + rest =~= entries_view(before) + here);
                    },
                    None => {},
                }
            }
        }
        i = end;
    }
    proof {
        lemma_local_far(bytes@, i as int);
    }
    assert(entries_view(out@) =~= total);
    out
}

/// ASCII lower case, as `to_ascii_lowercase` makes it.
pub open spec fn ascii_lower(c: char) -> char {
    if 'A' <= c <= 'Z' {
        ((c as u8) + 32) as char
    } else {
        c
    }
}

pub open spec fn lower(s: Seq<char>) -> Seq<char> {
    s.map_values(|c: char| ascii_lower(c))
}

/// A name that is obviously the capsule.
pub open spec fn looks_like_capsule(name: Seq<char>) -> bool {
    let n = lower(name);
    mentions(n, "capsule"@) || ".nyarch"@.is_suffix_of(n) || ".exe"@.is_suffix_of(n)
}

/// The first entry from `i` on whose name looks like the capsule.
pub open spec fn first_capsule(es: Seq<(Seq<char>, Seq<u8>)>, i: int) -> Option<int>
    decreases es.len() - i,
{
    if i < 0 || i >= es.len() {
        None
    } else if looks_like_capsule(es[i].0) {
        Some(i)
    } else {
        first_capsule(es, i + 1)
    }
}

/// Among the first `k` entries, the last one of the largest size.
pub open spec fn largest(es: Seq<(Seq<char>, Seq<u8>)>, k: int) -> int
    decreases k,
{
    if k <= 1 {
        0
    } else {
        let j = largest(es, k - 1);
        if es[k - 1].1.len() >= es[j].1.len() {
            k - 1
        } else {
            j
        }
    }
}

/// The capsule among an artifact's files: the only one; else the first whose
/// name says so; else the largest, which a compiled binary is next to a
/// manifest or a log.
pub open spec fn capsule_choice(es: Seq<(Seq<char>, Seq<u8>)>) -> Option<(Seq<char>, Seq<u8>)> {
    if es.len() == 0 {
        None
    } else if es.len() == 1 {
        Some(es[0])
    } else {
        match first_capsule(es, 0) {
            Some(k) => Some(es[k]),
            None => Some(es[largest(es, es.len() as int)]),
        }
    }
}

proof fn lemma_largest(es: Seq<(Seq<char>, Seq<u8>)>, k: int)
    requires
        1 <= k <= es.len(),
    ensures
        0 <= largest(es, k) < k,
        forall|i: int| 0 <= i < k ==> (#[trigger] es[i]).1.len() <= es[largest(es, k)].1.len(),
    decreases k,
{
    if k > 1 {
        lemma_largest(es, k - 1);
    }
}

proof fn lemma_first_capsule_found(es: Seq<(Seq<char>, Seq<u8>)>, i: int)
    requires
        0 <= i,
    ensures
        first_capsule(es, i) matches Some(k) ==> i <= k < es.len() && looks_like_capsule(es[k].0) && forall|j: int|
            i <= j < k ==> !looks_like_capsule((#[trigger] es[j]).0),
        (exists|j: int| i <= j < es.len() && looks_like_capsule(#[trigger] es[j].0)) ==> first_capsule(es, i) is Some,
    decreases es.len() - i,
{
    if i < es.len() && !looks_like_capsule(es[i].0) {
        lemma_first_capsule_found(es, i + 1);
        if exists|j: int| i <= j < es.len() && looks_like_capsule(#[trigger] es[j].0) {
            let j = choose|j: int| i <= j < es.len() && looks_like_capsule(#[trigger] es[j].0);
            assert(j != i);
            assert(i + 1 <= j);
        }
    }
}

/// What the capsule choice gives an artifact's files: nothing only for an
/// empty artifact, else one of its files. Among several files, one whose
/// name says capsule wins when there is one; when none does, the file
/// chosen is at least as large as every other, since a compiled binary
/// outweighs a manifest or a log.
pub proof fn lemma_capsule_choice(es: Seq<(Seq<char>, Seq<u8>)>)
    ensures
        capsule_choice(es) is None <==> es.len() == 0,
        capsule_choice(es) matches Some(c) ==> es.contains(c),
        es.len() >= 2 && (exists|j: int| 0 <= j < es.len() && looks_like_capsule(#[trigger] es[j].0)) ==> exists|k: int|
            0 <= k < es.len() && capsule_choice(es) == Some(#[trigger] es[k]) && looks_like_capsule(es[k].0) && forall|j: int|
                0 <= j < k ==> !looks_like_capsule((#[trigger] es[j]).0),
        (forall|j: int| 0 <= j < es.len() ==> !looks_like_capsule(#[trigger] es[j].0)) ==> forall|i: int|
            0 <= i < es.len() ==> (capsule_choice(es) matches Some(c) && (#[trigger] es[i]).1.len() <= c.1.len()),
{
    lemma_first_capsule_found(es, 0);
    if es.len() == 1 {
        assert(es[0] == es[0]);
    } else if es.len() >= 2 {
        lemma_largest(es, es.len() as int);
        match first_capsule(es, 0) {
            Some(k) => {
                assert(capsule_choice(es) == Some(es[k]));
            },
            None => {
                let m = largest(es, es.len() as int);
                assert(es[m] == es[m]);
            },
        }
    }
}

fn lower_chars(s: &String) -> (r: Vec<char>)
    ensures
        r@ == lower(s@),
{
    let c = chars_of(s.as_str());
    let mut r: Vec<char> = Vec::new();
    let mut i: usize = 0;
    while i < c.len()
        invariant
            i <= c@.len(),
            c@ == s@,
            r@ == lower(c@.take(i as int)),
        decreases c@.len() - i,
    {
        let ch = c[i];
        let l = if 'A' <= ch && ch <= 'Z' {
            ((ch as u8) + 32) as char
        } else {
            ch
        };
        r.push(l);
        assert(r@ =~= lower(c@.take(i + 1)));
        i = i + 1;
    }
    assert(c@.take(i as int) =~= c@);
    r
}

fn has_suffix(s: &Vec<char>, suf: &str) -> (r: bool)
    ensures
        r == suf@.is_suffix_of(s@),
{
    let t = chars_of(suf);
    if t.len() > s.len() {
        return false;
    }
    let off = s.len() - t.len();
    let sl = s.len();
    let mut i: usize = 0;
    while i < t.len()
        invariant
            sl == s@.len(),
            t@ == suf@,
            t@.len() <= s@.len(),
            off == s@.len() - t@.len(),
            i <= t@.len(),
            forall|j: int| 0 <= j < i ==> s@[off + j] == t@[j],
        decreases t@.len() - i,
    {
        if s[off + i] != t[i] {
            return false;
        }
        i = i + 1;
    }
    assert(s@.subrange(off as int, s@.len() as int) =~= t@);
    true
}

fn capsule_name(name: &String) -> (r: bool)
    ensures
        r == looks_like_capsule(name@),
{
    let n = lower_chars(name);
    let pat = chars_of("capsule");
    find_chars(&n, &pat, 0).is_some() || has_suffix(&n, ".nyarch") || has_suffix(&n, ".exe")
}

proof fn lemma_first_capsule_range(es: Seq<(Seq<char>, Seq<u8>)>, i: int)
    ensures
        first_capsule(es, i) matches Some(k) ==> 0 <= i <= k < es.len(),
    decreases es.len() - i,
{
    if 0 <= i < es.len() && !looks_like_capsule(es[i].0) {
        lemma_first_capsule_range(es, i + 1);
    }
}

fn find_capsule(entries: &Vec<Entry>) -> (r: Option<usize>)
    ensures
        match first_capsule(entries_view(entries@), 0) {
            Some(k) => r == Some(k as usize),
            None => r is None,
        },
{
    let ghost es = entries_view(entries@);
    let mut i: usize = 0;
    while i < entries.len()
        invariant
            i <= entries@.len(),
            es == entries_view(entries@),
            es.len() == entries@.len(),
            first_capsule(es, 0) == first_capsule(es, i as int),
        decreases entries@.len() - i,
    {
        assert(es[i as int] == entry_view(entries@[i as int]));
        if capsule_name(&entries[i].name) {
            return Some(i);
        }
        i = i + 1;
    }
    None
}

/// The capsule inside an artifact, chosen by `capsule_choice`.
pub fn capsule_from_artifact(bytes: &[u8]) -> (r: Option<Entry>)
    ensures
        match capsule_choice(spec_read_all(bytes@)) {
            Some(e) => r matches Some(x) && entry_view(x) == e,
            None => r is None,
        },
        r matches Some(x) ==> spec_read_all(bytes@).contains(entry_view(x)),
        (forall|j: int| 0 <= j < spec_read_all(bytes@).len() ==> !looks_like_capsule(#[trigger] spec_read_all(bytes@)[j].0))
            ==> forall|i: int|
            0 <= i < spec_read_all(bytes@).len() ==> (r matches Some(x) && (#[trigger] spec_read_all(bytes@)[i]).1.len()
                <= x.data@.len()),
{
    proof {
        lemma_capsule_choice(spec_read_all(bytes@));
    }
    let mut entries = read_all(bytes);
    let ghost es = entries_view(entries@);
    assert(es.len() == entries@.len());
    if entries.len() == 0 {
        return None;
    }
    if entries.len() == 1 {
        let e = entries.pop();
        return e;
    }
    proof {
        lemma_first_capsule_range(es, 0);
    }
    match find_capsule(&entries) {
        Some(i) => {
            let e = entries.swap_remove(i);
            return Some(e);
        },
        None => {},
    }
    let mut k: usize = 0;
    let mut j: usize = 1;
    while j < entries.len()
        invariant
            1 <= j <= entries@.len(),
            es == entries_view(entries@),
            es.len() == entries@.len(),
            k == largest(es, j as int),
            k < j,
        decreases entries@.len() - j,
    {
        if entries[j].data.len() >= entries[k].data.len() {
            k = j;
        }
        j = j + 1;
    }
    let e = entries.swap_remove(k);
    Some(e)
}

} // verus!
