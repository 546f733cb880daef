//! Standard base64 (RFC 4648 alphabet, with padding), used to carry file
//! contents and sealed secrets in JSON bodies.
use vstd::prelude::*;
use vstd::utf8::{encode_utf8, is_ascii_chars, is_ascii_chars_encode_utf8};

verus! {

pub open spec fn b64_byte(v: u8) -> u8 {
    if v < 26 {
        (v + 65) as u8
    } else if v < 52 {
        (v - 26 + 97) as u8
    } else if v < 62 {
        (v - 52 + 48) as u8
    } else if v == 62 {
        43u8
    } else {
        47u8
    }
}

/// The standard base64 alphabet of RFC 4648 (its table 1), in the order of
/// the sextet values it stands for.
pub const STANDARD_ALPHABET: &'static str = "ABCDEFGHIJKLMNOPQRSTUVWXYZabcdefghijklmnopqrstuvwxyz0123456789+/";

/// The first `n` sextets encode to the first `n` letters of the alphabet.
spec fn alphabet_agrees(n: int) -> bool
    decreases n,
{
    if n <= 0 {
        true
    } else {
        alphabet_agrees(n - 1) && b64_byte((n - 1) as u8) as char == STANDARD_ALPHABET@[n - 1]
    }
}

proof fn lemma_alphabet_agrees(n: int)
    requires
        0 <= n <= 64,
        alphabet_agrees(n),
    ensures
        forall|v: u8| v < n ==> (#[trigger] b64_byte(v)) as char == STANDARD_ALPHABET@[v as int],
    decreases n,
{
    if n > 0 {
        lemma_alphabet_agrees(n - 1);
        assert forall|v: u8| v < n implies (#[trigger] b64_byte(v)) as char == STANDARD_ALPHABET@[v as int] by {
            if v == n - 1 {
                assert(((n - 1) as u8) == v);
            }
        }
    }
}

/// Base64 here is the standard alphabet, fixed apart from any decoder: sextet
/// `v` is written as the `v`-th letter of `STANDARD_ALPHABET` (so 62 is `+`
/// and 63 is `/`), and a letter decodes to its own position in it and
/// nothing else.
pub proof fn lemma_standard_alphabet()
    ensures
        STANDARD_ALPHABET@.len() == 64,
        forall|v: u8| v < 64 ==> (#[trigger] b64_byte(v)) as char == STANDARD_ALPHABET@[v as int],
        forall|v: u8| v < 64 ==> b64_value(#[trigger] b64_byte(v)) == Some(v),
        forall|c: u8| #[trigger] b64_value(c) matches Some(v) ==> v < 64 && b64_byte(v) == c,
{
    reveal_strlit("ABCDEFGHIJKLMNOPQRSTUVWXYZabcdefghijklmnopqrstuvwxyz0123456789+/");
    reveal_with_fuel(alphabet_agrees, 65);
    assert(alphabet_agrees(64));
    lemma_alphabet_agrees(64);
}

/// The four sextets of a three-byte group.
pub open spec fn sextets(a: u8, b: u8, c: u8) -> (u8, u8, u8, u8) {
    (a >> 2, ((a & 3u8) << 4u8) | (b >> 4u8), ((b & 15u8) << 2u8) | (c >> 6u8), c & 63u8)
}

/// The encoding of a final group of one or two bytes, or of a full group.
pub open spec fn encode_group(d: Seq<u8>) -> Seq<u8> {
    let a = d[0];
    let b = if d.len() > 1 { d[1] } else { 0u8 };
    let c = if d.len() > 2 { d[2] } else { 0u8 };
    let s = sextets(a, b, c);
    seq![
        b64_byte(s.0),
        b64_byte(s.1),
        if d.len() > 1 { b64_byte(s.2) } else { 61u8 },
        if d.len() > 2 { b64_byte(s.3) } else { 61u8 },
    ]
}

/// Base64 of `d`, as ASCII bytes.
pub open spec fn b64_encode(d: Seq<u8>) -> Seq<u8>
    decreases d.len(),
{
    if d.len() == 0 {
        Seq::empty()
    } else if d.len() <= 3 {
        encode_group(d)
    } else {
        encode_group(d.take(3)) + b64_encode(d.skip(3))
    }
}

/// ASCII bytes read as characters.
pub open spec fn ascii_chars(b: Seq<u8>) -> Seq<char> {
    b.map_values(|x: u8| x as char)
}

/// `String::from_utf8` on bytes that are all ASCII, which cannot fail.
/// Claimed: each byte becomes the character with the same code.
#[verifier::external_body]
pub(crate) fn ascii_string(b: Vec<u8>) -> (s: String)
    requires
        forall|i: int| 0 <= i < b@.len() ==> b@[i] < 128,
    ensures
        s@ == ascii_chars(b@),
{
    match String::from_utf8(b) {
        Ok(s) => s,
        Err(_) => String::new(),
    }
}

fn sextet_byte(v: u8) -> (r: u8)
    requires
        v < 64,
    ensures
        r == b64_byte(v),
        r < 128,
{
    if v < 26 {
        v + 65
    } else if v < 52 {
        v - 26 + 97
    } else if v < 62 {
        v - 52 + 48
    } else if v == 62 {
        43
    } else {
        47
    }
}

pub proof fn lemma_sextets_small(a: u8, b: u8, c: u8)
    ensures
        sextets(a, b, c).0 < 64,
        sextets(a, b, c).1 < 64,
        sextets(a, b, c).2 < 64,
        sextets(a, b, c).3 < 64,
{
    assert(a >> 2 < 64u8) by (bit_vector);
    assert(((a & 3u8) << 4u8) | (b >> 4u8) < 64u8) by (bit_vector);
    assert(((b & 15u8) << 2u8) | (c >> 6u8) < 64u8) by (bit_vector);
    assert(c & 63u8 < 64u8) by (bit_vector);
}

pub proof fn lemma_encode_ascii(d: Seq<u8>)
    ensures
        forall|i: int| 0 <= i < b64_encode(d).len() ==> b64_encode(d)[i] < 128,
        b64_encode(d).len() == (if d.len() % 3 == 0 { d.len() / 3 * 4 } else { d.len() / 3 * 4 + 4 }),
    decreases d.len(),
{
    if d.len() > 0 {
        let a = d[0];
        let b = if d.len() > 1 { d[1] } else { 0u8 };
        let c = if d.len() > 2 { d[2] } else { 0u8 };
        lemma_sextets_small(a, b, c);
        if d.len() > 3 {
            lemma_encode_ascii(d.skip(3));
            let g = d.take(3);
            lemma_sextets_small(g[0], g[1], g[2]);
        }
    }
}

/// Base64-encode bytes.
pub fn encode(data: &[u8]) -> (s: String)
    ensures
        s@ == ascii_chars(b64_encode(data@)),
        encode_utf8(s@) == b64_encode(data@),
{
    let r = encode_ascii(data);
    proof {
        lemma_encode_ascii(data@);
        lemma_ascii_bytes(b64_encode(data@));
    }
    r
}

/// The text of an encoding is ASCII, so its UTF-8 bytes are the encoding.
pub proof fn lemma_encode_text(d: Seq<u8>)
    ensures
        encode_utf8(ascii_chars(b64_encode(d))) == b64_encode(d),
{
    lemma_encode_ascii(d);
    lemma_ascii_bytes(b64_encode(d));
}

pub proof fn lemma_ascii_bytes(b: Seq<u8>)
    requires
        forall|i: int| 0 <= i < b.len() ==> b[i] < 128,
    ensures
        encode_utf8(ascii_chars(b)) == b,
{
    let c = ascii_chars(b);
    assert(is_ascii_chars(c)) by {
        assert forall|i: int| 0 <= i < c.len() implies '\0' <= #[trigger] c[i] <= '\u{7f}' by {
            assert(c[i] == b[i] as char);
        }
    }
    is_ascii_chars_encode_utf8(c);
    assert forall|i: int| 0 <= i < b.len() implies encode_utf8(c)[i] == b[i] by {
        assert(c[i] as u8 == encode_utf8(c)[i]);
        assert(c[i] == b[i] as char);
    }
    assert(encode_utf8(c) =~= b);
}

fn encode_ascii(data: &[u8]) -> (s: String)
    ensures
        s@ == ascii_chars(b64_encode(data@)),
{
    let mut out: Vec<u8> = Vec::new();
    let mut i: usize = 0;
    let n = data.len();
    assert(data@.skip(0) =~= data@);
    assert(out@ + b64_encode(data@) =~= b64_encode(data@));
    while i < n
        invariant
            n == data@.len(),
            i <= n,
            i % 3 == 0,
            out@ + b64_encode(data@.skip(i as int)) == b64_encode(data@),
            forall|k: int| 0 <= k < out@.len() ==> out@[k] < 128,
        decreases n - i,
    {
        let rest = n - i;
        let a = data[i];
        let b = if rest > 1 { data[i + 1] } else { 0 };
        let c = if rest > 2 { data[i + 2] } else { 0 };
        let ghost d = data@.skip(i as int);
        proof {
            lemma_sextets_small(a, b, c);
        }
        let s0 = a >> 2;
        let s1 = ((a & 3) << 4) | (b >> 4);
        let s2 = ((b & 15) << 2) | (c >> 6);
        let s3 = c & 63;
        let ghost g = if d.len() <= 3 { d } else { d.take(3) };
        assert(g[0] == a);
        assert(g.len() > 1 ==> g[1] == b);
        assert(g.len() > 2 ==> g[2] == c);
        let ghost before = out@;
        out.push(sextet_byte(s0));
        out.push(sextet_byte(s1));
        if rest > 1 {
            out.push(sextet_byte(s2));
        } else {
            out.push(61);
        }
        if rest > 2 {
            out.push(sextet_byte(s3));
        } else {
            out.push(61);
        }
        assert(out@ =~= before + encode_group(g));
        if rest <= 3 {
            assert(data@.skip(n as int) =~= Seq::<u8>::empty());
            assert(b64_encode(data@.skip(i as int)) == encode_group(g));
            i = n;
            assert(i % 3 == 0 || true);
            assert(out@ + b64_encode(data@.skip(i as int)) =~= out@);
            assert(forall|k: int| 0 <= k < out@.len() ==> out@[k] < 128);
            proof {
                lemma_encode_ascii(data@);
            }
            return ascii_string(out);
        }
        assert(data@.skip(i as int).skip(3) =~= data@.skip(i + 3));
        i = i + 3;
    }
    assert(data@.skip(n as int) =~= Seq::<u8>::empty());
    assert(out@ =~= b64_encode(data@));
    ascii_string(out)
}

/// The six-bit value of an alphabet byte.
pub open spec fn b64_value(c: u8) -> Option<u8> {
    if 65 <= c <= 90 {
        Some((c - 65) as u8)
    } else if 97 <= c <= 122 {
        Some((c - 97 + 26) as u8)
    } else if 48 <= c <= 57 {
        Some((c - 48 + 52) as u8)
    } else if c == 43 {
        Some(62u8)
    } else if c == 47 {
        Some(63u8)
    } else {
        None
    }
}

/// Padding and ASCII white space, which decoding passes over.
pub open spec fn skipped(b: u8) -> bool {
    b == 61 || b == 32 || b == 9 || b == 10 || b == 12 || b == 13
}

/// The bytes of `s` that decoding reads: all but padding and white space.
pub open spec fn significant(s: Seq<u8>) -> Seq<u8>
    decreases s.len(),
{
    if s.len() == 0 {
        Seq::empty()
    } else {
        let r = significant(s.drop_last());
        if skipped(s.last()) {
            r
        } else {
            r.push(s.last())
        }
    }
}

/// The value of the `i`-th character of a group, 0 past its end.
pub open spec fn value_at(g: Seq<u8>, i: int) -> u8 {
    if i < g.len() {
        match b64_value(g[i]) {
            Some(v) => v,
            None => 0,
        }
    } else {
        0
    }
}

/// The three bytes that four sextets carry.
pub open spec fn group_bytes(v0: u8, v1: u8, v2: u8, v3: u8) -> Seq<u8> {
    seq![
        (v0 << 2u8) | (v1 >> 4u8),
        ((v1 & 15u8) << 4u8) | (v2 >> 2u8),
        ((v2 & 3u8) << 6u8) | v3,
    ]
}

/// A group of one to four characters: `None` if one is outside the
/// alphabet, else the whole bytes that its bits hold.
pub open spec fn decode_group(g: Seq<u8>) -> Option<Seq<u8>> {
    if forall|i: int| 0 <= i < g.len() ==> b64_value(#[trigger] g[i]) is Some {
        Some(
            group_bytes(value_at(g, 0), value_at(g, 1), value_at(g, 2), value_at(g, 3)).take(
                g.len() - 1,
            ),
        )
    } else {
        None
    }
}

/// Decoding of the significant characters, four at a time.
pub open spec fn decode_groups(t: Seq<u8>) -> Option<Seq<u8>>
    decreases t.len(),
{
    if t.len() == 0 {
        Some(Seq::empty())
    } else if t.len() <= 4 {
        decode_group(t)
    } else {
        match decode_group(t.take(4)) {
            None => None,
            Some(b) => match decode_groups(t.skip(4)) {
                None => None,
                Some(r) => Some(b + r),
            },
        }
    }
}

/// Padding-tolerant base64 decoding of the bytes of a text.
pub open spec fn b64_decode(s: Seq<u8>) -> Option<Seq<u8>> {
    decode_groups(significant(s))
}

pub open spec fn prepend(o: Option<Seq<u8>>, p: Seq<u8>) -> Option<Seq<u8>> {
    match o {
        Some(r) => Some(p + r),
        None => None,
    }
}

fn value_of(c: u8) -> (r: Option<u8>)
    ensures
        r == b64_value(c),
        r matches Some(v) ==> v < 64,
{
    if 65 <= c && c <= 90 {
        Some(c - 65)
    } else if 97 <= c && c <= 122 {
        Some(c - 97 + 26)
    } else if 48 <= c && c <= 57 {
        Some(c - 48 + 52)
    } else if c == 43 {
        Some(62)
    } else if c == 47 {
        Some(63)
    } else {
        None
    }
}

fn decode_group_at(t: &Vec<u8>, j: usize, k: usize) -> (r: Option<Vec<u8>>)
    requires
        1 <= k <= 4,
        j + k <= t@.len(),
    ensures
        match r {
            Some(v) => decode_group(t@.subrange(j as int, j + k)) == Some(v@),
            None => decode_group(t@.subrange(j as int, j + k)) is None,
        },
{
    let ghost g = t@.subrange(j as int, j + k);
    let mut vals: Vec<u8> = Vec::new();
    let mut q: usize = 0;
    let tl = t.len();
    while q < k
        invariant
            1 <= k <= 4,
            tl == t@.len(),
            j + k <= t@.len(),
            g == t@.subrange(j as int, j + k),
            q <= k,
            vals@.len() == q,
            forall|p: int| 0 <= p < q ==> b64_value(#[trigger] g[p]) == Some(vals@[p]),
        decreases k - q,
    {
        match value_of(t[j + q]) {
            Some(v) => {
                vals.push(v);
            },
            None => {
                assert(b64_value(g[q as int]) is None);
                return None;
            },
        }
        q = q + 1;
    }
    let v0 = vals[0];
    let v1 = if k > 1 { vals[1] } else { 0 };
    let v2 = if k > 2 { vals[2] } else { 0 };
    let v3 = if k > 3 { vals[3] } else { 0 };
    assert(v0 == value_at(g, 0));
    assert(v1 == value_at(g, 1));
    assert(v2 == value_at(g, 2));
    assert(v3 == value_at(g, 3));
    let mut out: Vec<u8> = Vec::new();
    out.push((v0 << 2) | (v1 >> 4));
    if k > 2 {
        out.push(((v1 & 15) << 4) | (v2 >> 2));
    }
    if k > 3 {
        out.push(((v2 & 3) << 6) | v3);
    }
    if k == 1 {
        out = Vec::new();
    }
    assert(out@ =~= group_bytes(v0, v1, v2, v3).take(k - 1));
    Some(out)
}

/// Standard base64 decoding that passes over padding and white space.
/// `None` when a remaining character is outside the alphabet.
pub fn base64_decode(s: &str) -> (r: Option<Vec<u8>>)
    ensures
        match r {
            Some(v) => b64_decode(encode_utf8(s@)) == Some(v@),
            None => b64_decode(encode_utf8(s@)) is None,
        },
{
    let bytes = s.as_bytes();
    let n = bytes.len();
    let mut t: Vec<u8> = Vec::new();
    let mut i: usize = 0;
    while i < n
        invariant
            n == bytes@.len(),
            i <= n,
            t@ == significant(bytes@.take(i as int)),
        decreases n - i,
    {
        let b = bytes[i];
        assert(bytes@.take(i + 1).drop_last() =~= bytes@.take(i as int));
        if !(b == 61 || b == 32 || b == 9 || b == 10 || b == 12 || b == 13) {
            t.push(b);
        }
        i = i + 1;
    }
    assert(bytes@.take(n as int) =~= bytes@);
    let m = t.len();
    let mut out: Vec<u8> = Vec::new();
    let mut j: usize = 0;
    assert(t@.skip(0) =~= t@);
    assert(out@ + Seq::<u8>::empty() =~= Seq::<u8>::empty());
    while j < m
        invariant
            m == t@.len(),
            j <= m,
            t@ == significant(bytes@),
            bytes@ == encode_utf8(s@),
            decode_groups(t@) == prepend(decode_groups(t@.skip(j as int)), out@),
        decreases m - j,
    {
        let rest = m - j;
        let k = if rest < 4 { rest } else { 4 };
        let ghost u = t@.skip(j as int);
        proof {
            if rest > 4 {
                assert(u.take(4) =~= t@.subrange(j as int, j + 4));
            } else {
                assert(u =~= t@.subrange(j as int, j + k));
            }
        }
        match decode_group_at(&t, j, k) {
            None => {
                return None;
            },
            Some(b) => {
                let ghost before = out@;
                out.append(&mut b.clone());
                if rest <= 4 {
                    assert(t@.skip(m as int) =~= Seq::<u8>::empty());
                    assert(before + b@ + Seq::<u8>::empty() =~= out@);
                    j = m;
                } else {
                    assert(u.skip(4) =~= t@.skip(j + 4));
                    assert forall|r: Seq<u8>| #![auto] before + (b@ + r) =~= out@ + r by {}
                    j = j + 4;
                }
            },
        }
    }
    assert(t@.skip(m as int) =~= Seq::<u8>::empty());
    assert(out@ + Seq::<u8>::empty() =~= out@);
    Some(out)
}

proof fn lemma_significant_add(a: Seq<u8>, b: Seq<u8>)
    ensures
        significant(a + b) == significant(a) + significant(b),
    decreases b.len(),
{
    if b.len() == 0 {
        assert(a + b =~= a);
        assert(significant(a) + significant(b) =~= significant(a));
    } else {
        assert((a + b).drop_last() =~= a + b.drop_last());
        assert((a + b).last() == b.last());
        lemma_significant_add(a, b.drop_last());
        if skipped(b.last()) {
        } else {
            assert(significant(a) + significant(b.drop_last()).push(b.last()) =~= (significant(a)
                + significant(b.drop_last())).push(b.last()));
        }
    }
}

pub proof fn lemma_alphabet_byte(v: u8)
    requires
        v < 64,
    ensures
        !skipped(b64_byte(v)),
        b64_value(b64_byte(v)) == Some(v),
{
}

proof fn lemma_significant_group(g: Seq<u8>)
    requires
        1 <= g.len() <= 3,
    ensures
        significant(encode_group(g)) == encode_group(g).take(g.len() + 1int),
{
    let a = g[0];
    let b = if g.len() > 1 { g[1] } else { 0u8 };
    let c = if g.len() > 2 { g[2] } else { 0u8 };
    let s = sextets(a, b, c);
    lemma_sextets_small(a, b, c);
    lemma_alphabet_byte(s.0);
    lemma_alphabet_byte(s.1);
    lemma_alphabet_byte(s.2);
    lemma_alphabet_byte(s.3);
    let e = encode_group(g);
    assert(e.drop_last().drop_last().drop_last().drop_last() =~= Seq::<u8>::empty());
    reveal_with_fuel(significant, 5);
    assert(e.take(g.len() + 1int) =~= significant(e));
}

pub proof fn lemma_group_bits(a: u8, b: u8, c: u8)
    ensures
        group_bytes(sextets(a, b, c).0, sextets(a, b, c).1, sextets(a, b, c).2, sextets(a, b, c).3)
            =~= seq![a, b, c],
        b == 0 && c == 0 ==> sextets(a, b, c).2 == 0,
        c == 0 ==> sextets(a, b, c).3 == 0,
{
    assert((((a >> 2u8) << 2u8) | ((((a & 3u8) << 4u8) | (b >> 4u8)) >> 4u8)) == a) by (bit_vector);
    assert(((((((a & 3u8) << 4u8) | (b >> 4u8)) & 15u8) << 4u8) | ((((b & 15u8) << 2u8) | (c
        >> 6u8)) >> 2u8)) == b) by (bit_vector);
    assert(((((((b & 15u8) << 2u8) | (c >> 6u8)) & 3u8) << 6u8) | (c & 63u8)) == c) by (bit_vector);
    assert(b == 0 && c == 0 ==> ((b & 15u8) << 2u8) | (c >> 6u8) == 0) by (bit_vector);
    assert(c == 0 ==> c & 63u8 == 0) by (bit_vector);
}

proof fn lemma_decode_one_group(g: Seq<u8>)
    requires
        1 <= g.len() <= 3,
    ensures
        decode_group(significant(encode_group(g))) == Some(g),
{
    lemma_significant_group(g);
    let a = g[0];
    let b = if g.len() > 1 { g[1] } else { 0u8 };
    let c = if g.len() > 2 { g[2] } else { 0u8 };
    let s = sextets(a, b, c);
    lemma_sextets_small(a, b, c);
    lemma_alphabet_byte(s.0);
    lemma_alphabet_byte(s.1);
    lemma_alphabet_byte(s.2);
    lemma_alphabet_byte(s.3);
    lemma_group_bits(a, b, c);
    let t = encode_group(g).take(g.len() + 1int);
    assert(forall|i: int| 0 <= i < t.len() ==> b64_value(#[trigger] t[i]) is Some);
    assert(value_at(t, 0) == s.0);
    assert(value_at(t, 1) == s.1);
    assert(value_at(t, 2) == s.2);
    assert(value_at(t, 3) == s.3);
    assert(seq![a, b, c].take(g.len() as int) =~= g);
}

/// Decoding what `encode` produced gives the bytes back.
pub proof fn lemma_decode_encode(d: Seq<u8>)
    ensures
        b64_decode(b64_encode(d)) == Some(d),
    decreases d.len(),
{
    if d.len() == 0 {
        assert(significant(Seq::<u8>::empty()) =~= Seq::<u8>::empty());
    } else if d.len() <= 3 {
        lemma_decode_one_group(d);
        lemma_significant_group(d);
    } else {
        let g = d.take(3);
        let rest = d.skip(3);
        lemma_decode_encode(rest);
        lemma_decode_one_group(g);
        lemma_significant_group(g);
        lemma_significant_add(encode_group(g), b64_encode(rest));
        let x = significant(encode_group(g));
        let y = significant(b64_encode(rest));
        lemma_encode_ascii(rest);
        assert(y.len() > 0) by {
            if y.len() == 0 {
                assert(decode_groups(y) == Some(Seq::<u8>::empty()));
                assert(rest.len() > 0);
            }
        }
        assert((x + y).take(4) =~= x);
        assert((x + y).skip(4) =~= y);
        assert(g + rest =~= d);
    }
}

} // verus!
