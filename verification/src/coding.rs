//! Byte strings: their lexicographic order, and fixed-width integers in them.

use vstd::prelude::*;

verus! {

/// The outcome of comparing two keys.
#[derive(Clone, Copy, Debug, PartialEq, Eq, Structural)]
pub enum KeyOrder {
    Less,
    Equal,
    Greater,
}

/// `a` comes strictly before `b` in lexicographic byte order.
pub open spec fn lex_lt(a: Seq<u8>, b: Seq<u8>) -> bool
    decreases a.len(),
{
    if b.len() == 0 {
        false
    } else if a.len() == 0 {
        true
    } else if a[0] != b[0] {
        a[0] < b[0]
    } else {
        lex_lt(a.drop_first(), b.drop_first())
    }
}

/// `a` comes before `b`, or equals it.
pub open spec fn lex_le(a: Seq<u8>, b: Seq<u8>) -> bool {
    lex_lt(a, b) || a == b
}

/// How `a` stands to `b` in lexicographic byte order.
pub open spec fn lex_order(a: Seq<u8>, b: Seq<u8>) -> KeyOrder {
    if lex_lt(a, b) {
        KeyOrder::Less
    } else if a == b {
        KeyOrder::Equal
    } else {
        KeyOrder::Greater
    }
}

/// A common prefix does not change the order of two byte strings.
pub proof fn lemma_lex_lt_skip(a: Seq<u8>, b: Seq<u8>, i: int)
    requires
        0 <= i <= a.len(),
        i <= b.len(),
        forall|j: int| 0 <= j < i ==> a[j] == b[j],
    ensures
        lex_lt(a, b) == lex_lt(a.skip(i), b.skip(i)),
    decreases i,
{
    if i == 0 {
        assert(a.skip(0) =~= a);
        assert(b.skip(0) =~= b);
    } else {
        assert(a[0] == b[0]);
        lemma_lex_lt_skip(a.drop_first(), b.drop_first(), i - 1);
        assert(a.drop_first().skip(i - 1) =~= a.skip(i));
        assert(b.drop_first().skip(i - 1) =~= b.skip(i));
    }
}

/// No byte string comes before itself.
pub proof fn lemma_lex_lt_irreflexive(a: Seq<u8>)
    ensures
        !lex_lt(a, a),
    decreases a.len(),
{
    if a.len() > 0 {
        lemma_lex_lt_irreflexive(a.drop_first());
    }
}

/// Of two byte strings at most one comes before the other.
pub proof fn lemma_lex_lt_asymmetric(a: Seq<u8>, b: Seq<u8>)
    ensures
        !(lex_lt(a, b) && lex_lt(b, a)),
    decreases a.len(),
{
    if a.len() > 0 && b.len() > 0 && a[0] == b[0] {
        lemma_lex_lt_asymmetric(a.drop_first(), b.drop_first());
    }
}

/// The order is transitive.
pub proof fn lemma_lex_lt_transitive(a: Seq<u8>, b: Seq<u8>, c: Seq<u8>)
    requires
        lex_lt(a, b),
        lex_lt(b, c),
    ensures
        lex_lt(a, c),
    decreases a.len(),
{
    if a.len() > 0 && b.len() > 0 && c.len() > 0 && a[0] == b[0] && b[0] == c[0] {
        lemma_lex_lt_transitive(a.drop_first(), b.drop_first(), c.drop_first());
    }
}

/// `a <= b < c <= d` gives `a < d`.
pub proof fn lemma_lex_le_lt_transitive(a: Seq<u8>, b: Seq<u8>, c: Seq<u8>, d: Seq<u8>)
    requires
        lex_lt(a, b),
        lex_le(b, c),
        lex_lt(c, d),
    ensures
        lex_lt(a, d),
{
    if b != c {
        lemma_lex_lt_transitive(a, b, c);
    }
    lemma_lex_lt_transitive(a, c, d);
}

/// The order is total: two byte strings of which neither comes first are equal.
pub proof fn lemma_lex_lt_total(a: Seq<u8>, b: Seq<u8>)
    ensures
        lex_lt(a, b) || lex_lt(b, a) || a == b,
    decreases a.len(),
{
    if a.len() > 0 && b.len() > 0 && a[0] == b[0] {
        lemma_lex_lt_total(a.drop_first(), b.drop_first());
        if a.drop_first() == b.drop_first() {
            assert(a =~= seq![a[0]] + a.drop_first());
            assert(b =~= seq![b[0]] + b.drop_first());
        }
    } else if a.len() == 0 && b.len() == 0 {
        assert(a =~= b);
    }
}

/// Compares two byte strings lexicographically.
pub fn compare_bytes(a: &[u8], b: &[u8]) -> (r: KeyOrder)
    ensures
        r == lex_order(a@, b@),
{
    let n: usize = if a.len() < b.len() {
        a.len()
    } else {
        b.len()
    };
    let mut i: usize = 0;
    while i < n
        invariant
            i <= n,
            n <= a.len(),
            n <= b.len(),
            forall|j: int| 0 <= j < i ==> a@[j] == b@[j],
        decreases n - i,
    {
        if a[i] != b[i] {
            proof {
                lemma_lex_lt_skip(a@, b@, i as int);
                lemma_lex_lt_skip(b@, a@, i as int);
                lemma_lex_lt_asymmetric(a@, b@);
            }
            if a[i] < b[i] {
                return KeyOrder::Less;
            } else {
                return KeyOrder::Greater;
            }
        }
        i += 1;
    }
    proof {
        lemma_lex_lt_skip(a@, b@, n as int);
        lemma_lex_lt_skip(b@, a@, n as int);
    }
    if a.len() < b.len() {
        KeyOrder::Less
    } else if a.len() > b.len() {
        KeyOrder::Greater
    } else {
        assert(a@ =~= b@);
        proof {
            lemma_lex_lt_irreflexive(a@);
        }
        KeyOrder::Equal
    }
}

/// Whether two byte strings are equal.
pub fn bytes_eq(a: &[u8], b: &[u8]) -> (r: bool)
    ensures
        r == (a@ == b@),
{
    if a.len() != b.len() {
        return false;
    }
    let mut i: usize = 0;
    while i < a.len()
        invariant
            i <= a.len(),
            a.len() == b.len(),
            forall|j: int| 0 <= j < i ==> a@[j] == b@[j],
        decreases a.len() - i,
    {
        if a[i] != b[i] {
            return false;
        }
        i += 1;
    }
    assert(a@ =~= b@);
    true
}

/// Copies `data[start..end]` into a new vector.
pub fn copy_range(data: &[u8], start: usize, end: usize) -> (r: Vec<u8>)
    requires
        start <= end <= data.len(),
    ensures
        r@ == data@.subrange(start as int, end as int),
{
    let mut out: Vec<u8> = Vec::new();
    let mut i: usize = start;
    while i < end
        invariant
            start <= i <= end,
            end <= data.len(),
            out@ == data@.subrange(start as int, i as int),
        decreases end - i,
    {
        out.push(data[i]);
        assert(out@ =~= data@.subrange(start as int, i + 1));
        i += 1;
    }
    out
}

/// A copy of `data`.
pub fn clone_bytes(data: &[u8]) -> (r: Vec<u8>)
    ensures
        r@ == data@,
{
    let r: Vec<u8> = copy_range(data, 0, data.len());
    assert(r@ =~= data@);
    r
}

/// Appends `data` to `buf`.
pub fn append_bytes(buf: &mut Vec<u8>, data: &[u8])
    ensures
        final(buf)@ == old(buf)@ + data@,
{
    let mut i: usize = 0;
    assert(buf@ =~= old(buf)@ + data@.subrange(0, 0));
    while i < data.len()
        invariant
            i <= data.len(),
            buf@ == old(buf)@ + data@.subrange(0, i as int),
        decreases data.len() - i,
    {
        buf.push(data[i]);
        assert(buf@ =~= old(buf)@ + data@.subrange(0, i + 1));
        i += 1;
    }
    assert(data@.subrange(0, data.len() as int) =~= data@);
}

/// The four bytes of `x`, least significant first.
#[verifier::opaque]
pub open spec fn le32(x: u32) -> Seq<u8> {
    seq![
        (x & 0xff) as u8,
        ((x >> 8) & 0xff) as u8,
        ((x >> 16) & 0xff) as u8,
        ((x >> 24) & 0xff) as u8,
    ]
}

/// The number whose four bytes, least significant first, are `s[0..4]`.
pub open spec fn le32_decode(s: Seq<u8>) -> u32
    recommends
        s.len() >= 4,
{
    (s[0] as u32) | ((s[1] as u32) << 8) | ((s[2] as u32) << 16) | ((s[3] as u32) << 24)
}

/// The eight bytes of `x`, least significant first.
#[verifier::opaque]
pub open spec fn le64(x: u64) -> Seq<u8> {
    seq![
        (x & 0xff) as u8,
        ((x >> 8) & 0xff) as u8,
        ((x >> 16) & 0xff) as u8,
        ((x >> 24) & 0xff) as u8,
        ((x >> 32) & 0xff) as u8,
        ((x >> 40) & 0xff) as u8,
        ((x >> 48) & 0xff) as u8,
        ((x >> 56) & 0xff) as u8,
    ]
}

/// The number whose eight bytes, least significant first, are `s[0..8]`.
pub open spec fn le64_decode(s: Seq<u8>) -> u64
    recommends
        s.len() >= 8,
{
    (s[0] as u64) | ((s[1] as u64) << 8) | ((s[2] as u64) << 16) | ((s[3] as u64) << 24) | ((
    s[4] as u64) << 32) | ((s[5] as u64) << 40) | ((s[6] as u64) << 48) | ((s[7] as u64) << 56)
}

/// The eight bytes of `x`, most significant first.
#[verifier::opaque]
pub open spec fn be64(x: u64) -> Seq<u8> {
    seq![
        ((x >> 56) & 0xff) as u8,
        ((x >> 48) & 0xff) as u8,
        ((x >> 40) & 0xff) as u8,
        ((x >> 32) & 0xff) as u8,
        ((x >> 24) & 0xff) as u8,
        ((x >> 16) & 0xff) as u8,
        ((x >> 8) & 0xff) as u8,
        (x & 0xff) as u8,
    ]
}

/// The number whose eight bytes, most significant first, are `s[0..8]`.
pub open spec fn be64_decode(s: Seq<u8>) -> u64
    recommends
        s.len() >= 8,
{
    ((s[0] as u64) << 56) | ((s[1] as u64) << 48) | ((s[2] as u64) << 40) | ((s[3] as u64) << 32)
        | ((s[4] as u64) << 24) | ((s[5] as u64) << 16) | ((s[6] as u64) << 8) | (s[7] as u64)
}

/// Decoding the little-endian bytes of a 32-bit number gives the number back.
pub proof fn lemma_le32_roundtrip(x: u32)
    ensures
        le32(x).len() == 4,
        le32_decode(le32(x)) == x,
{
    reveal(le32);
    assert(((x & 0xff) as u8 as u32) | (((x >> 8) & 0xff) as u8 as u32) << 8 | (((x >> 16) & 0xff) as u8 as u32) << 16
        | (((x >> 24) & 0xff) as u8 as u32) << 24 == x) by (bit_vector);
}

/// Decoding the little-endian bytes of a 64-bit number gives the number back.
pub proof fn lemma_le64_roundtrip(x: u64)
    ensures
        le64(x).len() == 8,
        le64_decode(le64(x)) == x,
{
    reveal(le64);
    assert(((x & 0xff) as u8 as u64) | (((x >> 8) & 0xff) as u8 as u64) << 8 | (((x >> 16) & 0xff) as u8 as u64) << 16
        | (((x >> 24) & 0xff) as u8 as u64) << 24 | (((x >> 32) & 0xff) as u8 as u64) << 32 | (((x
        >> 40) & 0xff) as u8 as u64) << 40 | (((x >> 48) & 0xff) as u8 as u64) << 48 | (((x >> 56) & 0xff) as u8 as u64)
        << 56 == x) by (bit_vector);
}

/// Decoding the big-endian bytes of a 64-bit number gives the number back.
pub proof fn lemma_be64_roundtrip(x: u64)
    ensures
        be64(x).len() == 8,
        be64_decode(be64(x)) == x,
{
    reveal(be64);
    assert((((x >> 56) & 0xff) as u8 as u64) << 56 | (((x >> 48) & 0xff) as u8 as u64) << 48 | (((x >> 40) & 0xff) as u8 as u64)
        << 40 | (((x >> 32) & 0xff) as u8 as u64) << 32 | (((x >> 24) & 0xff) as u8 as u64) << 24 | (((x
        >> 16) & 0xff) as u8 as u64) << 16 | (((x >> 8) & 0xff) as u8 as u64) << 8 | ((x & 0xff) as u8 as u64)
        == x) by (bit_vector);
}

/// Encoding the number that eight big-endian bytes decode to gives the bytes back.
pub proof fn lemma_be64_decode_injective(s: Seq<u8>)
    requires
        s.len() == 8,
    ensures
        be64(be64_decode(s)) == s,
{
    reveal(be64);
    let (b0, b1, b2, b3, b4, b5, b6, b7) = (s[0], s[1], s[2], s[3], s[4], s[5], s[6], s[7]);
    let x: u64 = be64_decode(s);
    assert(x == ((b0 as u64) << 56) | ((b1 as u64) << 48) | ((b2 as u64) << 40) | ((b3 as u64) << 32)
        | ((b4 as u64) << 24) | ((b5 as u64) << 16) | ((b6 as u64) << 8) | (b7 as u64));
    assert(((x >> 56) & 0xff) as u8 == b0 && ((x >> 48) & 0xff) as u8 == b1 && ((x >> 40) & 0xff) as u8 == b2
        && ((x >> 32) & 0xff) as u8 == b3 && ((x >> 24) & 0xff) as u8 == b4 && ((x >> 16) & 0xff) as u8 == b5
        && ((x >> 8) & 0xff) as u8 == b6 && (x & 0xff) as u8 == b7) by (bit_vector)
        requires
            x == ((b0 as u64) << 56) | ((b1 as u64) << 48) | ((b2 as u64) << 40) | ((b3 as u64) << 32)
                | ((b4 as u64) << 24) | ((b5 as u64) << 16) | ((b6 as u64) << 8) | (b7 as u64),
    ;
    assert(be64(x) =~= s);
}

/// Appends the four little-endian bytes of `x` to `buf`.
pub fn put_u32_le(buf: &mut Vec<u8>, x: u32)
    ensures
        final(buf)@ == old(buf)@ + le32(x),
        final(buf)@.len() == old(buf)@.len() + 4,
{
    reveal(le32);
    buf.push((x & 0xff) as u8);
    buf.push(((x >> 8) & 0xff) as u8);
    buf.push(((x >> 16) & 0xff) as u8);
    buf.push(((x >> 24) & 0xff) as u8);
    assert(buf@ =~= old(buf)@ + le32(x));
}

/// Appends the eight little-endian bytes of `x` to `buf`.
pub fn put_u64_le(buf: &mut Vec<u8>, x: u64)
    ensures
        final(buf)@ == old(buf)@ + le64(x),
        final(buf)@.len() == old(buf)@.len() + 8,
{
    reveal(le64);
    buf.push((x & 0xff) as u8);
    buf.push(((x >> 8) & 0xff) as u8);
    buf.push(((x >> 16) & 0xff) as u8);
    buf.push(((x >> 24) & 0xff) as u8);
    buf.push(((x >> 32) & 0xff) as u8);
    buf.push(((x >> 40) & 0xff) as u8);
    buf.push(((x >> 48) & 0xff) as u8);
    buf.push(((x >> 56) & 0xff) as u8);
    assert(buf@ =~= old(buf)@ + le64(x));
}

/// Appends the eight big-endian bytes of `x` to `buf`.
pub fn put_u64_be(buf: &mut Vec<u8>, x: u64)
    ensures
        final(buf)@ == old(buf)@ + be64(x),
        final(buf)@.len() == old(buf)@.len() + 8,
{
    reveal(be64);
    buf.push(((x >> 56) & 0xff) as u8);
    buf.push(((x >> 48) & 0xff) as u8);
    buf.push(((x >> 40) & 0xff) as u8);
    buf.push(((x >> 32) & 0xff) as u8);
    buf.push(((x >> 24) & 0xff) as u8);
    buf.push(((x >> 16) & 0xff) as u8);
    buf.push(((x >> 8) & 0xff) as u8);
    buf.push((x & 0xff) as u8);
    assert(buf@ =~= old(buf)@ + be64(x));
}

/// Reads the little-endian 32-bit number at `data[pos..pos + 4]`.
pub fn get_u32_le(data: &[u8], pos: usize) -> (r: u32)
    requires
        pos + 4 <= data.len(),
    ensures
        r == le32_decode(data@.subrange(pos as int, pos + 4)),
{
    (data[pos] as u32) | ((data[pos + 1] as u32) << 8) | ((data[pos + 2] as u32) << 16) | ((
    data[pos + 3] as u32) << 24)
}

/// Reads the little-endian 64-bit number at `data[pos..pos + 8]`.
pub fn get_u64_le(data: &[u8], pos: usize) -> (r: u64)
    requires
        pos + 8 <= data.len(),
    ensures
        r == le64_decode(data@.subrange(pos as int, pos + 8)),
{
    (data[pos] as u64) | ((data[pos + 1] as u64) << 8) | ((data[pos + 2] as u64) << 16) | ((
    data[pos + 3] as u64) << 24) | ((data[pos + 4] as u64) << 32) | ((data[pos + 5] as u64) << 40)
        | ((data[pos + 6] as u64) << 48) | ((data[pos + 7] as u64) << 56)
}

/// Reads the big-endian 64-bit number at `data[pos..pos + 8]`.
pub fn get_u64_be(data: &[u8], pos: usize) -> (r: u64)
    requires
        pos + 8 <= data.len(),
    ensures
        r == be64_decode(data@.subrange(pos as int, pos + 8)),
{
    ((data[pos] as u64) << 56) | ((data[pos + 1] as u64) << 48) | ((data[pos + 2] as u64) << 40)
        | ((data[pos + 3] as u64) << 32) | ((data[pos + 4] as u64) << 24) | ((data[pos + 5] as u64)
        << 16) | ((data[pos + 6] as u64) << 8) | (data[pos + 7] as u64)
}

/// `a` is a beginning of `b` that is shorter than `b`.
pub open spec fn is_proper_prefix(a: Seq<u8>, b: Seq<u8>) -> bool {
    a.len() < b.len() && b.take(a.len() as int) == a
}

/// Of two different byte strings of which neither begins the other, the
/// order is decided before either ends: what follows them does not count.
pub proof fn lemma_lex_lt_append(a: Seq<u8>, b: Seq<u8>, x: Seq<u8>, y: Seq<u8>)
    requires
        a != b,
        !is_proper_prefix(a, b),
        !is_proper_prefix(b, a),
    ensures
        lex_lt(a + x, b + y) == lex_lt(a, b),
    decreases a.len(),
{
    if a.len() == 0 {
        assert(b.take(0) =~= a);
        assert(b.len() == 0);
        assert(a =~= b);
    } else if b.len() == 0 {
        assert(a.take(0) =~= b);
    } else {
        assert((a + x)[0] == a[0]);
        assert((b + y)[0] == b[0]);
        if a[0] == b[0] {
            let ta = a.drop_first();
            let tb = b.drop_first();
            assert((a + x).drop_first() =~= ta + x);
            assert((b + y).drop_first() =~= tb + y);
            if ta == tb {
                assert(a =~= seq![a[0]] + ta);
                assert(b =~= seq![b[0]] + tb);
            }
            if is_proper_prefix(ta, tb) {
                assert forall|j: int| 0 <= j < a.len() implies b.take(a.len() as int)[j] == a[j] by {
                    if j > 0 {
                        assert(tb.take(ta.len() as int)[j - 1] == ta[j - 1]);
                    }
                }
                assert(b.take(a.len() as int) =~= a);
            }
            if is_proper_prefix(tb, ta) {
                assert forall|j: int| 0 <= j < b.len() implies a.take(b.len() as int)[j] == b[j] by {
                    if j > 0 {
                        assert(ta.take(tb.len() as int)[j - 1] == tb[j - 1]);
                    }
                }
                assert(a.take(b.len() as int) =~= b);
            }
            lemma_lex_lt_append(ta, tb, x, y);
        }
    }
}

/// The big-endian bytes of 64-bit numbers stand in the order of the numbers.
pub proof fn lemma_be64_order(a: u64, b: u64)
    ensures
        lex_lt(be64(a), be64(b)) <==> a < b,
{
    reveal(be64);
    let s = be64(a);
    let t = be64(b);
    let (a0, a1, a2, a3, a4, a5, a6, a7) = (s[0], s[1], s[2], s[3], s[4], s[5], s[6], s[7]);
    let (b0, b1, b2, b3, b4, b5, b6, b7) = (t[0], t[1], t[2], t[3], t[4], t[5], t[6], t[7]);
    assert((a < b) <==> (a0 < b0 || (a0 == b0 && (a1 < b1 || (a1 == b1 && (a2 < b2 || (a2 == b2 && (a3
        < b3 || (a3 == b3 && (a4 < b4 || (a4 == b4 && (a5 < b5 || (a5 == b5 && (a6 < b6 || (a6 == b6
        && a7 < b7))))))))))))))) by (bit_vector)
        requires
            a0 == ((a >> 56) & 0xff) as u8,
            a1 == ((a >> 48) & 0xff) as u8,
            a2 == ((a >> 40) & 0xff) as u8,
            a3 == ((a >> 32) & 0xff) as u8,
            a4 == ((a >> 24) & 0xff) as u8,
            a5 == ((a >> 16) & 0xff) as u8,
            a6 == ((a >> 8) & 0xff) as u8,
            a7 == (a & 0xff) as u8,
            b0 == ((b >> 56) & 0xff) as u8,
            b1 == ((b >> 48) & 0xff) as u8,
            b2 == ((b >> 40) & 0xff) as u8,
            b3 == ((b >> 32) & 0xff) as u8,
            b4 == ((b >> 24) & 0xff) as u8,
            b5 == ((b >> 16) & 0xff) as u8,
            b6 == ((b >> 8) & 0xff) as u8,
            b7 == (b & 0xff) as u8,
    ;
    lemma_lex_lt_bytes8(s, t);
}

/// The order of two strings of eight bytes, byte by byte.
pub proof fn lemma_lex_lt_bytes8(s: Seq<u8>, t: Seq<u8>)
    requires
        s.len() == 8,
        t.len() == 8,
    ensures
        lex_lt(s, t) <==> (s[0] < t[0] || (s[0] == t[0] && (s[1] < t[1] || (s[1] == t[1] && (s[2] < t[2]
            || (s[2] == t[2] && (s[3] < t[3] || (s[3] == t[3] && (s[4] < t[4] || (s[4] == t[4] && (s[5]
            < t[5] || (s[5] == t[5] && (s[6] < t[6] || (s[6] == t[6] && s[7] < t[7])))))))))))))),
{
    let i: int = if s[0] != t[0] {
        0
    } else if s[1] != t[1] {
        1
    } else if s[2] != t[2] {
        2
    } else if s[3] != t[3] {
        3
    } else if s[4] != t[4] {
        4
    } else if s[5] != t[5] {
        5
    } else if s[6] != t[6] {
        6
    } else if s[7] != t[7] {
        7
    } else {
        8
    };
    lemma_lex_lt_skip(s, t, i);
    if i == 8 {
        assert(s.skip(8) =~= t.skip(8));
        lemma_lex_lt_irreflexive(s.skip(8));
    } else {
        assert(s.skip(i)[0] == s[i]);
        assert(t.skip(i)[0] == t[i]);
    }
}

} // verus!
