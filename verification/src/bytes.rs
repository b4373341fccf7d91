//! Byte-string order and fixed-width big-endian integers.
//!
//! Keys of the store are byte strings compared lexicographically; indices and
//! length deltas travel as four big-endian bytes, so that byte order on
//! element keys agrees with numeric order on indices.

use vstd::prelude::*;

verus! {

/// Strict lexicographic (dictionary) order on byte strings.
pub open spec fn lex_lt(a: Seq<u8>, b: Seq<u8>) -> bool
    decreases a.len(),
{
    if b.len() == 0 {
        false
    } else if a.len() == 0 {
        true
    } else if a[0] < b[0] {
        true
    } else if a[0] > b[0] {
        false
    } else {
        lex_lt(a.drop_first(), b.drop_first())
    }
}

/// Non-strict lexicographic order on byte strings.
pub open spec fn lex_le(a: Seq<u8>, b: Seq<u8>) -> bool {
    lex_lt(a, b) || a == b
}

pub proof fn lemma_lex_lt_irreflexive(a: Seq<u8>)
    ensures
        !lex_lt(a, a),
    decreases a.len(),
{
    if a.len() > 0 {
        lemma_lex_lt_irreflexive(a.drop_first());
    }
}

pub proof fn lemma_lex_lt_trichotomy(a: Seq<u8>, b: Seq<u8>)
    ensures
        lex_lt(a, b) || lex_lt(b, a) || a == b,
    decreases a.len(),
{
    if a.len() == 0 && b.len() == 0 {
        assert(a =~= b);
    } else if a.len() > 0 && b.len() > 0 && a[0] == b[0] {
        lemma_lex_lt_trichotomy(a.drop_first(), b.drop_first());
        if a.drop_first() == b.drop_first() {
            assert(a.drop_first().len() == a.len() - 1);
            assert(b.drop_first().len() == b.len() - 1);
            assert(a.len() == b.len());
            assert forall|j: int| 0 <= j < a.len() implies a[j] == b[j] by {
                if j >= 1 {
                    assert(a.drop_first()[j - 1] == b.drop_first()[j - 1]);
                }
            }
            assert(a =~= b);
        }
    }
}

pub proof fn lemma_lex_lt_transitive(a: Seq<u8>, b: Seq<u8>, c: Seq<u8>)
    requires
        lex_lt(a, b),
        lex_lt(b, c),
    ensures
        lex_lt(a, c),
    decreases a.len(),
{
    if a.len() > 0 {
        if a[0] == b[0] && b[0] == c[0] {
            lemma_lex_lt_transitive(a.drop_first(), b.drop_first(), c.drop_first());
        }
    }
}

pub proof fn lemma_lex_lt_asymmetric(a: Seq<u8>, b: Seq<u8>)
    requires
        lex_lt(a, b),
    ensures
        !lex_lt(b, a),
{
    if lex_lt(b, a) {
        lemma_lex_lt_transitive(a, b, a);
        lemma_lex_lt_irreflexive(a);
    }
}

/// When `a` and `b` agree on their first `i` bytes, their order is decided by
/// what remains.
pub proof fn lemma_lex_common_prefix(a: Seq<u8>, b: Seq<u8>, i: int)
    requires
        0 <= i <= a.len(),
        i <= b.len(),
        a.subrange(0, i) == b.subrange(0, i),
    ensures
        lex_lt(a, b) == lex_lt(a.skip(i), b.skip(i)),
    decreases i,
{
    if i == 0 {
        assert(a.skip(0) =~= a);
        assert(b.skip(0) =~= b);
    } else {
        assert(a[0] == b[0]) by {
            assert(a.subrange(0, i)[0] == a[0]);
            assert(b.subrange(0, i)[0] == b[0]);
        }
        assert(a.drop_first().subrange(0, i - 1) =~= b.drop_first().subrange(0, i - 1)) by {
            assert(forall|j: int|
                0 <= j < i - 1 ==> #[trigger] a.drop_first().subrange(0, i - 1)[j] == a.subrange(
                    0,
                    i,
                )[j + 1]);
            assert(forall|j: int|
                0 <= j < i - 1 ==> #[trigger] b.drop_first().subrange(0, i - 1)[j] == b.subrange(
                    0,
                    i,
                )[j + 1]);
        }
        lemma_lex_common_prefix(a.drop_first(), b.drop_first(), i - 1);
        assert(a.drop_first().skip(i - 1) =~= a.skip(i));
        assert(b.drop_first().skip(i - 1) =~= b.skip(i));
    }
}

/// A proper extension of a byte string sorts after it.
pub proof fn lemma_lex_lt_extension(p: Seq<u8>, s: Seq<u8>)
    requires
        s.len() > 0,
    ensures
        lex_lt(p, p + s),
    decreases p.len(),
{
    if p.len() == 0 {
        assert(p + s =~= s);
    } else {
        assert((p + s)[0] == p[0]);
        lemma_lex_lt_extension(p.drop_first(), s);
        assert((p + s).drop_first() =~= p.drop_first() + s);
    }
}

/// Prepending a common prefix does not change the order of two byte strings.
pub proof fn lemma_lex_lt_prepend(p: Seq<u8>, a: Seq<u8>, b: Seq<u8>)
    ensures
        lex_lt(p + a, p + b) == lex_lt(a, b),
    decreases p.len(),
{
    if p.len() == 0 {
        assert(p + a =~= a);
        assert(p + b =~= b);
    } else {
        assert((p + a)[0] == p[0]);
        assert((p + b)[0] == p[0]);
        lemma_lex_lt_prepend(p.drop_first(), a, b);
        assert((p + a).drop_first() =~= p.drop_first() + a);
        assert((p + b).drop_first() =~= p.drop_first() + b);
    }
}

/// Exec comparison: `a` sorts strictly before `b`.
pub fn lex_lt_bytes(a: &Vec<u8>, b: &Vec<u8>) -> (r: bool)
    ensures
        r == lex_lt(a@, b@),
{
    let alen = a.len();
    let blen = b.len();
    let n = if alen < blen {
        alen
    } else {
        blen
    };
    let mut i: usize = 0;
    while i < n
        invariant
            0 <= i <= n,
            n <= a@.len(),
            n <= b@.len(),
            n == if a@.len() < b@.len() {
                a@.len()
            } else {
                b@.len()
            },
            a@.subrange(0, i as int) == b@.subrange(0, i as int),
        decreases n - i,
    {
        let x = a[i];
        let y = b[i];
        if x < y {
            proof {
                lemma_lex_common_prefix(a@, b@, i as int);
            }
            return true;
        }
        if x > y {
            proof {
                lemma_lex_common_prefix(a@, b@, i as int);
            }
            return false;
        }
        proof {
            assert(a@.subrange(0, i + 1) =~= b@.subrange(0, i + 1));
        }
        i = i + 1;
    }
    proof {
        lemma_lex_common_prefix(a@, b@, n as int);
        if a@.len() == b@.len() {
            assert(a@ =~= a@.subrange(0, n as int));
            assert(b@ =~= b@.subrange(0, n as int));
            lemma_lex_lt_irreflexive(a@);
        }
    }
    alen < blen
}

/// Exec comparison: `a` sorts no later than `b`.
pub fn lex_le_bytes(a: &Vec<u8>, b: &Vec<u8>) -> (r: bool)
    ensures
        r == lex_le(a@, b@),
{
    let gt = lex_lt_bytes(b, a);
    proof {
        lemma_lex_lt_trichotomy(a@, b@);
        if lex_lt(a@, b@) {
            lemma_lex_lt_asymmetric(a@, b@);
        }
        if a@ == b@ {
            lemma_lex_lt_irreflexive(a@);
        }
    }
    !gt
}

/// Exec equality of byte strings.
pub fn bytes_eq(a: &Vec<u8>, b: &Vec<u8>) -> (r: bool)
    ensures
        r == (a@ == b@),
{
    if a.len() != b.len() {
        return false;
    }
    let mut i: usize = 0;
    while i < a.len()
        invariant
            0 <= i <= a@.len(),
            a@.len() == b@.len(),
            forall|j: int| 0 <= j < i ==> a@[j] == b@[j],
        decreases a@.len() - i,
    {
        if a[i] != b[i] {
            return false;
        }
        i = i + 1;
    }
    proof {
        assert(a@ =~= b@);
    }
    true
}

/// Exec copy of a byte string.
pub fn copy_bytes(v: &Vec<u8>) -> (r: Vec<u8>)
    ensures
        r@ == v@,
{
    let mut out: Vec<u8> = Vec::new();
    let mut i: usize = 0;
    while i < v.len()
        invariant
            0 <= i <= v@.len(),
            out@ == v@.take(i as int),
        decreases v@.len() - i,
    {
        out.push(v[i]);
        proof {
            assert(v@.take(i + 1) =~= v@.take(i as int).push(v@[i as int]));
        }
        i = i + 1;
    }
    proof {
        assert(v@.take(v@.len() as int) =~= v@);
    }
    out
}

/// The four big-endian bytes of a 32-bit value.
pub open spec fn be32(x: u32) -> Seq<u8> {
    seq![
        ((x >> 24u32) & 0xffu32) as u8,
        ((x >> 16u32) & 0xffu32) as u8,
        ((x >> 8u32) & 0xffu32) as u8,
        (x & 0xffu32) as u8,
    ]
}

/// The 32-bit value read from four big-endian bytes.
pub open spec fn u32_of_be(s: Seq<u8>) -> u32
    recommends
        s.len() == 4,
{
    (((s[0] as u32) << 24u32) | ((s[1] as u32) << 16u32) | ((s[2] as u32) << 8u32) | (
    s[3] as u32)) as u32
}

pub proof fn lemma_be32_roundtrip(x: u32)
    ensures
        u32_of_be(be32(x)) == x,
{
    assert(((((((x >> 24u32) & 0xffu32) as u8) as u32) << 24u32) | (((((x >> 16u32) & 0xffu32)
        as u8) as u32) << 16u32) | (((((x >> 8u32) & 0xffu32) as u8) as u32) << 8u32) | (((x
        & 0xffu32) as u8) as u32)) == x) by (bit_vector);
}

pub proof fn lemma_be32_injective(x: u32, y: u32)
    requires
        be32(x) == be32(y),
    ensures
        x == y,
{
    lemma_be32_roundtrip(x);
    lemma_be32_roundtrip(y);
}

/// Unfolds lexicographic order on four-byte strings.
pub proof fn lemma_lex_lt4(a: Seq<u8>, b: Seq<u8>)
    requires
        a.len() == 4,
        b.len() == 4,
    ensures
        lex_lt(a, b) <==> (a[0] < b[0] || (a[0] == b[0] && (a[1] < b[1] || (a[1] == b[1] && (a[2]
            < b[2] || (a[2] == b[2] && a[3] < b[3])))))),
{
    reveal_with_fuel(lex_lt, 6);
    let a1 = a.drop_first();
    let b1 = b.drop_first();
    let a2 = a1.drop_first();
    let b2 = b1.drop_first();
    let a3 = a2.drop_first();
    let b3 = b2.drop_first();
    assert(a3.len() == 1 && b3.len() == 1);
    assert(a1[0] == a[1] && a2[0] == a[2] && a3[0] == a[3]);
    assert(b1[0] == b[1] && b2[0] == b[2] && b3[0] == b[3]);
    assert(a3.drop_first().len() == 0 && b3.drop_first().len() == 0);
}

/// Big-endian encoding preserves numeric order.
pub proof fn lemma_be32_order(x: u32, y: u32)
    requires
        x < y,
    ensures
        lex_lt(be32(x), be32(y)),
{
    assert((((x >> 24u32) & 0xffu32) as u8) < (((y >> 24u32) & 0xffu32) as u8) || ((((x
        >> 24u32) & 0xffu32) as u8) == (((y >> 24u32) & 0xffu32) as u8) && ((((x >> 16u32)
        & 0xffu32) as u8) < (((y >> 16u32) & 0xffu32) as u8) || ((((x >> 16u32) & 0xffu32)
        as u8) == (((y >> 16u32) & 0xffu32) as u8) && ((((x >> 8u32) & 0xffu32) as u8) < (((y
        >> 8u32) & 0xffu32) as u8) || ((((x >> 8u32) & 0xffu32) as u8) == (((y >> 8u32)
        & 0xffu32) as u8) && ((x & 0xffu32) as u8) < ((y & 0xffu32) as u8))))))) by (bit_vector)
        requires
            x < y,
    ;
    lemma_lex_lt4(be32(x), be32(y));
}

/// Exec encoding of a 32-bit value as four big-endian bytes.
pub fn u32_to_be_bytes(x: u32) -> (r: Vec<u8>)
    ensures
        r@ == be32(x),
{
    let mut v: Vec<u8> = Vec::new();
    v.push(((x >> 24u32) & 0xffu32) as u8);
    v.push(((x >> 16u32) & 0xffu32) as u8);
    v.push(((x >> 8u32) & 0xffu32) as u8);
    v.push((x & 0xffu32) as u8);
    proof {
        assert(v@ =~= be32(x));
    }
    v
}

/// Exec decoding of four big-endian bytes; `start` says where they begin in `s`.
pub fn u32_from_be_bytes(s: &Vec<u8>, start: usize) -> (r: u32)
    requires
        start + 4 <= s@.len(),
    ensures
        r == u32_of_be(s@.subrange(start as int, start as int + 4)),
{
    let n = s.len();
    let b0 = s[start];
    let b1 = s[start + 1];
    let b2 = s[start + 2];
    let b3 = s[start + 3];
    let r = ((b0 as u32) << 24u32) | ((b1 as u32) << 16u32) | ((b2 as u32) << 8u32) | (b3 as u32);
    proof {
        let sub = s@.subrange(start as int, start as int + 4);
        assert(sub[0] == b0 && sub[1] == b1 && sub[2] == b2 && sub[3] == b3);
    }
    r
}

/// The unsigned 32-bit two's-complement image of a signed value.
pub open spec fn u32_repr(x: i32) -> u32 {
    if x >= 0 {
        x as u32
    } else {
        (x + 0x1_0000_0000int) as u32
    }
}

/// The signed value whose two's-complement image a 32-bit word is.
pub open spec fn i32_repr(x: u32) -> i32 {
    if x <= 0x7fff_ffffu32 {
        x as i32
    } else {
        (x - 0x1_0000_0000int) as i32
    }
}

pub fn i32_to_u32(x: i32) -> (r: u32)
    ensures
        r == u32_repr(x),
{
    if x >= 0 {
        x as u32
    } else {
        ((x as i64) + 0x1_0000_0000i64) as u32
    }
}

pub fn u32_to_i32(x: u32) -> (r: i32)
    ensures
        r == i32_repr(x),
{
    if x <= 0x7fff_ffff {
        x as i32
    } else {
        ((x as i64) - 0x1_0000_0000i64) as i32
    }
}

} // verus!
