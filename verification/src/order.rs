//! Byte-lexicographic order on byte strings, and the fixed-width big-endian
//! rendering of `u128` values whose byte order agrees with numeric order.
//! This is what lets an ordered keyspace serve range scans in rank order.

use vstd::prelude::*;

verus! {

/// Strict lexicographic order on byte strings: compare byte by byte; a proper
/// prefix sorts before every extension of it.
pub open spec fn lex_lt(a: Seq<u8>, b: Seq<u8>) -> bool
    decreases a.len(),
{
    if b.len() == 0 {
        false
    } else if a.len() == 0 {
        true
    } else if a[0] < b[0] {
        true
    } else if a[0] > b[0] {
        false
    } else {
        lex_lt(a.skip(1), b.skip(1))
    }
}

/// Non-strict lexicographic order.
pub open spec fn lex_le(a: Seq<u8>, b: Seq<u8>) -> bool {
    lex_lt(a, b) || a == b
}

pub proof fn lemma_lex_irrefl(a: Seq<u8>)
    ensures
        !lex_lt(a, a),
    decreases a.len(),
{
    if a.len() > 0 {
        lemma_lex_irrefl(a.skip(1));
    }
}

pub proof fn lemma_lex_asym(a: Seq<u8>, b: Seq<u8>)
    requires
        lex_lt(a, b),
    ensures
        !lex_lt(b, a),
    decreases a.len(),
{
    if a.len() > 0 && b.len() > 0 && a[0] == b[0] {
        lemma_lex_asym(a.skip(1), b.skip(1));
    }
}

pub proof fn lemma_lex_trans(a: Seq<u8>, b: Seq<u8>, c: Seq<u8>)
    requires
        lex_lt(a, b),
        lex_lt(b, c),
    ensures
        lex_lt(a, c),
    decreases a.len(),
{
    if a.len() > 0 && b.len() > 0 && c.len() > 0 && a[0] == b[0] && b[0] == c[0] {
        lemma_lex_trans(a.skip(1), b.skip(1), c.skip(1));
    }
}

/// Two byte strings are equal, or one sorts strictly before the other.
pub proof fn lemma_lex_total(a: Seq<u8>, b: Seq<u8>)
    ensures
        lex_lt(a, b) || lex_lt(b, a) || a == b,
    decreases a.len(),
{
    if a.len() > 0 && b.len() > 0 && a[0] == b[0] {
        lemma_lex_total(a.skip(1), b.skip(1));
        if a.skip(1) == b.skip(1) {
            assert(a =~= b) by {
                assert(forall|i: int|
                    1 <= i < a.len() ==> a[i] == a.skip(1)[i - 1] && b[i] == b.skip(1)[i - 1]);
            }
        }
    }
}

/// If the first `k` bytes agree and byte `k` is strictly smaller on the left,
/// the whole string sorts strictly before.
pub proof fn lemma_lex_from_diff(a: Seq<u8>, b: Seq<u8>, k: int)
    requires
        0 <= k < a.len(),
        k < b.len(),
        forall|j: int| 0 <= j < k ==> a[j] == b[j],
        a[k] < b[k],
    ensures
        lex_lt(a, b),
    decreases k,
{
    if k > 0 {
        lemma_lex_from_diff(a.skip(1), b.skip(1), k - 1);
    }
}

/// A prefix sorts no later than any extension, and strictly before a proper
/// extension.
pub proof fn lemma_lex_prefix(p: Seq<u8>, a: Seq<u8>)
    requires
        p.len() <= a.len(),
        p == a.take(p.len() as int),
    ensures
        !lex_lt(a, p),
        p.len() < a.len() ==> lex_lt(p, a),
        p.len() == a.len() ==> p == a,
    decreases p.len(),
{
    if p.len() == 0 {
        if a.len() == 0 {
            assert(p =~= a);
        }
    } else {
        assert(p[0] == a[0]) by {
            assert(p[0] == a.take(p.len() as int)[0]);
        }
        assert(p.skip(1) =~= a.skip(1).take(p.len() - 1)) by {
            assert(forall|i: int|
                0 <= i < p.len() - 1 ==> p.skip(1)[i] == p[i + 1] && a.skip(1)[i] == a[i + 1]);
        }
        lemma_lex_prefix(p.skip(1), a.skip(1));
        if p.len() == a.len() {
            assert(p =~= a) by {
                assert(forall|i: int|
                    1 <= i < p.len() ==> p[i] == p.skip(1)[i - 1] && a[i] == a.skip(1)[i - 1]);
            }
        }
    }
}

/// Comparing concatenations whose left parts have equal length splits into
/// comparing the left parts, then the right parts.
pub proof fn lemma_lex_concat(a1: Seq<u8>, b1: Seq<u8>, a2: Seq<u8>, b2: Seq<u8>)
    requires
        a1.len() == b1.len(),
    ensures
        lex_lt(a1 + a2, b1 + b2) == (lex_lt(a1, b1) || (a1 == b1 && lex_lt(a2, b2))),
    decreases a1.len(),
{
    if a1.len() == 0 {
        assert(a1 + a2 =~= a2);
        assert(b1 + b2 =~= b2);
        assert(a1 =~= b1);
    } else {
        assert((a1 + a2)[0] == a1[0]);
        assert((b1 + b2)[0] == b1[0]);
        assert((a1 + a2).skip(1) =~= a1.skip(1) + a2);
        assert((b1 + b2).skip(1) =~= b1.skip(1) + b2);
        lemma_lex_concat(a1.skip(1), b1.skip(1), a2, b2);
        if a1[0] == b1[0] {
            if a1.skip(1) == b1.skip(1) {
                assert(a1 =~= b1) by {
                    assert(forall|i: int|
                        1 <= i < a1.len()
                            ==> a1[i] == a1.skip(1)[i - 1] && b1[i] == b1.skip(1)[i - 1]);
                }
            }
            if a1 == b1 {
                assert(a1.skip(1) == b1.skip(1));
            }
        } else {
            assert(a1 != b1) by {
                assert(a1[0] != b1[0]);
            }
        }
    }
}

/// Exact byte-by-byte comparison, verified against `lex_lt`.
pub fn bytes_lt(a: &Vec<u8>, b: &Vec<u8>) -> (r: bool)
    ensures
        r == lex_lt(a@, b@),
{
    let mut i: usize = 0;
    while i < a.len() && i < b.len()
        invariant
            i <= a@.len(),
            i <= b@.len(),
            forall|j: int| 0 <= j < i ==> a@[j] == b@[j],
        decreases a@.len() - i,
    {
        let x = a[i];
        let y = b[i];
        if x < y {
            proof {
                lemma_lex_from_diff(a@, b@, i as int);
            }
            return true;
        }
        if x > y {
            proof {
                lemma_lex_from_diff(b@, a@, i as int);
                lemma_lex_asym(b@, a@);
            }
            return false;
        }
        i += 1;
    }
    if a.len() < b.len() {
        proof {
            assert(a@ =~= b@.take(a@.len() as int));
            lemma_lex_prefix(a@, b@);
        }
        true
    } else {
        proof {
            assert(b@ =~= a@.take(b@.len() as int));
            lemma_lex_prefix(b@, a@);
            if a@.len() == b@.len() {
                lemma_lex_irrefl(a@);
            }
        }
        false
    }
}

/// Byte `i` (most significant first) of the 16-byte big-endian rendering.
pub open spec fn be_byte(x: u128, i: int) -> u8 {
    (x >> ((8 * (15 - i)) as u128)) as u8
}

/// The 16-byte big-endian rendering of a `u128`.
pub open spec fn u128_be(x: u128) -> Seq<u8> {
    Seq::new(16, |i: int| be_byte(x, i))
}

/// The number formed by the topmost `k + 1` bytes; `-1` gives zero.
pub open spec fn be_hi(x: u128, k: int) -> u128 {
    if k < 0 {
        0
    } else {
        x >> ((8 * (15 - k)) as u128)
    }
}

proof fn lemma_u128_be_order_aux(x: u128, y: u128, k: int)
    requires
        0 <= k <= 15,
        x < y,
        forall|j: int| 0 <= j < k ==> be_byte(x, j) == be_byte(y, j),
        be_hi(x, k - 1) == be_hi(y, k - 1),
    ensures
        lex_lt(u128_be(x), u128_be(y)),
    decreases 15 - k,
{
    let s: u128 = (8 * (15 - k)) as u128;
    assert(s <= 120);
    assert((x >> s) <= (y >> s)) by (bit_vector)
        requires
            x <= y,
    ;
    if x >> s == y >> s {
        // The top k + 1 bytes agree as well; recurse one byte further down.
        assert(k < 15) by {
            assert(s == 0 ==> x >> s == x && y >> s == y) by (bit_vector);
        }
        assert(be_byte(x, k) == be_byte(y, k));
        lemma_u128_be_order_aux(x, y, k + 1);
    } else {
        // The first differing byte is byte k, and it is smaller on the x side.
        if k == 0 {
            assert(s == 120);
            assert((x >> s) < (y >> s) && s == 120 ==> ((x >> s) & 0xff) < ((y >> s) & 0xff))
                by (bit_vector);
        } else {
            assert((8 * (15 - (k - 1))) as u128 == s + 8);
            assert(be_hi(x, k - 1) == x >> (s + 8));
            assert(be_hi(y, k - 1) == y >> (s + 8));
            assert((s <= 112 && x >> (s + 8) == y >> (s + 8) && (x >> s) < (y >> s)) ==> ((x >> s)
                & 0xff) < ((y >> s) & 0xff)) by (bit_vector);
        }
        assert(((x >> s) & 0xff) < ((y >> s) & 0xff));
        assert(((x >> s) & 0xff) == ((x >> s) as u8) as u128) by (bit_vector);
        assert(((y >> s) & 0xff) == ((y >> s) as u8) as u128) by (bit_vector);
        assert(be_byte(x, k) < be_byte(y, k));
        lemma_lex_from_diff(u128_be(x), u128_be(y), k);
    }
}

/// Byte order of the big-endian rendering is exactly numeric order.
pub proof fn lemma_u128_be_order(x: u128, y: u128)
    ensures
        lex_lt(u128_be(x), u128_be(y)) <==> x < y,
{
    if x < y {
        lemma_u128_be_order_aux(x, y, 0);
    } else if x == y {
        lemma_lex_irrefl(u128_be(x));
    } else {
        lemma_u128_be_order_aux(y, x, 0);
        lemma_lex_asym(u128_be(y), u128_be(x));
    }
}

/// The big-endian rendering is injective.
pub proof fn lemma_u128_be_inj(x: u128, y: u128)
    requires
        u128_be(x) == u128_be(y),
    ensures
        x == y,
{
    lemma_u128_be_order(x, y);
    lemma_u128_be_order(y, x);
    lemma_lex_irrefl(u128_be(x));
}

/// Exact big-endian rendering of a `u128`, verified against `u128_be`.
pub fn u128_to_be(x: u128) -> (r: Vec<u8>)
    ensures
        r@ == u128_be(x),
{
    let mut r: Vec<u8> = Vec::new();
    let mut i: usize = 0;
    while i < 16
        invariant
            i <= 16,
            r@.len() == i,
            forall|j: int| 0 <= j < i ==> r@[j] == be_byte(x, j),
        decreases 16 - i,
    {
        let sh: u128 = ((15 - i) * 8) as u128;
        let b: u8 = #[verifier::truncate] ((x >> sh) as u8);
        proof {
            assert(sh == (8 * (15 - i as int)) as u128);
        }
        r.push(b);
        i += 1;
    }
    proof {
        assert(r@ =~= u128_be(x));
    }
    r
}

} // verus!
