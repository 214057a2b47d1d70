//! FNV-1a over byte strings.
//!
//! The hash is deliberately simple and fast. It detects torn and corrupt
//! writes; it gives no cryptographic authenticity.

use vstd::prelude::*;

verus! {

/// The value the hash starts from.
pub const FNV_OFFSET: u64 = 0xcbf2_9ce4_8422_2325;

/// The factor of one hashing step.
pub const FNV_PRIME: u64 = 0x0000_0100_0000_01b3;

/// One hashing step.
pub open spec fn fnv_step(h: u64, byte: u8) -> u64 {
    vstd::wrapping::u64_specs::wrapping_mul(h ^ (byte as u64), FNV_PRIME)
}

/// The hash of `s`, begun at `h`.
pub open spec fn fnv_from(h: u64, s: Seq<u8>) -> u64
    decreases s.len(),
{
    if s.len() == 0 {
        h
    } else {
        fnv_step(fnv_from(h, s.drop_last()), s.last())
    }
}

/// The FNV-1a hash of `s`.
pub open spec fn fnv1a(s: Seq<u8>) -> u64 {
    fnv_from(FNV_OFFSET, s)
}

/// Continues a hash over `s`.
fn resume(h: u64, s: &[u8]) -> (r: u64)
    ensures
        r == fnv_from(h, s@),
{
    let mut r: u64 = h;
    let mut i: usize = 0;
    while i < s.len()
        invariant
            i <= s@.len(),
            r == fnv_from(h, s@.take(i as int)),
        decreases s@.len() - i,
    {
        assert(s@.take(i + 1).drop_last() =~= s@.take(i as int));
        r = (r ^ (s[i] as u64)).wrapping_mul(FNV_PRIME);
        i = i + 1;
    }
    assert(s@.take(i as int) =~= s@);
    r
}

/// The FNV-1a hash of a byte string.
pub fn hash(bytes: &[u8]) -> (r: u64)
    ensures
        r == fnv1a(bytes@),
{
    resume(FNV_OFFSET, bytes)
}

/// The hash under which an entry of a bucket is filed: both parts, with a
/// separator step in between.
pub fn pair_hash(bucket: &[u8], key: &[u8]) -> (r: u64)
    ensures
        r == fnv_from(fnv_step(fnv1a(bucket@), 0xff), key@),
{
    let combined: u64 = (hash(bucket) ^ 0xff).wrapping_mul(FNV_PRIME);
    resume(combined, key)
}

/// Hashing a concatenation is hashing the second part from where the first
/// left off.
pub proof fn law_hash_resumes(h: u64, a: Seq<u8>, b: Seq<u8>)
    ensures
        fnv_from(h, a + b) == fnv_from(fnv_from(h, a), b),
    decreases b.len(),
{
    if b.len() == 0 {
        assert(a + b =~= a);
    } else {
        law_hash_resumes(h, a, b.drop_last());
        assert((a + b).drop_last() =~= a + b.drop_last());
    }
}

/// The factor of a hashing step has an inverse: no two numbers have the same
/// product with it.
proof fn lemma_factor_is_injective(a: u64, b: u64)
    requires
        vstd::wrapping::u64_specs::wrapping_mul(a, FNV_PRIME)
            == vstd::wrapping::u64_specs::wrapping_mul(b, FNV_PRIME),
    ensures
        a == b,
{
    let m: int = 0x1_0000_0000_0000_0000;
    let p = FNV_PRIME as int;
    let inverse: int = 0xce96_5057_aff6_957b;
    let over: int = 887_285_111_055;
    let x = a as int * p;
    let y = b as int * p;
    vstd::arithmetic::div_mod::lemma_fundamental_div_mod(x, m);
    vstd::arithmetic::div_mod::lemma_fundamental_div_mod(y, m);
    let q = x / m - y / m;
    let d = a as int - b as int;
    assert(x >= 0 && y >= 0) by (nonlinear_arith)
        requires
            x == a as int * p,
            y == b as int * p,
            p >= 0,
    ;
    assert(x % m == y % m);
    assert(d * p == m * q) by (nonlinear_arith)
        requires
            x == m * (x / m) + x % m,
            y == m * (y / m) + y % m,
            x % m == y % m,
            q == x / m - y / m,
            x == a as int * p,
            y == b as int * p,
            d == a as int - b as int,
    ;
    assert(p * inverse == 1 + over * m);
    assert((d * p) * inverse == d * (p * inverse)) by (nonlinear_arith);
    assert(d * (1 + over * m) == d + m * (d * over)) by (nonlinear_arith);
    assert((m * q) * inverse == m * (q * inverse)) by (nonlinear_arith);
    let z = q * inverse - d * over;
    assert(m * (q * inverse) - m * (d * over) == m * z) by (nonlinear_arith)
        requires
            z == q * inverse - d * over,
    ;
    assert(d == m * z);
    assert(z == 0) by (nonlinear_arith)
        requires
            d == m * z,
            -m < d < m,
            m > 0,
    ;
}

/// A changed byte changes the hash.
pub proof fn law_one_byte_changes_the_hash(h: u64, s: Seq<u8>, i: int, byte: u8)
    requires
        0 <= i < s.len(),
        byte != s[i],
    ensures
        fnv_from(h, s.update(i, byte)) != fnv_from(h, s),
    decreases s.len(),
{
    let t = s.update(i, byte);
    let front = s.drop_last();
    let x = fnv_from(h, front);
    let y = fnv_from(h, t.drop_last());
    let a = s.last();
    let b = t.last();
    if i == s.len() - 1 {
        assert(t.drop_last() =~= front);
        assert(x ^ (a as u64) != x ^ (b as u64)) by (bit_vector)
            requires
                a != b,
        ;
    } else {
        law_one_byte_changes_the_hash(h, front, i, byte);
        assert(t.drop_last() =~= front.update(i, byte));
        assert(x ^ (a as u64) != y ^ (a as u64)) by (bit_vector)
            requires
                x != y,
        ;
    }
    if fnv_from(h, t) == fnv_from(h, s) {
        lemma_factor_is_injective(y ^ (b as u64), x ^ (a as u64));
    }
}

} // verus!
