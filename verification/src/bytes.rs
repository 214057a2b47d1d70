//! Byte strings: integers in both byte orders, lexicographic order, prefixes.

use vstd::prelude::*;
use vstd::slice::slice_subrange;

verus! {

/// `256` to the power `n`.
pub open spec fn pow256(n: nat) -> nat
    decreases n,
{
    if n == 0 {
        1
    } else {
        256 * pow256((n - 1) as nat)
    }
}

/// The number that `s` spells in little-endian byte order.
pub open spec fn le_nat(s: Seq<u8>) -> nat
    decreases s.len(),
{
    if s.len() == 0 {
        0
    } else {
        s[0] as nat + 256 * le_nat(s.drop_first())
    }
}

/// The `n` low bytes of `x`, least significant first.
pub open spec fn le_of(x: nat, n: nat) -> Seq<u8>
    decreases n,
{
    if n == 0 {
        Seq::empty()
    } else {
        seq![(x % 256) as u8] + le_of(x / 256, (n - 1) as nat)
    }
}

/// The number that `s` spells in big-endian byte order.
pub open spec fn be_nat(s: Seq<u8>) -> nat
    decreases s.len(),
{
    if s.len() == 0 {
        0
    } else {
        256 * be_nat(s.drop_last()) + s.last() as nat
    }
}

/// The `n` low bytes of `x`, most significant first.
pub open spec fn be_of(x: nat, n: nat) -> Seq<u8>
    decreases n,
{
    if n == 0 {
        Seq::empty()
    } else {
        be_of(x / 256, (n - 1) as nat).push((x % 256) as u8)
    }
}

/// The powers of 256 that the fixed-width integers need.
pub proof fn lemma_pow256_widths()
    ensures
        pow256(2) == 0x1_0000,
        pow256(4) == 0x1_0000_0000,
        pow256(8) == 0x1_0000_0000_0000_0000,
{
    assert(pow256(0) == 1);
    assert(pow256(1) == 0x100);
    assert(pow256(2) == 0x1_0000);
    assert(pow256(3) == 0x100_0000);
    assert(pow256(4) == 0x1_0000_0000);
    assert(pow256(5) == 0x100_0000_0000);
    assert(pow256(6) == 0x1_0000_0000_0000);
    assert(pow256(7) == 0x100_0000_0000_0000);
}

pub proof fn lemma_le_of_len(x: nat, n: nat)
    ensures
        le_of(x, n).len() == n,
    decreases n,
{
    if n > 0 {
        lemma_le_of_len(x / 256, (n - 1) as nat);
    }
}

pub proof fn lemma_be_of_len(x: nat, n: nat)
    ensures
        be_of(x, n).len() == n,
    decreases n,
{
    if n > 0 {
        lemma_be_of_len(x / 256, (n - 1) as nat);
    }
}

/// Little-endian bytes read back as the number they were made of.
pub proof fn lemma_le_round_trip(x: nat, n: nat)
    requires
        x < pow256(n),
    ensures
        le_of(x, n).len() == n,
        le_nat(le_of(x, n)) == x,
    decreases n,
{
    if n > 0 {
        lemma_le_round_trip(x / 256, (n - 1) as nat);
        let tail = le_of(x / 256, (n - 1) as nat);
        assert(le_of(x, n).drop_first() =~= tail);
    }
}

/// Big-endian bytes read back as the number they were made of.
pub proof fn lemma_be_round_trip(x: nat, n: nat)
    requires
        x < pow256(n),
    ensures
        be_of(x, n).len() == n,
        be_nat(be_of(x, n)) == x,
    decreases n,
{
    if n > 0 {
        lemma_be_round_trip(x / 256, (n - 1) as nat);
        let head = be_of(x / 256, (n - 1) as nat);
        assert(be_of(x, n).drop_last() =~= head);
    }
}

/// Every byte string is the little-endian form of the number it spells.
pub proof fn lemma_le_inverse(s: Seq<u8>)
    ensures
        le_nat(s) < pow256(s.len()),
        le_of(le_nat(s), s.len()) == s,
    decreases s.len(),
{
    if s.len() > 0 {
        lemma_le_inverse(s.drop_first());
        assert(le_of(le_nat(s), s.len()) =~= s);
    }
}

/// Every byte string is the big-endian form of the number it spells.
pub proof fn lemma_be_inverse(s: Seq<u8>)
    ensures
        be_nat(s) < pow256(s.len()),
        be_of(be_nat(s), s.len()) == s,
    decreases s.len(),
{
    if s.len() > 0 {
        lemma_be_inverse(s.drop_last());
        assert(be_of(be_nat(s), s.len()) =~= s);
    }
}

/// The value that `n` bytes of `s` at `at` spell, least significant first.
pub open spec fn le_at(s: Seq<u8>, at: int, n: int) -> nat {
    le_nat(s.subrange(at, at + n))
}

/// The value that `n` bytes of `s` at `at` spell, most significant first.
pub open spec fn be_at(s: Seq<u8>, at: int, n: int) -> nat {
    be_nat(s.subrange(at, at + n))
}

/// Whether `b` stands at the offset `at` of a file.
pub open spec fn stands_at(image: Seq<u8>, at: int, b: Seq<u8>) -> bool {
    0 <= at && at + b.len() <= image.len() && image.subrange(at, at + b.len()) == b
}

pub proof fn lemma_pow256_monotonic(a: nat, b: nat)
    requires
        a <= b,
    ensures
        0 < pow256(a) <= pow256(b),
    decreases b,
{
    if a < b {
        lemma_pow256_monotonic(a, (b - 1) as nat);
    } else if a > 0 {
        lemma_pow256_monotonic((a - 1) as nat, (b - 1) as nat);
    }
}

/// A field that was written little-endian reads back as its number.
pub proof fn lemma_le_field(s: Seq<u8>, at: int, x: nat, n: nat)
    requires
        0 <= at <= at + n <= s.len(),
        s.subrange(at, at + n) == le_of(x, n),
        x < pow256(n),
    ensures
        le_at(s, at, n as int) == x,
{
    lemma_le_round_trip(x, n);
}

/// A field that was written big-endian reads back as its number.
pub proof fn lemma_be_field(s: Seq<u8>, at: int, x: nat, n: nat)
    requires
        0 <= at <= at + n <= s.len(),
        s.subrange(at, at + n) == be_of(x, n),
        x < pow256(n),
    ensures
        be_at(s, at, n as int) == x,
{
    lemma_be_round_trip(x, n);
}

/// Reads a little-endian number of up to eight bytes.
fn read_le(s: &[u8], at: usize, n: usize) -> (r: u64)
    requires
        n <= 8,
        at + n <= s@.len(),
    ensures
        r == le_at(s@, at as int, n as int),
{
    let end: usize = s.len();
    let mut r: u64 = 0;
    let mut i: usize = n;
    proof {
        assert(s@.subrange(at + n, at + n).len() == 0);
    }
    while i > 0
        invariant
            i <= n <= 8,
            at + n <= s@.len() == end,
            r == le_nat(s@.subrange(at + i, at + n)),
        decreases i,
    {
        i = i - 1;
        proof {
            let whole = s@.subrange(at + i, at + n);
            assert(whole.drop_first() =~= s@.subrange(at + i + 1, at + n));
            lemma_le_inverse(whole);
            lemma_pow256_monotonic(whole.len(), 8);
            lemma_pow256_widths();
        }
        r = r * 256 + s[at + i] as u64;
    }
    r
}

/// Reads a big-endian number of up to eight bytes.
fn read_be(s: &[u8], at: usize, n: usize) -> (r: u64)
    requires
        n <= 8,
        at + n <= s@.len(),
    ensures
        r == be_at(s@, at as int, n as int),
{
    let end: usize = s.len();
    let mut r: u64 = 0;
    let mut i: usize = 0;
    proof {
        assert(s@.subrange(at as int, at as int).len() == 0);
    }
    while i < n
        invariant
            i <= n <= 8,
            at + n <= s@.len() == end,
            r == be_nat(s@.subrange(at as int, at + i)),
        decreases n - i,
    {
        proof {
            let whole = s@.subrange(at as int, at + i + 1);
            assert(whole.drop_last() =~= s@.subrange(at as int, at + i));
            lemma_be_inverse(whole);
            lemma_pow256_monotonic(whole.len(), 8);
            lemma_pow256_widths();
        }
        r = r * 256 + s[at + i] as u64;
        i = i + 1;
    }
    r
}

/// Reads the little-endian `u32` at `at`.
pub fn u32_le_at(s: &[u8], at: usize) -> (r: u32)
    requires
        at + 4 <= s@.len(),
    ensures
        r == le_at(s@, at as int, 4),
{
    let r: u64 = read_le(s, at, 4);
    proof {
        lemma_le_inverse(s@.subrange(at as int, at + 4));
        lemma_pow256_widths();
    }
    r as u32
}

/// Reads the little-endian `u64` at `at`.
pub fn u64_le_at(s: &[u8], at: usize) -> (r: u64)
    requires
        at + 8 <= s@.len(),
    ensures
        r == le_at(s@, at as int, 8),
{
    read_le(s, at, 8)
}

/// Reads the big-endian `u16` at `at`.
pub fn u16_be_at(s: &[u8], at: usize) -> (r: u16)
    requires
        at + 2 <= s@.len(),
    ensures
        r == be_at(s@, at as int, 2),
{
    let r: u64 = read_be(s, at, 2);
    proof {
        lemma_be_inverse(s@.subrange(at as int, at + 2));
        lemma_pow256_widths();
    }
    r as u16
}

/// Reads the big-endian `u32` at `at`.
pub fn u32_be_at(s: &[u8], at: usize) -> (r: u32)
    requires
        at + 4 <= s@.len(),
    ensures
        r == be_at(s@, at as int, 4),
{
    let r: u64 = read_be(s, at, 4);
    proof {
        lemma_be_inverse(s@.subrange(at as int, at + 4));
        lemma_pow256_widths();
    }
    r as u32
}

/// Reads the big-endian `u64` at `at`.
pub fn u64_be_at(s: &[u8], at: usize) -> (r: u64)
    requires
        at + 8 <= s@.len(),
    ensures
        r == be_at(s@, at as int, 8),
{
    read_be(s, at, 8)
}

/// Appends the `n` low bytes of `x`, least significant first.
fn push_le(out: &mut Vec<u8>, x: u64, n: usize)
    ensures
        final(out)@ == old(out)@ + le_of(x as nat, n as nat),
{
    let mut left: u64 = x;
    let mut i: usize = 0;
    let ghost start = out@;
    while i < n
        invariant
            i <= n,
            start + le_of(x as nat, n as nat) == out@ + le_of(left as nat, (n - i) as nat),
        decreases n - i,
    {
        let ghost before = out@;
        let ghost was = left;
        out.push((left % 256) as u8);
        left = left / 256;
        i = i + 1;
        proof {
            let tail = le_of(left as nat, (n - i) as nat);
            assert(le_of(was as nat, (n - i + 1) as nat) == seq![(was % 256) as u8] + tail);
            assert(before + (seq![(was % 256) as u8] + tail) =~= out@ + tail);
        }
    }
    assert(out@ + le_of(left as nat, 0) =~= out@);
}

/// Appends the `n` low bytes of `x`, most significant first.
fn push_be(out: &mut Vec<u8>, x: u64, n: usize)
    requires
        n <= 8,
    ensures
        final(out)@ == old(out)@ + be_of(x as nat, n as nat),
    decreases n,
{
    if n == 0 {
        assert(out@ + be_of(x as nat, 0) =~= out@);
        return ;
    }
    let ghost start = out@;
    push_be(out, x / 256, n - 1);
    let ghost mid = out@;
    out.push((x % 256) as u8);
    proof {
        let head = be_of((x / 256) as nat, (n - 1) as nat);
        assert(mid == start + head);
        assert(out@ =~= start + head.push((x % 256) as u8));
    }
}

pub fn push_u32_le(out: &mut Vec<u8>, x: u32)
    ensures
        final(out)@ == old(out)@ + le_of(x as nat, 4),
{
    push_le(out, x as u64, 4)
}

pub fn push_u64_le(out: &mut Vec<u8>, x: u64)
    ensures
        final(out)@ == old(out)@ + le_of(x as nat, 8),
{
    push_le(out, x, 8)
}

pub fn push_u16_be(out: &mut Vec<u8>, x: u16)
    ensures
        final(out)@ == old(out)@ + be_of(x as nat, 2),
{
    push_be(out, x as u64, 2)
}

pub fn push_u32_be(out: &mut Vec<u8>, x: u32)
    ensures
        final(out)@ == old(out)@ + be_of(x as nat, 4),
{
    push_be(out, x as u64, 4)
}

pub fn push_u64_be(out: &mut Vec<u8>, x: u64)
    ensures
        final(out)@ == old(out)@ + be_of(x as nat, 8),
{
    push_be(out, x, 8)
}

/// Appends a byte string.
pub fn append(out: &mut Vec<u8>, s: &[u8])
    ensures
        final(out)@ == old(out)@ + s@,
{
    out.extend_from_slice(s);
    assert(out@ =~= old(out)@ + s@);
}

/// An owned copy of a byte string.
pub fn owned(s: &[u8]) -> (r: Vec<u8>)
    ensures
        r@ == s@,
{
    vstd::slice::slice_to_vec(s)
}

/// `n` zero bytes.
pub open spec fn zeros(n: nat) -> Seq<u8> {
    Seq::new(n, |i: int| 0u8)
}

/// Whether `a` comes strictly before `b` in lexicographic byte order.
pub open spec fn lex_lt(a: Seq<u8>, b: Seq<u8>) -> bool
    decreases a.len(),
{
    if b.len() == 0 {
        false
    } else if a.len() == 0 {
        true
    } else if a[0] != b[0] {
        a[0] < b[0]
    } else {
        lex_lt(a.drop_first(), b.drop_first())
    }
}

/// Whether `a` comes before `b` in lexicographic byte order, or is `b`.
pub open spec fn lex_le(a: Seq<u8>, b: Seq<u8>) -> bool {
    a == b || lex_lt(a, b)
}

/// Two byte strings are in the order that beginnings of theirs are in.
pub proof fn lemma_lex_extends(a: Seq<u8>, b: Seq<u8>, n: int)
    requires
        0 <= n <= a.len(),
        n <= b.len(),
        lex_lt(a.take(n), b.take(n)),
    ensures
        lex_lt(a, b),
    decreases n,
{
    if n > 0 {
        if a[0] == b[0] {
            assert(a.take(n).drop_first() =~= a.drop_first().take(n - 1));
            assert(b.take(n).drop_first() =~= b.drop_first().take(n - 1));
            lemma_lex_extends(a.drop_first(), b.drop_first(), n - 1);
        }
    }
}

pub proof fn lemma_lex_irreflexive(a: Seq<u8>)
    ensures
        !lex_lt(a, a),
    decreases a.len(),
{
    if a.len() > 0 {
        lemma_lex_irreflexive(a.drop_first());
    }
}

pub proof fn lemma_lex_transitive(a: Seq<u8>, b: Seq<u8>, c: Seq<u8>)
    requires
        lex_lt(a, b),
        lex_lt(b, c),
    ensures
        lex_lt(a, c),
    decreases a.len(),
{
    if a.len() > 0 && a[0] == b[0] && b[0] == c[0] {
        lemma_lex_transitive(a.drop_first(), b.drop_first(), c.drop_first());
    }
}

/// Of two byte strings exactly one comes first, or they are the same.
pub proof fn lemma_lex_total(a: Seq<u8>, b: Seq<u8>)
    ensures
        lex_lt(a, b) || a == b || lex_lt(b, a),
        !(lex_lt(a, b) && lex_lt(b, a)),
        a == b ==> !lex_lt(a, b),
    decreases a.len(),
{
    if a.len() > 0 && b.len() > 0 {
        lemma_lex_total(a.drop_first(), b.drop_first());
        if a[0] == b[0] && a.drop_first() == b.drop_first() {
            assert(a =~= seq![a[0]] + a.drop_first());
            assert(b =~= seq![b[0]] + b.drop_first());
        }
    } else {
        if a.len() == 0 && b.len() == 0 {
            assert(a =~= b);
        }
    }
    lemma_lex_irreflexive(a);
}

/// A common prefix does not change the order.
pub proof fn lemma_lex_common_prefix(p: Seq<u8>, a: Seq<u8>, b: Seq<u8>)
    ensures
        lex_lt(p + a, p + b) == lex_lt(a, b),
    decreases p.len(),
{
    if p.len() == 0 {
        assert(p + a =~= a);
        assert(p + b =~= b);
    } else {
        lemma_lex_common_prefix(p.drop_first(), a, b);
        assert((p + a).drop_first() =~= p.drop_first() + a);
        assert((p + b).drop_first() =~= p.drop_first() + b);
    }
}

/// Big-endian numbers of one width are in the order of their bytes.
pub proof fn lemma_be_order(a: Seq<u8>, b: Seq<u8>)
    requires
        a.len() == b.len(),
    ensures
        lex_lt(a, b) <==> be_nat(a) < be_nat(b),
    decreases a.len(),
{
    if a.len() > 0 {
        lemma_be_first(a);
        lemma_be_first(b);
        lemma_be_order(a.drop_first(), b.drop_first());
        lemma_be_inverse(a.drop_first());
        lemma_be_inverse(b.drop_first());
        let p = pow256((a.len() - 1) as nat);
        let x = a[0] as int;
        let y = b[0] as int;
        if x < y {
            assert(p * x + p <= p * y) by (nonlinear_arith)
                requires
                    x + 1 <= y,
                    0 <= p,
            ;
        } else if y < x {
            assert(p * y + p <= p * x) by (nonlinear_arith)
                requires
                    y + 1 <= x,
                    0 <= p,
            ;
        }
    }
}

/// The first byte of a big-endian number is its most significant one.
pub proof fn lemma_be_first(s: Seq<u8>)
    requires
        s.len() > 0,
    ensures
        be_nat(s) == pow256((s.len() - 1) as nat) * (s[0] as int) + be_nat(s.drop_first()),
    decreases s.len(),
{
    if s.len() == 1 {
        assert(s.drop_last() =~= Seq::<u8>::empty());
        assert(be_nat(s.drop_last()) == 0);
        assert(s.drop_first() =~= Seq::<u8>::empty());
        assert(be_nat(s.drop_first()) == 0);
        let x = s[0] as int;
        assert(pow256(0) == 1);
        assert(1 * x == x);
    } else {
        lemma_be_first(s.drop_last());
        assert(s.drop_last().drop_first() =~= s.drop_first().drop_last());
        let p = pow256((s.len() - 2) as nat);
        let x = s[0] as int;
        assert(256 * (p * x) == (256 * p) * x) by (nonlinear_arith);
        let y = be_nat(s.drop_last().drop_first()) as int;
        assert(pow256((s.len() - 1) as nat) == 256 * p);
        assert(be_nat(s.drop_last()) == p * x + y);
        assert(be_nat(s.drop_first()) == 256 * y + s.last());
    }
}

/// The outcome of comparing two byte strings.
#[derive(Clone, Copy, Debug, PartialEq, Eq, Structural)]
pub enum Order {
    Less,
    Equal,
    Greater,
}

/// How `a` stands to `b` in lexicographic byte order.
pub open spec fn order_of(a: Seq<u8>, b: Seq<u8>) -> Order {
    if a == b {
        Order::Equal
    } else if lex_lt(a, b) {
        Order::Less
    } else {
        Order::Greater
    }
}

/// Compares two byte strings.
pub fn order(a: &[u8], b: &[u8]) -> (r: Order)
    ensures
        r == order_of(a@, b@),
{
    let mut i: usize = 0;
    proof {
        assert(a@.skip(0) =~= a@);
        assert(b@.skip(0) =~= b@);
    }
    while i < a.len() && i < b.len()
        invariant
            i <= a@.len(),
            i <= b@.len(),
            a@.take(i as int) == b@.take(i as int),
            lex_lt(a@, b@) == lex_lt(a@.skip(i as int), b@.skip(i as int)),
        decreases a@.len() - i,
    {
        proof {
            let x = a@.skip(i as int);
            let y = b@.skip(i as int);
            assert(x[0] == a@[i as int]);
            assert(y[0] == b@[i as int]);
            assert(x.drop_first() =~= a@.skip(i + 1));
            assert(y.drop_first() =~= b@.skip(i + 1));
            assert(a@.take(i + 1) =~= a@.take(i as int).push(a@[i as int]));
            assert(b@.take(i + 1) =~= b@.take(i as int).push(b@[i as int]));
        }
        if a[i] < b[i] {
            return Order::Less;
        }
        if b[i] < a[i] {
            return Order::Greater;
        }
        i = i + 1;
    }
    proof {
        assert(a@.skip(i as int).len() == a@.len() - i);
        assert(b@.skip(i as int).len() == b@.len() - i);
        if a@.len() == b@.len() {
            assert(a@.take(i as int) =~= a@);
            assert(b@.take(i as int) =~= b@);
        }
    }
    if a.len() < b.len() {
        Order::Less
    } else if b.len() < a.len() {
        Order::Greater
    } else {
        Order::Equal
    }
}

/// Whether `a` comes strictly before `b`.
pub fn less(a: &[u8], b: &[u8]) -> (r: bool)
    ensures
        r == lex_lt(a@, b@),
{
    proof {
        lemma_lex_total(a@, b@);
    }
    match order(a, b) {
        Order::Less => true,
        _ => false,
    }
}

/// Whether two byte strings are the same.
pub fn same(a: &[u8], b: &[u8]) -> (r: bool)
    ensures
        r == (a@ == b@),
{
    match order(a, b) {
        Order::Equal => true,
        _ => false,
    }
}

/// Whether `s` begins with `prefix`.
pub fn starts_with(s: &[u8], prefix: &[u8]) -> (r: bool)
    ensures
        r == prefix@.is_prefix_of(s@),
{
    if prefix.len() > s.len() {
        return false;
    }
    let head: &[u8] = slice_subrange(s, 0, prefix.len());
    let r: bool = same(head, prefix);
    assert(r == prefix@.is_prefix_of(s@));
    r
}

/// Some byte strings, back to back.
pub open spec fn cat(s: Seq<Seq<u8>>) -> Seq<u8>
    decreases s.len(),
{
    if s.len() == 0 {
        Seq::empty()
    } else {
        cat(s.drop_last()) + s.last()
    }
}

/// The piece `i` stands where the pieces before it end.
pub proof fn lemma_cat_piece(s: Seq<Seq<u8>>, i: int)
    requires
        0 <= i < s.len(),
    ensures
        cat(s.take(i)).len() + s[i].len() <= cat(s).len(),
        cat(s).subrange(
            cat(s.take(i)).len() as int,
            cat(s.take(i)).len() as int + s[i].len(),
        ) == s[i],
        cat(s.take(i + 1)) == cat(s.take(i)) + s[i],
    decreases s.len(),
{
    assert(s.take(i + 1).drop_last() =~= s.take(i));
    let off = cat(s.take(i)).len() as int;
    if i == s.len() - 1 {
        assert(s.drop_last() =~= s.take(i));
        assert(cat(s).subrange(off, off + s[i].len()) =~= s[i]);
        assert(s.take(i + 1) =~= s);
    } else {
        let front = s.drop_last();
        lemma_cat_piece(front, i);
        assert(front.take(i) =~= s.take(i));
        assert(cat(s).subrange(off, off + s[i].len()) =~= cat(front).subrange(
            off,
            off + s[i].len(),
        ));
    }
}

/// Pieces of one length stand at multiples of it.
pub proof fn lemma_cat_fixed(s: Seq<Seq<u8>>, n: int)
    requires
        forall|i: int| 0 <= i < s.len() ==> (#[trigger] s[i]).len() == n,
        0 <= n,
    ensures
        cat(s).len() == s.len() * n,
    decreases s.len(),
{
    if s.len() > 0 {
        let front = s.drop_last();
        assert forall|i: int| 0 <= i < front.len() implies (#[trigger] front[i]).len() == n by {
            assert(front[i] == s[i]);
        }
        lemma_cat_fixed(front, n);
        assert(s.last().len() == n);
        let k = s.len() as int;
        assert((k - 1) * n + n == k * n) by (nonlinear_arith);
    } else {
        assert(0 * n == 0) by (nonlinear_arith);
    }
}

} // verus!
