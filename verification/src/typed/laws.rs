//! What holds of the codecs: bytes are read as what was written, and keys are
//! in the order of their bytes.

use crate::bytes;
use crate::typed::codecs::{
    self, BytesCodec, I64Codec, StringCodec, StringPairCodec, U64Codec,
};
use crate::typed::{KeyCodec, ValueCodec};
use vstd::prelude::*;

verus! {

/// Whether a text comes before another, by its code points.
pub open spec fn text_lt(a: Seq<char>, b: Seq<char>) -> bool
    decreases a.len(),
{
    if b.len() == 0 {
        false
    } else if a.len() == 0 {
        true
    } else if a[0] != b[0] {
        (a[0] as u32) < (b[0] as u32)
    } else {
        text_lt(a.drop_first(), b.drop_first())
    }
}

/// The bytes of an unsigned key are read as that key alone.
pub proof fn law_u64_key_round_trip(key: u64, other: u64)
    ensures
        U64Codec.reads_key(U64Codec.key_bytes(key)->Some_0, other) <==> other == key,
{
    bytes::lemma_pow256_widths();
    bytes::lemma_be_round_trip(key as nat, 8);
    bytes::lemma_be_of_len(key as nat, 8);
}

/// The bytes of an unsigned value are read as that value alone.
pub proof fn law_u64_value_round_trip(value: u64, other: u64)
    ensures
        U64Codec.reads_value(U64Codec.value_bytes(value)->Some_0, other) <==> other == value,
{
    bytes::lemma_pow256_widths();
    bytes::lemma_be_round_trip(value as nat, 8);
    bytes::lemma_be_of_len(value as nat, 8);
}

/// Unsigned keys are in the order of their bytes.
pub proof fn law_u64_keys_keep_order(a: u64, b: u64)
    ensures
        bytes::lex_lt(U64Codec.key_bytes(a)->Some_0, U64Codec.key_bytes(b)->Some_0) <==> a < b,
{
    law_u64_key_round_trip(a, a);
    law_u64_key_round_trip(b, b);
    bytes::lemma_be_order(bytes::be_of(a as nat, 8), bytes::be_of(b as nat, 8));
}

/// The bytes of a signed key are read as that key alone.
pub proof fn law_i64_key_round_trip(key: i64, other: i64)
    ensures
        I64Codec.reads_key(I64Codec.key_bytes(key)->Some_0, other) <==> other == key,
{
    bytes::lemma_pow256_widths();
    bytes::lemma_be_round_trip(codecs::raised(key), 8);
    bytes::lemma_be_of_len(codecs::raised(key), 8);
}

/// The bytes of a signed value are read as that value alone.
pub proof fn law_i64_value_round_trip(value: i64, other: i64)
    ensures
        I64Codec.reads_value(I64Codec.value_bytes(value)->Some_0, other) <==> other == value,
{
    bytes::lemma_pow256_widths();
    bytes::lemma_be_round_trip(codecs::wrapped(value), 8);
    bytes::lemma_be_of_len(codecs::wrapped(value), 8);
}

/// Signed keys are in the order of their bytes.
pub proof fn law_i64_keys_keep_order(a: i64, b: i64)
    ensures
        bytes::lex_lt(I64Codec.key_bytes(a)->Some_0, I64Codec.key_bytes(b)->Some_0) <==> a < b,
{
    law_i64_key_round_trip(a, a);
    law_i64_key_round_trip(b, b);
    bytes::lemma_be_order(
        bytes::be_of(codecs::raised(a), 8),
        bytes::be_of(codecs::raised(b), 8),
    );
}

/// The bytes of a text key are read as that text alone.
pub proof fn law_text_key_round_trip(key: String, other: String)
    ensures
        StringCodec.reads_key(StringCodec.key_bytes(key)->Some_0, other) <==> other@ == key@,
{
    vstd::utf8::encode_utf8_decode_utf8(key@);
    vstd::utf8::encode_utf8_decode_utf8(other@);
}

/// The bytes of a text value are read as that text alone.
pub proof fn law_text_value_round_trip(value: String, other: String)
    ensures
        StringCodec.reads_value(StringCodec.value_bytes(value)->Some_0, other) <==> other@
            == value@,
{
    law_text_key_round_trip(value, other);
}

/// The first bytes of two characters, and those that follow, keep their order.
proof fn lemma_scalar_order(a: u32, b: u32, r: Seq<u8>, t: Seq<u8>)
    requires
        vstd::utf8::is_scalar(a),
        vstd::utf8::is_scalar(b),
        a < b,
    ensures
        bytes::lex_lt(vstd::utf8::encode_scalar(a) + r, vstd::utf8::encode_scalar(b) + t),
{
    let p = vstd::utf8::encode_scalar(a) + r;
    let q = vstd::utf8::encode_scalar(b) + t;
    reveal_with_fuel(bytes::lex_lt, 5);
    assert(a <= 0x7F ==> (a & 0x7F) as u8 == a) by (bit_vector);
    assert(b <= 0x7F ==> (b & 0x7F) as u8 == b) by (bit_vector);
    assert(0xC0 <= 0xC0 | ((a >> 6) & 0x1F) as u8 <= 0xDF) by (bit_vector);
    assert(0xC0 <= 0xC0 | ((b >> 6) & 0x1F) as u8 <= 0xDF) by (bit_vector);
    assert(0xE0 <= 0xE0 | ((a >> 12) & 0x0F) as u8 <= 0xEF) by (bit_vector);
    assert(0xE0 <= 0xE0 | ((b >> 12) & 0x0F) as u8 <= 0xEF) by (bit_vector);
    assert(0xF0 <= 0xF0 | ((b >> 18) & 0x7) as u8 <= 0xF7) by (bit_vector);
    assert(a < b <= 0x7FF ==> {
        let a1 = 0xC0 | ((a >> 6) & 0x1F) as u8;
        let b1 = 0xC0 | ((b >> 6) & 0x1F) as u8;
        let a2 = 0x80 | (a & 0x3F) as u8;
        let b2 = 0x80 | (b & 0x3F) as u8;
        a1 < b1 || (a1 == b1 && a2 < b2)
    }) by (bit_vector);
    assert(a < b <= 0xFFFF ==> {
        let a1 = 0xE0 | ((a >> 12) & 0x0F) as u8;
        let b1 = 0xE0 | ((b >> 12) & 0x0F) as u8;
        let a2 = 0x80 | ((a >> 6) & 0x3F) as u8;
        let b2 = 0x80 | ((b >> 6) & 0x3F) as u8;
        let a3 = 0x80 | (a & 0x3F) as u8;
        let b3 = 0x80 | (b & 0x3F) as u8;
        a1 < b1 || (a1 == b1 && (a2 < b2 || (a2 == b2 && a3 < b3)))
    }) by (bit_vector);
    assert(a < b <= 0x10FFFF ==> {
        let a1 = 0xF0 | ((a >> 18) & 0x7) as u8;
        let b1 = 0xF0 | ((b >> 18) & 0x7) as u8;
        let a2 = 0x80 | ((a >> 12) & 0x3F) as u8;
        let b2 = 0x80 | ((b >> 12) & 0x3F) as u8;
        let a3 = 0x80 | ((a >> 6) & 0x3F) as u8;
        let b3 = 0x80 | ((b >> 6) & 0x3F) as u8;
        let a4 = 0x80 | (a & 0x3F) as u8;
        let b4 = 0x80 | (b & 0x3F) as u8;
        a1 < b1 || (a1 == b1 && (a2 < b2 || (a2 == b2 && (a3 < b3 || (a3 == b3 && a4 < b4)))))
    }) by (bit_vector);
    assert(p[0] == vstd::utf8::encode_scalar(a)[0]);
    assert(q[0] == vstd::utf8::encode_scalar(b)[0]);
    if p[0] == q[0] {
        let p1 = p.drop_first();
        let q1 = q.drop_first();
        assert(p1[0] == vstd::utf8::encode_scalar(a)[1]);
        assert(q1[0] == vstd::utf8::encode_scalar(b)[1]);
        if p1[0] == q1[0] {
            let p2 = p1.drop_first();
            let q2 = q1.drop_first();
            assert(p2[0] == vstd::utf8::encode_scalar(a)[2]);
            assert(q2[0] == vstd::utf8::encode_scalar(b)[2]);
            if p2[0] == q2[0] {
                assert(p2.drop_first()[0] == vstd::utf8::encode_scalar(a)[3]);
                assert(q2.drop_first()[0] == vstd::utf8::encode_scalar(b)[3]);
            }
        }
    }
}

proof fn lemma_text_less(a: Seq<char>, b: Seq<char>)
    requires
        text_lt(a, b),
    ensures
        bytes::lex_lt(vstd::utf8::encode_utf8(a), vstd::utf8::encode_utf8(b)),
    decreases a.len(),
{
    vstd::utf8::char_is_scalar(b[0]);
    if a.len() > 0 {
        vstd::utf8::char_is_scalar(a[0]);
        let r = vstd::utf8::encode_utf8(a.drop_first());
        let t = vstd::utf8::encode_utf8(b.drop_first());
        if a[0] == b[0] {
            lemma_text_less(a.drop_first(), b.drop_first());
            bytes::lemma_lex_common_prefix(vstd::utf8::encode_scalar(a[0] as u32), r, t);
        } else {
            lemma_scalar_order(a[0] as u32, b[0] as u32, r, t);
        }
    } else {
        assert(vstd::utf8::encode_utf8(a).len() == 0);
        assert(vstd::utf8::encode_utf8(b).len() > 0);
    }
}

proof fn lemma_text_total(a: Seq<char>, b: Seq<char>)
    ensures
        text_lt(a, b) || a == b || text_lt(b, a),
    decreases a.len(),
{
    if a.len() > 0 && b.len() > 0 {
        vstd::utf8::char_u32_cast(a[0], a[0] as u32);
        vstd::utf8::char_u32_cast(b[0], b[0] as u32);
        lemma_text_total(a.drop_first(), b.drop_first());
        if a[0] == b[0] && a.drop_first() == b.drop_first() {
            assert(a =~= seq![a[0]] + a.drop_first());
            assert(b =~= seq![b[0]] + b.drop_first());
        }
    } else if a.len() == 0 && b.len() == 0 {
        assert(a =~= b);
    }
}

/// Texts are in the order of their bytes in UTF-8.
pub proof fn lemma_text_order(a: Seq<char>, b: Seq<char>)
    ensures
        bytes::lex_lt(vstd::utf8::encode_utf8(a), vstd::utf8::encode_utf8(b)) <==> text_lt(a, b),
{
    let x = vstd::utf8::encode_utf8(a);
    let y = vstd::utf8::encode_utf8(b);
    bytes::lemma_lex_total(x, y);
    lemma_text_total(a, b);
    if text_lt(a, b) {
        lemma_text_less(a, b);
    } else if a != b {
        lemma_text_less(b, a);
    }
}

/// Text keys are in the order of their bytes.
pub proof fn law_text_keys_keep_order(a: String, b: String)
    ensures
        bytes::lex_lt(StringCodec.key_bytes(a)->Some_0, StringCodec.key_bytes(b)->Some_0)
            <==> text_lt(a@, b@),
{
    lemma_text_order(a@, b@);
}

/// Byte strings are read as themselves, and keep their order.
pub proof fn law_byte_keys_keep_order(a: Vec<u8>, b: Vec<u8>)
    ensures
        BytesCodec.reads_key(BytesCodec.key_bytes(a)->Some_0, b) <==> a@ == b@,
        BytesCodec.reads_value(BytesCodec.value_bytes(a)->Some_0, b) <==> a@ == b@,
        bytes::lex_lt(BytesCodec.key_bytes(a)->Some_0, BytesCodec.key_bytes(b)->Some_0)
            <==> bytes::lex_lt(a@, b@),
{
}

/// Escaped forms are in the order of what they stand for, and where that is
/// the same, in the order of what follows them.
proof fn lemma_escaped_order(s: Seq<u8>, t: Seq<u8>, r: Seq<u8>, q: Seq<u8>)
    ensures
        bytes::lex_lt(codecs::escaped(s) + r, codecs::escaped(t) + q) <==> bytes::lex_lt(s, t) || (s
            == t && bytes::lex_lt(r, q)),
    decreases s.len(),
{
    let a = codecs::escaped(s) + r;
    let b = codecs::escaped(t) + q;
    bytes::lemma_lex_total(s, t);
    if s.len() == 0 && t.len() == 0 {
        assert(s =~= t);
        bytes::lemma_lex_common_prefix(seq![0u8, 0], r, q);
    } else if s.len() == 0 {
        assert(a[0] == 0 && a[1] == 0);
        if t[0] == 0 {
            assert(b[0] == 0 && b[1] == 255);
            assert(a.drop_first()[0] == 0 && b.drop_first()[0] == 255);
            reveal_with_fuel(bytes::lex_lt, 2);
        } else {
            assert(b[0] == t[0]);
        }
    } else if t.len() == 0 {
        assert(b[0] == 0 && b[1] == 0);
        if s[0] == 0 {
            assert(a[0] == 0 && a[1] == 255);
            assert(b.drop_first()[0] == 0 && a.drop_first()[0] == 255);
            reveal_with_fuel(bytes::lex_lt, 2);
        } else {
            assert(a[0] == s[0]);
        }
    } else {
        let u = s.drop_first();
        let v = t.drop_first();
        assert(a[0] == s[0]);
        assert(b[0] == t[0]);
        if s[0] == t[0] {
            lemma_escaped_order(u, v, r, q);
            let p = if s[0] == 0 {
                seq![0u8, 255]
            } else {
                seq![s[0]]
            };
            assert(a =~= p + (codecs::escaped(u) + r));
            assert(b =~= p + (codecs::escaped(v) + q));
            bytes::lemma_lex_common_prefix(p, codecs::escaped(u) + r, codecs::escaped(v) + q);
            if u == v {
                assert(s =~= seq![s[0]] + u);
                assert(t =~= seq![t[0]] + v);
            }
        }
    }
}

/// The escaped forms of texts keep their order, whatever follows them, and none
/// begins with another: so escaped texts one after the other sort as the texts
/// themselves do.
pub proof fn law_escapes_keep_order(a: Seq<char>, b: Seq<char>, r: Seq<u8>, q: Seq<u8>)
    ensures
        ({
            let x = codecs::escaped(vstd::utf8::encode_utf8(a));
            let y = codecs::escaped(vstd::utf8::encode_utf8(b));
            &&& bytes::lex_lt(x, y) <==> text_lt(a, b)
            &&& a != b ==> !x.is_prefix_of(y) && !y.is_prefix_of(x)
            &&& bytes::lex_lt(x + r, y + q) <==> text_lt(a, b) || (a == b && bytes::lex_lt(r, q))
        }),
{
    let s = vstd::utf8::encode_utf8(a);
    let t = vstd::utf8::encode_utf8(b);
    let x = codecs::escaped(s);
    let y = codecs::escaped(t);
    vstd::utf8::encode_utf8_decode_utf8(a);
    vstd::utf8::encode_utf8_decode_utf8(b);
    lemma_text_order(a, b);
    lemma_escaped_order(s, t, r, q);
    lemma_escaped_order(s, t, Seq::empty(), Seq::empty());
    assert(x + Seq::<u8>::empty() =~= x);
    assert(y + Seq::<u8>::empty() =~= y);
    if a != b {
        codecs::law_unescape_undoes_escape(s, Seq::empty());
        codecs::law_unescape_undoes_escape(t, Seq::empty());
        if x.is_prefix_of(y) {
            let tail = y.skip(x.len() as int);
            assert(y =~= x + tail);
            codecs::law_unescape_undoes_escape(s, tail);
        }
        if y.is_prefix_of(x) {
            let tail = x.skip(y.len() as int);
            assert(x =~= y + tail);
            codecs::law_unescape_undoes_escape(t, tail);
        }
    }
}

/// Pairs of texts are in the order of their bytes: by the first text, then by
/// the second.
pub proof fn law_pair_keys_keep_order(a: (String, String), b: (String, String))
    ensures
        bytes::lex_lt(StringPairCodec.key_bytes(a)->Some_0, StringPairCodec.key_bytes(b)->Some_0)
            <==> text_lt(a.0@, b.0@) || (a.0@ == b.0@ && text_lt(a.1@, b.1@)),
{
    let a0 = vstd::utf8::encode_utf8(a.0@);
    let a1 = vstd::utf8::encode_utf8(a.1@);
    let b0 = vstd::utf8::encode_utf8(b.0@);
    let b1 = vstd::utf8::encode_utf8(b.1@);
    vstd::utf8::encode_utf8_decode_utf8(a.0@);
    vstd::utf8::encode_utf8_decode_utf8(b.0@);
    lemma_text_order(a.0@, b.0@);
    lemma_text_order(a.1@, b.1@);
    lemma_escaped_order(a0, b0, codecs::escaped(a1), codecs::escaped(b1));
    lemma_escaped_order(a1, b1, Seq::empty(), Seq::empty());
    assert(codecs::escaped(a1) + Seq::<u8>::empty() =~= codecs::escaped(a1));
    assert(codecs::escaped(b1) + Seq::<u8>::empty() =~= codecs::escaped(b1));
}

/// The bytes of a pair of texts are read as that pair alone.
pub proof fn law_pair_key_round_trip(key: (String, String), other: (String, String))
    ensures
        StringPairCodec.reads_key(StringPairCodec.key_bytes(key)->Some_0, other) <==> other.0@
            == key.0@ && other.1@ == key.1@,
{
    law_pair_keys_keep_order(key, other);
    law_pair_keys_keep_order(other, key);
    bytes::lemma_lex_irreflexive(StringPairCodec.key_bytes(key)->Some_0);
    lemma_text_total(key.0@, other.0@);
    lemma_text_total(key.1@, other.1@);
}

} // verus!
