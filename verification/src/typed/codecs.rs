//! The codecs that come with the library.

use crate::bytes::{self, append, owned, push_u64_be, u64_be_at};
use crate::typed::{CodecError, KeyCodec, ValueCodec};
use vstd::prelude::*;
use vstd::slice::slice_subrange;
use vstd::string::{StrSliceExecFns, StringExecFns};

verus! {

/// Unsigned numbers, most significant byte first.
#[derive(Clone, Copy, Debug, Default)]
pub struct U64Codec;

/// Signed numbers: as keys with the sign bit turned over, so that their bytes
/// are in order.
#[derive(Clone, Copy, Debug, Default)]
pub struct I64Codec;

/// Text as UTF-8.
#[derive(Clone, Copy, Debug, Default)]
pub struct StringCodec;

/// Byte strings as they are.
#[derive(Clone, Copy, Debug, Default)]
pub struct BytesCodec;

/// Ordering-preserving codec for a pair of UTF-8 strings.
#[derive(Clone, Copy, Debug, Default)]
pub struct StringPairCodec;

/// The eight bytes of a number.
fn eight_bytes(n: u64) -> (r: Vec<u8>)
    ensures
        r@ == bytes::be_of(n as nat, 8),
{
    let mut out: Vec<u8> = Vec::new();
    push_u64_be(&mut out, n);
    assert(out@ =~= bytes::be_of(n as nat, 8));
    out
}

/// The complaint that eight bytes are not there.
fn not_eight(name: &str) -> (r: CodecError)
    ensures
        r matches CodecError::Decode(text) && text@ == name@ + " must contain 8 bytes"@,
{
    let mut text: String = String::from_str(name);
    text.append(" must contain 8 bytes");
    CodecError::Decode(text)
}

/// The number that eight bytes are.
fn fixed(s: &[u8], name: &str) -> (r: Result<u64, CodecError>)
    ensures
        match r {
            Ok(n) => s@.len() == 8 && n == bytes::be_nat(s@),
            Err(e) => s@.len() != 8 && (e matches CodecError::Decode(text) && text@ == name@
                + " must contain 8 bytes"@),
        },
{
    if s.len() != 8 {
        return Err(not_eight(name));
    }
    assert(s@.subrange(0, 8) =~= s@);
    Ok(u64_be_at(s, 0))
}

impl KeyCodec<u64> for U64Codec {
    const ORDER_PRESERVING: bool = true;

    open spec fn key_bytes(&self, key: u64) -> Option<Seq<u8>> {
        Some(bytes::be_of(key as nat, 8))
    }

    open spec fn reads_key(&self, s: Seq<u8>, key: u64) -> bool {
        s.len() == 8 && bytes::be_nat(s) == key
    }

    fn encode_key(&self, key: &u64) -> (r: Result<Vec<u8>, CodecError>) {
        Ok(eight_bytes(*key))
    }

    fn decode_key(&self, s: &[u8]) -> (r: Result<u64, CodecError>)
        ensures
            r matches Err(e) ==> (e matches CodecError::Decode(text) && text@ == "u64 key"@
                + " must contain 8 bytes"@),
    {
        fixed(s, "u64 key")
    }
}

impl ValueCodec<u64> for U64Codec {
    open spec fn value_bytes(&self, value: u64) -> Option<Seq<u8>> {
        Some(bytes::be_of(value as nat, 8))
    }

    open spec fn reads_value(&self, s: Seq<u8>, value: u64) -> bool {
        s.len() == 8 && bytes::be_nat(s) == value
    }

    fn encode_value(&self, value: &u64) -> (r: Result<Vec<u8>, CodecError>) {
        Ok(eight_bytes(*value))
    }

    fn decode_value(&self, s: &[u8]) -> (r: Result<u64, CodecError>)
        ensures
            r matches Err(e) ==> (e matches CodecError::Decode(text) && text@ == "u64 value"@
                + " must contain 8 bytes"@),
    {
        fixed(s, "u64 value")
    }
}

/// A signed number moved up so that it has no sign.
pub open spec fn raised(n: i64) -> nat {
    (n + 0x8000_0000_0000_0000) as nat
}

/// A signed number as the unsigned one with the same bits.
pub open spec fn wrapped(n: i64) -> nat {
    if n < 0 {
        (n + 0x1_0000_0000_0000_0000) as nat
    } else {
        n as nat
    }
}

impl KeyCodec<i64> for I64Codec {
    const ORDER_PRESERVING: bool = true;

    open spec fn key_bytes(&self, key: i64) -> Option<Seq<u8>> {
        Some(bytes::be_of(raised(key), 8))
    }

    open spec fn reads_key(&self, s: Seq<u8>, key: i64) -> bool {
        s.len() == 8 && bytes::be_nat(s) == raised(key)
    }

    fn encode_key(&self, key: &i64) -> (r: Result<Vec<u8>, CodecError>) {
        let n: u64 = (*key as i128 + 0x8000_0000_0000_0000) as u64;
        Ok(eight_bytes(n))
    }

    fn decode_key(&self, s: &[u8]) -> (r: Result<i64, CodecError>)
        ensures
            r matches Err(e) ==> (e matches CodecError::Decode(text) && text@ == "i64 key"@
                + " must contain 8 bytes"@),
    {
        match fixed(s, "i64 key") {
            Ok(n) => Ok((n as i128 - 0x8000_0000_0000_0000) as i64),
            Err(e) => Err(e),
        }
    }
}

impl ValueCodec<i64> for I64Codec {
    open spec fn value_bytes(&self, value: i64) -> Option<Seq<u8>> {
        Some(bytes::be_of(wrapped(value), 8))
    }

    open spec fn reads_value(&self, s: Seq<u8>, value: i64) -> bool {
        s.len() == 8 && bytes::be_nat(s) == wrapped(value)
    }

    fn encode_value(&self, value: &i64) -> (r: Result<Vec<u8>, CodecError>) {
        let n: u64 = if *value < 0 {
            (*value as i128 + 0x1_0000_0000_0000_0000) as u64
        } else {
            *value as u64
        };
        Ok(eight_bytes(n))
    }

    fn decode_value(&self, s: &[u8]) -> (r: Result<i64, CodecError>)
        ensures
            r matches Err(e) ==> (e matches CodecError::Decode(text) && text@ == "i64 value"@
                + " must contain 8 bytes"@),
    {
        match fixed(s, "i64 value") {
            Ok(n) => if n < 0x8000_0000_0000_0000 {
                Ok(n as i64)
            } else {
                Ok((n as i128 - 0x1_0000_0000_0000_0000) as i64)
            },
            Err(e) => Err(e),
        }
    }
}

/// What `FromUtf8Error` says of bytes that are no UTF-8.
pub uninterp spec fn utf8_complaint(s: Seq<u8>) -> Seq<char>;

/// The text that bytes are in UTF-8, or why they are none.
///
/// This is `String::from_utf8`: it succeeds on valid UTF-8 alone, with the
/// text that the bytes encode. The words of the complaint, which tell where the
/// bytes go wrong, are only given a name.
#[verifier::external_body]
fn text_of(s: Vec<u8>) -> (r: Result<String, String>)
    ensures
        match r {
            Ok(text) => vstd::utf8::valid_utf8(s@) && text@ == vstd::utf8::decode_utf8(s@),
            Err(words) => !vstd::utf8::valid_utf8(s@) && words@ == utf8_complaint(s@),
        },
{
    match String::from_utf8(s) {
        Ok(text) => Ok(text),
        Err(error) => Err(error.to_string()),
    }
}

/// Whether bytes are a text in UTF-8.
pub open spec fn is_text(s: Seq<u8>, text: Seq<char>) -> bool {
    vstd::utf8::encode_utf8(text) == s
}

fn read_text(s: Vec<u8>) -> (r: Result<String, CodecError>)
    ensures
        match r {
            Ok(text) => is_text(s@, text@) && vstd::utf8::valid_utf8(s@),
            Err(e) => (e matches CodecError::Decode(words) && words@ == utf8_complaint(s@))
                && !vstd::utf8::valid_utf8(s@) && forall|text: Seq<char>| !is_text(s@, text),
        },
{
    let ghost given = s@;
    proof {
        if vstd::utf8::valid_utf8(given) {
            vstd::utf8::decode_utf8_encode_utf8(given);
        }
        assert forall|text: Seq<char>| is_text(given, text) implies vstd::utf8::valid_utf8(
            given,
        ) by {
            vstd::utf8::encode_utf8_valid_utf8(text);
        }
    }
    match text_of(s) {
        Ok(text) => Ok(text),
        Err(words) => Err(CodecError::Decode(words)),
    }
}

impl KeyCodec<String> for StringCodec {
    const ORDER_PRESERVING: bool = true;

    open spec fn key_bytes(&self, key: String) -> Option<Seq<u8>> {
        Some(vstd::utf8::encode_utf8(key@))
    }

    open spec fn reads_key(&self, s: Seq<u8>, key: String) -> bool {
        is_text(s, key@)
    }

    fn encode_key(&self, key: &String) -> (r: Result<Vec<u8>, CodecError>) {
        Ok(key.as_str().as_bytes_vec())
    }

    fn decode_key(&self, s: &[u8]) -> (r: Result<String, CodecError>)
        ensures
            r matches Err(e) ==> (e matches CodecError::Decode(words) && words@ == utf8_complaint(
                s@,
            )),
    {
        read_text(owned(s))
    }
}

impl ValueCodec<String> for StringCodec {
    open spec fn value_bytes(&self, value: String) -> Option<Seq<u8>> {
        Some(vstd::utf8::encode_utf8(value@))
    }

    open spec fn reads_value(&self, s: Seq<u8>, value: String) -> bool {
        is_text(s, value@)
    }

    fn encode_value(&self, value: &String) -> (r: Result<Vec<u8>, CodecError>) {
        Ok(value.as_str().as_bytes_vec())
    }

    fn decode_value(&self, s: &[u8]) -> (r: Result<String, CodecError>)
        ensures
            r matches Err(e) ==> (e matches CodecError::Decode(words) && words@ == utf8_complaint(
                s@,
            )),
    {
        read_text(owned(s))
    }
}

impl KeyCodec<Vec<u8>> for BytesCodec {
    const ORDER_PRESERVING: bool = true;

    open spec fn key_bytes(&self, key: Vec<u8>) -> Option<Seq<u8>> {
        Some(key@)
    }

    open spec fn reads_key(&self, s: Seq<u8>, key: Vec<u8>) -> bool {
        key@ == s
    }

    fn encode_key(&self, key: &Vec<u8>) -> (r: Result<Vec<u8>, CodecError>) {
        Ok(owned(key))
    }

    fn decode_key(&self, s: &[u8]) -> (r: Result<Vec<u8>, CodecError>)
        ensures
            r is Ok,
    {
        Ok(owned(s))
    }
}

impl ValueCodec<Vec<u8>> for BytesCodec {
    open spec fn value_bytes(&self, value: Vec<u8>) -> Option<Seq<u8>> {
        Some(value@)
    }

    open spec fn reads_value(&self, s: Seq<u8>, value: Vec<u8>) -> bool {
        value@ == s
    }

    fn encode_value(&self, value: &Vec<u8>) -> (r: Result<Vec<u8>, CodecError>) {
        Ok(owned(value))
    }

    fn decode_value(&self, s: &[u8]) -> (r: Result<Vec<u8>, CodecError>)
        ensures
            r is Ok,
    {
        Ok(owned(s))
    }
}

/// Bytes in a form that ends with two zeros and has none before: every zero is
/// followed by 255.
pub open spec fn escaped(s: Seq<u8>) -> Seq<u8>
    decreases s.len(),
{
    if s.len() == 0 {
        seq![0u8, 0]
    } else if s[0] == 0 {
        seq![0u8, 255] + escaped(s.drop_first())
    } else {
        seq![s[0]] + escaped(s.drop_first())
    }
}

/// What the escaped form at the front of `s` stands for, and where it ends; or
/// what is wrong with it.
pub open spec fn unescaped(s: Seq<u8>) -> Result<(Seq<u8>, int), Seq<char>>
    decreases s.len(),
{
    if s.len() == 0 {
        Err("unterminated compound key"@)
    } else if s[0] != 0 {
        match unescaped(s.skip(1)) {
            Ok((rest, n)) => Ok((seq![s[0]] + rest, n + 1)),
            Err(words) => Err(words),
        }
    } else if s.len() >= 2 && s[1] == 255 {
        match unescaped(s.skip(2)) {
            Ok((rest, n)) => Ok((seq![0u8] + rest, n + 2)),
            Err(words) => Err(words),
        }
    } else if s.len() >= 2 && s[1] == 0 {
        Ok((Seq::empty(), 2))
    } else {
        Err("invalid compound key escape"@)
    }
}

/// The escaped form of bytes stands for them, whatever follows it, and just its
/// own bytes are counted.
pub proof fn law_unescape_undoes_escape(s: Seq<u8>, rest: Seq<u8>)
    ensures
        unescaped(escaped(s) + rest) == Ok::<(Seq<u8>, int), Seq<char>>(
            (s, escaped(s).len() as int),
        ),
        escaped(s).len() >= 2,
    decreases s.len(),
{
    let w = escaped(s) + rest;
    if s.len() == 0 {
        assert(w[0] == 0 && w[1] == 0);
        assert(s =~= Seq::<u8>::empty());
    } else {
        let t = s.drop_first();
        law_unescape_undoes_escape(t, rest);
        if s[0] == 0 {
            assert(w.skip(2) =~= escaped(t) + rest);
            assert(w[0] == 0 && w[1] == 255);
            assert(seq![0u8] + t =~= s);
        } else {
            assert(w.skip(1) =~= escaped(t) + rest);
            assert(w[0] == s[0]);
            assert(seq![s[0]] + t =~= s);
        }
    }
}

/// What is read as an escaped form is one.
pub proof fn lemma_escape_unescaped(s: Seq<u8>)
    ensures
        unescaped(s) matches Ok((t, n)) ==> 2 <= n <= s.len() && s.take(n) == escaped(t),
    decreases s.len(),
{
    if s.len() > 0 {
        if s[0] != 0 {
            lemma_escape_unescaped(s.skip(1));
            if unescaped(s.skip(1)) is Ok {
                let (rest, n) = unescaped(s.skip(1))->Ok_0;
                let t = seq![s[0]] + rest;
                assert(t.drop_first() =~= rest);
                assert(s.take(n + 1) =~= seq![s[0]] + s.skip(1).take(n));
            }
        } else if s.len() >= 2 && s[1] == 255 {
            lemma_escape_unescaped(s.skip(2));
            if unescaped(s.skip(2)) is Ok {
                let (rest, n) = unescaped(s.skip(2))->Ok_0;
                let t = seq![0u8] + rest;
                assert(t.drop_first() =~= rest);
                assert(s.take(n + 2) =~= seq![0u8, 255] + s.skip(2).take(n));
            }
        } else if s.len() >= 2 && s[1] == 0 {
            assert(s.take(2) =~= seq![0u8, 0]);
        }
    }
}

proof fn lemma_escaped_push(s: Seq<u8>, b: u8)
    ensures
        ({
            let w = escaped(s);
            let head = w.take(w.len() - 2);
            escaped(s.push(b)) == head + (if b == 0 {
                seq![0u8, 255, 0, 0]
            } else {
                seq![b, 0, 0]
            })
        }),
        escaped(s).len() >= 2,
    decreases s.len(),
{
    let w = escaped(s);
    let p = s.push(b);
    if s.len() == 0 {
        assert(p.drop_first() =~= Seq::<u8>::empty());
        assert(escaped(p.drop_first()) =~= seq![0u8, 0]);
        assert(w.take(0) =~= Seq::<u8>::empty());
        if b == 0 {
            assert(escaped(p) =~= seq![0u8, 255, 0, 0]);
        } else {
            assert(escaped(p) =~= seq![b, 0, 0]);
        }
        assert(escaped(p) =~= w.take(w.len() - 2) + (if b == 0 {
            seq![0u8, 255, 0, 0]
        } else {
            seq![b, 0, 0]
        }));
    } else {
        let t = s.drop_first();
        lemma_escaped_push(t, b);
        assert(p.drop_first() =~= t.push(b));
        let v = escaped(t);
        if s[0] == 0 {
            assert(w.take(w.len() - 2) =~= seq![0u8, 255] + v.take(v.len() - 2));
        } else {
            assert(w.take(w.len() - 2) =~= seq![s[0]] + v.take(v.len() - 2));
        }
        assert(escaped(p) =~= w.take(w.len() - 2) + (if b == 0 {
            seq![0u8, 255, 0, 0]
        } else {
            seq![b, 0, 0]
        }));
    }
}

/// Appends bytes in the escaped form.
fn push_escaped(out: &mut Vec<u8>, s: &[u8])
    ensures
        final(out)@ == old(out)@ + escaped(s@),
{
    let ghost was = out@;
    let mut i: usize = 0;
    proof {
        let e = escaped(s@.take(0));
        assert(e.len() == 2);
        assert(was + e.take(0) =~= was);
    }
    while i < s.len()
        invariant
            i <= s@.len(),
            escaped(s@.take(i as int)).len() >= 2,
            out@ == was + escaped(s@.take(i as int)).take(
                escaped(s@.take(i as int)).len() - 2,
            ),
        decreases s@.len() - i,
    {
        let b: u8 = s[i];
        let ghost before = escaped(s@.take(i as int));
        proof {
            lemma_escaped_push(s@.take(i as int), b);
            assert(s@.take(i as int).push(b) =~= s@.take(i + 1));
        }
        if b == 0 {
            out.push(0);
            out.push(255);
        } else {
            out.push(b);
        }
        proof {
            let now = escaped(s@.take(i + 1));
            assert(out@ =~= was + now.take(now.len() - 2));
        }
        i = i + 1;
    }
    out.push(0);
    out.push(0);
    proof {
        assert(s@.take(i as int) =~= s@);
        let w = escaped(s@);
        lemma_escaped_ends(s@);
        assert(out@ =~= was + w);
    }
}

proof fn lemma_escaped_ends(s: Seq<u8>)
    ensures
        escaped(s).len() >= 2,
        escaped(s)[escaped(s).len() - 1] == 0,
        escaped(s)[escaped(s).len() - 2] == 0,
    decreases s.len(),
{
    if s.len() > 0 {
        lemma_escaped_ends(s.drop_first());
    }
}

/// What an unescaping that has read some bytes comes to.
pub open spec fn joined(
    front: Seq<u8>,
    at: int,
    rest: Result<(Seq<u8>, int), Seq<char>>,
) -> Result<(Seq<u8>, int), Seq<char>> {
    match rest {
        Ok((s, n)) => Ok((front + s, at + n)),
        Err(words) => Err(words),
    }
}

/// Reads the escaped form at the front of `s`.
fn unescape_bytes(s: &[u8]) -> (r: Result<(Vec<u8>, usize), CodecError>)
    ensures
        match (r, unescaped(s@)) {
            (Ok((bytes, used)), Ok((want, n))) => bytes@ == want && used == n && n <= s@.len(),
            (Err(e), Err(words)) => e matches CodecError::Decode(text) && text@ == words,
            _ => false,
        },
{
    let ghost whole = unescaped(s@);
    let mut out: Vec<u8> = Vec::new();
    let mut i: usize = 0;
    proof {
        lemma_escape_unescaped(s@);
        if whole is Ok {
            assert(Seq::<u8>::empty() + whole->Ok_0.0 =~= whole->Ok_0.0);
        }
        assert(out@ =~= Seq::<u8>::empty());
        assert(s@.skip(0) =~= s@);
    }
    while i < s.len()
        invariant
            i <= s@.len(),
            whole == unescaped(s@),
            whole == joined(out@, i as int, unescaped(s@.skip(i as int))),
            whole matches Ok((t, n)) ==> n <= s@.len(),
        decreases s@.len() - i,
    {
        let ghost here = s@.skip(i as int);
        let ghost was = out@;
        assert(here[0] == s@[i as int]);
        if s[i] != 0 {
            out.push(s[i]);
            proof {
                assert(here.skip(1) =~= s@.skip(i + 1));
                if unescaped(s@.skip(i + 1)) is Ok {
                    let rest = unescaped(s@.skip(i + 1))->Ok_0.0;
                    assert(was + (seq![here[0]] + rest) =~= out@ + rest);
                }
            }
            i = i + 1;
        } else if s.len() - i >= 2 && s[i + 1] == 255 {
            out.push(0);
            proof {
                assert(here[1] == s@[i + 1]);
                assert(here.skip(2) =~= s@.skip(i + 2));
                if unescaped(s@.skip(i + 2)) is Ok {
                    let rest = unescaped(s@.skip(i + 2))->Ok_0.0;
                    assert(was + (seq![0u8] + rest) =~= out@ + rest);
                }
            }
            i = i + 2;
        } else if s.len() - i >= 2 && s[i + 1] == 0 {
            proof {
                assert(here[1] == s@[i + 1]);
                assert(was + Seq::<u8>::empty() =~= was);
            }
            return Ok((out, i + 2));
        } else {
            proof {
                if s@.len() - i >= 2 {
                    assert(here[1] == s@[i + 1]);
                }
            }
            return Err(CodecError::Decode(String::from_str("invalid compound key escape")));
        }
    }
    assert(s@.skip(i as int).len() == 0);
    Err(CodecError::Decode(String::from_str("unterminated compound key")))
}

/// The text in its escaped form at the front of `s`, as bytes, and where it
/// ends; or what is wrong with it.
pub open spec fn part_read(s: Seq<u8>) -> Result<(Seq<u8>, int), Seq<char>> {
    match unescaped(s) {
        Err(words) => Err(words),
        Ok((text, n)) => if vstd::utf8::valid_utf8(text) {
            Ok((text, n))
        } else {
            Err(utf8_complaint(text))
        },
    }
}

/// The escaped form of a text.
pub fn escape(value: &str) -> (r: Vec<u8>)
    ensures
        r@ == escaped(vstd::utf8::encode_utf8(value@)),
{
    let mut out: Vec<u8> = Vec::new();
    push_escaped(&mut out, value.as_bytes());
    assert(out@ =~= escaped(vstd::utf8::encode_utf8(value@)));
    out
}

/// Reads the text in its escaped form at the front of `s`, and how many bytes
/// that form takes.
pub fn unescape(s: &[u8]) -> (r: Result<(String, usize), CodecError>)
    ensures
        match (r, part_read(s@)) {
            (Ok((text, used)), Ok((want, n))) => vstd::utf8::encode_utf8(text@) == want && used == n
                && n <= s@.len(),
            (Err(e), Err(words)) => e matches CodecError::Decode(text) && text@ == words,
            _ => false,
        },
{
    match unescape_bytes(s) {
        Err(e) => Err(e),
        Ok((bytes, used)) => match read_text(bytes) {
            Err(e) => Err(e),
            Ok(text) => Ok((text, used)),
        },
    }
}

/// A text in its escaped form is read back whole, whatever follows it, and just
/// its own bytes are counted.
pub proof fn law_escaped_text_reads_back(text: Seq<char>, tail: Seq<u8>)
    ensures
        part_read(escaped(vstd::utf8::encode_utf8(text)) + tail) == Ok::<
            (Seq<u8>, int),
            Seq<char>,
        >(
            (
                vstd::utf8::encode_utf8(text),
                escaped(vstd::utf8::encode_utf8(text)).len() as int,
            ),
        ),
        vstd::utf8::decode_utf8(vstd::utf8::encode_utf8(text)) == text,
{
    law_unescape_undoes_escape(vstd::utf8::encode_utf8(text), tail);
    vstd::utf8::encode_utf8_valid_utf8(text);
    vstd::utf8::encode_utf8_decode_utf8(text);
}

/// What is wrong with bytes that are to be a pair of texts.
pub open spec fn pair_fault(s: Seq<u8>) -> Option<Seq<char>> {
    match part_read(s) {
        Err(words) => Some(words),
        Ok((_, used)) => match part_read(s.skip(used)) {
            Err(words) => Some(words),
            Ok((_, tail)) => if used + tail != s.len() {
                Some("trailing compound key bytes"@)
            } else {
                None
            },
        },
    }
}

/// A pair of texts as a key.
pub open spec fn pair_bytes(a: Seq<char>, b: Seq<char>) -> Seq<u8> {
    escaped(vstd::utf8::encode_utf8(a)) + escaped(vstd::utf8::encode_utf8(b))
}

impl KeyCodec<(String, String)> for StringPairCodec {
    const ORDER_PRESERVING: bool = true;

    open spec fn key_bytes(&self, key: (String, String)) -> Option<Seq<u8>> {
        Some(pair_bytes(key.0@, key.1@))
    }

    open spec fn reads_key(&self, s: Seq<u8>, key: (String, String)) -> bool {
        s == pair_bytes(key.0@, key.1@)
    }

    fn encode_key(&self, key: &(String, String)) -> (r: Result<Vec<u8>, CodecError>) {
        let mut out: Vec<u8> = escape(key.0.as_str());
        append(&mut out, &escape(key.1.as_str()));
        assert(out@ =~= pair_bytes(key.0@, key.1@));
        Ok(out)
    }

    fn decode_key(&self, s: &[u8]) -> (r: Result<(String, String), CodecError>)
        ensures
            match r {
                Ok(_) => pair_fault(s@) is None,
                Err(e) => e matches CodecError::Decode(text) && pair_fault(s@) == Some(text@),
            },
    {
        proof {
            assert forall|key: (String, String)| #[trigger] self.reads_key(s@, key) implies ({
                let a = vstd::utf8::encode_utf8(key.0@);
                let b = vstd::utf8::encode_utf8(key.1@);
                let n = escaped(a).len() as int;
                &&& part_read(s@) == Ok::<(Seq<u8>, int), Seq<char>>((a, n))
                &&& part_read(s@.skip(n)) == Ok::<(Seq<u8>, int), Seq<char>>(
                    (b, escaped(b).len() as int),
                )
                &&& n + escaped(b).len() == s@.len()
            }) by {
                let a = vstd::utf8::encode_utf8(key.0@);
                let b = vstd::utf8::encode_utf8(key.1@);
                law_escaped_text_reads_back(key.0@, escaped(b));
                law_escaped_text_reads_back(key.1@, Seq::empty());
                assert(escaped(b) + Seq::<u8>::empty() =~= escaped(b));
                assert(s@.skip(escaped(a).len() as int) =~= escaped(b));
            }
            lemma_escape_unescaped(s@);
        }
        let (a, used): (String, usize) = match unescape(s) {
            Ok(read) => read,
            Err(e) => return Err(e),
        };
        let len: usize = s.len();
        let rest: &[u8] = slice_subrange(s, used, len);
        proof {
            assert(rest@ =~= s@.skip(used as int));
            lemma_escape_unescaped(rest@);
        }
        let (b, tail): (String, usize) = match unescape(rest) {
            Ok(read) => read,
            Err(e) => return Err(e),
        };
        if s.len() - used != tail {
            return Err(
                CodecError::Decode(String::from_str("trailing compound key bytes")),
            );
        }
        proof {
            assert(s@ =~= s@.take(used as int) + s@.skip(used as int).take(tail as int));
        }
        Ok((a, b))
    }
}

} // verus!
