//! Character encoding helpers: UTF-8 encoding of single characters into byte
//! buffers and the conversion of byte buffers into strings.

use vstd::prelude::*;
use vstd::utf8::*;
use vstd::std_specs::iter::IteratorSpec;

verus! {

/// `char::from_u32`. Its documentation promises `Some(c)` exactly when `v` is
/// a Unicode scalar value (at most 0x10FFFF and outside the surrogate range
/// 0xD800..=0xDFFF), and then `c as u32 == v`.
#[verifier::external_body]
pub(crate) fn char_from_u32(v: u32) -> (r: Option<char>)
    ensures
        r is Some <==> is_scalar(v),
        r matches Some(c) ==> c as u32 == v,
{
    char::from_u32(v)
}

/// `String::from_utf8_lossy` followed by `into_owned`. Its documentation
/// promises that a valid UTF-8 buffer is decoded unchanged; on invalid input
/// each invalid sequence becomes U+FFFD, which this contract leaves unsaid.
#[verifier::external_body]
pub(crate) fn string_from_utf8_lossy(bytes: &[u8]) -> (s: String)
    ensures
        valid_utf8(bytes@) ==> s@ == decode_utf8(bytes@),
{
    String::from_utf8_lossy(bytes).into_owned()
}

/// Appends the UTF-8 encoding of `ch`.
pub fn push_char(output: &mut Vec<u8>, ch: char)
    ensures
        final(output)@ == old(output)@ + encode_scalar(ch as u32),
{
    proof {
        char_is_scalar(ch);
    }
    let v: u32 = ch as u32;
    if v <= 0x7f {
        output.push((v & 0x7f) as u8);
    } else if v <= 0x7ff {
        output.push(0xc0 | ((v >> 6) & 0x1f) as u8);
        output.push(0x80 | (v & 0x3f) as u8);
    } else if v <= 0xffff {
        output.push(0xe0 | ((v >> 12) & 0x0f) as u8);
        output.push(0x80 | ((v >> 6) & 0x3f) as u8);
        output.push(0x80 | (v & 0x3f) as u8);
    } else {
        output.push(0xf0 | ((v >> 18) & 0x7) as u8);
        output.push(0x80 | ((v >> 12) & 0x3f) as u8);
        output.push(0x80 | ((v >> 6) & 0x3f) as u8);
        output.push(0x80 | (v & 0x3f) as u8);
    }
    assert(final(output)@ =~= old(output)@ + encode_scalar(ch as u32));
}

/// Encoding a sequence extended by one character appends that character's encoding.
pub proof fn lemma_encode_utf8_push(chars: Seq<char>, c: char)
    ensures
        encode_utf8(chars.push(c)) == encode_utf8(chars) + encode_scalar(c as u32),
    decreases chars.len(),
{
    if chars.len() == 0 {
        assert(chars.push(c).drop_first() =~= Seq::<char>::empty());
        assert(encode_utf8(Seq::<char>::empty()) =~= Seq::<u8>::empty());
        assert(encode_utf8(chars.push(c)) =~= encode_scalar(c as u32));
    } else {
        lemma_encode_utf8_push(chars.drop_first(), c);
        assert(chars.push(c).drop_first() =~= chars.drop_first().push(c));
        assert(encode_utf8(chars.push(c)) =~= encode_scalar(chars[0] as u32) + encode_utf8(
            chars.drop_first().push(c),
        ));
    }
}

/// Encoding a concatenation of characters concatenates their encodings.
pub proof fn lemma_encode_utf8_concat(a: Seq<char>, b: Seq<char>)
    ensures
        encode_utf8(a + b) == encode_utf8(a) + encode_utf8(b),
    decreases a.len(),
{
    if a.len() == 0 {
        assert(a + b =~= b);
        assert(encode_utf8(a) =~= Seq::<u8>::empty());
        assert(encode_utf8(a) + encode_utf8(b) =~= encode_utf8(b));
    } else {
        lemma_encode_utf8_concat(a.drop_first(), b);
        assert((a + b).drop_first() =~= a.drop_first() + b);
        assert((a + b)[0] == a[0]);
        assert(encode_utf8(a + b) =~= encode_scalar(a[0] as u32) + encode_utf8(a.drop_first() + b));
    }
}

/// Decoding a concatenation of valid UTF-8 concatenates the decodings.
pub proof fn lemma_decode_utf8_concat(a: Seq<u8>, b: Seq<u8>)
    requires
        valid_utf8(a),
        valid_utf8(b),
    ensures
        valid_utf8(a + b),
        decode_utf8(a + b) == decode_utf8(a) + decode_utf8(b),
{
    valid_utf8_concat(a, b);
    decode_utf8_encode_utf8(a);
    decode_utf8_encode_utf8(b);
    lemma_encode_utf8_concat(decode_utf8(a), decode_utf8(b));
    encode_utf8_decode_utf8(decode_utf8(a) + decode_utf8(b));
}

/// Bytes none of which is a line feed.
pub open spec fn has_no_newline_byte(bytes: Seq<u8>) -> bool {
    forall|i: int| 0 <= i < bytes.len() ==> #[trigger] bytes[i] != 0x0au8
}

/// Characters none of which is a line feed.
pub open spec fn has_no_newline(chars: Seq<char>) -> bool {
    forall|i: int| 0 <= i < chars.len() ==> #[trigger] chars[i] != '\n'
}

/// Valid UTF-8 without a line-feed byte decodes to text without a line feed:
/// every byte of a multi-byte encoding is at least 0x80.
pub proof fn lemma_decode_no_newline(bytes: Seq<u8>)
    requires
        valid_utf8(bytes),
        has_no_newline_byte(bytes),
    ensures
        has_no_newline(decode_utf8(bytes)),
    decreases bytes.len(),
{
    if bytes.len() > 0 {
        let n = length_of_first_scalar(bytes);
        let rest = pop_first_scalar(bytes);
        assert(1 <= n <= bytes.len());
        assert(rest.len() == bytes.len() - n);
        assert forall|i: int| 0 <= i < rest.len() implies #[trigger] rest[i] != 0x0au8 by {
            assert(rest[i] == bytes[i + n]);
        }
        lemma_decode_no_newline(rest);
        let c = decode_first_scalar(bytes) as char;
        decode_utf8_first_scalar(bytes);
        if c == '\n' {
            assert(c as u32 == 10u32);
            assert(leading_byte_width_1(10u32) == 0x0au8) by (bit_vector);
            assert(encode_scalar(10u32) =~= seq![0x0au8]);
            assert(take_first_scalar(bytes)[0] == bytes[0]);
            assert(false);
        }
        let d = decode_utf8(bytes);
        assert(d == seq![c] + decode_utf8(rest));
        assert forall|i: int| 0 <= i < d.len() implies #[trigger] d[i] != '\n' by {
            if i == 0 {
                assert(d[0] == c);
            } else {
                assert(d[i] == decode_utf8(rest)[i - 1]);
            }
        }
    }
}

/// The characters of a string, in order.
pub fn chars_of(s: &str) -> (v: Vec<char>)
    ensures
        v@ == s@,
{
    broadcast use vstd::string::group_string_axioms;

    let mut it = s.chars();
    let mut v: Vec<char> = Vec::new();
    loop
        invariant
            it.obeys_prophetic_iter_laws(),
            v@ + it.remaining() == s@,
            it.decrease() is Some,
        decreases it.decrease()->0,
    {
        let ghost before = it;
        match it.next() {
            Some(c) => {
                assert(before.remaining().len() > 0);
                v.push(c);
                assert(v@ + it.remaining() =~= s@);
            },
            None => {
                assert(v@ =~= s@);
                return v;
            },
        }
    }
}

/// A string holding exactly the given characters.
pub fn string_from_chars(chars: &[char]) -> (s: String)
    ensures
        s@ == chars@,
{
    let mut bytes: Vec<u8> = Vec::new();
    let mut i: usize = 0;
    while i < chars.len()
        invariant
            0 <= i <= chars@.len(),
            bytes@ == encode_utf8(chars@.subrange(0, i as int)),
        decreases chars@.len() - i,
    {
        proof {
            lemma_encode_utf8_push(chars@.subrange(0, i as int), chars@[i as int]);
            assert(chars@.subrange(0, i + 1) =~= chars@.subrange(0, i as int).push(chars@[i as int]));
        }
        push_char(&mut bytes, chars[i]);
        i += 1;
    }
    proof {
        assert(chars@.subrange(0, chars@.len() as int) =~= chars@);
        encode_utf8_valid_utf8(chars@);
        encode_utf8_decode_utf8(chars@);
    }
    string_from_utf8_lossy(bytes.as_slice())
}

} // verus!
