//! Player names as text: which byte strings are text, and how a name is
//! made from the bytes that carry it.

use vstd::prelude::*;
use vstd::utf8::*;

verus! {

/// Every byte is below `0x80`.
pub open spec fn is_ascii_bytes(b: Seq<u8>) -> bool {
    forall|i: int| 0 <= i < b.len() ==> #[trigger] b[i] < 128
}

/// The text whose characters are the given bytes, one for one.
pub open spec fn ascii_text(b: Seq<u8>) -> Seq<char> {
    Seq::new(b.len(), |i: int| b[i] as char)
}

/// Bytes below `0x80` are well-formed UTF-8, and decode to themselves.
pub proof fn lemma_ascii_bytes_decode(b: Seq<u8>)
    requires
        is_ascii_bytes(b),
    ensures
        valid_utf8(b),
        decode_utf8(b) == ascii_text(b),
        is_ascii_chars(ascii_text(b)),
    decreases b.len(),
{
    if b.len() == 0 {
        assert(decode_utf8(b) =~= ascii_text(b));
    } else {
        let first = b[0];
        assert(first < 128);
        assert(is_leading_byte_width_1(first));
        assert(first & 0x7f == first) by (bit_vector)
            requires
                first < 128,
        ;
        let rest = pop_first_scalar(b);
        assert(rest =~= b.subrange(1, b.len() as int));
        assert forall|i: int| 0 <= i < rest.len() implies #[trigger] rest[i] < 128 by {
            assert(rest[i] == b[i + 1]);
        }
        lemma_ascii_bytes_decode(rest);
        assert(decode_first_scalar(b) == first as u32);
        assert(decode_utf8(b) =~= ascii_text(b)) by {
            assert forall|i: int| 0 <= i < b.len() implies decode_utf8(b)[i] == ascii_text(b)[i] by {
                if i > 0 {
                    assert(ascii_text(rest)[i - 1] == rest[i - 1] as char);
                }
            }
        }
    }
    assert forall|i: int| 0 <= i < ascii_text(b).len() implies '\0' <= #[trigger] ascii_text(b)[i]
        <= '\u{7f}' by {
        assert(b[i] < 128);
    }
}

/// Well-formed UTF-8 that decodes to ASCII characters holds no byte from
/// `0x80` on.
pub proof fn lemma_ascii_text_bytes(b: Seq<u8>)
    requires
        valid_utf8(b),
        is_ascii_chars(decode_utf8(b)),
    ensures
        is_ascii_bytes(b),
{
    let chars = decode_utf8(b);
    decode_utf8_encode_utf8(b);
    is_ascii_chars_encode_utf8(chars);
    is_ascii_chars_nat_bound(chars);
    assert forall|i: int| 0 <= i < b.len() implies #[trigger] b[i] < 128 by {
        assert(chars[i] as u8 == encode_utf8(chars)[i]);
        assert((chars[i] as nat) < 128);
    }
}

/// The encoding of one character is that character's own byte where the
/// character is below `0x80`, and else holds no byte below `0x80`.
pub proof fn lemma_encode_scalar_bytes(c: char)
    ensures
        encode_scalar(c as u32).len() >= 1,
        (c as u32) < 128 ==> encode_scalar(c as u32) == seq![c as u8] && c as u8 == c as u32,
        (c as u32) >= 128 ==> forall|k: int|
            0 <= k < encode_scalar(c as u32).len() ==> #[trigger] encode_scalar(c as u32)[k] >= 128,
{
    let s = c as u32;
    let e = encode_scalar(s);
    char_is_scalar(c);
    if s < 128 {
        assert((s & 0x7F) as u8 == s as u8) by (bit_vector)
            requires
                s < 128,
        ;
        assert(e =~= seq![c as u8]);
    } else {
        assert(forall|y: u8| #[trigger] (0x80u8 | y) >= 128) by (bit_vector);
        assert(forall|y: u8| #[trigger] (0xC0u8 | y) >= 128) by (bit_vector);
        assert(forall|y: u8| #[trigger] (0xE0u8 | y) >= 128) by (bit_vector);
        assert(forall|y: u8| #[trigger] (0xF0u8 | y) >= 128) by (bit_vector);
        assert forall|k: int| 0 <= k < e.len() implies #[trigger] e[k] >= 128 by {
            if has_width_2_encoding(s) {
                if k == 0 {
                    assert(e[k] == leading_byte_width_2(s));
                } else {
                    assert(e[k] == last_continuation_byte(s));
                }
            } else if has_width_3_encoding(s) {
                if k == 0 {
                    assert(e[k] == leading_byte_width_3(s));
                } else if k == 1 {
                    assert(e[k] == second_last_continuation_byte(s));
                } else {
                    assert(e[k] == last_continuation_byte(s));
                }
            } else {
                if k == 0 {
                    assert(e[k] == leading_byte_width_4(s));
                } else if k == 1 {
                    assert(e[k] == third_last_continuation_byte(s));
                } else if k == 2 {
                    assert(e[k] == second_last_continuation_byte(s));
                } else {
                    assert(e[k] == last_continuation_byte(s));
                }
            }
        }
    }
}

/// A text is encoded piece by piece.
pub proof fn lemma_encode_concat(a: Seq<char>, b: Seq<char>)
    ensures
        encode_utf8(a + b) == encode_utf8(a) + encode_utf8(b),
    decreases a.len(),
{
    if a.len() == 0 {
        assert(a + b =~= b);
        assert(encode_utf8(a) + encode_utf8(b) =~= encode_utf8(b));
    } else {
        assert((a + b).drop_first() =~= a.drop_first() + b);
        lemma_encode_concat(a.drop_first(), b);
        assert(encode_utf8(a + b) =~= encode_utf8(a) + encode_utf8(b));
    }
}

/// A byte below `0x80` stands in the encoding of a text only where the
/// text holds the character with that code.
pub proof fn lemma_encoding_lacks_byte(text: Seq<char>, b: u8)
    requires
        b < 128,
        forall|i: int| 0 <= i < text.len() ==> (#[trigger] text[i]) as u32 != b,
    ensures
        forall|k: int| 0 <= k < encode_utf8(text).len() ==> #[trigger] encode_utf8(text)[k] != b,
    decreases text.len(),
{
    if text.len() > 0 {
        let head = encode_scalar(text[0] as u32);
        let tail = encode_utf8(text.drop_first());
        lemma_encode_scalar_bytes(text[0]);
        assert forall|i: int| 0 <= i < text.drop_first().len() implies (
        #[trigger] text.drop_first()[i]) as u32 != b by {
            assert(text.drop_first()[i] == text[i + 1]);
        }
        lemma_encoding_lacks_byte(text.drop_first(), b);
        assert forall|k: int| 0 <= k < encode_utf8(text).len() implies #[trigger] encode_utf8(
            text,
        )[k] != b by {
            if k < head.len() {
                assert(encode_utf8(text)[k] == head[k]);
            } else {
                assert(encode_utf8(text)[k] == tail[k - head.len()]);
            }
        }
    }
}

/// The encoding of one character alone is that character's encoding.
proof fn lemma_encode_single(c: char)
    ensures
        encode_utf8(seq![c]) == encode_scalar(c as u32),
{
    let one = seq![c];
    assert(encode_utf8(one.drop_first()) =~= Seq::<u8>::empty());
    assert(encode_utf8(one) =~= encode_scalar(c as u32));
}

/// The encoding of a text ends in a given byte below `0x80` exactly where
/// the text ends in the character with that code.
pub proof fn lemma_encoding_last_byte(text: Seq<char>, b: u8)
    requires
        b < 128,
        text.len() > 0,
    ensures
        encode_utf8(text).len() > 0,
        encode_utf8(text).last() == b <==> text.last() as u32 == b,
{
    let front = text.drop_last();
    let back = seq![text.last()];
    let e = encode_scalar(text.last() as u32);
    assert(text =~= front + back);
    lemma_encode_concat(front, back);
    lemma_encode_scalar_bytes(text.last());
    lemma_encode_single(text.last());
    assert(encode_utf8(text).last() == e[e.len() - 1]);
}

/// A character below `0x80` stands in the encoding of a text as its own
/// byte.
pub proof fn lemma_encoding_holds_byte(text: Seq<char>, i: int)
    requires
        0 <= i < text.len(),
        (text[i] as u32) < 128,
    ensures
        exists|k: int|
            0 <= k < encode_utf8(text).len() && #[trigger] encode_utf8(text)[k] == text[i] as u32,
{
    let front = text.take(i);
    let back = text.skip(i + 1);
    let one = seq![text[i]];
    assert(text =~= front + one + back);
    lemma_encode_concat(front + one, back);
    lemma_encode_concat(front, one);
    lemma_encode_single(text[i]);
    lemma_encode_scalar_bytes(text[i]);
    let k = encode_utf8(front).len() as int;
    assert(encode_utf8(text)[k] == encode_scalar(text[i] as u32)[0]);
}

/// Makes a text of the given bytes, where they are well-formed UTF-8.
///
/// Calls `String::from_utf8`, which is not verified here. It is taken to
/// succeed exactly on well-formed UTF-8, and then to return the text that
/// those bytes encode.
#[verifier::external_body]
pub(crate) fn text_from_utf8(bytes: Vec<u8>) -> (r: Option<String>)
    ensures
        r is Some <==> valid_utf8(bytes@),
        r matches Some(s) ==> s@ == decode_utf8(bytes@),
{
    String::from_utf8(bytes).ok()
}

} // verus!
