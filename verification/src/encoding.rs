//! What the characters of a text say about its bytes in UTF-8.

use vstd::prelude::*;
use vstd::utf8::{encode_scalar, encode_utf8};
use crate::chars::utf8_width;
use crate::text::utf8_len;

verus! {

/// Whether `p` occurs in `s` as a block of neighbouring bytes.
pub open spec fn bytes_occur(s: Seq<u8>, p: Seq<u8>) -> bool {
    exists|k: int| 0 <= k && k + p.len() <= s.len() && #[trigger] s.subrange(k, k + p.len()) == p
}

/// The bytes of each character of a text occur in the bytes of the text.
pub proof fn lemma_char_bytes_occur(s: Seq<char>, i: int)
    requires
        0 <= i < s.len(),
    ensures
        bytes_occur(encode_utf8(s), encode_scalar(s[i] as u32)),
    decreases s.len(),
{
    let head = encode_scalar(s[0] as u32);
    let tail = encode_utf8(s.drop_first());
    let all = encode_utf8(s);
    assert(all == head + tail);
    if i == 0 {
        assert(all.subrange(0int, 0int + head.len()) =~= head);
    } else {
        let p = encode_scalar(s[i] as u32);
        assert(s.drop_first()[i - 1] == s[i]);
        lemma_char_bytes_occur(s.drop_first(), i - 1);
        let k = choose|k: int|
            0 <= k && k + p.len() <= tail.len() && #[trigger] tail.subrange(k, k + p.len()) == p;
        let k2 = k + head.len();
        assert(all.subrange(k2, k2 + p.len()) =~= tail.subrange(k, k + p.len()));
    }
}

/// A character below 128 is encoded as the one byte of that value.
pub proof fn lemma_ascii_encoding(c: char)
    requires
        (c as u32) < 0x80,
    ensures
        encode_scalar(c as u32) == seq![c as u8],
{
    let v = c as u32;
    assert(v & 0x7F == v) by (bit_vector)
        requires
            v < 0x80,
    ;
    assert(encode_scalar(v) =~= seq![c as u8]);
}

/// A text that holds the character `c`, below 128, holds the byte `c`.
pub proof fn lemma_ascii_byte_occurs(s: Seq<char>, c: char)
    requires
        (c as u32) < 0x80,
        s.contains(c),
    ensures
        encode_utf8(s).contains(c as u8),
{
    let i = choose|i: int| 0 <= i < s.len() && s[i] == c;
    lemma_char_bytes_occur(s, i);
    lemma_ascii_encoding(c);
    let all = encode_utf8(s);
    let p = seq![c as u8];
    let k = choose|k: int|
        0 <= k && k + p.len() <= all.len() && #[trigger] all.subrange(k, k + p.len()) == p;
    assert(all.subrange(k, k + 1)[0] == all[k]);
    assert(all[k] == c as u8);
}

/// The encoding of a text of one character is the encoding of the character.
pub proof fn lemma_single_encoding(c: char)
    ensures
        encode_utf8(seq![c]) == encode_scalar(c as u32),
{
    let s = seq![c];
    assert(encode_utf8(s.drop_first()) =~= Seq::<u8>::empty());
    assert(encode_utf8(s) =~= encode_scalar(c as u32));
}

/// The byte length of a text is the length of its encoding.
pub proof fn lemma_utf8_len_is_encoded_len(s: Seq<char>)
    ensures
        utf8_len(s) == encode_utf8(s).len(),
    decreases s.len(),
{
    if s.len() > 0 {
        lemma_encoding_of_push(s.drop_last(), s.last());
        assert(s.drop_last().push(s.last()) =~= s);
        lemma_utf8_len_is_encoded_len(s.drop_last());
    }
}

/// Appending a character appends its bytes.
pub proof fn lemma_encoding_of_push(s: Seq<char>, c: char)
    ensures
        encode_utf8(s.push(c)) == encode_utf8(s) + encode_scalar(c as u32),
        encode_scalar(c as u32).len() == utf8_width(c),
    decreases s.len(),
{
    vstd::utf8::char_is_scalar(c);
    if s.len() == 0 {
        lemma_single_encoding(c);
        assert(s.push(c) =~= seq![c]);
        assert(encode_utf8(s) =~= Seq::<u8>::empty());
        assert(encode_utf8(s) + encode_scalar(c as u32) =~= encode_scalar(c as u32));
    } else {
        let t = s.push(c);
        assert(t.drop_first() =~= s.drop_first().push(c));
        lemma_encoding_of_push(s.drop_first(), c);
        assert(encode_utf8(t) =~= encode_utf8(s) + encode_scalar(c as u32));
    }
}

/// Every byte of the encoding of a character of 128 or above is 128 or
/// above.
pub proof fn lemma_wide_encoding(c: char, k: int)
    requires
        (c as u32) >= 0x80,
        0 <= k < encode_scalar(c as u32).len(),
    ensures
        encode_scalar(c as u32)[k] >= 0x80,
{
    assert(forall|y: u8| 0xC0u8 | y >= 0x80u8) by (bit_vector);
    assert(forall|y: u8| 0xE0u8 | y >= 0x80u8) by (bit_vector);
    assert(forall|y: u8| 0xF0u8 | y >= 0x80u8) by (bit_vector);
    assert(forall|y: u8| 0x80u8 | y >= 0x80u8) by (bit_vector);
}

/// A byte below 128 in the encoding of a text is a character of the text.
pub proof fn lemma_ascii_byte_is_char(s: Seq<char>, k: int)
    requires
        0 <= k < encode_utf8(s).len(),
        encode_utf8(s)[k] < 0x80,
    ensures
        s.contains(encode_utf8(s)[k] as char),
    decreases s.len(),
{
    let head = encode_scalar(s[0] as u32);
    let tail = encode_utf8(s.drop_first());
    let all = encode_utf8(s);
    assert(all == head + tail);
    if k < head.len() {
        assert(all[k] == head[k]);
        if (s[0] as u32) >= 0x80 {
            lemma_wide_encoding(s[0], k);
        } else {
            lemma_ascii_encoding(s[0]);
            vstd::utf8::char_u32_cast(s[0], s[0] as u32);
            assert(all[k] as char == s[0]);
        }
    } else {
        assert(all[k] == tail[k - head.len()]);
        lemma_ascii_byte_is_char(s.drop_first(), k - head.len());
        let c = all[k] as char;
        let i = choose|i: int| 0 <= i < s.drop_first().len() && s.drop_first()[i] == c;
        assert(s[i + 1] == c);
    }
}

/// Whether `text` holds the character of the value `b`, below 128: whether
/// its bytes hold `b`.
pub fn holds_ascii(text: &str, b: u8) -> (r: bool)
    requires
        b < 0x80,
    ensures
        r == text@.contains(b as char),
{
    let found = memchr::memchr(b, text.as_bytes());
    proof {
        if text@.contains(b as char) {
            lemma_ascii_byte_occurs(text@, b as char);
        }
        if let Some(k) = found {
            lemma_ascii_byte_is_char(text@, k as int);
        }
    }
    found.is_some()
}

/// Where the bytes of a character occur in the bytes of a text, as a block
/// of neighbouring bytes, the text holds the character: an encoding starts
/// with a byte that no encoding holds further on, so the block is the
/// encoding of one character of the text.
pub proof fn lemma_char_bytes_are_char(s: Seq<char>, c: char, k: int)
    requires
        0 <= k,
        k + encode_scalar(c as u32).len() <= encode_utf8(s).len(),
        encode_utf8(s).subrange(k, k + encode_scalar(c as u32).len()) == encode_scalar(c as u32),
    ensures
        s.contains(c),
    decreases s.len(),
{
    let p = encode_scalar(c as u32);
    let all = encode_utf8(s);
    lemma_encoding_of_push(Seq::<char>::empty(), c);
    lemma_single_encoding(c);
    vstd::utf8::encode_utf8_first_scalar(seq![c]);
    assert(seq![c][0] == c);
    if s.len() == 0 {
        assert(all.len() == 0);
    } else {
        let head = encode_scalar(s[0] as u32);
        let tail = encode_utf8(s.drop_first());
        let h = head.len() as int;
        assert(all == head + tail);
        lemma_encoding_of_push(Seq::<char>::empty(), s[0]);
        vstd::utf8::encode_utf8_first_scalar(s);
        let found = all.subrange(k, k + p.len());
        assert(found[0] == all[k]);
        if k == 0 {
            assert forall|i: int| 0 <= i < p.len() implies all[i] == p[i] by {
                assert(found[i] == all[k + i]);
            }
            assert(s[0] as u32 == c as u32);
            vstd::utf8::char_u32_cast(s[0], s[0] as u32);
            vstd::utf8::char_u32_cast(c, c as u32);
            assert(s[0] == c);
        } else if k < h {
            // a byte behind the first of an encoding starts no encoding
            assert(vstd::utf8::is_continuation_byte(all[k]));
            assert(!vstd::utf8::is_continuation_byte(p[0]));
        } else {
            assert(tail.subrange(k - h, k - h + p.len()) =~= found);
            lemma_char_bytes_are_char(s.drop_first(), c, k - h);
            let i = choose|i: int| 0 <= i < s.drop_first().len() && s.drop_first()[i] == c;
            assert(s[i + 1] == c);
        }
    }
}

/// Whether `text` holds the character `c`, given also as the text `needle`
/// of that one character: whether the bytes of `needle` occur in the bytes
/// of `text`.
pub fn may_hold_char(text: &str, needle: &str, c: char) -> (r: bool)
    requires
        needle@ == seq![c],
    ensures
        r == text@.contains(c),
{
    let found = memchr::memmem::find(text.as_bytes(), needle.as_bytes());
    proof {
        lemma_single_encoding(c);
        if text@.contains(c) {
            let i = choose|i: int| 0 <= i < text@.len() && text@[i] == c;
            lemma_char_bytes_occur(text@, i);
        }
        if let Some(k) = found {
            lemma_char_bytes_are_char(text@, c, k as int);
        }
    }
    found.is_some()
}

} // verus!
