//! Strings and their bytes: a double quote is one byte in UTF-8, and that
//! byte stands for nothing else, so a string ends at the same place whether
//! its characters or its bytes are read.

use vstd::prelude::*;
use vstd::utf8::{
    decode_utf8, decode_utf8_encode_utf8, encode_utf8, encode_utf8_decode_utf8,
    encode_utf8_valid_utf8, is_ascii_chars, is_ascii_chars_encode_utf8, is_char_boundary,
    is_char_boundary_iff_not_is_continuation_byte, length_of_first_scalar, pop_first_scalar,
    valid_utf8, valid_utf8_split,
};

verus! {

/// Whether a text is a string: it stands in double quotes and has no double
/// quote inside.
pub open spec fn is_string(s: Seq<char>) -> bool {
    &&& s.len() >= 2
    &&& s[0] == '"'
    &&& s[s.len() - 1] == '"'
    &&& forall|i: int| 0 < i < s.len() - 1 ==> s[i] != '"'
}

/// The bytes of two texts, one behind the other.
pub proof fn lemma_encode_add(a: Seq<char>, b: Seq<char>)
    ensures
        encode_utf8(a + b) == encode_utf8(a) + encode_utf8(b),
    decreases a.len(),
{
    if a.len() == 0 {
        assert(a + b =~= b);
        assert(encode_utf8(a) + encode_utf8(b) =~= encode_utf8(b));
    } else {
        lemma_encode_add(a.drop_first(), b);
        assert((a + b).drop_first() =~= a.drop_first() + b);
        assert((a + b)[0] == a[0]);
        assert(encode_utf8(a + b) =~= encode_utf8(a) + encode_utf8(b));
    }
}

/// A double quote is the byte 34.
pub proof fn lemma_encode_quote()
    ensures
        encode_utf8(seq!['"']) == seq![34u8],
{
    let s = seq!['"'];
    assert(is_ascii_chars(s));
    is_ascii_chars_encode_utf8(s);
    assert(s[0] as u8 == encode_utf8(s)[0]);
    assert(encode_utf8(s) =~= seq![34u8]);
}

/// Where a text has the byte 34, it has a double quote, and what stands
/// before and behind it are texts.
pub proof fn lemma_quote_byte(bytes: Seq<u8>, j: int)
    requires
        valid_utf8(bytes),
        0 <= j < bytes.len(),
        bytes[j] == 34,
    ensures
        valid_utf8(bytes.subrange(0, j)),
        valid_utf8(bytes.subrange(j + 1, bytes.len() as int)),
        decode_utf8(bytes) == decode_utf8(bytes.subrange(0, j)) + seq!['"'] + decode_utf8(
            bytes.subrange(j + 1, bytes.len() as int),
        ),
{
    is_char_boundary_iff_not_is_continuation_byte(bytes, j);
    assert(is_char_boundary(bytes, j));
    valid_utf8_split(bytes, j);
    let a = bytes.subrange(0, j);
    let b = bytes.subrange(j, bytes.len() as int);
    let c = bytes.subrange(j + 1, bytes.len() as int);
    assert(b[0] == 34);
    assert(length_of_first_scalar(b) == 1);
    assert(pop_first_scalar(b) =~= c);
    assert(valid_utf8(c));
    let s = decode_utf8(a) + seq!['"'] + decode_utf8(c);
    lemma_encode_add(decode_utf8(a) + seq!['"'], decode_utf8(c));
    lemma_encode_add(decode_utf8(a), seq!['"']);
    lemma_encode_quote();
    decode_utf8_encode_utf8(a);
    decode_utf8_encode_utf8(c);
    assert(encode_utf8(s) =~= bytes);
    encode_utf8_decode_utf8(s);
}

/// A text without a double quote has no byte 34.
pub proof fn lemma_no_quote_bytes(s: Seq<char>)
    requires
        forall|i: int| 0 <= i < s.len() ==> s[i] != '"',
    ensures
        forall|j: int| 0 <= j < encode_utf8(s).len() ==> encode_utf8(s)[j] != 34,
{
    let e = encode_utf8(s);
    encode_utf8_valid_utf8(s);
    encode_utf8_decode_utf8(s);
    assert forall|j: int| 0 <= j < e.len() implies e[j] != 34 by {
        if e[j] == 34 {
            lemma_quote_byte(e, j);
            let k = decode_utf8(e.subrange(0, j)).len() as int;
            assert(s[k] == '"');
        }
    }
}

/// Bytes without the byte 34 are a text without a double quote.
pub proof fn lemma_no_quote_chars(bytes: Seq<u8>)
    requires
        valid_utf8(bytes),
        forall|j: int| 0 <= j < bytes.len() ==> bytes[j] != 34,
    ensures
        forall|i: int| 0 <= i < decode_utf8(bytes).len() ==> decode_utf8(bytes)[i] != '"',
{
    let s = decode_utf8(bytes);
    decode_utf8_encode_utf8(bytes);
    assert forall|i: int| 0 <= i < s.len() implies s[i] != '"' by {
        if s[i] == '"' {
            let a = s.take(i);
            let c = s.skip(i + 1);
            assert(s =~= a + seq!['"'] + c);
            lemma_encode_add(a + seq!['"'], c);
            lemma_encode_add(a, seq!['"']);
            lemma_encode_quote();
            assert(encode_utf8(s)[encode_utf8(a).len() as int] == 34);
        }
    }
}

/// The bytes of a string: the byte 34 at both ends and nowhere between.
pub proof fn lemma_string_bytes(s: Seq<char>)
    requires
        is_string(s),
    ensures
        encode_utf8(s).len() >= 2,
        encode_utf8(s)[0] == 34,
        encode_utf8(s)[encode_utf8(s).len() - 1] == 34,
        forall|j: int| 0 < j < encode_utf8(s).len() - 1 ==> encode_utf8(s)[j] != 34,
{
    let inner = s.subrange(1, s.len() - 1);
    assert(s =~= seq!['"'] + inner + seq!['"']);
    lemma_encode_add(seq!['"'] + inner, seq!['"']);
    lemma_encode_add(seq!['"'], inner);
    lemma_encode_quote();
    lemma_no_quote_bytes(inner);
    let e = encode_utf8(s);
    assert(e =~= seq![34u8] + encode_utf8(inner) + seq![34u8]);
    assert forall|j: int| 0 < j < e.len() - 1 implies e[j] != 34 by {
        assert(e[j] == encode_utf8(inner)[j - 1]);
    }
}

/// Bytes of a text from a byte 34 to the next one are a string.
pub proof fn lemma_string_text(bytes: Seq<u8>, start: int, end: int)
    requires
        valid_utf8(bytes),
        0 <= start,
        start + 2 <= end <= bytes.len(),
        bytes[start] == 34,
        bytes[end - 1] == 34,
        forall|j: int| start < j < end - 1 ==> bytes[j] != 34,
    ensures
        valid_utf8(bytes.subrange(start, end)),
        is_string(decode_utf8(bytes.subrange(start, end))),
{
    lemma_quote_byte(bytes, start);
    let c = bytes.subrange(start + 1, bytes.len() as int);
    let k = end - start - 2;
    assert(c[k] == bytes[end - 1]);
    lemma_quote_byte(c, k);
    let inner = c.subrange(0, k);
    let t = bytes.subrange(start, end);
    assert(t =~= seq![34u8] + inner + seq![34u8]);
    let s = seq!['"'] + decode_utf8(inner) + seq!['"'];
    lemma_encode_add(seq!['"'] + decode_utf8(inner), seq!['"']);
    lemma_encode_add(seq!['"'], decode_utf8(inner));
    lemma_encode_quote();
    decode_utf8_encode_utf8(inner);
    assert(encode_utf8(s) =~= t);
    encode_utf8_valid_utf8(s);
    encode_utf8_decode_utf8(s);
    assert forall|j: int| 0 <= j < inner.len() implies inner[j] != 34 by {
        assert(inner[j] == bytes[start + 1 + j]);
    }
    lemma_no_quote_chars(inner);
    assert forall|i: int| 0 < i < s.len() - 1 implies s[i] != '"' by {
        assert(s[i] == decode_utf8(inner)[i - 1]);
    }
}

} // verus!
