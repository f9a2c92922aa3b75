//! Facts that tie the characters of a string to the bytes of its UTF-8
//! encoding, and the few string operations the rest of the crate is built on.
//!
//! The lexer walks over bytes but is specified over characters; the row codec
//! stores strings as bytes.  Both lean on the lemmas below.

use vstd::prelude::*;
use vstd::string::*;
use vstd::utf8::*;

verus! {

/// A scalar below 0x80 is encoded as itself; every byte of any other
/// encoding is at least 0x80.
pub proof fn lemma_encode_scalar_bytes(c: u32)
    requires
        is_scalar(c),
    ensures
        1 <= encode_scalar(c).len() <= 4,
        c < 0x80 ==> encode_scalar(c) == seq![c as u8],
        c >= 0x80 ==> forall|i: int|
            0 <= i < encode_scalar(c).len() ==> #[trigger] encode_scalar(c)[i] >= 0x80,
{
    if has_width_1_encoding(c) {
        assert(leading_byte_width_1(c) == c as u8) by (bit_vector)
            requires
                c <= 0x7f,
        ;
    } else if has_width_2_encoding(c) {
        assert(leading_byte_width_2(c) >= 0x80 && last_continuation_byte(c) >= 0x80)
            by (bit_vector);
    } else if has_width_3_encoding(c) {
        assert(leading_byte_width_3(c) >= 0x80 && second_last_continuation_byte(c) >= 0x80
            && last_continuation_byte(c) >= 0x80) by (bit_vector);
    } else {
        assert(leading_byte_width_4(c) >= 0x80 && third_last_continuation_byte(c) >= 0x80
            && second_last_continuation_byte(c) >= 0x80 && last_continuation_byte(c) >= 0x80)
            by (bit_vector);
    }
}

/// The scalar value of a character, as a number, is the character itself.
pub proof fn lemma_char_scalar(c: char)
    ensures
        (c as u32) as int == c as int,
        is_scalar(c as u32),
        c <= '\u{7f}' <==> (c as u32) < 0x80,
{
}

/// The encoding of a non-empty string starts with an ASCII byte exactly when
/// the string starts with an ASCII character, and then that byte is the
/// character and the rest of the bytes encode the rest of the string.
pub proof fn lemma_first_char(chars: Seq<char>)
    requires
        chars.len() > 0,
    ensures
        encode_utf8(chars).len() > 0,
        encode_utf8(chars)[0] < 0x80 <==> chars[0] <= '\u{7f}',
        encode_utf8(chars)[0] < 0x80 ==> chars[0] == encode_utf8(chars)[0] as char && encode_utf8(
            chars.drop_first(),
        ) == encode_utf8(chars).skip(1),
{
    let c = chars[0] as u32;
    lemma_char_scalar(chars[0]);
    lemma_encode_scalar_bytes(c);
    let head = encode_scalar(c);
    let tail = encode_utf8(chars.drop_first());
    assert(encode_utf8(chars) == head + tail);
    assert((head + tail)[0] == head[0]);
    if c < 0x80 {
        assert((head + tail).skip(1) =~= tail);
    } else {
        assert(head[0] >= 0x80);
    }
}

/// Only the empty string has an empty encoding.
pub proof fn lemma_empty_encoding(chars: Seq<char>)
    ensures
        encode_utf8(chars).len() == 0 <==> chars.len() == 0,
{
    if chars.len() > 0 {
        lemma_first_char(chars);
    }
}

/// Where the first `n` bytes of an encoding are ASCII, they are the first
/// `n` characters, one byte each, and the remaining bytes encode the
/// remaining characters.
pub proof fn lemma_ascii_prefix(chars: Seq<char>, n: int)
    requires
        0 <= n <= encode_utf8(chars).len(),
        forall|i: int| 0 <= i < n ==> #[trigger] encode_utf8(chars)[i] < 0x80,
    ensures
        n <= chars.len(),
        forall|i: int| 0 <= i < n ==> #[trigger] chars[i] == encode_utf8(chars)[i] as char,
        encode_utf8(chars.skip(n)) == encode_utf8(chars).skip(n),
        is_char_boundary(encode_utf8(chars), n),
    decreases n,
{
    let bytes = encode_utf8(chars);
    encode_utf8_valid_utf8(chars);
    if n == 0 {
        assert(chars.skip(0) =~= chars);
        assert(bytes.skip(0) =~= bytes);
    } else {
        lemma_empty_encoding(chars);
        lemma_first_char(chars);
        let rest = chars.drop_first();
        let rest_bytes = encode_utf8(rest);
        assert(rest_bytes == bytes.skip(1));
        assert forall|i: int| 0 <= i < n - 1 implies #[trigger] rest_bytes[i] < 0x80 by {
            assert(rest_bytes[i] == bytes[i + 1]);
        }
        lemma_ascii_prefix(rest, n - 1);
        assert forall|i: int| 0 <= i < n implies #[trigger] chars[i] == bytes[i] as char by {
            if i > 0 {
                assert(chars[i] == rest[i - 1]);
                assert(bytes[i] == rest_bytes[i - 1]);
            }
        }
        assert(chars.skip(n) =~= rest.skip(n - 1));
        assert(bytes.skip(n) =~= rest_bytes.skip(n - 1));
        assert(pop_first_scalar(bytes) =~= rest_bytes);
        assert(is_char_boundary(bytes, n));
    }
}

/// What the byte at position `n` says about the character at position `n`,
/// after `n` ASCII bytes: there is such a byte exactly when there is such a
/// character, an ASCII byte is that character, and any other byte begins a
/// character outside ASCII.
pub proof fn lemma_char_after_ascii_prefix(chars: Seq<char>, n: int)
    requires
        0 <= n <= encode_utf8(chars).len(),
        forall|i: int| 0 <= i < n ==> #[trigger] encode_utf8(chars)[i] < 0x80,
    ensures
        n <= chars.len(),
        n == encode_utf8(chars).len() <==> n == chars.len(),
        n < chars.len() ==> (encode_utf8(chars)[n] < 0x80 <==> chars[n] <= '\u{7f}'),
        n < chars.len() && encode_utf8(chars)[n] < 0x80 ==> chars[n] == encode_utf8(chars)[n] as char,
{
    lemma_ascii_prefix(chars, n);
    let rest = chars.skip(n);
    lemma_empty_encoding(rest);
    if rest.len() > 0 {
        lemma_first_char(rest);
        assert(rest[0] == chars[n]);
        assert(encode_utf8(chars).skip(n)[0] == encode_utf8(chars)[n]);
    }
}

/// An ASCII byte that occurs nowhere in the encoding occurs nowhere in the
/// string, and the other way round.
pub proof fn lemma_ascii_byte_absent(chars: Seq<char>, d: u8)
    requires
        d < 0x80,
    ensures
        (forall|i: int| 0 <= i < encode_utf8(chars).len() ==> #[trigger] encode_utf8(chars)[i] != d)
            <==> (forall|k: int| 0 <= k < chars.len() ==> #[trigger] chars[k] != d as char),
    decreases chars.len(),
{
    let bytes = encode_utf8(chars);
    if chars.len() > 0 {
        let c = chars[0] as u32;
        let rest = chars.drop_first();
        let head = encode_scalar(c);
        let tail = encode_utf8(rest);
        lemma_char_scalar(chars[0]);
        lemma_encode_scalar_bytes(c);
        lemma_ascii_byte_absent(rest, d);
        assert(bytes == head + tail);
        let absent_bytes = forall|i: int| 0 <= i < bytes.len() ==> #[trigger] bytes[i] != d;
        let absent_chars = forall|k: int| 0 <= k < chars.len() ==> #[trigger] chars[k] != d as char;
        if absent_bytes {
            assert(bytes[0] == head[0]);
            assert forall|i: int| 0 <= i < tail.len() implies #[trigger] tail[i] != d by {
                assert(tail[i] == bytes[head.len() + i]);
            }
            assert forall|k: int| 0 <= k < chars.len() implies #[trigger] chars[k] != d as char by {
                if k > 0 {
                    assert(chars[k] == rest[k - 1]);
                }
            }
        }
        if absent_chars {
            assert(chars[0] != d as char);
            assert forall|k: int| 0 <= k < rest.len() implies #[trigger] rest[k] != d as char by {
                assert(rest[k] == chars[k + 1]);
            }
            assert forall|i: int| 0 <= i < bytes.len() implies #[trigger] bytes[i] != d by {
                if i < head.len() {
                    assert(bytes[i] == head[i]);
                } else {
                    assert(bytes[i] == tail[i - head.len()]);
                }
            }
        }
    }
}

/// Splits a string at a byte offset that lies between two characters.
pub fn split_str<'a>(s: &'a str, mid: usize) -> (parts: (&'a str, &'a str))
    requires
        is_char_boundary(s.spec_bytes(), mid as int),
    ensures
        parts.0@ + parts.1@ == s@,
        parts.0.spec_bytes() == s.spec_bytes().take(mid as int),
        parts.1.spec_bytes() == s.spec_bytes().skip(mid as int),
        mid <= s.spec_bytes().len(),
{
    let ghost bytes = s.spec_bytes();
    proof {
        encode_utf8_valid_utf8(s@);
        if mid > 0 {
            reveal_with_fuel(is_char_boundary, 1);
        }
    }
    let parts = s.split_at(mid);
    proof {
        decode_utf8_split(bytes, mid as int);
        encode_utf8_decode_utf8(s@);
        encode_utf8_decode_utf8(parts.0@);
        encode_utf8_decode_utf8(parts.1@);
        assert(bytes.take(mid as int) =~= bytes.subrange(0, mid as int));
        assert(bytes.skip(mid as int) =~= bytes.subrange(mid as int, bytes.len() as int));
    }
    parts
}

/// Any boundary of a suffix that itself starts on a boundary is a boundary
/// of the whole.
pub proof fn lemma_boundary_in_suffix(bytes: Seq<u8>, start: int, n: int)
    requires
        valid_utf8(bytes),
        is_char_boundary(bytes, start),
        is_char_boundary(bytes.skip(start), n),
    ensures
        0 <= start <= bytes.len(),
        0 <= n <= bytes.len() - start,
        is_char_boundary(bytes, start + n),
        bytes.skip(start + n) == bytes.skip(start).skip(n),
{
    if start != 0 {
        reveal_with_fuel(is_char_boundary, 1);
    }
    let suffix = bytes.skip(start);
    valid_utf8_split(bytes, start);
    assert(suffix =~= bytes.subrange(start, bytes.len() as int));
    if n != 0 {
        reveal_with_fuel(is_char_boundary, 1);
    }
    assert(bytes.skip(start + n) =~= suffix.skip(n));
    if start + n == bytes.len() {
        is_char_boundary_start_end_of_seq(bytes);
    } else {
        is_char_boundary_iff_not_is_continuation_byte(suffix, n);
        is_char_boundary_iff_not_is_continuation_byte(bytes, start + n);
        assert(suffix[n] == bytes[start + n]);
    }
}

/// `core::str::Utf8Error`, the error of `core::str::from_utf8`.  Nothing is
/// said of what it holds.
#[verifier::external_type_specification]
#[verifier::external_body]
pub struct ExUtf8Error(core::str::Utf8Error);

/// `core::str::from_utf8` accepts exactly the byte slices that are valid
/// UTF-8, and the string it then returns is made of the very bytes it was
/// given.
pub assume_specification[ core::str::from_utf8 ](v: &[u8]) -> (res: Result<
    &str,
    core::str::Utf8Error,
>)
    ensures
        res is Ok <==> valid_utf8(v@),
        res matches Ok(s) ==> s.spec_bytes() == v@,
;

/// The first character of a string, if it has one.
pub fn first_char(s: &str) -> (first: Option<char>)
    ensures
        first == (if s@.len() > 0 {
            Some(s@[0])
        } else {
            None
        }),
{
    broadcast use vstd::string::group_string_axioms;

    let mut chars = s.chars();
    chars.next()
}

/// Splits a string after its first `n` bytes, all of them ASCII.
pub fn split_ascii_prefix<'a>(s: &'a str, n: usize) -> (parts: (&'a str, &'a str))
    requires
        n <= s.spec_bytes().len(),
        forall|i: int| 0 <= i < n ==> #[trigger] s.spec_bytes()[i] < 0x80,
    ensures
        n <= s@.len(),
        parts.0@ == s@.take(n as int),
        parts.1@ == s@.skip(n as int),
{
    proof {
        lemma_ascii_prefix(s@, n as int);
    }
    let parts = split_str(s, n);
    proof {
        encode_utf8_decode_utf8(parts.1@);
        encode_utf8_decode_utf8(s@.skip(n as int));
        assert(parts.1@ == s@.skip(n as int));
        assert(parts.0@ =~= s@.take(n as int)) by {
            assert(parts.0@.len() == n);
            assert forall|i: int| 0 <= i < n implies parts.0@[i] == s@[i] by {
                assert((parts.0@ + parts.1@)[i] == parts.0@[i]);
            }
        }
    }
    parts
}

/// Whether two strings hold the same characters.
pub fn str_eq(a: &str, b: &str) -> (same: bool)
    ensures
        same == (a@ == b@),
{
    let x = a.as_bytes();
    let y = b.as_bytes();
    if x.len() != y.len() {
        return false;
    }
    let mut i: usize = 0;
    while i < x.len()
        invariant
            i <= x@.len(),
            x@.len() == y@.len(),
            x@ == a.spec_bytes(),
            y@ == b.spec_bytes(),
            forall|j: int| 0 <= j < i ==> x@[j] == y@[j],
        decreases x@.len() - i,
    {
        if x[i] != y[i] {
            return false;
        }
        i += 1;
    }
    proof {
        assert(x@ =~= y@);
        encode_utf8_decode_utf8(a@);
        encode_utf8_decode_utf8(b@);
    }
    true
}

} // verus!
