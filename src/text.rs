use crate::engine::span_ok;
use vstd::prelude::*;
use vstd::string::*;
use vstd::utf8::*;

verus! {

broadcast use encode_utf8_valid_utf8;

/// The byte width of the character that starts at offset `i` of `bytes`; 1 at
/// or past the end, and where the byte at `i` does not start a character.
pub open spec fn char_width_at(bytes: Seq<u8>, i: int) -> int {
    if i < 0 || i >= bytes.len() {
        1
    } else if is_leading_byte_width_2(bytes[i]) {
        2
    } else if is_leading_byte_width_3(bytes[i]) {
        3
    } else if is_leading_byte_width_4(bytes[i]) {
        4
    } else {
        1
    }
}

/// In the encoding of a string, the character that starts at a boundary
/// before the end lies wholly inside it.
pub proof fn lemma_char_fits(s: &str, i: int)
    requires
        0 <= i < s.spec_bytes().len(),
        is_char_boundary(s.spec_bytes(), i),
    ensures
        i + char_width_at(s.spec_bytes(), i) <= s.spec_bytes().len(),
{
    let bytes = s.spec_bytes();
    valid_utf8_split(bytes, i);
    let rest = bytes.subrange(i, bytes.len() as int);
    assert(rest[0] == bytes[i]);
    assert(valid_first_scalar(rest));
}

/// The length of `text` in bytes.
pub fn byte_len(text: &str) -> (n: usize)
    ensures
        n == text.spec_bytes().len(),
{
    text.as_bytes().len()
}

/// The byte width of the character that starts at offset `i` of `text`.
pub fn char_width(text: &str, i: usize) -> (w: usize)
    ensures
        w == char_width_at(text.spec_bytes(), i as int),
        1 <= w <= 4,
{
    let bytes = text.as_bytes();
    if i >= bytes.len() {
        return 1;
    }
    let b = bytes[i];
    if 0xc0 <= b && b <= 0xdf {
        2
    } else if 0xe0 <= b && b <= 0xef {
        3
    } else if 0xf0 <= b && b <= 0xf7 {
        4
    } else {
        1
    }
}

/// The part of `text` between byte offsets `start` and `end`.
pub fn substring<'a>(text: &'a str, start: usize, end: usize) -> (r: &'a str)
    requires
        span_ok(text.spec_bytes(), (start, end)),
    ensures
        r.spec_bytes() == text.spec_bytes().subrange(start as int, end as int),
{
    let ghost bytes = text.spec_bytes();
    let (_, rest) = text.split_at(start);
    proof {
        let tail = bytes.subrange(start as int, bytes.len() as int);
        assert(rest.spec_bytes() == tail);
        valid_utf8_split(bytes, start as int);
        is_char_boundary_start_end_of_seq(tail);
        if end < bytes.len() {
            is_char_boundary_iff_not_is_continuation_byte(bytes, end as int);
            is_char_boundary_iff_not_is_continuation_byte(tail, end - start);
            assert(tail[end - start] == bytes[end as int]);
        }
    }
    let (r, _) = rest.split_at(end - start);
    proof {
        assert(r.spec_bytes() =~= bytes.subrange(start as int, end as int));
    }
    r
}

} // verus!
