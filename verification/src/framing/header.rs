//! Header blocks: where one ends, the lines it holds, and the body length that
//! its `Content-Length` field declares.

use super::decimal::{parse_length, read_length};
use vstd::prelude::*;
use vstd::slice::slice_subrange;
use vstd::string::StringSliceAdditionalSpecFns;

verus! {

/// A header closes at `k` when the four bytes before `k` are CR LF CR LF.
pub open spec fn closes_at(bytes: Seq<u8>, k: int) -> bool {
    &&& 4 <= k <= bytes.len()
    &&& bytes[k - 4] == 13
    &&& bytes[k - 3] == 10
    &&& bytes[k - 2] == 13
    &&& bytes[k - 1] == 10
}

/// The first place at or after `k` at which a header closes.
pub open spec fn first_close(bytes: Seq<u8>, k: int) -> Option<int>
    decreases bytes.len() + 1 - k,
{
    if k > bytes.len() {
        None
    } else if closes_at(bytes, k) {
        Some(k)
    } else {
        first_close(bytes, k + 1)
    }
}

/// The length of the header block that `bytes` starts with, blank line
/// included: the first place at which a header closes.
pub open spec fn header_end(bytes: Seq<u8>) -> Option<int> {
    first_close(bytes, 0)
}

/// `first_close` finds the least closing place, if there is one.
pub proof fn lemma_first_close(bytes: Seq<u8>, k: int)
    requires
        0 <= k,
    ensures
        match first_close(bytes, k) {
            Some(e) => k <= e && closes_at(bytes, e) && forall|j: int|
                k <= j < e ==> !closes_at(bytes, j),
            None => forall|j: int| k <= j ==> !closes_at(bytes, j),
        },
    decreases bytes.len() + 1 - k,
{
    if k <= bytes.len() && !closes_at(bytes, k) {
        lemma_first_close(bytes, k + 1);
    }
}

/// A line break stands at `i`: CR, then LF.
pub open spec fn is_break(text: Seq<u8>, i: int) -> bool {
    0 <= i && i + 1 < text.len() && text[i] == 13 && text[i + 1] == 10
}

/// Where the line that starts at `from` ends: at the next line break, or at
/// the end of the text.
pub open spec fn line_end(text: Seq<u8>, from: int) -> int
    decreases text.len() - from,
{
    if from >= text.len() {
        text.len() as int
    } else if is_break(text, from) {
        from
    } else {
        line_end(text, from + 1)
    }
}

/// The lines of `text` from `from` on, split at each CR LF. A text that ends
/// in a line break has an empty last line.
pub open spec fn lines_from(text: Seq<u8>, from: int) -> Seq<Seq<u8>>
    decreases text.len() - from,
{
    let end = line_end(text, from);
    if from <= end && is_break(text, end) {
        seq![text.subrange(from, end)] + lines_from(text, end + 2)
    } else {
        seq![text.subrange(from, text.len() as int)]
    }
}

/// The lines of a header block.
pub open spec fn header_lines(text: Seq<u8>) -> Seq<Seq<u8>> {
    lines_from(text, 0)
}

/// The name of the length field, colon included, in lower case.
pub open spec fn field_name() -> Seq<u8> {
    "content-length:".spec_bytes()
}

/// An ASCII capital becomes its small letter; every other byte stays.
pub open spec fn lower(b: u8) -> u8 {
    if 65 <= b <= 90 {
        (b + 32) as u8
    } else {
        b
    }
}

/// True when `line` starts with the name of the length field, in any case.
pub open spec fn names_length(line: Seq<u8>) -> bool {
    &&& line.len() >= field_name().len()
    &&& forall|i: int| 0 <= i < field_name().len() ==> lower(#[trigger] line[i]) == field_name()[i]
}

/// One of the six ASCII bytes that count as white space.
pub open spec fn is_narrow_space(b: u8) -> bool {
    9 <= b <= 13 || b == 32
}

/// The UTF-8 encoding of U+0085 or U+00A0.
pub open spec fn is_medium_space(a: u8, b: u8) -> bool {
    a == 0xC2 && (b == 0x85 || b == 0xA0)
}

/// The UTF-8 encoding of one of the white-space characters from U+1680 up:
/// U+1680, U+2000 to U+200A, U+2028, U+2029, U+202F, U+205F, U+3000.
pub open spec fn is_wide_space(a: u8, b: u8, c: u8) -> bool {
    ||| a == 0xE1 && b == 0x9A && c == 0x80
    ||| a == 0xE2 && b == 0x80 && (0x80 <= c <= 0x8A || c == 0xA8 || c == 0xA9 || c == 0xAF)
    ||| a == 0xE2 && b == 0x81 && c == 0x9F
    ||| a == 0xE3 && b == 0x80 && c == 0x80
}

/// How many bytes the white-space character at the start of `text` takes;
/// zero when `text` starts with none.
pub open spec fn space_prefix(text: Seq<u8>) -> int {
    if text.len() >= 1 && is_narrow_space(text[0]) {
        1
    } else if text.len() >= 2 && is_medium_space(text[0], text[1]) {
        2
    } else if text.len() >= 3 && is_wide_space(text[0], text[1], text[2]) {
        3
    } else {
        0
    }
}

/// How many bytes the white-space character at the end of `text` takes; zero
/// when `text` ends with none.
pub open spec fn space_suffix(text: Seq<u8>) -> int {
    let n = text.len() as int;
    if n >= 1 && is_narrow_space(text[n - 1]) {
        1
    } else if n >= 2 && is_medium_space(text[n - 2], text[n - 1]) {
        2
    } else if n >= 3 && is_wide_space(text[n - 3], text[n - 2], text[n - 1]) {
        3
    } else {
        0
    }
}

/// `text` without the white space at its start.
pub open spec fn trim_start(text: Seq<u8>) -> Seq<u8>
    decreases text.len(),
{
    if space_prefix(text) > 0 {
        trim_start(text.skip(space_prefix(text)))
    } else {
        text
    }
}

/// `text` without the white space at its end.
pub open spec fn trim_end(text: Seq<u8>) -> Seq<u8>
    decreases text.len(),
{
    if space_suffix(text) > 0 {
        trim_end(text.take(text.len() - space_suffix(text)))
    } else {
        text
    }
}

/// `text` without the white space at either end.
pub open spec fn trim(text: Seq<u8>) -> Seq<u8> {
    trim_end(trim_start(text))
}

/// The length that one header line declares: the line names the length field
/// and what follows the colon, white space at either end aside, reads as a
/// length.
pub open spec fn line_length(line: Seq<u8>) -> Option<nat> {
    if names_length(line) {
        parse_length(trim(line.skip(field_name().len() as int)))
    } else {
        None
    }
}

/// The length declared by the last of `lines` that declares one.
pub open spec fn last_declared(lines: Seq<Seq<u8>>) -> Option<nat>
    decreases lines.len(),
{
    if lines.len() == 0 {
        None
    } else {
        match line_length(lines.last()) {
            Some(n) => Some(n),
            None => last_declared(lines.drop_last()),
        }
    }
}

/// The body length that a header block declares; zero when no line declares
/// one. Lines that are no length field are passed over.
pub open spec fn declared_length(header: Seq<u8>) -> nat {
    match last_declared(header_lines(header)) {
        Some(n) => n,
        None => 0,
    }
}

/// The bytes of the field name.
pub proof fn lemma_field_name()
    ensures
        field_name() =~= seq![
            99u8,
            111,
            110,
            116,
            101,
            110,
            116,
            45,
            108,
            101,
            110,
            103,
            116,
            104,
            58,
        ],
{
    reveal_strlit("content-length:");
    let name = "content-length:"@;
    assert(name.len() == 15);
    assert(vstd::utf8::is_ascii_chars(name));
    vstd::utf8::is_ascii_chars_encode_utf8(name);
}

/// A stretch without a line break can be skipped when looking for the end of
/// a line.
pub proof fn lemma_line_end_skip(text: Seq<u8>, from: int, to: int)
    requires
        0 <= from <= to <= text.len(),
        forall|j: int| from <= j < to ==> !is_break(text, j),
    ensures
        line_end(text, from) == line_end(text, to),
    decreases to - from,
{
    if from < to {
        lemma_line_end_skip(text, from + 1, to);
    }
}

/// Finds where the header block at the start of `bytes` ends.
pub fn find_header_end(bytes: &[u8]) -> (end: Option<usize>)
    ensures
        match end {
            Some(k) => header_end(bytes@) == Some(k as int),
            None => header_end(bytes@) is None,
        },
{
    let len: usize = bytes.len();
    let mut k: usize = 0;
    while k < len
        invariant
            k <= len,
            len == bytes@.len(),
            first_close(bytes@, 0) == first_close(bytes@, k as int + 1),
        decreases len - k,
    {
        k = k + 1;
        if k >= 4 && bytes[k - 4] == 13 && bytes[k - 3] == 10 && bytes[k - 2] == 13 && bytes[k - 1]
            == 10 {
            return Some(k);
        }
    }
    None
}

/// True when the line `bytes[lo..hi]` starts with the name of the length
/// field.
fn names_length_in(bytes: &[u8], lo: usize, hi: usize) -> (named: bool)
    requires
        lo <= hi <= bytes@.len(),
    ensures
        named == names_length(bytes@.subrange(lo as int, hi as int)),
{
    let name = "content-length:".as_bytes();
    proof {
        lemma_field_name();
    }
    let ghost line = bytes@.subrange(lo as int, hi as int);
    if hi - lo < name.len() {
        return false;
    }
    let mut i: usize = 0;
    while i < name.len()
        invariant
            0 <= i <= name@.len(),
            name@ == field_name(),
            name@.len() == 15,
            lo + name@.len() <= hi <= bytes@.len(),
            line == bytes@.subrange(lo as int, hi as int),
            forall|j: int| 0 <= j < i ==> lower(#[trigger] line[j]) == field_name()[j],
        decreases name@.len() - i,
    {
        let b: u8 = bytes[lo + i];
        let small: u8 = if 65 <= b && b <= 90 {
            b + 32
        } else {
            b
        };
        assert(line[i as int] == b);
        if small != name[i] {
            return false;
        }
        i = i + 1;
    }
    true
}

/// The width of the white-space character at the start of `bytes[lo..hi]`.
fn space_prefix_in(bytes: &[u8], lo: usize, hi: usize) -> (width: usize)
    requires
        lo <= hi <= bytes@.len(),
    ensures
        width == space_prefix(bytes@.subrange(lo as int, hi as int)),
        width <= hi - lo,
{
    let ghost text = bytes@.subrange(lo as int, hi as int);
    let n: usize = hi - lo;
    if n >= 1 {
        let a: u8 = bytes[lo];
        assert(text[0] == a);
        if (9 <= a && a <= 13) || a == 32 {
            return 1;
        }
        if n >= 2 {
            let b: u8 = bytes[lo + 1];
            assert(text[1] == b);
            if a == 0xC2 && (b == 0x85 || b == 0xA0) {
                return 2;
            }
            if n >= 3 {
                let c: u8 = bytes[lo + 2];
                assert(text[2] == c);
                if wide_space(a, b, c) {
                    return 3;
                }
            }
        }
    }
    0
}

/// The width of the white-space character at the end of `bytes[lo..hi]`.
fn space_suffix_in(bytes: &[u8], lo: usize, hi: usize) -> (width: usize)
    requires
        lo <= hi <= bytes@.len(),
    ensures
        width == space_suffix(bytes@.subrange(lo as int, hi as int)),
        width <= hi - lo,
{
    let ghost text = bytes@.subrange(lo as int, hi as int);
    let n: usize = hi - lo;
    if n >= 1 {
        let c: u8 = bytes[hi - 1];
        assert(text[n - 1] == c);
        if (9 <= c && c <= 13) || c == 32 {
            return 1;
        }
        if n >= 2 {
            let b: u8 = bytes[hi - 2];
            assert(text[n - 2] == b);
            if b == 0xC2 && (c == 0x85 || c == 0xA0) {
                return 2;
            }
            if n >= 3 {
                let a: u8 = bytes[hi - 3];
                assert(text[n - 3] == a);
                if wide_space(a, b, c) {
                    return 3;
                }
            }
        }
    }
    0
}

/// True when the three bytes encode a white-space character.
fn wide_space(a: u8, b: u8, c: u8) -> (wide: bool)
    ensures
        wide == is_wide_space(a, b, c),
{
    (a == 0xE1 && b == 0x9A && c == 0x80) || (a == 0xE2 && b == 0x80 && ((0x80 <= c && c <= 0x8A)
        || c == 0xA8 || c == 0xA9 || c == 0xAF)) || (a == 0xE2 && b == 0x81 && c == 0x9F) || (a
        == 0xE3 && b == 0x80 && c == 0x80)
}

/// The bounds of `bytes[lo..hi]` without the white space at either end.
fn trim_in(bytes: &[u8], lo: usize, hi: usize) -> (bounds: (usize, usize))
    requires
        lo <= hi <= bytes@.len(),
    ensures
        lo <= bounds.0 <= bounds.1 <= hi,
        bytes@.subrange(bounds.0 as int, bounds.1 as int) == trim(
            bytes@.subrange(lo as int, hi as int),
        ),
{
    let mut a: usize = lo;
    loop
        invariant_except_break
            lo <= a <= hi <= bytes@.len(),
            trim_start(bytes@.subrange(lo as int, hi as int)) == trim_start(
                bytes@.subrange(a as int, hi as int),
            ),
        ensures
            lo <= a <= hi <= bytes@.len(),
            trim_start(bytes@.subrange(lo as int, hi as int)) == bytes@.subrange(
                a as int,
                hi as int,
            ),
        decreases hi - a,
    {
        let w: usize = space_prefix_in(bytes, a, hi);
        if w == 0 {
            break ;
        }
        assert(bytes@.subrange(a as int, hi as int).skip(w as int) =~= bytes@.subrange(
            a + w,
            hi as int,
        ));
        a = a + w;
    }
    let mut b: usize = hi;
    loop
        invariant_except_break
            a <= b <= hi <= bytes@.len(),
            trim_end(bytes@.subrange(a as int, hi as int)) == trim_end(
                bytes@.subrange(a as int, b as int),
            ),
        ensures
            a <= b <= hi <= bytes@.len(),
            trim_end(bytes@.subrange(a as int, hi as int)) == bytes@.subrange(a as int, b as int),
        decreases b - a,
    {
        let w: usize = space_suffix_in(bytes, a, b);
        if w == 0 {
            break ;
        }
        assert(bytes@.subrange(a as int, b as int).take(b - a - w) =~= bytes@.subrange(
            a as int,
            b - w,
        ));
        b = b - w;
    }
    (a, b)
}

/// The length that the line `bytes[lo..hi]` declares.
fn line_length_in(bytes: &[u8], lo: usize, hi: usize) -> (length: Option<usize>)
    requires
        lo <= hi <= bytes@.len(),
    ensures
        match length {
            Some(n) => line_length(bytes@.subrange(lo as int, hi as int)) == Some(n as nat),
            None => line_length(bytes@.subrange(lo as int, hi as int)) is None,
        },
{
    if !names_length_in(bytes, lo, hi) {
        return None;
    }
    proof {
        lemma_field_name();
        assert(bytes@.subrange(lo as int, hi as int).skip(15) =~= bytes@.subrange(
            lo + 15,
            hi as int,
        ));
    }
    let (a, b) = trim_in(bytes, lo + 15, hi);
    read_length(slice_subrange(bytes, a, b))
}

/// Reads the body length that a header block declares; zero when it declares
/// none.
pub fn content_length(header: &[u8]) -> (length: usize)
    ensures
        length == declared_length(header@),
{
    let len: usize = header.len();
    let mut found: usize = 0;
    let mut pos: usize = 0;
    let ghost mut done: Seq<Seq<u8>> = Seq::empty();
    loop
        invariant_except_break
            pos <= len,
            len == header@.len(),
            header_lines(header@) == done + lines_from(header@, pos as int),
            found as nat == match last_declared(done) {
                Some(n) => n,
                None => 0,
            },
        ensures
            found == declared_length(header@),
        decreases len - pos,
    {
        let mut end: usize = pos;
        while end < len && !(end + 1 < len && header[end] == 13 && header[end + 1] == 10)
            invariant
                pos <= end <= len,
                len == header@.len(),
                forall|j: int| pos <= j < end ==> !is_break(header@, j),
            decreases len - end,
        {
            end = end + 1;
        }
        let ghost line = header@.subrange(pos as int, end as int);
        proof {
            lemma_line_end_skip(header@, pos as int, end as int);
            assert(line_end(header@, pos as int) == end);
            assert(done.push(line).drop_last() =~= done);
        }
        match line_length_in(header, pos, end) {
            Some(n) => {
                found = n;
            },
            None => {},
        }
        if end >= len {
            proof {
                assert(done + lines_from(header@, pos as int) =~= done.push(line));
            }
            break ;
        }
        proof {
            assert(done + lines_from(header@, pos as int) =~= done.push(line) + lines_from(
                header@,
                end + 2,
            ));
            done = done.push(line);
        }
        pos = end + 2;
    }
    found
}

} // verus!
