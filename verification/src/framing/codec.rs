//! One frame: a header that declares the body's length in bytes, then the
//! body.

use super::decimal::{decimal, format_decimal, is_digit, lemma_decimal_round_trip, lemma_parse_decimal};
use super::header::{
    closes_at, content_length, declared_length, field_name, find_header_end, header_end,
    header_lines, is_break, last_declared, lemma_field_name, lemma_first_close,
    lemma_line_end_skip, line_end, line_length, lines_from, lower, names_length, space_prefix,
    space_suffix, trim, trim_end, trim_start,
};
use crate::error::{BridgeError, ErrorKind};
use crate::text::text_of_utf8;
use vstd::prelude::*;
use vstd::slice::{slice_subrange, slice_to_vec};
use vstd::string::StringSliceAdditionalSpecFns;
use vstd::utf8::{decode_utf8, encode_utf8, encode_utf8_decode_utf8, encode_utf8_valid_utf8, valid_utf8};

verus! {

/// Why a frame could not be read.
#[derive(Debug, Clone, Copy, PartialEq, Eq, Structural)]
pub enum ProtocolError {
    /// No blank line closes the header.
    UnterminatedHeader,
    /// The header declares no length, or one that does not read as a number,
    /// or zero.
    MissingLength,
    /// Fewer body bytes are there than the header declares.
    TruncatedBody,
    /// The body is not well-formed UTF-8.
    InvalidUtf8,
}

impl ProtocolError {
    /// What went wrong, in words.
    pub open spec fn reason(self) -> Seq<char> {
        match self {
            ProtocolError::UnterminatedHeader => "Unterminated header"@,
            ProtocolError::MissingLength => "Missing Content-Length"@,
            ProtocolError::TruncatedBody => "Truncated body"@,
            ProtocolError::InvalidUtf8 => "Body is not UTF-8"@,
        }
    }

    /// The failure as it is reported.
    pub fn to_error(self) -> (error: BridgeError)
        ensures
            error@ == (ErrorKind::Protocol, self.reason()),
    {
        let error = match self {
            ProtocolError::UnterminatedHeader => BridgeError::new(
                ErrorKind::Protocol,
                "Unterminated header",
                "",
            ),
            ProtocolError::MissingLength => BridgeError::new(
                ErrorKind::Protocol,
                "Missing Content-Length",
                "",
            ),
            ProtocolError::TruncatedBody => BridgeError::new(ErrorKind::Protocol, "Truncated body", ""),
            ProtocolError::InvalidUtf8 => BridgeError::new(
                ErrorKind::Protocol,
                "Body is not UTF-8",
                "",
            ),
        };
        proof {
            reveal_strlit("");
            assert(error.message@ =~= self.reason());
        }
        error
    }
}

/// The name of the length field as a frame writes it, with the colon and the
/// space behind it.
pub open spec fn frame_label() -> Seq<u8> {
    "Content-Length: ".spec_bytes()
}

/// CR LF CR LF: the end of the length line, and the blank line.
pub open spec fn blank_line() -> Seq<u8> {
    seq![13u8, 10u8, 13u8, 10u8]
}

/// The header of a frame whose body has `n` bytes.
pub open spec fn frame_header(n: nat) -> Seq<u8> {
    frame_label() + decimal(n) + blank_line()
}

/// The frame that carries `body`.
pub open spec fn frame(body: Seq<u8>) -> Seq<u8> {
    frame_header(body.len()) + body
}

/// What reading one frame from the start of `bytes` gives: the body as text
/// and the number of bytes that the frame took, or the reason why there is no
/// frame.
pub open spec fn decoded(bytes: Seq<u8>) -> Result<(Seq<char>, nat), ProtocolError> {
    match header_end(bytes) {
        None => Err(ProtocolError::UnterminatedHeader),
        Some(h) => {
            let n = declared_length(bytes.subrange(0, h));
            let body = bytes.subrange(h, h + n);
            if n == 0 {
                Err(ProtocolError::MissingLength)
            } else if bytes.len() < h + n {
                Err(ProtocolError::TruncatedBody)
            } else if !valid_utf8(body) {
                Err(ProtocolError::InvalidUtf8)
            } else {
                Ok((decode_utf8(body), (h + n) as nat))
            }
        },
    }
}

/// The bytes of the label.
pub proof fn lemma_frame_label()
    ensures
        frame_label() =~= seq![
            67u8,
            111,
            110,
            116,
            101,
            110,
            116,
            45,
            76,
            101,
            110,
            103,
            116,
            104,
            58,
            32,
        ],
{
    reveal_strlit("Content-Length: ");
    let label = "Content-Length: "@;
    assert(label.len() == 16);
    assert(vstd::utf8::is_ascii_chars(label));
    vstd::utf8::is_ascii_chars_encode_utf8(label);
}

/// Frames `body`: the header declares the body's length in bytes.
pub fn encode_frame(body: &str) -> (bytes: Vec<u8>)
    ensures
        bytes@ == frame(body.spec_bytes()),
{
    let payload = body.as_bytes();
    let mut bytes: Vec<u8> = Vec::new();
    bytes.extend_from_slice("Content-Length: ".as_bytes());
    let digits = format_decimal(payload.len());
    bytes.extend_from_slice(digits.as_slice());
    bytes.push(13);
    bytes.push(10);
    bytes.push(13);
    bytes.push(10);
    assert(bytes@ =~= frame_header(payload@.len()));
    bytes.extend_from_slice(payload);
    assert(bytes@ =~= frame(body.spec_bytes()));
    bytes
}

/// Reads one frame from the start of `bytes`.
pub fn decode_frame(bytes: &[u8]) -> (frame: Result<(String, usize), ProtocolError>)
    ensures
        match frame {
            Ok((text, used)) => decoded(bytes@) == Ok::<(Seq<char>, nat), ProtocolError>(
                (text@, used as nat),
            ),
            Err(e) => decoded(bytes@) == Err::<(Seq<char>, nat), ProtocolError>(e),
        },
{
    let h: usize = match find_header_end(bytes) {
        Some(h) => h,
        None => {
            return Err(ProtocolError::UnterminatedHeader);
        },
    };
    proof {
        lemma_first_close(bytes@, 0);
    }
    let n: usize = content_length(slice_subrange(bytes, 0, h));
    if n == 0 {
        return Err(ProtocolError::MissingLength);
    }
    if n > bytes.len() - h {
        return Err(ProtocolError::TruncatedBody);
    }
    let body = slice_to_vec(slice_subrange(bytes, h, h + n));
    match text_of_utf8(body) {
        Some(text) => Ok((text, h + n)),
        None => Err(ProtocolError::InvalidUtf8),
    }
}

/// What a frame's header is made of, byte by byte.
proof fn lemma_header_bytes(n: nat)
    ensures
        frame_header(n).len() == 20 + decimal(n).len(),
        decimal(n).len() >= 1,
        forall|i: int| 0 <= i < 16 ==> frame_header(n)[i] == #[trigger] frame_label()[i],
        forall|i: int|
            0 <= i < decimal(n).len() ==> #[trigger] frame_header(n)[16 + i] == decimal(n)[i]
                && is_digit(decimal(n)[i]),
        frame_header(n)[16 + decimal(n).len() as int] == 13,
        frame_header(n)[17 + decimal(n).len() as int] == 10,
        frame_header(n)[18 + decimal(n).len() as int] == 13,
        frame_header(n)[19 + decimal(n).len() as int] == 10,
{
    lemma_frame_label();
    lemma_decimal_round_trip(n);
}

/// The header of a frame closes where it ends and nowhere before, whatever
/// follows it.
pub proof fn lemma_header_closes(n: nat, rest: Seq<u8>)
    ensures
        header_end(frame_header(n) + rest) == Some(frame_header(n).len() as int),
{
    let head = frame_header(n);
    let all = head + rest;
    let d = decimal(n).len() as int;
    lemma_header_bytes(n);
    lemma_frame_label();
    assert forall|i: int| 0 <= i < 16 + d implies all[i] != 13 by {
        assert(all[i] == head[i]);
        if i < 16 {
            assert(head[i] == frame_label()[i]);
        } else {
            assert(head[16 + (i - 16)] == decimal(n)[i - 16]);
        }
    }
    assert(all[16 + d] == head[16 + d]);
    assert(all[17 + d] == head[17 + d]);
    assert(all[18 + d] == head[18 + d]);
    assert(all[19 + d] == head[19 + d]);
    assert(closes_at(all, 20 + d));
    assert forall|k: int| 0 <= k < 20 + d implies !closes_at(all, k) by {
        if 4 <= k {
            if k - 4 < 16 + d {
                assert(all[k - 4] != 13);
            } else {
                assert(all[k - 4] == head[k - 4]);
            }
        }
    }
    lemma_first_close(all, 0);
}

/// The header of a frame declares the length that it was written for.
pub proof fn lemma_header_declares(n: nat)
    requires
        n <= usize::MAX,
    ensures
        declared_length(frame_header(n)) == n,
{
    let head = frame_header(n);
    let d = decimal(n).len() as int;
    let len = head.len() as int;
    lemma_header_bytes(n);
    lemma_frame_label();
    lemma_field_name();
    lemma_parse_decimal(n);
    let first = head.subrange(0, 16 + d);
    let empty = Seq::<u8>::empty();

    assert forall|j: int| 0 <= j < 16 + d implies !is_break(head, j) by {
        if j < 16 {
            assert(head[j] == frame_label()[j]);
        } else {
            assert(head[16 + (j - 16)] == decimal(n)[j - 16]);
        }
    }
    assert(is_break(head, 16 + d));
    assert(is_break(head, 18 + d));
    lemma_line_end_skip(head, 0, 16 + d);
    assert(line_end(head, 16 + d) == 16 + d);
    assert(line_end(head, 18 + d) == 18 + d);
    assert(line_end(head, 20 + d) == 20 + d);
    assert(!is_break(head, 20 + d));
    assert(head.subrange(18 + d, 18 + d) =~= empty);
    assert(head.subrange(20 + d, 20 + d) =~= empty);
    assert(lines_from(head, 20 + d) =~= seq![empty]);
    assert(lines_from(head, 18 + d) =~= seq![empty] + lines_from(head, 20 + d));
    assert(lines_from(head, 0) =~= seq![first] + lines_from(head, 18 + d));
    let lines = header_lines(head);
    assert(lines =~= seq![first, empty, empty]);

    assert(!names_length(empty));
    assert(line_length(empty) is None);

    assert(names_length(first)) by {
        assert forall|i: int| 0 <= i < field_name().len() implies lower(#[trigger] first[i])
            == field_name()[i] by {
            assert(first[i] == head[i]);
            assert(head[i] == frame_label()[i]);
        }
    }
    let value = first.skip(15);
    assert(value[0] == 32) by {
        assert(first[15] == head[15]);
        assert(head[15] == frame_label()[15]);
    }
    assert(space_prefix(value) == 1);
    assert(value.skip(1) =~= decimal(n)) by {
        assert forall|i: int| 0 <= i < d implies value.skip(1)[i] == decimal(n)[i] by {
            assert(value.skip(1)[i] == head[16 + i]);
        }
    }
    assert(is_digit(decimal(n)[0]));
    assert(is_digit(decimal(n)[d - 1]));
    assert(space_prefix(decimal(n)) == 0);
    assert(space_suffix(decimal(n)) == 0);
    assert(trim_start(decimal(n)) == decimal(n));
    assert(trim_start(value) == decimal(n));
    assert(trim_end(decimal(n)) == decimal(n));
    assert(trim(value) == decimal(n));
    assert(line_length(first) == Some(n));

    assert(lines.last() == empty);
    assert(lines.drop_last() =~= seq![first, empty]);
    assert(lines.drop_last().last() == empty);
    assert(lines.drop_last().drop_last() =~= seq![first]);
    assert(seq![first].last() == first);
    assert(last_declared(seq![first]) == Some(n));
    assert(last_declared(seq![first, empty]) == Some(n));
    assert(last_declared(lines) == Some(n));
}

/// Reading the frame of a text gives the text back, and takes the frame and
/// no more, whatever follows the frame. The empty text is left out: its frame
/// declares the length zero, which counts as a missing length.
pub proof fn lemma_frame_round_trip(body: Seq<char>, rest: Seq<u8>)
    requires
        0 < encode_utf8(body).len() <= usize::MAX,
    ensures
        decoded(frame(encode_utf8(body)) + rest) == Ok::<(Seq<char>, nat), ProtocolError>(
            (body, frame(encode_utf8(body)).len()),
        ),
        declared_length(frame_header(encode_utf8(body).len())) == encode_utf8(body).len(),
{
    let payload = encode_utf8(body);
    let n = payload.len();
    let head = frame_header(n);
    let all = frame(payload) + rest;
    let h = head.len() as int;
    assert(all =~= head + (payload + rest));
    lemma_header_closes(n, payload + rest);
    lemma_header_declares(n);
    assert(all.subrange(0, h) =~= head);
    assert(all.subrange(h, h + n) =~= payload);
    encode_utf8_valid_utf8(body);
    encode_utf8_decode_utf8(body);
}

} // verus!
