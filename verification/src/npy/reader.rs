//! Reading a `.npy` file.

use crate::npy::data;
use crate::npy::header;
use crate::npy::header::NpyError;
use vstd::prelude::*;
use vstd::utf8;

verus! {

/// The bytes that every `.npy` file begins with.
pub open spec fn magic() -> Seq<u8> {
    seq![0x93u8, 0x4eu8, 0x55u8, 0x4du8, 0x50u8, 0x59u8]
}

/// How many bytes give the length of the header.
pub open spec fn length_width(major: u8, minor: u8) -> Option<int> {
    if major == 1 && minor == 0 {
        Some(2)
    } else if (major == 2 || major == 3) && minor == 0 {
        Some(4)
    } else {
        None
    }
}

/// The header of a file and what follows it, both in bytes.
pub open spec fn split_file(bytes: Seq<u8>) -> Result<(Seq<u8>, Seq<u8>), NpyError> {
    if bytes.len() < 6 {
        Err(NpyError::Truncated)
    } else if bytes.take(6) != magic() {
        Err(NpyError::NotNpy)
    } else if bytes.len() < 8 {
        Err(NpyError::Truncated)
    } else {
        match length_width(bytes[6], bytes[7]) {
            None => Err(NpyError::UnsupportedVersion { major: bytes[6], minor: bytes[7] }),
            Some(width) => if bytes.len() < 8 + width {
                Err(NpyError::Truncated)
            } else {
                let len = data::le_value(bytes.subrange(8, 8 + width));
                if bytes.len() < 8 + width + len {
                    Err(NpyError::Truncated)
                } else {
                    Ok(
                        (
                            bytes.subrange(8 + width, 8 + width + len),
                            bytes.skip(8 + width + len),
                        ),
                    )
                }
            },
        }
    }
}

/// The array that a header in text and the bytes behind it hold.
pub open spec fn array_of(text: Seq<char>, body: Seq<u8>) -> Result<Seq<usize>, NpyError> {
    match header::string_value(text, "descr"@) {
        Err(e) => Err(e),
        Ok(descr) => match header::bool_value(text, "fortran_order"@) {
            Err(e) => Err(e),
            Ok(true) => Err(NpyError::FortranOrder),
            Ok(false) => match header::length_value(text) {
                Err(e) => Err(e),
                Ok(len) => match data::dtype_of(descr) {
                    None => Err(NpyError::UnsupportedDtype),
                    Some(dtype) => if len * dtype.size > usize::MAX {
                        Err(NpyError::SizeOverflow)
                    } else if body.len() != len * dtype.size {
                        Err(
                            NpyError::WrongSize {
                                expected: (len * dtype.size) as usize,
                                found: body.len() as usize,
                            },
                        )
                    } else {
                        data::decoded(descr, body)
                    },
                },
            },
        },
    }
}

/// The array that a file holds.
pub open spec fn read_array(bytes: Seq<u8>) -> Result<Seq<usize>, NpyError> {
    match split_file(bytes) {
        Err(e) => Err(e),
        Ok((head, body)) => if utf8::valid_utf8(head) {
            array_of(utf8::decode_utf8(head), body)
        } else {
            Err(NpyError::InvalidUtf8)
        },
    }
}

/// The text of some bytes, by `std::str::from_utf8`.
///
/// Claimed: it succeeds exactly on valid UTF-8, and returns the text that the bytes encode.
#[verifier::external_body]
fn text_of(bytes: &[u8]) -> (text: Option<&str>)
    ensures
        text is Some <==> utf8::valid_utf8(bytes@),
        text matches Some(t) ==> t@ == utf8::decode_utf8(bytes@),
{
    std::str::from_utf8(bytes).ok()
}

/// `r` is `expected`, where an array is taken as its items.
pub open spec fn is_array(
    r: Result<Vec<usize>, NpyError>,
    expected: Result<Seq<usize>, NpyError>,
) -> bool {
    match r {
        Ok(items) => expected == Ok::<Seq<usize>, NpyError>(items@),
        Err(e) => expected == Err::<Seq<usize>, NpyError>(e),
    }
}

/// The bytes of a part of a file.
fn copy_part(bytes: &[u8], begin: usize, end: usize) -> (part: Vec<u8>)
    requires
        begin <= end <= bytes@.len(),
    ensures
        part@ == bytes@.subrange(begin as int, end as int),
{
    let mut part: Vec<u8> = Vec::new();
    for i in begin..end
        invariant
            begin <= i <= end,
            end <= bytes@.len(),
            part@ == bytes@.subrange(begin as int, i as int),
    {
        part.push(bytes[i]);
        assert(part@ =~= bytes@.subrange(begin as int, i + 1));
    }
    part
}

fn has_magic(bytes: &[u8]) -> (b: bool)
    requires
        bytes@.len() >= 6,
    ensures
        b == (bytes@.take(6) == magic()),
{
    let b = bytes[0] == 0x93 && bytes[1] == 0x4e && bytes[2] == 0x55 && bytes[3] == 0x4d
        && bytes[4] == 0x50 && bytes[5] == 0x59;
    proof {
        let front = bytes@.take(6);
        if b {
            assert(front =~= magic());
        } else {
            assert(front[0] == bytes@[0] && front[1] == bytes@[1] && front[2] == bytes@[2]
                && front[3] == bytes@[3] && front[4] == bytes@[4] && front[5] == bytes@[5]);
            if front == magic() {
                assert(front[0] == 0x93 && front[1] == 0x4e && front[2] == 0x55 && front[3] == 0x4d
                    && front[4] == 0x50 && front[5] == 0x59);
            }
        }
    }
    b
}

/// The array that a header in text and the bytes behind it hold.
pub fn read_array_of(text: &str, body: &[u8]) -> (r: Result<Vec<usize>, NpyError>)
    ensures
        is_array(r, array_of(text@, body@)),
{
    let descr = match header::npy_parse_header_string(text, "descr") {
        Ok(descr) => descr,
        Err(e) => {
            return Err(e);
        },
    };
    match header::npy_parse_header_bool(text, "fortran_order") {
        Ok(fortran) => if fortran {
            return Err(NpyError::FortranOrder);
        },
        Err(e) => {
            return Err(e);
        },
    }
    let len: usize = match header::npy_parse_header_1d_len(text) {
        Ok(len) => len,
        Err(e) => {
            return Err(e);
        },
    };
    let size: usize = match data::npy_dtype_item_size(descr) {
        Ok(size) => size,
        Err(e) => {
            return Err(e);
        },
    };
    match len.checked_mul(size) {
        None => Err(NpyError::SizeOverflow),
        Some(expected) => if body.len() != expected {
            Err(NpyError::WrongSize { expected, found: body.len() })
        } else {
            data::npy_decode_unsigned_usize(descr, body)
        },
    }
}

/// The array of unsigned integers that the bytes of a `.npy` file hold.
pub fn read_npy_usize_1d(bytes: &[u8]) -> (r: Result<Vec<usize>, NpyError>)
    ensures
        is_array(r, read_array(bytes@)),
{
    let n: usize = bytes.len();
    if n < 6 {
        return Err(NpyError::Truncated);
    }
    if !has_magic(bytes) {
        return Err(NpyError::NotNpy);
    }
    if n < 8 {
        return Err(NpyError::Truncated);
    }
    let major: u8 = bytes[6];
    let minor: u8 = bytes[7];
    let width: usize = if major == 1 && minor == 0 {
        2
    } else if (major == 2 || major == 3) && minor == 0 {
        4
    } else {
        return Err(NpyError::UnsupportedVersion { major, minor });
    };
    if n < 8 + width {
        return Err(NpyError::Truncated);
    }
    let header_len: u64 = data::read_le(bytes, 8, width);
    if ((n - 8 - width) as u64) < header_len {
        return Err(NpyError::Truncated);
    }
    let begin: usize = 8 + width;
    let end: usize = begin + header_len as usize;
    let head = copy_part(bytes, begin, end);
    let body = copy_part(bytes, end, n);
    assert(body@ =~= bytes@.skip(end as int));
    match text_of(head.as_slice()) {
        Some(text) => read_array_of(text, body.as_slice()),
        None => Err(NpyError::InvalidUtf8),
    }
}

} // verus!
