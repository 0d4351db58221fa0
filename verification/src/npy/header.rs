//! The header of a `.npy` file: a dictionary in text.

use crate::npy::chars;
use vstd::prelude::*;
use vstd::string::StrSliceExecFns;

verus! {

/// Why a `.npy` file cannot be read.
#[derive(Clone, Copy, Debug, PartialEq, Eq, Structural)]
pub enum NpyError {
    /// The file ends before its header does.
    Truncated,
    /// The file does not begin like a `.npy` file.
    NotNpy,
    /// The version of the format is not known.
    UnsupportedVersion { major: u8, minor: u8 },
    /// The header is not valid UTF-8.
    InvalidUtf8,
    /// The header lacks a key.
    MissingKey,
    /// A key is not followed by a colon.
    MissingColon,
    /// A key is not followed by a value.
    MissingValue,
    /// The value of a key should be a string.
    NotAString,
    /// A string does not end.
    UnterminatedString,
    /// The value of a key should be a boolean.
    NotABool,
    /// The array is in Fortran order.
    FortranOrder,
    /// The shape is not a tuple.
    MissingTuple,
    /// The tuple of the shape does not end.
    UnterminatedTuple,
    /// The array does not have one dimension.
    NotOneDimensional,
    /// The length is not a number that fits.
    InvalidLength,
    /// The items are not unsigned integers of a known size.
    UnsupportedDtype,
    /// The size of the data does not fit.
    SizeOverflow,
    /// There is more or less data than the header says.
    WrongSize { expected: usize, found: usize },
    /// An item does not fit.
    ValueTooLarge,
}

/// A key between quotes.
pub open spec fn quoted(key: Seq<char>, quote: char) -> Seq<char> {
    seq![quote] + key + seq![quote]
}

/// The header from a key on: the key between single quotes if it is there, else between double
/// quotes.
pub open spec fn from_key(header: Seq<char>, key: Seq<char>) -> Result<Seq<char>, NpyError> {
    match chars::find(header, quoted(key, '\'')) {
        Some(i) => Ok(header.skip(i)),
        None => match chars::find(header, quoted(key, '"')) {
            Some(i) => Ok(header.skip(i)),
            None => Err(NpyError::MissingKey),
        },
    }
}

/// The header from the value of a key on.
pub open spec fn from_value(header: Seq<char>, key: Seq<char>) -> Result<Seq<char>, NpyError> {
    match from_key(header, key) {
        Ok(after_key) => match chars::find_char(after_key, ':') {
            Some(i) => Ok(chars::trim_start(after_key.skip(i + 1))),
            None => Err(NpyError::MissingColon),
        },
        Err(e) => Err(e),
    }
}

/// The string that is the value of a key.
pub open spec fn string_value(header: Seq<char>, key: Seq<char>) -> Result<Seq<char>, NpyError> {
    match from_value(header, key) {
        Ok(value) => if value.len() == 0 {
            Err(NpyError::MissingValue)
        } else if value[0] != '\'' && value[0] != '"' {
            Err(NpyError::NotAString)
        } else {
            match chars::find_char(value.skip(1), value[0]) {
                Some(i) => Ok(value.skip(1).take(i)),
                None => Err(NpyError::UnterminatedString),
            }
        },
        Err(e) => Err(e),
    }
}

/// The boolean that is the value of a key.
pub open spec fn bool_value(header: Seq<char>, key: Seq<char>) -> Result<bool, NpyError> {
    match from_value(header, key) {
        Ok(value) => if chars::starts_with(value, "False"@) {
            Ok(false)
        } else if chars::starts_with(value, "True"@) {
            Ok(true)
        } else {
            Err(NpyError::NotABool)
        },
        Err(e) => Err(e),
    }
}

/// What stands between the brackets of the shape.
pub open spec fn shape_text(header: Seq<char>) -> Result<Seq<char>, NpyError> {
    match from_key(header, "shape"@) {
        Ok(after_key) => match chars::find_char(after_key, '(') {
            Some(open) => {
                let after_open = after_key.skip(open + 1);
                match chars::find_char(after_open, ')') {
                    Some(close) => Ok(after_open.take(close)),
                    None => Err(NpyError::UnterminatedTuple),
                }
            },
            None => Err(NpyError::MissingTuple),
        },
        Err(e) => Err(e),
    }
}

/// The length of the array.
pub open spec fn length_value(header: Seq<char>) -> Result<usize, NpyError> {
    match shape_text(header) {
        Ok(shape) => {
            let dims = chars::comma_parts(shape);
            if dims.len() != 1 {
                Err(NpyError::NotOneDimensional)
            } else {
                match chars::number_value(dims[0]) {
                    Some(n) => if n <= usize::MAX {
                        Ok(n as usize)
                    } else {
                        Err(NpyError::InvalidLength)
                    },
                    None => Err(NpyError::InvalidLength),
                }
            }
        },
        Err(e) => Err(e),
    }
}

/// `r` is `expected`, where a text is taken as its characters.
pub open spec fn is_text(
    r: Result<Vec<char>, NpyError>,
    expected: Result<Seq<char>, NpyError>,
) -> bool {
    match r {
        Ok(text) => expected == Ok::<Seq<char>, NpyError>(text@),
        Err(e) => expected == Err::<Seq<char>, NpyError>(e),
    }
}

fn quote_key(key: &Vec<char>, quote: char) -> (pat: Vec<char>)
    ensures
        pat@ == quoted(key@, quote),
{
    let mut pat: Vec<char> = Vec::new();
    pat.push(quote);
    for i in 0..key.len()
        invariant
            pat@ == seq![quote] + key@.take(i as int),
    {
        pat.push(key[i]);
        assert(pat@ =~= seq![quote] + key@.take(i + 1));
    }
    pat.push(quote);
    assert(pat@ =~= quoted(key@, quote));
    pat
}

fn cut_from_key(header: &Vec<char>, key: &Vec<char>) -> (r: Result<Vec<char>, NpyError>)
    ensures
        is_text(r, from_key(header@, key@)),
{
    match chars::find_text(header, &quote_key(key, '\'')) {
        Some(i) => Ok(chars::cut_from(header, i)),
        None => match chars::find_text(header, &quote_key(key, '"')) {
            Some(i) => Ok(chars::cut_from(header, i)),
            None => Err(NpyError::MissingKey),
        },
    }
}

fn cut_from_value(header: &Vec<char>, key: &Vec<char>) -> (r: Result<Vec<char>, NpyError>)
    ensures
        is_text(r, from_value(header@, key@)),
{
    match cut_from_key(header, key) {
        Ok(after_key) => match chars::find_character(&after_key, ':') {
            Some(i) => Ok(chars::without_leading(&chars::cut_from(&after_key, i + 1))),
            None => Err(NpyError::MissingColon),
        },
        Err(e) => Err(e),
    }
}

/// The header from the value of a key on is the end of the header.
proof fn lemma_from_value_suffix(header: Seq<char>, key: Seq<char>)
    ensures
        from_value(header, key) matches Ok(value) ==> value.len() <= header.len() && value
            == header.skip(header.len() - value.len()),
{
    if let Ok(value) = from_value(header, key) {
        let after_key = from_key(header, key)->Ok_0;
        chars::lemma_find_bounds(header, quoted(key, '\''), 0);
        chars::lemma_find_bounds(header, quoted(key, '"'), 0);
        let i = chars::find_char(after_key, ':')->0;
        chars::lemma_find_bounds(after_key, seq![':'], 0);
        let after_colon = after_key.skip(i + 1);
        chars::lemma_trim_start_suffix(after_colon);
        assert(value =~= header.skip(header.len() - value.len()));
    }
}

/// The string that is the value of a key.
pub fn npy_parse_header_string<'a>(header: &'a str, key: &str) -> (r: Result<&'a str, NpyError>)
    ensures
        match r {
            Ok(text) => string_value(header@, key@) == Ok::<Seq<char>, NpyError>(text@),
            Err(e) => string_value(header@, key@) == Err::<Seq<char>, NpyError>(e),
        },
{
    let all = chars::chars_of(header);
    let value = match cut_from_value(&all, &chars::chars_of(key)) {
        Ok(value) => value,
        Err(e) => {
            return Err(e);
        },
    };
    if value.len() == 0 {
        return Err(NpyError::MissingValue);
    }
    let quote: char = value[0];
    if quote != '\'' && quote != '"' {
        return Err(NpyError::NotAString);
    }
    let rest = chars::cut_from(&value, 1);
    match chars::find_character(&rest, quote) {
        Some(end) => {
            proof {
                lemma_from_value_suffix(header@, key@);
            }
            let begin: usize = all.len() - rest.len();
            let text = header.substring_char(begin, begin + end);
            assert(text@ =~= rest@.take(end as int));
            Ok(text)
        },
        None => Err(NpyError::UnterminatedString),
    }
}

/// The boolean that is the value of a key.
pub fn npy_parse_header_bool(header: &str, key: &str) -> (r: Result<bool, NpyError>)
    ensures
        r == bool_value(header@, key@),
{
    let value = match cut_from_value(&chars::chars_of(header), &chars::chars_of(key)) {
        Ok(value) => value,
        Err(e) => {
            return Err(e);
        },
    };
    if chars::begins_with(&value, &chars::chars_of("False")) {
        Ok(false)
    } else if chars::begins_with(&value, &chars::chars_of("True")) {
        Ok(true)
    } else {
        Err(NpyError::NotABool)
    }
}

/// The length of the array.
pub fn npy_parse_header_1d_len(header: &str) -> (r: Result<usize, NpyError>)
    ensures
        r == length_value(header@),
{
    let after_key = match cut_from_key(&chars::chars_of(header), &chars::chars_of("shape")) {
        Ok(after_key) => after_key,
        Err(e) => {
            return Err(e);
        },
    };
    let open: usize = match chars::find_character(&after_key, '(') {
        Some(open) => open,
        None => {
            return Err(NpyError::MissingTuple);
        },
    };
    let after_open = chars::cut_from(&after_key, open + 1);
    let close: usize = match chars::find_character(&after_open, ')') {
        Some(close) => close,
        None => {
            return Err(NpyError::UnterminatedTuple);
        },
    };
    let shape = chars::cut_to(&after_open, close);
    let dims = chars::split_commas(&shape);
    assert(chars::texts(dims@).len() == dims@.len());
    if dims.len() != 1 {
        return Err(NpyError::NotOneDimensional);
    }
    assert(chars::texts(dims@)[0] == dims@[0]@);
    match chars::parse_number(&dims[0]) {
        Some(n) => Ok(n),
        None => Err(NpyError::InvalidLength),
    }
}

} // verus!
