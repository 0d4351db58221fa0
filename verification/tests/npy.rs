use kannolo::hnsw_utils::PermutationError;
use kannolo::npy::data::{npy_decode_unsigned_usize, npy_dtype_item_size};
use kannolo::npy::header::{
    npy_parse_header_1d_len, npy_parse_header_bool, npy_parse_header_string, NpyError,
};
use kannolo::npy::reader::{read_array_of, read_npy_usize_1d};
use kannolo::npy::writer::{npy_preamble, write_npy_u32_1d};
use kannolo::permutation_file::{
    load_validated_permutation, permutation_file, PermutationFileError, PermutationWriteError,
};

const HEADER: &str = "{'descr': '<u2', 'fortran_order': False, 'shape': (2,), }";

fn file(version: [u8; 2], header: &[u8], body: &[u8]) -> Vec<u8> {
    let mut bytes = b"\x93NUMPY".to_vec();
    bytes.extend_from_slice(&version);
    if version[0] == 1 {
        bytes.extend_from_slice(&(header.len() as u16).to_le_bytes());
    } else {
        bytes.extend_from_slice(&(header.len() as u32).to_le_bytes());
    }
    bytes.extend_from_slice(header);
    bytes.extend_from_slice(body);
    bytes
}

#[test]
fn preambles_are_padded_to_sixteen_bytes() {
    let dict = "{'descr': '<u4', 'fortran_order': False, 'shape': (12,), }";
    let bytes = npy_preamble(12, "<u4");
    assert_eq!(bytes.len() % 16, 0);
    assert_eq!(&bytes[..8], b"\x93NUMPY\x01\x00");
    let header_len = u16::from_le_bytes([bytes[8], bytes[9]]) as usize;
    assert_eq!(bytes.len(), 10 + header_len);
    let pad = header_len - dict.len() - 1;
    assert!(pad < 16);
    let mut expected = String::from(dict);
    for _ in 0..pad {
        expected.push(' ');
    }
    expected.push('\n');
    assert_eq!(&bytes[10..], expected.as_bytes());
}

#[test]
fn written_numbers_are_little_endian() {
    let bytes = write_npy_u32_1d(&[1, 0x0102_0304]);
    let preamble = npy_preamble(2, "<u4");
    assert_eq!(&bytes[..preamble.len()], preamble.as_slice());
    assert_eq!(&bytes[preamble.len()..], &[1, 0, 0, 0, 4, 3, 2, 1]);
}

#[test]
fn written_arrays_are_read_back() {
    for data in [vec![], vec![7u32], vec![3, 0, u32::MAX, 258]] {
        let wide: Vec<usize> = data.iter().map(|&v| v as usize).collect();
        assert_eq!(read_npy_usize_1d(&write_npy_u32_1d(&data)), Ok(wide));
    }
}

#[test]
fn all_versions_are_read() {
    for version in [[1u8, 0], [2, 0], [3, 0]] {
        let bytes = file(version, HEADER.as_bytes(), &[1, 0, 0, 1]);
        assert_eq!(read_npy_usize_1d(&bytes), Ok(vec![1, 256]));
    }
}

#[test]
fn broken_files_are_refused() {
    assert_eq!(read_npy_usize_1d(b"\x93NUM"), Err(NpyError::Truncated));
    assert_eq!(read_npy_usize_1d(b"NOTNPY\x01\x00\x00\x00"), Err(NpyError::NotNpy));
    let bytes = file([1, 1], HEADER.as_bytes(), &[]);
    assert_eq!(
        read_npy_usize_1d(&bytes),
        Err(NpyError::UnsupportedVersion { major: 1, minor: 1 })
    );
    let whole = file([1, 0], HEADER.as_bytes(), &[]);
    assert_eq!(read_npy_usize_1d(&whole[..30]), Err(NpyError::Truncated));
    let bytes = file([1, 0], &[0xff, 0xfe], &[]);
    assert_eq!(read_npy_usize_1d(&bytes), Err(NpyError::InvalidUtf8));
    let bytes = file([1, 0], HEADER.as_bytes(), &[1, 0, 0]);
    assert_eq!(read_npy_usize_1d(&bytes), Err(NpyError::WrongSize { expected: 4, found: 3 }));
}

#[test]
fn headers_are_checked_in_turn() {
    let read = |header: &str| read_array_of(header, &[]);
    assert_eq!(read("{}"), Err(NpyError::MissingKey));
    assert_eq!(
        read("{'descr': '<u4', 'fortran_order': True, 'shape': (0,), }"),
        Err(NpyError::FortranOrder)
    );
    assert_eq!(
        read("{'descr': '<f4', 'fortran_order': False, 'shape': (0,), }"),
        Err(NpyError::UnsupportedDtype)
    );
    let header =
        format!("{{'descr': '<u8', 'fortran_order': False, 'shape': ({},), }}", usize::MAX);
    assert_eq!(read(&header), Err(NpyError::SizeOverflow));
    assert_eq!(read("{'shape':(0,),'fortran_order':False,'descr':'|u1'}"), Ok(vec![]));
}

#[test]
fn strings_are_found_in_headers() {
    assert_eq!(npy_parse_header_string(HEADER, "descr"), Ok("<u2"));
    assert_eq!(npy_parse_header_string("{\"k\":  \"v'w\"}", "k"), Ok("v'w"));
    assert_eq!(npy_parse_header_string("{'k': ''}", "k"), Ok(""));
    assert_eq!(npy_parse_header_string("{'k' 'v'}", "j"), Err(NpyError::MissingKey));
    assert_eq!(npy_parse_header_string("{'k' 'v'}", "k"), Err(NpyError::MissingColon));
    assert_eq!(npy_parse_header_string("{'k':  ", "k"), Err(NpyError::MissingValue));
    assert_eq!(npy_parse_header_string("{'k': 5}", "k"), Err(NpyError::NotAString));
    assert_eq!(npy_parse_header_string("{'k': 'v}", "k"), Err(NpyError::UnterminatedString));
    // Single quotes are looked for first, wherever they stand.
    assert_eq!(npy_parse_header_string("{\"k\": 'a', 'k': 'b'}", "k"), Ok("b"));
    assert_eq!(npy_parse_header_string("{'é': 'ü'}", "é"), Ok("ü"));
}

#[test]
fn truth_is_found_in_headers() {
    assert_eq!(npy_parse_header_bool(HEADER, "fortran_order"), Ok(false));
    assert_eq!(npy_parse_header_bool("{'k':True}", "k"), Ok(true));
    assert_eq!(npy_parse_header_bool("{'k': Falsehood}", "k"), Ok(false));
    assert_eq!(npy_parse_header_bool("{'k': true}", "k"), Err(NpyError::NotABool));
    assert_eq!(npy_parse_header_bool("{'k': True}", "j"), Err(NpyError::MissingKey));
    assert_eq!(npy_parse_header_bool("{'k' True}", "k"), Err(NpyError::MissingColon));
}

#[test]
fn lengths_are_found_in_headers() {
    assert_eq!(npy_parse_header_1d_len(HEADER), Ok(2));
    assert_eq!(npy_parse_header_1d_len("{\"shape\": ( 17 )}"), Ok(17));
    assert_eq!(npy_parse_header_1d_len("{'shape': (,+8, ,)}"), Ok(8));
    assert_eq!(npy_parse_header_1d_len("{'form': (2,)}"), Err(NpyError::MissingKey));
    assert_eq!(npy_parse_header_1d_len("{'shape': 2}"), Err(NpyError::MissingTuple));
    assert_eq!(npy_parse_header_1d_len("{'shape': (2,"), Err(NpyError::UnterminatedTuple));
    assert_eq!(npy_parse_header_1d_len("{'shape': ()}"), Err(NpyError::NotOneDimensional));
    assert_eq!(npy_parse_header_1d_len("{'shape': (2, 3)}"), Err(NpyError::NotOneDimensional));
    assert_eq!(npy_parse_header_1d_len("{'shape': (-2,)}"), Err(NpyError::InvalidLength));
    assert_eq!(npy_parse_header_1d_len("{'shape': (+,)}"), Err(NpyError::InvalidLength));
    assert_eq!(
        npy_parse_header_1d_len("{'shape': (99999999999999999999,)}"),
        Err(NpyError::InvalidLength)
    );
}

#[test]
fn item_sizes_follow_the_dtype() {
    for descr in ["|u1", "<u1", ">u1"] {
        assert_eq!(npy_dtype_item_size(descr), Ok(1));
    }
    for (size, descr) in [(2usize, "<u2"), (2, ">u2"), (4, "<u4"), (4, ">u4"), (8, "<u8"), (8, ">u8")] {
        assert_eq!(npy_dtype_item_size(descr), Ok(size));
    }
    assert_eq!(npy_dtype_item_size("|u2"), Err(NpyError::UnsupportedDtype));
    assert_eq!(npy_dtype_item_size("<i4"), Err(NpyError::UnsupportedDtype));
}

#[test]
fn both_byte_orders_are_decoded() {
    let body = [1u8, 2, 3, 4, 5, 6, 7, 8];
    let decode = |descr: &str| npy_decode_unsigned_usize(descr, &body);
    assert_eq!(decode("|u1"), Ok(vec![1, 2, 3, 4, 5, 6, 7, 8]));
    assert_eq!(decode("<u2"), Ok(vec![0x0201, 0x0403, 0x0605, 0x0807]));
    assert_eq!(decode(">u2"), Ok(vec![0x0102, 0x0304, 0x0506, 0x0708]));
    assert_eq!(decode("<u4"), Ok(vec![0x0403_0201, 0x0807_0605]));
    assert_eq!(decode(">u4"), Ok(vec![0x0102_0304, 0x0506_0708]));
    assert_eq!(decode("<u8"), Ok(vec![0x0807_0605_0403_0201]));
    assert_eq!(decode(">u8"), Ok(vec![0x0102_0304_0506_0708]));
    assert_eq!(decode("<f8"), Err(NpyError::UnsupportedDtype));
    // What is left over at the end is not an item.
    assert_eq!(npy_decode_unsigned_usize("<u4", &body[..7]), Ok(vec![0x0403_0201]));
}

#[test]
fn permutations_are_read_back_from_their_files() {
    let permutation = vec![2usize, 0, 3, 1];
    let bytes = permutation_file(&permutation).unwrap();
    assert_eq!(load_validated_permutation(&bytes, 4), Ok(permutation));
}

#[test]
fn only_permutations_are_written() {
    assert_eq!(
        permutation_file(&[0, 0]),
        Err(PermutationWriteError::Invalid { error: PermutationError::Duplicate { index: 1 } })
    );
}

#[test]
fn permutation_files_are_validated() {
    assert_eq!(
        load_validated_permutation(b"", 2),
        Err(PermutationFileError::Unreadable { reason: NpyError::Truncated })
    );
    assert_eq!(
        load_validated_permutation(&write_npy_u32_1d(&[1, 0]), 3),
        Err(PermutationFileError::WrongLength { expected: 3, got: 2 })
    );
    assert_eq!(
        load_validated_permutation(&write_npy_u32_1d(&[0, 2]), 2),
        Err(PermutationFileError::Invalid { error: PermutationError::OutOfRange { index: 1 } })
    );
}
