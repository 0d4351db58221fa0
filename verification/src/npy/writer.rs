//! Writing a `.npy` file.

use crate::npy::reader;
use crate::text;
use vstd::prelude::*;
use vstd::string::StringExecFns;
use vstd::utf8;

verus! {

/// The dictionary in the header of an array of `len` items of type `descr`.
pub open spec fn dict_text(descr: Seq<char>, len: nat) -> Seq<char> {
    "{'descr': '"@ + descr + "', 'fortran_order': False, 'shape': ("@ + text::decimal(len)
        + ",), }"@
}

/// How many spaces follow a dictionary of so many bytes, so that the data begins at a multiple of
/// sixteen.
pub open spec fn pad_len(dict_bytes: nat) -> nat {
    ((16 - (11 + dict_bytes) % 16) % 16) as nat
}

/// The header of an array of `len` items of type `descr`.
pub open spec fn header_text(descr: Seq<char>, len: nat) -> Seq<char> {
    let dict = dict_text(descr, len);
    dict + Seq::new(pad_len(utf8::encode_utf8(dict).len()), |i: int| ' ') + seq!['\n']
}

/// What stands in a file before the data.
pub open spec fn preamble(descr: Seq<char>, len: nat) -> Seq<u8> {
    let header = utf8::encode_utf8(header_text(descr, len));
    reader::magic() + seq![
        1u8,
        0u8,
        (header.len() % 256) as u8,
        (header.len() / 256) as u8,
    ] + header
}

/// The bytes of a number, the lowest first.
pub open spec fn u32_bytes(x: u32) -> Seq<u8> {
    seq![
        (x % 256) as u8,
        (x / 256 % 256) as u8,
        (x / 65536 % 256) as u8,
        (x / 16777216) as u8,
    ]
}

/// The bytes of some numbers.
pub open spec fn body_bytes(data: Seq<u32>) -> Seq<u8>
    decreases data.len(),
{
    if data.len() == 0 {
        Seq::empty()
    } else {
        body_bytes(data.drop_last()) + u32_bytes(data.last())
    }
}

/// The file that holds an array of numbers.
pub open spec fn u32_file(data: Seq<u32>) -> Seq<u8> {
    preamble("<u4"@, data.len()) + body_bytes(data)
}

/// Spaces add a byte each.
proof fn lemma_padded_bytes(s: Seq<char>, n: nat)
    ensures
        utf8::encode_utf8(s + Seq::new(n, |i: int| ' ')).len() == utf8::encode_utf8(s).len() + n,
    decreases s.len(),
{
    let spaces = Seq::new(n, |i: int| ' ');
    let all = s + spaces;
    if s.len() == 0 {
        assert(all =~= spaces);
        assert(utf8::is_ascii_chars(spaces));
        utf8::is_ascii_chars_encode_utf8(spaces);
    } else {
        assert(all.drop_first() =~= s.drop_first() + spaces);
        assert(all[0] == s[0]);
        lemma_padded_bytes(s.drop_first(), n);
    }
}

/// What stands in a file before the data.
pub fn npy_preamble(len: usize, descr: &str) -> (bytes: Vec<u8>)
    requires
        utf8::encode_utf8(header_text(descr@, len as nat)).len() <= 0xffff,
    ensures
        bytes@ == preamble(descr@, len as nat),
{
    let mut header = String::from_str("{'descr': '");
    header.append(descr);
    header.append("', 'fortran_order': False, 'shape': (");
    header.append(text::decimal_text(len as u64).as_str());
    header.append(",), }");
    let ghost dict = dict_text(descr@, len as nat);
    proof {
        let n = pad_len(utf8::encode_utf8(dict).len());
        let spaces = Seq::new(n, |i: int| ' ');
        assert(header@ =~= dict);
        lemma_padded_bytes(dict, n);
        lemma_pushed_bytes(dict + spaces, '\n');
    }
    let dict_len: usize = header.as_str().len();
    let pad: usize = (16 - (11 + dict_len) % 16) % 16;
    for i in 0..pad
        invariant
            header@ == dict + Seq::new(i as nat, |j: int| ' '),
    {
        proof {
            reveal_strlit(" ");
        }
        header.append(" ");
        assert(header@ =~= dict + Seq::new((i + 1) as nat, |j: int| ' '));
    }
    proof {
        reveal_strlit("\n");
    }
    header.append("\n");
    assert(header@ =~= header_text(descr@, len as nat));
    let text = header.as_str().as_bytes();
    let n: usize = text.len();
    let mut bytes: Vec<u8> = vec![0x93u8, 0x4eu8, 0x55u8, 0x4du8, 0x50u8, 0x59u8, 1u8, 0u8];
    bytes.push((n % 256) as u8);
    bytes.push((n / 256) as u8);
    let ghost front = bytes@;
    assert(front =~= reader::magic() + seq![1u8, 0u8, (n % 256) as u8, (n / 256) as u8]);
    for i in 0..n
        invariant
            n == text@.len(),
            bytes@ == front + text@.take(i as int),
    {
        bytes.push(text[i]);
        assert(bytes@ =~= front + text@.take(i + 1));
    }
    assert(bytes@ =~= preamble(descr@, len as nat));
    bytes
}

proof fn lemma_pushed_bytes(s: Seq<char>, c: char)
    requires
        '\0' <= c <= '\u{7f}',
    ensures
        utf8::encode_utf8(s + seq![c]).len() == utf8::encode_utf8(s).len() + 1,
    decreases s.len(),
{
    let all = s + seq![c];
    if s.len() == 0 {
        assert(all =~= seq![c]);
        assert(utf8::is_ascii_chars(seq![c]));
        utf8::is_ascii_chars_encode_utf8(seq![c]);
    } else {
        assert(all.drop_first() =~= s.drop_first() + seq![c]);
        assert(all[0] == s[0]);
        lemma_pushed_bytes(s.drop_first(), c);
    }
}

/// The file that holds an array of numbers.
pub fn write_npy_u32_1d(data: &[u32]) -> (bytes: Vec<u8>)
    ensures
        bytes@ == u32_file(data@),
{
    proof {
        lemma_u32_header(data@.len());
    }
    let mut bytes = npy_preamble(data.len(), "<u4");
    let ghost front = bytes@;
    for i in 0..data.len()
        invariant
            bytes@ == front + body_bytes(data@.take(i as int)),
    {
        let x: u32 = data[i];
        let ghost before = bytes@;
        bytes.push((x % 256) as u8);
        bytes.push((x / 256 % 256) as u8);
        bytes.push((x / 65536 % 256) as u8);
        bytes.push((x / 16777216) as u8);
        proof {
            assert(bytes@ =~= before + u32_bytes(x));
            assert(data@.take(i + 1).drop_last() =~= data@.take(i as int));
            assert(bytes@ =~= front + body_bytes(data@.take(i + 1)));
        }
    }
    assert(data@.take(data@.len() as int) =~= data@);
    bytes
}

/// 10 to the power of `n`.
spec fn pow10(n: nat) -> nat
    decreases n,
{
    if n == 0 {
        1
    } else {
        10 * pow10((n - 1) as nat)
    }
}

proof fn lemma_decimal_len(n: nat, k: nat)
    requires
        k > 0,
        n < pow10(k),
    ensures
        0 < text::decimal(n).len() <= k,
    decreases k,
{
    if n >= 10 {
        assert(k > 1) by {
            if k == 1 {
                assert(pow10(1) == 10) by {
                    reveal_with_fuel(pow10, 2);
                }
            }
        }
        lemma_decimal_len(n / 10, (k - 1) as nat);
    }
}

/// A number in decimal digits consists of digits.
pub proof fn lemma_decimal_digits(n: nat)
    ensures
        text::decimal(n).len() > 0,
        forall|i: int|
            0 <= i < text::decimal(n).len() ==> '0' <= #[trigger] text::decimal(n)[i] <= '9',
    decreases n,
{
    if n >= 10 {
        lemma_decimal_digits(n / 10);
    }
}

/// The header of an array of `u32` is short, and plain ASCII.
pub proof fn lemma_u32_header(len: nat)
    requires
        len <= u64::MAX,
    ensures
        utf8::is_ascii_chars(header_text("<u4"@, len)),
        utf8::encode_utf8(header_text("<u4"@, len)).len() <= 0xffff,
{
    reveal_strlit("{'descr': '");
    reveal_strlit("<u4");
    reveal_strlit("', 'fortran_order': False, 'shape': (");
    reveal_strlit(",), }");
    lemma_decimal_digits(len);
    assert(pow10(20) > u64::MAX) by {
        reveal_with_fuel(pow10, 21);
    }
    lemma_decimal_len(len, 20);
    let all = header_text("<u4"@, len);
    assert(utf8::is_ascii_chars(all)) by {
        assert(utf8::is_ascii_chars("{'descr': '"@));
        assert(utf8::is_ascii_chars("<u4"@));
        assert(utf8::is_ascii_chars("', 'fortran_order': False, 'shape': ("@));
        assert(utf8::is_ascii_chars(",), }"@));
        assert(utf8::is_ascii_chars(text::decimal(len)));
    }
    utf8::is_ascii_chars_encode_utf8(all);
}

} // verus!
