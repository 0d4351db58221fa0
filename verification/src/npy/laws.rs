//! What is written is read back.

use crate::npy::chars;
use crate::npy::data;
use crate::npy::header;
use crate::npy::header::NpyError;
use crate::npy::reader;
use crate::npy::writer;
use crate::text;
use vstd::prelude::*;
use vstd::utf8;

verus! {

/// The header of an array of `u32` up to its length.
spec fn fixed_part() -> Seq<char> {
    "{'descr': '<u4', 'fortran_order': False, 'shape': ("@
}

/// The header of an array of `u32` begins with its fixed part, followed by the length.
proof fn lemma_header_parts(len: nat)
    ensures
        ({
            let h = writer::header_text("<u4"@, len);
            let d = text::decimal(len);
            &&& fixed_part().len() == 51
            &&& h.len() >= 51 + d.len() + 2
            &&& forall|i: int| 0 <= i < 51 ==> #[trigger] h[i] == fixed_part()[i]
            &&& forall|i: int| 0 <= i < d.len() ==> h[51 + i] == #[trigger] d[i]
            &&& h[51 + d.len() as int] == ','
            &&& h[52 + d.len() as int] == ')'
        }),
{
    reveal_strlit("{'descr': '<u4', 'fortran_order': False, 'shape': (");
    reveal_strlit("{'descr': '");
    reveal_strlit("<u4");
    reveal_strlit("', 'fortran_order': False, 'shape': (");
    reveal_strlit(",), }");
    let joined = "{'descr': '"@ + "<u4"@ + "', 'fortran_order': False, 'shape': ("@;
    assert(joined =~= fixed_part());
    let h = writer::header_text("<u4"@, len);
    let d = text::decimal(len);
    assert forall|i: int| 0 <= i < 51 implies #[trigger] h[i] == fixed_part()[i] by {
        assert(h[i] == joined[i]);
    }
}

/// A quote that is not followed by `second` is not the start of a quoted key that begins so.
proof fn lemma_not_quoted(h: Seq<char>, key: Seq<char>, i: int)
    requires
        key.len() > 0,
        0 <= i,
        i + 1 < h.len() ==> h[i] != '\'' || h[i + 1] != key[0],
    ensures
        !chars::occurs_at(h, header::quoted(key, '\''), i),
{
    let pat = header::quoted(key, '\'');
    if chars::occurs_at(h, pat, i) {
        assert(pat[0] == '\'' && pat[1] == key[0]);
        assert(h[i + 0] == pat[0]);
        assert(h[i + 1] == pat[1]);
    }
}

/// The quoted key stands at `at` in the header, and not before.
proof fn lemma_key_at(h: Seq<char>, key: Seq<char>, at: int)
    requires
        key.len() > 0,
        0 <= at,
        chars::occurs_at(h, header::quoted(key, '\''), at),
        forall|i: int| 0 <= i < at ==> (#[trigger] h[i] != '\'' || h[i + 1] != key[0]),
    ensures
        header::from_key(h, key) == Ok::<Seq<char>, NpyError>(h.skip(at)),
{
    let pat = header::quoted(key, '\'');
    assert forall|i: int| 0 <= i < at implies !(#[trigger] chars::occurs_at(h, pat, i)) by {
        assert(h[i] != '\'' || h[i + 1] != key[0]);
        lemma_not_quoted(h, key, i);
    }
    chars::lemma_find(h, pat, 0, at);
}

/// In the fixed part quotes stand only at these places.
proof fn lemma_quotes(i: int)
    requires
        0 <= i < 51,
        fixed_part()[i] == '\'',
    ensures
        i == 1 || i == 7 || i == 10 || i == 14 || i == 17 || i == 31 || i == 41 || i == 47,
{
    reveal_strlit("{'descr': '<u4', 'fortran_order': False, 'shape': (");
}

/// The first character `c` in `h` from `begin` on stands at `at`.
proof fn lemma_char_at(h: Seq<char>, c: char, begin: int, at: int)
    requires
        0 <= begin <= at < h.len(),
        h[at] == c,
        forall|i: int| begin <= i < at ==> #[trigger] h[i] != c,
    ensures
        chars::find_char(h.skip(begin), c) == Some(at - begin),
{
    let s = h.skip(begin);
    assert forall|i: int| 0 <= i < at - begin implies #[trigger] s[i] != c by {
        assert(h[begin + i] != c);
    }
    chars::lemma_find_char(s, c, at - begin);
}

/// A space followed by something else is trimmed.
proof fn lemma_one_space(h: Seq<char>, begin: int)
    requires
        0 <= begin,
        begin + 1 < h.len(),
        h[begin] == ' ',
        !chars::is_white(h[begin + 1]),
    ensures
        chars::trim_start(h.skip(begin)) == h.skip(begin + 1),
{
    let s = h.skip(begin);
    assert(s.drop_first() =~= h.skip(begin + 1));
    assert(chars::trim_start(s.drop_first()) == s.drop_first());
}

/// The type in the header of an array of `u32`.
proof fn lemma_descr(len: nat)
    ensures
        header::string_value(writer::header_text("<u4"@, len), "descr"@) == Ok::<
            Seq<char>,
            NpyError,
        >("<u4"@),
{
    let h = writer::header_text("<u4"@, len);
    lemma_header_parts(len);
    reveal_strlit("{'descr': '<u4', 'fortran_order': False, 'shape': (");
    reveal_strlit("descr");
    reveal_strlit("<u4");
    let key = "descr"@;
    let pat = header::quoted(key, '\'');
    assert forall|j: int| 0 <= j < pat.len() implies h[1 + j] == #[trigger] pat[j] by {
        assert(h[1 + j] == fixed_part()[1 + j]);
    }
    assert(h[0] == fixed_part()[0]);
    lemma_key_at(h, key, 1);
    assert forall|i: int| 1 <= i < 8 implies #[trigger] h[i] != ':' by {
        assert(h[i] == fixed_part()[i]);
    }
    assert(h[8] == fixed_part()[8]);
    lemma_char_at(h, ':', 1, 8);
    assert(h.skip(1).skip(8) =~= h.skip(9));
    assert(h[9] == fixed_part()[9] && h[10] == fixed_part()[10]);
    lemma_one_space(h, 9);
    let value = h.skip(10);
    assert(value.skip(1) =~= h.skip(11));
    assert forall|i: int| 11 <= i < 14 implies #[trigger] h[i] != '\'' by {
        assert(h[i] == fixed_part()[i]);
    }
    assert(h[14] == fixed_part()[14]);
    lemma_char_at(h, '\'', 11, 14);
    assert(h[11] == fixed_part()[11] && h[12] == fixed_part()[12] && h[13] == fixed_part()[13]);
    assert(h.skip(11).take(3) =~= "<u4"@);
}

/// The header of an array of `u32` says that it is not in Fortran order.
proof fn lemma_fortran(len: nat)
    ensures
        header::bool_value(writer::header_text("<u4"@, len), "fortran_order"@) == Ok::<
            bool,
            NpyError,
        >(false),
{
    let h = writer::header_text("<u4"@, len);
    lemma_header_parts(len);
    reveal_strlit("{'descr': '<u4', 'fortran_order': False, 'shape': (");
    reveal_strlit("fortran_order");
    reveal_strlit("False");
    let key = "fortran_order"@;
    let pat = header::quoted(key, '\'');
    assert forall|j: int| 0 <= j < pat.len() implies h[17 + j] == #[trigger] pat[j] by {
        assert(h[17 + j] == fixed_part()[17 + j]);
    }
    assert forall|i: int| 0 <= i < 17 implies (#[trigger] h[i] != '\'' || h[i + 1]
        != key[0]) by {
        assert(h[i] == fixed_part()[i] && h[i + 1] == fixed_part()[i + 1]);
        if h[i] == '\'' {
            lemma_quotes(i);
        }
    }
    lemma_key_at(h, key, 17);
    assert forall|i: int| 17 <= i < 32 implies #[trigger] h[i] != ':' by {
        assert(h[i] == fixed_part()[i]);
    }
    assert(h[32] == fixed_part()[32]);
    lemma_char_at(h, ':', 17, 32);
    assert(h.skip(17).skip(16) =~= h.skip(33));
    assert(h[33] == fixed_part()[33] && h[34] == fixed_part()[34]);
    lemma_one_space(h, 33);
    let value = h.skip(34);
    let word = "False"@;
    assert forall|j: int| 0 <= j < word.len() implies value[0 + j] == #[trigger] word[j] by {
        assert(h[34 + j] == fixed_part()[34 + j]);
    }
}

/// A number comes back from its decimal digits.
pub proof fn law_decimal_is_read_back(n: nat)
    ensures
        chars::number_value(text::decimal(n)) == Some(n),
{
    writer::lemma_decimal_digits(n);
    lemma_digits_value(n);
    assert('0' <= text::decimal(n)[0] <= '9');
}

proof fn lemma_digits_value(n: nat)
    ensures
        chars::digits_value(text::decimal(n)) == Some(n),
    decreases n,
{
    let d = text::decimal(n);
    if n < 10 {
        assert(d.drop_last() =~= Seq::<char>::empty());
        assert(chars::digits_value(Seq::<char>::empty()) == Some(0nat));
    } else {
        lemma_digits_value(n / 10);
        assert(d.drop_last() =~= text::decimal(n / 10));
    }
}

/// Text without white space is not changed by trimming.
proof fn lemma_nothing_to_trim(s: Seq<char>)
    requires
        forall|i: int| 0 <= i < s.len() ==> !chars::is_white(#[trigger] s[i]),
    ensures
        chars::trim(s) == s,
{
    if s.len() > 0 {
        assert(!chars::is_white(s[0]));
        assert(!chars::is_white(s[s.len() - 1]));
    }
}

/// The length in the header of an array of `u32`.
proof fn lemma_length(len: nat)
    requires
        len <= usize::MAX,
    ensures
        header::length_value(writer::header_text("<u4"@, len)) == Ok::<usize, NpyError>(
            len as usize,
        ),
{
    let h = writer::header_text("<u4"@, len);
    let d = text::decimal(len);
    lemma_header_parts(len);
    writer::lemma_decimal_digits(len);
    reveal_strlit("{'descr': '<u4', 'fortran_order': False, 'shape': (");
    reveal_strlit("shape");
    let key = "shape"@;
    let pat = header::quoted(key, '\'');
    assert forall|j: int| 0 <= j < pat.len() implies h[41 + j] == #[trigger] pat[j] by {
        assert(h[41 + j] == fixed_part()[41 + j]);
    }
    assert forall|i: int| 0 <= i < 41 implies (#[trigger] h[i] != '\'' || h[i + 1]
        != key[0]) by {
        assert(h[i] == fixed_part()[i] && h[i + 1] == fixed_part()[i + 1]);
        if h[i] == '\'' {
            lemma_quotes(i);
        }
    }
    lemma_key_at(h, key, 41);
    assert forall|i: int| 41 <= i < 50 implies #[trigger] h[i] != '(' by {
        assert(h[i] == fixed_part()[i]);
    }
    assert(h[50] == fixed_part()[50]);
    lemma_char_at(h, '(', 41, 50);
    assert(h.skip(41).skip(10) =~= h.skip(51));
    let close = 52 + d.len() as int;
    assert forall|i: int| 51 <= i < close implies #[trigger] h[i] != ')' by {
        if i < 51 + d.len() {
            assert(h[51 + (i - 51)] == d[i - 51]);
        }
    }
    lemma_char_at(h, ')', 51, close);
    let shape = h.skip(51).take(close - 51);
    assert forall|i: int| 0 <= i < d.len() implies #[trigger] shape[i] != ',' by {
        assert(h[51 + i] == d[i]);
    }
    chars::lemma_find_char(shape, ',', d.len() as int);
    assert(shape.take(d.len() as int) =~= d) by {
        assert forall|i: int| 0 <= i < d.len() implies shape[i] == d[i] by {
            assert(h[51 + i] == d[i]);
        }
    }
    assert forall|i: int| 0 <= i < d.len() implies !chars::is_white(#[trigger] d[i]) by {
        assert('0' <= d[i] <= '9');
    }
    lemma_nothing_to_trim(d);
    let rest = shape.skip(d.len() as int + 1);
    assert(rest =~= Seq::<char>::empty());
    assert(chars::comma_parts(Seq::<char>::empty()) =~= Seq::<Seq<char>>::empty());
    assert(chars::comma_parts(shape) =~= seq![d]);
    law_decimal_is_read_back(len);
}

/// The bytes of a number stand for the number.
proof fn lemma_u32_bytes(x: u32)
    ensures
        data::le_value(writer::u32_bytes(x)) == x,
{
    let b = writer::u32_bytes(x);
    reveal_with_fuel(data::le_value, 5);
    let b1 = b.drop_first();
    let b2 = b1.drop_first();
    let b3 = b2.drop_first();
    let b4 = b3.drop_first();
    assert(b4.len() == 0);
    assert(b3[0] == b[3] && b2[0] == b[2] && b1[0] == b[1]);
}

proof fn lemma_body(items: Seq<u32>, i: int)
    requires
        0 <= i < items.len(),
    ensures
        writer::body_bytes(items).len() == 4 * items.len(),
        data::item_bytes(writer::body_bytes(items), 4, i) == writer::u32_bytes(items[i]),
    decreases items.len(),
{
    let front = items.drop_last();
    lemma_body_len(items);
    lemma_body_len(front);
    let body = writer::body_bytes(items);
    if i < front.len() {
        lemma_body(front, i);
        assert(data::item_bytes(body, 4, i) =~= data::item_bytes(
            writer::body_bytes(front),
            4,
            i,
        ));
    } else {
        assert(data::item_bytes(body, 4, i) =~= writer::u32_bytes(items[i]));
    }
}

proof fn lemma_body_len(items: Seq<u32>)
    ensures
        writer::body_bytes(items).len() == 4 * items.len(),
    decreases items.len(),
{
    if items.len() > 0 {
        lemma_body_len(items.drop_last());
    }
}

/// Items as they are returned.
pub open spec fn as_usize(items: Seq<u32>) -> Seq<usize> {
    items.map_values(|v: u32| v as usize)
}

/// The items come back from their bytes.
proof fn lemma_items(items: Seq<u32>)
    ensures
        data::decoded("<u4"@, writer::body_bytes(items)) == Ok::<Seq<usize>, NpyError>(
            as_usize(items),
        ),
        data::dtype_of("<u4"@) == Some(data::Dtype { size: 4, big: false }),
{
    reveal_strlit("<u4");
    reveal_strlit("|u1");
    reveal_strlit("<u1");
    reveal_strlit(">u1");
    reveal_strlit("<u2");
    reveal_strlit(">u2");
    let descr = "<u4"@;
    assert(descr[0] != "|u1"@[0] && descr[2] != "<u1"@[2] && descr[0] != ">u1"@[0] && descr[2]
        != "<u2"@[2] && descr[0] != ">u2"@[0]);
    let dtype = data::Dtype { size: 4, big: false };
    let body = writer::body_bytes(items);
    lemma_body_len(items);
    let values = data::item_values(body, dtype);
    assert(values.len() == items.len());
    assert forall|i: int| 0 <= i < items.len() implies #[trigger] values[i] == items[i] by {
        lemma_body(items, i);
        lemma_u32_bytes(items[i]);
    }
    assert(data::fitted(values) =~= as_usize(items));
}

/// Reading what was written gives the array back.
pub proof fn law_written_array_is_read_back(items: Seq<u32>)
    requires
        4 * items.len() <= usize::MAX,
    ensures
        reader::read_array(writer::u32_file(items)) == Ok::<Seq<usize>, NpyError>(as_usize(items)),
{
    let len = items.len();
    let h = writer::header_text("<u4"@, len);
    let head = utf8::encode_utf8(h);
    let body = writer::body_bytes(items);
    let file = writer::u32_file(items);
    writer::lemma_u32_header(len);
    utf8::encode_utf8_valid_utf8(h);
    utf8::encode_utf8_decode_utf8(h);
    assert(file.take(6) =~= reader::magic());
    assert(file[6] == 1 && file[7] == 0);
    let width = file.subrange(8, 10);
    assert(data::le_value(width) == head.len()) by {
        reveal_with_fuel(data::le_value, 3);
        let tail = width.drop_first();
        assert(tail.drop_first().len() == 0);
        assert(width[0] == (head.len() % 256) as u8);
        assert(tail[0] == (head.len() / 256) as u8);
    }
    assert(file.subrange(10, 10 + head.len() as int) =~= head);
    assert(file.skip(10 + head.len() as int) =~= body);
    assert(reader::split_file(file) == Ok::<(Seq<u8>, Seq<u8>), NpyError>((head, body)));
    lemma_descr(len);
    lemma_fortran(len);
    lemma_length(len);
    lemma_items(items);
    lemma_body_len(items);
    assert(reader::array_of(h, body) == Ok::<Seq<usize>, NpyError>(as_usize(items)));
}

/// The place at which a text is found is the first at which it stands; it is not found exactly if
/// it stands nowhere.
pub proof fn law_find_is_first(s: Seq<char>, pat: Seq<char>)
    ensures
        match chars::find(s, pat) {
            Some(i) => chars::occurs_at(s, pat, i) && forall|j: int|
                0 <= j < i ==> !(#[trigger] chars::occurs_at(s, pat, j)),
            None => forall|j: int| !(#[trigger] chars::occurs_at(s, pat, j)),
        },
{
    lemma_find_from(s, pat, 0);
}

proof fn lemma_find_from(s: Seq<char>, pat: Seq<char>, from: int)
    requires
        0 <= from,
    ensures
        match chars::find_from(s, pat, from) {
            Some(i) => from <= i && chars::occurs_at(s, pat, i) && forall|j: int|
                from <= j < i ==> !(#[trigger] chars::occurs_at(s, pat, j)),
            None => forall|j: int| from <= j ==> !(#[trigger] chars::occurs_at(s, pat, j)),
        },
    decreases s.len() - from,
{
    if from + pat.len() <= s.len() && !chars::occurs_at(s, pat, from) && from < s.len() {
        lemma_find_from(s, pat, from + 1);
    }
}

/// All characters of a text are white space.
pub open spec fn is_blank(s: Seq<char>) -> bool {
    forall|i: int| 0 <= i < s.len() ==> chars::is_white(#[trigger] s[i])
}

/// Trimming takes off white space at both ends, and all of it, and nothing else.
pub proof fn law_trimming_takes_off_white_space(s: Seq<char>)
    ensures
        ({
            let t = chars::trim(s);
            &&& exists|a: Seq<char>, b: Seq<char>| #[trigger]
                is_blank(a) && #[trigger] is_blank(b) && s == a + t + b
            &&& t.len() > 0 ==> !chars::is_white(t[0]) && !chars::is_white(t.last())
        }),
{
    let m = chars::trim_start(s);
    let t = chars::trim(s);
    let a = lemma_trim_start(s);
    let b = lemma_trim_end(m);
    assert(s =~= a + t + b);
    if t.len() > 0 {
        assert(t[0] == m[0]);
    }
    assert(is_blank(a) && is_blank(b) && s == a + t + b);
}

proof fn lemma_trim_start(s: Seq<char>) -> (a: Seq<char>)
    ensures
        is_blank(a),
        s == a + chars::trim_start(s),
        chars::trim_start(s).len() > 0 ==> !chars::is_white(chars::trim_start(s)[0]),
    decreases s.len(),
{
    if s.len() > 0 && chars::is_white(s[0]) {
        let a = lemma_trim_start(s.drop_first());
        assert(s =~= seq![s[0]] + s.drop_first());
        assert(s =~= (seq![s[0]] + a) + chars::trim_start(s));
        seq![s[0]] + a
    } else {
        assert(s =~= Seq::<char>::empty() + s);
        Seq::empty()
    }
}

proof fn lemma_trim_end(s: Seq<char>) -> (b: Seq<char>)
    ensures
        is_blank(b),
        s == chars::trim_end(s) + b,
        chars::trim_end(s).len() > 0 ==> !chars::is_white(chars::trim_end(s).last()),
    decreases s.len(),
{
    if s.len() > 0 && chars::is_white(s.last()) {
        let b = lemma_trim_end(s.drop_last());
        assert(s =~= s.drop_last().push(s.last()));
        assert(s =~= chars::trim_end(s) + b.push(s.last()));
        b.push(s.last())
    } else {
        assert(s =~= s + Seq::<char>::empty());
        Seq::empty()
    }
}

/// The parts of two texts with a comma between them are the parts of the one and of the other.
pub proof fn law_commas_part_texts(a: Seq<char>, b: Seq<char>)
    ensures
        chars::comma_parts(a + seq![','] + b) == chars::comma_parts(a) + chars::comma_parts(b),
    decreases a.len(),
{
    let s = a + seq![','] + b;
    law_find_is_first(a, seq![',']);
    match chars::find_char(a, ',') {
        Some(i) => {
            assert(chars::occurs_at(a, seq![','], i));
            assert(a[i + 0] == seq![','][0]);
            assert(s[i] == ',');
            assert forall|j: int| 0 <= j < i implies #[trigger] s[j] != ',' by {
                lemma_no_comma(a, i, j);
            }
            chars::lemma_find_char(s, ',', i);
            assert(s.take(i) =~= a.take(i));
            assert(s.skip(i + 1) =~= a.skip(i + 1) + seq![','] + b);
            law_commas_part_texts(a.skip(i + 1), b);
            assert(chars::comma_parts(s) =~= chars::comma_parts(a) + chars::comma_parts(b));
        },
        None => {
            assert forall|j: int| 0 <= j < a.len() implies #[trigger] s[j] != ',' by {
                lemma_no_comma(a, a.len() as int, j);
            }
            assert(s[a.len() as int] == ',');
            chars::lemma_find_char(s, ',', a.len() as int);
            assert(s.take(a.len() as int) =~= a);
            assert(s.skip(a.len() as int + 1) =~= b);
        },
    }
}

/// Before the place at which a comma is found, there is none.
proof fn lemma_no_comma(a: Seq<char>, i: int, j: int)
    requires
        0 <= j < i <= a.len(),
        forall|l: int| 0 <= l < i ==> !(#[trigger] chars::occurs_at(a, seq![','], l)),
    ensures
        a[j] != ',',
{
    assert(!chars::occurs_at(a, seq![','], j));
    if a[j] == ',' {
        assert forall|l: int| 0 <= l < seq![','].len() implies a[j + l]
            == #[trigger] seq![','][l] by {
            assert(l == 0);
        }
    }
}

/// The bytes of a number in one order are those in the other order backwards; and each byte counts
/// 256 times what it would count one place lower.
pub proof fn law_byte_orders_mirror(a: Seq<u8>, b: Seq<u8>)
    ensures
        data::be_value(a.reverse()) == data::le_value(a),
        data::le_value(a + b) == data::le_value(a) + data::pow256(a.len()) * data::le_value(b),
        a.len() == 1 ==> data::le_value(a) == a[0],
    decreases a.len(),
{
    if a.len() == 0 {
        assert(a + b =~= b);
        assert(a.reverse().len() == 0);
        assert(data::pow256(0) == 1);
        assert(data::pow256(a.len()) * data::le_value(b) == data::le_value(b));
    } else {
        let rest = a.drop_first();
        law_byte_orders_mirror(rest, b);
        assert(a.reverse().drop_last() =~= rest.reverse());
        assert(a.reverse().last() == a[0]);
        assert((a + b).drop_first() =~= rest + b);
        assert((a + b)[0] == a[0]);
        assert(data::pow256(a.len()) * data::le_value(b) == 256 * (data::pow256(rest.len())
            * data::le_value(b))) by (nonlinear_arith)
            requires
                data::pow256(a.len()) == 256 * data::pow256(rest.len()),
        ;
    }
}

/// A header in which a key between quotes is followed by a colon and more text.
pub open spec fn entry_text(
    before: Seq<char>,
    key: Seq<char>,
    quote: char,
    space: Seq<char>,
    rest: Seq<char>,
) -> Seq<char> {
    before + header::quoted(key, quote) + space + seq![':'] + rest
}

/// The first entry of a key stands there: the key does not occur before, neither it nor what
/// follows holds a colon of its own, and it stands between double quotes only where it stands
/// nowhere between single ones.
pub open spec fn is_first_entry(
    before: Seq<char>,
    key: Seq<char>,
    quote: char,
    space: Seq<char>,
    rest: Seq<char>,
) -> bool {
    let text = entry_text(before, key, quote, space, rest);
    &&& quote == '\'' || quote == '"'
    &&& !key.contains(':')
    &&& !space.contains(':')
    &&& forall|i: int|
        0 <= i < before.len() ==> !(#[trigger] chars::occurs_at(
            text,
            header::quoted(key, quote),
            i,
        ))
    &&& quote == '"' ==> forall|i: int|
        !(#[trigger] chars::occurs_at(text, header::quoted(key, '\''), i))
}

/// The value of a key is what follows the colon behind it, without the white space in between.
pub proof fn law_value_follows_key(
    before: Seq<char>,
    key: Seq<char>,
    quote: char,
    space: Seq<char>,
    rest: Seq<char>,
)
    requires
        is_first_entry(before, key, quote, space, rest),
    ensures
        header::from_value(entry_text(before, key, quote, space, rest), key) == Ok::<
            Seq<char>,
            NpyError,
        >(chars::trim_start(rest)),
{
    let text = entry_text(before, key, quote, space, rest);
    let pat = header::quoted(key, quote);
    let at = before.len() as int;
    assert forall|j: int| 0 <= j < pat.len() implies text[at + j] == #[trigger] pat[j] by {}
    chars::lemma_find(text, pat, 0, at);
    if quote == '"' {
        law_find_is_first(text, header::quoted(key, '\''));
    }
    let after = text.skip(at);
    assert(header::from_key(text, key) == Ok::<Seq<char>, NpyError>(after));
    let colon = (pat.len() + space.len()) as int;
    assert(after =~= pat + space + seq![':'] + rest);
    assert forall|i: int| 0 <= i < colon implies #[trigger] after[i] != ':' by {
        if 1 <= i < 1 + key.len() {
            assert(after[i] == key[i - 1]);
            assert(key.contains(key[i - 1]));
        } else if i >= pat.len() {
            assert(after[i] == space[i - pat.len()]);
            assert(space.contains(space[i - pat.len()]));
        } else {
            assert(after[i] == quote);
        }
    }
    assert(after[colon] == ':');
    chars::lemma_find_char(after, ':', colon);
    assert(after.skip(colon + 1) =~= rest);
}

/// A string comes from between its quotes, and a truth value from its name.
pub proof fn law_values_are_read(
    before: Seq<char>,
    key: Seq<char>,
    quote: char,
    space: Seq<char>,
    rest: Seq<char>,
    mark: char,
    value: Seq<char>,
    more: Seq<char>,
)
    requires
        is_first_entry(before, key, quote, space, rest),
        mark == '\'' || mark == '"',
        !value.contains(mark),
    ensures
        ({
            let text = entry_text(before, key, quote, space, rest);
            let found = chars::trim_start(rest);
            &&& found == seq![mark] + value + seq![mark] + more ==> header::string_value(text, key)
                == Ok::<Seq<char>, NpyError>(value)
            &&& found == "True"@ + more ==> header::bool_value(text, key) == Ok::<bool, NpyError>(
                true,
            )
            &&& found == "False"@ + more ==> header::bool_value(text, key) == Ok::<bool, NpyError>(
                false,
            )
        }),
{
    let text = entry_text(before, key, quote, space, rest);
    let found = chars::trim_start(rest);
    law_value_follows_key(before, key, quote, space, rest);
    reveal_strlit("True");
    reveal_strlit("False");
    if found == seq![mark] + value + seq![mark] + more {
        let inside = found.skip(1);
        assert forall|i: int| 0 <= i < value.len() implies #[trigger] inside[i] != mark by {
            assert(inside[i] == value[i]);
            assert(value.contains(value[i]));
        }
        assert(inside[value.len() as int] == mark);
        chars::lemma_find_char(inside, mark, value.len() as int);
        assert(inside.take(value.len() as int) =~= value);
    }
    if found == "True"@ + more {
        assert(found[0] == 'T' && "False"@[0] == 'F');
        assert forall|j: int| 0 <= j < "True"@.len() implies found[0 + j]
            == #[trigger] "True"@[j] by {}
        assert(!chars::starts_with(found, "False"@)) by {
            if chars::starts_with(found, "False"@) {
                assert(found[0int + 0int] == "False"@[0]);
            }
        }
        assert(chars::starts_with(found, "True"@));
    }
    if found == "False"@ + more {
        assert forall|j: int| 0 <= j < "False"@.len() implies found[0 + j]
            == #[trigger] "False"@[j] by {}
        assert(chars::starts_with(found, "False"@));
    }
}

/// What is read from a file: it begins with the bytes of the format and a known version, its items
/// fill the bytes behind the header, each as wide as the others, and come in their order.
pub proof fn law_what_is_read_stands_in_the_file(bytes: Seq<u8>)
    ensures
        reader::read_array(bytes) matches Ok(items) ==> {
            &&& bytes.len() >= 10
            &&& bytes.take(6) == seq![0x93u8, 0x4eu8, 0x55u8, 0x4du8, 0x50u8, 0x59u8]
            &&& 1 <= bytes[6] <= 3 && bytes[7] == 0
            &&& exists|begin: int, size: nat, big: bool| #[trigger]
                are_items_from(bytes, begin, size, big, items) && begin == if bytes[6] == 1 {
                    10 + bytes[8] + 256 * bytes[9]
                } else {
                    12 + bytes[8] + 256 * (bytes[9] + 256 * (bytes[10] + 256 * bytes[11]))
                }
        },
{
    if reader::read_array(bytes) is Ok {
        let items = reader::read_array(bytes)->Ok_0;
        let (head, body) = reader::split_file(bytes)->Ok_0;
        let text = utf8::decode_utf8(head);
        let descr = header::string_value(text, "descr"@)->Ok_0;
        let dtype = data::dtype_of(descr)->0;
        let len = header::length_value(text)->Ok_0;
        let size = dtype.size as nat;
        let width = reader::length_width(bytes[6], bytes[7])->0;
        let told = bytes.subrange(8, 8 + width);
        reveal_with_fuel(data::le_value, 5);
        let begin = bytes.len() - body.len();
        assert(told[0] == bytes[8] && told[1] == bytes[9]);
        let t1 = told.drop_first();
        let t2 = t1.drop_first();
        assert(t1[0] == bytes[9]);
        if width == 2 {
            assert(t2.len() == 0);
        } else {
            let t3 = t2.drop_first();
            assert(t2[0] == bytes[10] && t3[0] == bytes[11]);
            assert(t3.drop_first().len() == 0);
        }
        let values = data::item_values(body, dtype);
        assert(items == data::fitted(values));
        assert(values.len() == len) by {
            vstd::arithmetic::div_mod::lemma_div_multiples_vanish(len as int, size as int);
            assert(len * size == size * len) by (nonlinear_arith);
        }
        assert forall|i: int| 0 <= i < items.len() implies #[trigger] items[i]
            == data::item_value(
            bytes.subrange(begin + i * size, begin + i * size + size),
            dtype.big,
        ) by {
            assert(values[i] <= usize::MAX);
            assert(0 <= i * size && i * size + size <= len * size) by (nonlinear_arith)
                requires
                    0 <= i < len,
            ;
            assert(data::item_bytes(body, size, i) =~= bytes.subrange(
                begin + i * size,
                begin + i * size + size,
            ));
        }
        assert(are_items_from(bytes, begin, size, dtype.big, items));
    }
}

/// `items` are the numbers of `size` bytes that stand in a file from `begin` on.
pub open spec fn are_items_from(
    bytes: Seq<u8>,
    begin: int,
    size: nat,
    big: bool,
    items: Seq<usize>,
) -> bool {
    &&& size == 1 || size == 2 || size == 4 || size == 8
    &&& begin + items.len() * size == bytes.len()
    &&& forall|i: int|
        0 <= i < items.len() ==> #[trigger] items[i] == data::item_value(
            bytes.subrange(begin + i * size, begin + i * size + size),
            big,
        )
}

/// A shape of one number, with a comma behind it or without, gives the length; one of two or more
/// is refused.
pub proof fn law_shapes_have_one_dimension(text: Seq<char>, a: Seq<char>, b: Seq<char>)
    requires
        !a.contains(','),
        chars::trim(a).len() > 0,
    ensures
        ({
            let shape = header::shape_text(text);
            let length = header::length_value(text);
            &&& shape == Ok::<Seq<char>, NpyError>(a + seq![','] + b) && chars::comma_parts(b).len()
                > 0 ==> length == Err::<usize, NpyError>(NpyError::NotOneDimensional)
            &&& shape == Ok::<Seq<char>, NpyError>(a) || (shape == Ok::<Seq<char>, NpyError>(
                a + seq![','] + b,
            ) && is_blank(b)) ==> match chars::number_value(chars::trim(a)) {
                Some(n) if n <= usize::MAX => length == Ok::<usize, NpyError>(n as usize),
                _ => length == Err::<usize, NpyError>(NpyError::InvalidLength),
            }
        }),
{
    lemma_one_part(a);
    law_commas_part_texts(a, b);
    let parts = chars::comma_parts(a + seq![','] + b);
    assert(parts == chars::comma_parts(a) + chars::comma_parts(b));
    if is_blank(b) {
        lemma_blank_has_no_parts(b);
        assert(parts =~= chars::comma_parts(a));
    }
}

/// A text without commas is its only part.
proof fn lemma_one_part(a: Seq<char>)
    requires
        !a.contains(','),
    ensures
        chars::comma_parts(a) == chars::unless_empty(chars::trim(a)),
{
    law_find_is_first(a, seq![',']);
    match chars::find_char(a, ',') {
        Some(i) => {
            assert(a[i + 0] == seq![','][0]);
            assert(a.contains(a[i]));
        },
        None => {},
    }
}

/// White space has no parts.
proof fn lemma_blank_has_no_parts(b: Seq<char>)
    requires
        is_blank(b),
    ensures
        chars::comma_parts(b) == Seq::<Seq<char>>::empty(),
{
    assert(!b.contains(',')) by {
        if b.contains(',') {
            let i = choose|i: int| 0 <= i < b.len() && b[i] == ',';
            assert(chars::is_white(b[i]));
        }
    }
    lemma_one_part(b);
    let t = chars::trim(b);
    law_trimming_takes_off_white_space(b);
    if t.len() > 0 {
        let (x, y) = choose|x: Seq<char>, y: Seq<char>| #[trigger]
            is_blank(x) && #[trigger] is_blank(y) && b == x + t + y;
        assert(b[x.len() as int] == t[0]);
        assert(chars::is_white(b[x.len() as int]));
    }
    assert(chars::unless_empty(t) =~= Seq::<Seq<char>>::empty());
}

} // verus!
