//! Searching and cutting text.

use vstd::prelude::*;

verus! {

/// `pat` stands in `s` from index `i` on.
pub open spec fn occurs_at(s: Seq<char>, pat: Seq<char>, i: int) -> bool {
    &&& 0 <= i
    &&& i + pat.len() <= s.len()
    &&& forall|j: int| 0 <= j < pat.len() ==> s[i + j] == #[trigger] pat[j]
}

/// The first index, from `i` on, at which `pat` stands in `s`.
pub open spec fn find_from(s: Seq<char>, pat: Seq<char>, i: int) -> Option<int>
    decreases s.len() - i,
{
    if i < 0 || i + pat.len() > s.len() {
        None
    } else if occurs_at(s, pat, i) {
        Some(i)
    } else if i >= s.len() {
        None
    } else {
        find_from(s, pat, i + 1)
    }
}

/// The first index at which `pat` stands in `s`.
pub open spec fn find(s: Seq<char>, pat: Seq<char>) -> Option<int> {
    find_from(s, pat, 0)
}

/// The first index at which a character stands in `s`.
pub open spec fn find_char(s: Seq<char>, c: char) -> Option<int> {
    find(s, seq![c])
}

/// What is found first is found.
pub proof fn lemma_find(s: Seq<char>, pat: Seq<char>, from: int, at: int)
    requires
        0 <= from <= at,
        occurs_at(s, pat, at),
        forall|i: int| from <= i < at ==> !(#[trigger] occurs_at(s, pat, i)),
    ensures
        find_from(s, pat, from) == Some(at),
    decreases at - from,
{
    if from < at {
        assert(!occurs_at(s, pat, from));
        lemma_find(s, pat, from + 1, at);
    }
}

/// The first place of a character that stands nowhere before it.
pub proof fn lemma_find_char(s: Seq<char>, c: char, at: int)
    requires
        0 <= at < s.len(),
        s[at] == c,
        forall|i: int| 0 <= i < at ==> #[trigger] s[i] != c,
    ensures
        find_char(s, c) == Some(at),
{
    let pat = seq![c];
    assert forall|i: int| 0 <= i < at implies !(#[trigger] occurs_at(s, pat, i)) by {
        assert(s[i] != c);
        if occurs_at(s, pat, i) {
            assert(s[i + 0] == pat[0]);
        }
    }
    lemma_find(s, pat, 0, at);
}

/// What is found lies within the text.
pub proof fn lemma_find_bounds(s: Seq<char>, pat: Seq<char>, from: int)
    requires
        0 <= from,
    ensures
        find_from(s, pat, from) matches Some(i) ==> from <= i && occurs_at(s, pat, i),
    decreases s.len() - from,
{
    if from + pat.len() <= s.len() && !occurs_at(s, pat, from) && from < s.len() {
        lemma_find_bounds(s, pat, from + 1);
    }
}

/// A character with the Unicode property `White_Space`.
pub open spec fn is_white(c: char) -> bool {
    ||| '\u{9}' <= c <= '\u{d}'
    ||| c == ' '
    ||| c == '\u{85}'
    ||| c == '\u{a0}'
    ||| c == '\u{1680}'
    ||| '\u{2000}' <= c <= '\u{200a}'
    ||| c == '\u{2028}'
    ||| c == '\u{2029}'
    ||| c == '\u{202f}'
    ||| c == '\u{205f}'
    ||| c == '\u{3000}'
}

/// The text without the white space at its start.
pub open spec fn trim_start(s: Seq<char>) -> Seq<char>
    decreases s.len(),
{
    if s.len() > 0 && is_white(s[0]) {
        trim_start(s.drop_first())
    } else {
        s
    }
}

/// A text that was trimmed at its start is the end of the text.
pub proof fn lemma_trim_start_suffix(s: Seq<char>)
    ensures
        trim_start(s).len() <= s.len(),
        trim_start(s) == s.skip(s.len() - trim_start(s).len()),
    decreases s.len(),
{
    if s.len() > 0 && is_white(s[0]) {
        let rest = s.drop_first();
        lemma_trim_start_suffix(rest);
        assert(rest.skip(rest.len() - trim_start(rest).len()) =~= s.skip(
            s.len() - trim_start(rest).len(),
        ));
    } else {
        assert(s.skip(0) =~= s);
    }
}

/// The text without the white space at its end.
pub open spec fn trim_end(s: Seq<char>) -> Seq<char>
    decreases s.len(),
{
    if s.len() > 0 && is_white(s.last()) {
        trim_end(s.drop_last())
    } else {
        s
    }
}

/// The text without the white space at its start and end.
pub open spec fn trim(s: Seq<char>) -> Seq<char> {
    trim_end(trim_start(s))
}

/// The text begins with `prefix`.
pub open spec fn starts_with(s: Seq<char>, prefix: Seq<char>) -> bool {
    occurs_at(s, prefix, 0)
}

/// The parts of a text between commas, trimmed, without the empty ones.
pub open spec fn comma_parts(s: Seq<char>) -> Seq<Seq<char>>
    decreases s.len(),
{
    match find_char(s, ',') {
        Some(i) => if 0 <= i < s.len() {
            unless_empty(trim(s.take(i))) + comma_parts(s.skip(i + 1))
        } else {
            Seq::empty()
        },
        None => unless_empty(trim(s)),
    }
}

/// A text alone, or nothing if it is empty.
pub open spec fn unless_empty(s: Seq<char>) -> Seq<Seq<char>> {
    if s.len() == 0 {
        Seq::empty()
    } else {
        seq![s]
    }
}

/// The value of a decimal digit.
pub open spec fn digit_value(c: char) -> Option<nat> {
    if '0' <= c <= '9' {
        Some((c as int - '0' as int) as nat)
    } else {
        None
    }
}

/// The number that decimal digits stand for.
pub open spec fn digits_value(s: Seq<char>) -> Option<nat>
    decreases s.len(),
{
    if s.len() == 0 {
        Some(0)
    } else {
        match (digits_value(s.drop_last()), digit_value(s.last())) {
            (Some(high), Some(low)) => Some(10 * high + low),
            _ => None,
        }
    }
}

/// The number that a text stands for: decimal digits, with or without a plus sign in front.
pub open spec fn number_value(s: Seq<char>) -> Option<nat> {
    let digits = if s.len() > 0 && s[0] == '+' {
        s.skip(1)
    } else {
        s
    };
    if digits.len() == 0 {
        None
    } else {
        digits_value(digits)
    }
}

/// The characters of a text.
pub fn chars_of(text: &str) -> (chars: Vec<char>)
    ensures
        chars@ == text@,
{
    let mut chars: Vec<char> = Vec::new();
    for c in iter: text.chars()
        invariant
            chars@ == text@.take(iter.index() as int),
            iter.seq() == text@,
    {
        chars.push(c);
        assert(chars@ =~= text@.take(iter.index() + 1));
    }
    assert(chars@ =~= text@);
    chars
}

/// The text from index `i` on.
pub fn cut_from(s: &Vec<char>, i: usize) -> (rest: Vec<char>)
    requires
        i <= s@.len(),
    ensures
        rest@ == s@.skip(i as int),
{
    let mut rest: Vec<char> = Vec::new();
    for j in i..s.len()
        invariant
            i <= j <= s@.len(),
            rest@ == s@.subrange(i as int, j as int),
    {
        rest.push(s[j]);
        assert(rest@ =~= s@.subrange(i as int, j + 1));
    }
    assert(rest@ =~= s@.skip(i as int));
    rest
}

/// The text before index `i`.
pub fn cut_to(s: &Vec<char>, i: usize) -> (front: Vec<char>)
    requires
        i <= s@.len(),
    ensures
        front@ == s@.take(i as int),
{
    let mut front: Vec<char> = Vec::new();
    for j in 0..i
        invariant
            i <= s@.len(),
            front@ == s@.take(j as int),
    {
        front.push(s[j]);
        assert(front@ =~= s@.take(j + 1));
    }
    front
}

/// Whether `pat` stands in `s` from index `i` on.
fn check_occurs_at(s: &Vec<char>, pat: &Vec<char>, i: usize) -> (b: bool)
    requires
        i + pat@.len() <= s@.len(),
    ensures
        b == occurs_at(s@, pat@, i as int),
{
    for j in 0..pat.len()
        invariant
            i + pat@.len() <= s@.len(),
            forall|k: int| 0 <= k < j ==> s@[i + k] == #[trigger] pat@[k],
    {
        assert(s@.len() == s.len());
        if s[i + j] != pat[j] {
            assert(s@[i + j] != pat@[j as int]);
            return false;
        }
    }
    true
}

/// The first index at which `pat` stands in `s`.
pub fn find_text(s: &Vec<char>, pat: &Vec<char>) -> (at: Option<usize>)
    ensures
        match at {
            Some(i) => find(s@, pat@) == Some(i as int) && occurs_at(s@, pat@, i as int),
            None => find(s@, pat@) is None,
        },
{
    let n: usize = s.len();
    let m: usize = pat.len();
    if m > n {
        return None;
    }
    let last: usize = n - m;
    let mut i: usize = 0;
    loop
        invariant
            n == s@.len(),
            m == pat@.len(),
            m <= n,
            last == n - m,
            i <= last,
            find(s@, pat@) == find_from(s@, pat@, i as int),
        decreases last - i,
    {
        if check_occurs_at(s, pat, i) {
            return Some(i);
        }
        if i == last {
            assert(find_from(s@, pat@, last + 1) is None);
            return None;
        }
        i = i + 1;
    }
}

/// The first index at which a character stands in `s`.
pub fn find_character(s: &Vec<char>, c: char) -> (at: Option<usize>)
    ensures
        match at {
            Some(i) => find_char(s@, c) == Some(i as int) && i < s@.len() && s@[i as int] == c,
            None => find_char(s@, c) is None,
        },
{
    let mut pat: Vec<char> = Vec::new();
    pat.push(c);
    assert(pat@ =~= seq![c]);
    let at = find_text(s, &pat);
    proof {
        if let Some(i) = at {
            assert(s@[i + 0] == pat@[0]);
        }
    }
    at
}

/// Whether a character is white space.
pub fn check_white(c: char) -> (b: bool)
    ensures
        b == is_white(c),
{
    ('\u{9}' <= c && c <= '\u{d}') || c == ' ' || c == '\u{85}' || c == '\u{a0}' || c
        == '\u{1680}' || ('\u{2000}' <= c && c <= '\u{200a}') || c == '\u{2028}' || c
        == '\u{2029}' || c == '\u{202f}' || c == '\u{205f}' || c == '\u{3000}'
}

/// The text without the white space at its start.
pub fn without_leading(s: &Vec<char>) -> (rest: Vec<char>)
    ensures
        rest@ == trim_start(s@),
{
    let mut i: usize = 0;
    assert(s@.skip(0) =~= s@);
    while i < s.len() && check_white(s[i])
        invariant
            i <= s@.len(),
            trim_start(s@) == trim_start(s@.skip(i as int)),
        decreases s@.len() - i,
    {
        assert(s@.skip(i as int).drop_first() =~= s@.skip(i + 1));
        i = i + 1;
    }
    cut_from(s, i)
}

/// The text without the white space at its start and end.
pub fn trimmed(s: &Vec<char>) -> (rest: Vec<char>)
    ensures
        rest@ == trim(s@),
{
    let mut rest = without_leading(s);
    loop
        invariant
            trim(s@) == trim_end(rest@),
        ensures
            rest@ == trim(s@),
        decreases rest@.len(),
    {
        let n: usize = rest.len();
        if n == 0 || !check_white(rest[n - 1]) {
            break;
        }
        let ghost before = rest@;
        rest.pop();
        assert(rest@ =~= before.drop_last());
    }
    rest
}

/// Whether the text begins with `prefix`.
pub fn begins_with(s: &Vec<char>, prefix: &Vec<char>) -> (b: bool)
    ensures
        b == starts_with(s@, prefix@),
{
    prefix.len() <= s.len() && check_occurs_at(s, prefix, 0)
}

/// Some texts as sequences.
pub open spec fn texts(parts: Seq<Vec<char>>) -> Seq<Seq<char>> {
    parts.map_values(|part: Vec<char>| part@)
}

/// The parts of a text between commas, trimmed, without the empty ones.
pub fn split_commas(s: &Vec<char>) -> (parts: Vec<Vec<char>>)
    ensures
        texts(parts@) == comma_parts(s@),
{
    let mut parts: Vec<Vec<char>> = Vec::new();
    let mut rest = cut_from(s, 0);
    proof {
        assert(s@.skip(0) =~= s@);
        assert(texts(parts@) + comma_parts(rest@) =~= comma_parts(s@));
    }
    loop
        invariant_except_break
            texts(parts@) + comma_parts(rest@) == comma_parts(s@),
        ensures
            texts(parts@) == comma_parts(s@),
        decreases rest@.len(),
    {
        let ghost before = texts(parts@);
        match find_character(&rest, ',') {
            Some(i) => {
                let part = trimmed(&cut_to(&rest, i));
                let next = cut_from(&rest, i + 1);
                let ghost text = part@;
                if part.len() > 0 {
                    parts.push(part);
                }
                proof {
                    assert(texts(parts@) =~= before + unless_empty(text));
                    assert(texts(parts@) + comma_parts(next@) =~= before + comma_parts(rest@));
                }
                rest = next;
            },
            None => {
                let part = trimmed(&rest);
                let ghost text = part@;
                if part.len() > 0 {
                    parts.push(part);
                }
                proof {
                    assert(texts(parts@) =~= before + unless_empty(text));
                }
                break;
            },
        }
    }
    parts
}

/// Digits stand for no less than the digits before the last stand for.
proof fn lemma_digits_prefix(s: Seq<char>, n: int)
    requires
        0 <= n <= s.len(),
    ensures
        digits_value(s.take(n)) is None ==> digits_value(s) is None,
        digits_value(s) is Some ==> digits_value(s.take(n)) is Some && digits_value(s.take(n))->0
            <= digits_value(s)->0,
    decreases s.len(),
{
    if n < s.len() {
        assert(s.drop_last().take(n) =~= s.take(n));
        lemma_digits_prefix(s.drop_last(), n);
    } else {
        assert(s.take(n) =~= s);
    }
}

/// The number that a text stands for, if it stands for one that fits.
pub fn parse_number(s: &Vec<char>) -> (n: Option<usize>)
    ensures
        match number_value(s@) {
            Some(v) => if v <= usize::MAX {
                n == Some(v as usize)
            } else {
                n is None
            },
            None => n is None,
        },
{
    let begin: usize = if s.len() > 0 && s[0] == '+' {
        1
    } else {
        0
    };
    let digits = cut_from(s, begin);
    proof {
        assert(s@.skip(0) =~= s@);
    }
    if digits.len() == 0 {
        return None;
    }
    let mut value: usize = 0;
    for i in 0..digits.len()
        invariant
            number_value(s@) == digits_value(digits@),
            digits_value(digits@.take(i as int)) == Some(value as nat),
    {
        let c: char = digits[i];
        proof {
            assert(digits@.take(i + 1).drop_last() =~= digits@.take(i as int));
            lemma_digits_prefix(digits@, i + 1);
        }
        if !('0' <= c && c <= '9') {
            return None;
        }
        let low: usize = (c as u32 - '0' as u32) as usize;
        match value.checked_mul(10) {
            Some(high) => match high.checked_add(low) {
                Some(sum) => {
                    value = sum;
                },
                None => {
                    return None;
                },
            },
            None => {
                return None;
            },
        }
    }
    assert(digits@.take(digits@.len() as int) =~= digits@);
    Some(value)
}

} // verus!
