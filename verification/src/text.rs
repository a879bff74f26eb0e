//! Character-level building blocks of the address grammar: whitespace
//! trimming, splitting at a separator, and decimal / hexadecimal numerals.
//!
//! Every executable function here works on a slice of `char`s and is specified
//! against a spec function over `Seq<char>`.

use vstd::prelude::*;
use vstd::slice::slice_subrange;

verus! {

/// The characters with the Unicode `White_Space` property.
pub open spec fn is_whitespace(c: char) -> bool {
    let u = c as u32;
    ||| 0x09 <= u <= 0x0D
    ||| u == 0x20
    ||| u == 0x85
    ||| u == 0xA0
    ||| u == 0x1680
    ||| 0x2000 <= u <= 0x200A
    ||| u == 0x2028
    ||| u == 0x2029
    ||| u == 0x202F
    ||| u == 0x205F
    ||| u == 0x3000
}

/// How many whitespace characters `s` starts with.
pub open spec fn leading_whitespace(s: Seq<char>) -> nat
    decreases s.len(),
{
    if s.len() > 0 && is_whitespace(s[0]) {
        1 + leading_whitespace(s.skip(1))
    } else {
        0
    }
}

/// How many whitespace characters `s` ends with.
pub open spec fn trailing_whitespace(s: Seq<char>) -> nat
    decreases s.len(),
{
    if s.len() > 0 && is_whitespace(s.last()) {
        1 + trailing_whitespace(s.drop_last())
    } else {
        0
    }
}

/// `s` without its leading and trailing whitespace.
pub open spec fn trim(s: Seq<char>) -> Seq<char> {
    let rest = s.skip(leading_whitespace(s) as int);
    rest.take(rest.len() - trailing_whitespace(rest))
}

/// The position of the first `c` in `s`, or `s.len()` where there is none.
pub open spec fn index_of(s: Seq<char>, c: char) -> int
    decreases s.len(),
{
    if s.len() == 0 || s[0] == c {
        0
    } else {
        1 + index_of(s.skip(1), c)
    }
}

/// The fields of `s` between occurrences of `sep`. A text without `sep` is one
/// field; `n` separators always give `n + 1` fields, empty ones included.
pub open spec fn split(s: Seq<char>, sep: char) -> Seq<Seq<char>>
    decreases s.len(),
{
    let i = index_of(s, sep);
    if 0 <= i < s.len() {
        seq![s.take(i)] + split(s.skip(i + 1), sep)
    } else {
        seq![s]
    }
}

/// A decimal digit, `0` to `9`.
pub open spec fn is_digit(c: char) -> bool {
    '0' <= c <= '9'
}

/// A hexadecimal digit of either case.
pub open spec fn is_hex_digit(c: char) -> bool {
    ('0' <= c <= '9') || ('a' <= c <= 'f') || ('A' <= c <= 'F')
}

/// The value of a decimal digit.
pub open spec fn digit_value(c: char) -> nat {
    (c as u32 - '0' as u32) as nat
}

/// The value of a hexadecimal digit of either case.
pub open spec fn hex_digit_value(c: char) -> nat {
    if '0' <= c <= '9' {
        (c as u32 - '0' as u32) as nat
    } else if 'a' <= c <= 'f' {
        (c as u32 - 'a' as u32 + 10) as nat
    } else {
        (c as u32 - 'A' as u32 + 10) as nat
    }
}

/// Whether `s` is made of decimal digits only.
pub open spec fn all_digits(s: Seq<char>) -> bool {
    forall|i: int| 0 <= i < s.len() ==> is_digit(#[trigger] s[i])
}

/// Whether `s` is made of hexadecimal digits only.
pub open spec fn all_hex_digits(s: Seq<char>) -> bool {
    forall|i: int| 0 <= i < s.len() ==> is_hex_digit(#[trigger] s[i])
}

/// One to four hexadecimal digits: a 16-bit group of an IPv6 address.
pub open spec fn is_hex_group(s: Seq<char>) -> bool {
    1 <= s.len() <= 4 && all_hex_digits(s)
}

/// The number that the decimal numeral `s` denotes.
pub open spec fn decimal(s: Seq<char>) -> nat
    decreases s.len(),
{
    if s.len() == 0 {
        0
    } else {
        decimal(s.drop_last()) * 10 + digit_value(s.last())
    }
}

/// The number that the hexadecimal numeral `s` denotes.
pub open spec fn hexadecimal(s: Seq<char>) -> nat
    decreases s.len(),
{
    if s.len() == 0 {
        0
    } else {
        hexadecimal(s.drop_last()) * 16 + hex_digit_value(s.last())
    }
}

/// `index_of` is the least position that holds `c`, and lies within `s`.
pub proof fn lemma_index_of(s: Seq<char>, c: char)
    ensures
        0 <= index_of(s, c) <= s.len(),
        forall|i: int| 0 <= i < index_of(s, c) ==> s[i] != c,
        index_of(s, c) < s.len() ==> s[index_of(s, c)] == c,
    decreases s.len(),
{
    if s.len() == 0 || s[0] == c {
    } else {
        let t = s.skip(1);
        lemma_index_of(t, c);
        assert forall|i: int| 0 <= i < index_of(s, c) implies s[i] != c by {
            if i > 0 {
                assert(t[i - 1] == s[i]);
            }
        }
        assert(index_of(t, c) < t.len() ==> t[index_of(t, c)] == s[index_of(s, c)]);
    }
}

/// A position that holds `c` (or the end) with no `c` before it is `index_of`.
pub proof fn lemma_index_of_unique(s: Seq<char>, c: char, k: int)
    requires
        0 <= k <= s.len(),
        forall|i: int| 0 <= i < k ==> s[i] != c,
        k < s.len() ==> s[k] == c,
    ensures
        index_of(s, c) == k,
{
    lemma_index_of(s, c);
    let j = index_of(s, c);
    if j < k {
        assert(s[j] != c);
    } else if k < j {
        assert(s[k] != c);
    }
}

/// Every text has at least one field, and no field holds the separator.
pub proof fn lemma_split_fields(s: Seq<char>, sep: char)
    ensures
        split(s, sep).len() >= 1,
        forall|k: int, i: int|
            0 <= k < split(s, sep).len() && 0 <= i < split(s, sep)[k].len() ==> split(
                s,
                sep,
            )[k][i] != sep,
    decreases s.len(),
{
    lemma_index_of(s, sep);
    let j = index_of(s, sep);
    if 0 <= j < s.len() {
        let rest = s.skip(j + 1);
        lemma_split_fields(rest, sep);
        assert forall|k: int, i: int|
            0 <= k < split(s, sep).len() && 0 <= i < split(s, sep)[k].len() implies split(
            s,
            sep,
        )[k][i] != sep by {
            if k == 0 {
                assert(split(s, sep)[0] == s.take(j));
            } else {
                assert(split(s, sep)[k] == split(rest, sep)[k - 1]);
            }
        }
    }
}

/// The characters counted by `leading_whitespace` are whitespace.
pub proof fn lemma_leading_whitespace(s: Seq<char>)
    ensures
        leading_whitespace(s) <= s.len(),
        forall|i: int| 0 <= i < leading_whitespace(s) ==> is_whitespace(#[trigger] s[i]),
        leading_whitespace(s) < s.len() ==> !is_whitespace(s[leading_whitespace(s) as int]),
    decreases s.len(),
{
    if s.len() > 0 && is_whitespace(s[0]) {
        let t = s.skip(1);
        lemma_leading_whitespace(t);
        assert forall|i: int| 0 <= i < leading_whitespace(s) implies is_whitespace(
            #[trigger] s[i],
        ) by {
            if i > 0 {
                assert(t[i - 1] == s[i]);
            }
        }
        if leading_whitespace(s) < s.len() {
            assert(t[leading_whitespace(t) as int] == s[leading_whitespace(s) as int]);
        }
    }
}

/// The characters counted by `trailing_whitespace` are whitespace.
pub proof fn lemma_trailing_whitespace(s: Seq<char>)
    ensures
        trailing_whitespace(s) <= s.len(),
        forall|i: int|
            s.len() - trailing_whitespace(s) <= i < s.len() ==> is_whitespace(#[trigger] s[i]),
        trailing_whitespace(s) < s.len() ==> !is_whitespace(
            s[s.len() - trailing_whitespace(s) - 1],
        ),
    decreases s.len(),
{
    if s.len() > 0 && is_whitespace(s.last()) {
        let t = s.drop_last();
        lemma_trailing_whitespace(t);
        assert forall|i: int|
            s.len() - trailing_whitespace(s) <= i < s.len() implies is_whitespace(
            #[trigger] s[i],
        ) by {
            if i < s.len() - 1 {
                assert(t[i] == s[i]);
            }
        }
        if trailing_whitespace(s) < s.len() {
            assert(t[t.len() - trailing_whitespace(t) - 1] == s[s.len() - trailing_whitespace(s)
                - 1]);
        }
    }
}

/// Trimming cuts a text down to the part between two positions, takes away
/// whitespace only, and leaves no whitespace at either end.
pub proof fn lemma_trim(s: Seq<char>)
    ensures
        ({
            let a = leading_whitespace(s) as int;
            let b = a + trim(s).len();
            &&& 0 <= a <= b <= s.len()
            &&& trim(s) == s.subrange(a, b)
            &&& forall|i: int| 0 <= i < a ==> is_whitespace(#[trigger] s[i])
            &&& forall|i: int| b <= i < s.len() ==> is_whitespace(#[trigger] s[i])
            &&& trim(s).len() > 0 ==> !is_whitespace(trim(s)[0]) && !is_whitespace(trim(s).last())
        }),
{
    lemma_leading_whitespace(s);
    let a = leading_whitespace(s) as int;
    let rest = s.skip(a);
    lemma_trailing_whitespace(rest);
    let b = a + trim(s).len();
    assert(trim(s) =~= s.subrange(a, b));
    assert forall|i: int| b <= i < s.len() implies is_whitespace(#[trigger] s[i]) by {
        assert(rest[i - a] == s[i]);
    }
    if trim(s).len() > 0 {
        assert(trim(s)[0] == s[a]);
        assert(trim(s).last() == rest[rest.len() - trailing_whitespace(rest) - 1]);
    }
}

/// Trimming neither adds nor removes a character that is not whitespace.
pub proof fn lemma_trim_contains(s: Seq<char>, c: char)
    requires
        !is_whitespace(c),
    ensures
        trim(s).contains(c) == s.contains(c),
{
    lemma_trim(s);
    let a = leading_whitespace(s) as int;
    let t = trim(s);
    if t.contains(c) {
        let i = choose|i: int| 0 <= i < t.len() && t[i] == c;
        assert(s[a + i] == c);
    }
    if s.contains(c) {
        let i = choose|i: int| 0 <= i < s.len() && s[i] == c;
        assert(t[i - a] == c);
    }
}

/// A text that neither starts nor ends with whitespace is its own trimming.
pub proof fn lemma_trim_fixed(s: Seq<char>)
    requires
        s.len() > 0 ==> !is_whitespace(s[0]) && !is_whitespace(s.last()),
    ensures
        trim(s) == s,
{
    assert(s.skip(0) == s);
    assert(s.take(s.len() as int) == s);
}

/// Whether `c` is a whitespace character.
pub fn char_is_whitespace(c: char) -> (r: bool)
    ensures
        r == is_whitespace(c),
{
    let u: u32 = c as u32;
    (0x09 <= u && u <= 0x0D) || u == 0x20 || u == 0x85 || u == 0xA0 || u == 0x1680 || (0x2000 <= u
        && u <= 0x200A) || u == 0x2028 || u == 0x2029 || u == 0x202F || u == 0x205F || u == 0x3000
}

/// The characters of `s`, in order.
pub fn chars_of(s: &str) -> (out: Vec<char>)
    ensures
        out@ == s@,
{
    let mut out: Vec<char> = Vec::new();
    for c in it: s.chars()
        invariant
            out@ == it.seq().take(it.index() as int),
            it.seq() == s@,
    {
        out.push(c);
    }
    out
}

/// The part of `s` between its leading and trailing whitespace.
pub fn trim_slice(s: &[char]) -> (r: &[char])
    ensures
        r@ == trim(s@),
{
    let mut start: usize = 0;
    assert(s@.skip(0) == s@);
    while start < s.len() && char_is_whitespace(s[start])
        invariant
            start <= s.len(),
            leading_whitespace(s@) == start + leading_whitespace(s@.skip(start as int)),
        decreases s.len() - start,
    {
        proof {
            assert(s@.skip(start as int).skip(1) == s@.skip(start + 1));
        }
        start += 1;
    }
    let rest = slice_subrange(s, start, s.len());
    assert(rest@ == s@.skip(leading_whitespace(s@) as int));
    let mut end: usize = rest.len();
    assert(rest@.take(rest@.len() as int) == rest@);
    while end > 0 && char_is_whitespace(rest[end - 1])
        invariant
            end <= rest.len(),
            trailing_whitespace(rest@) == (rest.len() - end) + trailing_whitespace(
                rest@.take(end as int),
            ),
        decreases end,
    {
        proof {
            assert(rest@.take(end as int).drop_last() == rest@.take(end - 1));
        }
        end -= 1;
    }
    slice_subrange(rest, 0, end)
}

/// The position of the first `c` in `s`, or the length of `s`.
pub fn find_char(s: &[char], c: char) -> (r: usize)
    ensures
        r == index_of(s@, c),
        r <= s.len(),
{
    let mut i: usize = 0;
    while i < s.len() && s[i] != c
        invariant
            i <= s.len(),
            forall|j: int| 0 <= j < i ==> s@[j] != c,
        decreases s.len() - i,
    {
        i += 1;
    }
    proof {
        lemma_index_of_unique(s@, c, i as int);
    }
    i
}

/// Whether `c` occurs in `s`.
pub fn contains_char(s: &[char], c: char) -> (r: bool)
    ensures
        r == s@.contains(c),
{
    let i = find_char(s, c);
    proof {
        lemma_index_of(s@, c);
    }
    i < s.len()
}

/// A prefix of a decimal numeral never denotes more than the whole.
pub proof fn lemma_decimal_prefix(s: Seq<char>, i: int)
    requires
        0 <= i <= s.len(),
    ensures
        decimal(s.take(i)) <= decimal(s),
    decreases s.len(),
{
    if i == s.len() {
        assert(s.take(i) == s);
    } else {
        lemma_decimal_prefix(s.drop_last(), i);
        assert(s.drop_last().take(i) == s.take(i));
    }
}

/// The value of the decimal numeral `s`, where `s` is a non-empty run of
/// digits that denotes at most `limit`. Leading zeros are accepted.
pub fn parse_decimal(s: &[char], limit: u8) -> (r: Option<u8>)
    ensures
        r == (if s@.len() > 0 && all_digits(s@) && decimal(s@) <= limit {
            Some(decimal(s@) as u8)
        } else {
            None
        }),
{
    if s.len() == 0 {
        return None;
    }
    let mut value: u32 = 0;
    let mut i: usize = 0;
    assert(s@.take(0) == Seq::<char>::empty());
    while i < s.len()
        invariant
            i <= s.len(),
            value <= limit,
            value == decimal(s@.take(i as int)),
            all_digits(s@.take(i as int)),
        decreases s.len() - i,
    {
        let c = s[i];
        if !(c >= '0' && c <= '9') {
            return None;
        }
        proof {
            assert(s@.take(i + 1).drop_last() == s@.take(i as int));
            assert(s@.take(i + 1).last() == c);
            lemma_decimal_prefix(s@, i + 1);
        }
        value = value * 10 + (c as u32 - '0' as u32);
        if value > limit as u32 {
            return None;
        }
        i += 1;
    }
    assert(s@.take(s@.len() as int) == s@);
    Some(value as u8)
}

/// The value of the hexadecimal numeral `s`, where `s` is one to four
/// hexadecimal digits of either case.
pub fn parse_hex_group(s: &[char]) -> (r: Option<u16>)
    ensures
        r == (if is_hex_group(s@) {
            Some(hexadecimal(s@) as u16)
        } else {
            None
        }),
        r is Some ==> hexadecimal(s@) <= 0xFFFF,
{
    if s.len() == 0 || s.len() > 4 {
        return None;
    }
    let mut value: u32 = 0;
    let mut i: usize = 0;
    assert(s@.take(0) == Seq::<char>::empty());
    while i < s.len()
        invariant
            i <= s.len() <= 4,
            value == hexadecimal(s@.take(i as int)),
            all_hex_digits(s@.take(i as int)),
            i == 0 ==> value == 0,
            i == 1 ==> value < 0x10,
            i == 2 ==> value < 0x100,
            i == 3 ==> value < 0x1000,
            i == 4 ==> value < 0x10000,
        decreases s.len() - i,
    {
        let c = s[i];
        let d: u32 = if c >= '0' && c <= '9' {
            c as u32 - '0' as u32
        } else if c >= 'a' && c <= 'f' {
            c as u32 - 'a' as u32 + 10
        } else if c >= 'A' && c <= 'F' {
            c as u32 - 'A' as u32 + 10
        } else {
            return None;
        };
        proof {
            assert(s@.take(i + 1).drop_last() == s@.take(i as int));
            assert(s@.take(i + 1).last() == c);
        }
        value = value * 16 + d;
        i += 1;
    }
    assert(s@.take(s@.len() as int) == s@);
    Some(value as u16)
}

} // verus!
