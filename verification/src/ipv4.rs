//! The dotted-decimal text form of an IPv4 address.
//!
//! An address is written as exactly four decimal octets separated by `.`.
//! An octet is one to three digits, at most 255, with no leading zero.

use crate::render::{
    decimal_text, free_of, join, lemma_decimal_text, lemma_join_chars, lemma_split_join,
    push_decimal,
};
use crate::text::{
    all_digits, decimal, find_char, index_of, is_digit, lemma_index_of, lemma_split_fields,
    parse_decimal, split,
};
use vstd::prelude::*;
use vstd::slice::slice_subrange;

verus! {

/// A decimal octet: one to three digits, no leading zero, at most 255.
pub open spec fn is_octet(s: Seq<char>) -> bool {
    &&& 1 <= s.len() <= 3
    &&& all_digits(s)
    &&& (s.len() > 1 ==> s[0] != '0')
    &&& decimal(s) <= 255
}

/// The 32-bit address with octets `a.b.c.d`, `a` being the most significant.
pub open spec fn quad(a: nat, b: nat, c: nat, d: nat) -> nat {
    a * 0x100_0000 + b * 0x1_0000 + c * 0x100 + d
}

/// The address that the text `s` denotes, if it is a dotted-decimal address.
pub open spec fn parse_ipv4(s: Seq<char>) -> Option<u32> {
    let f = split(s, '.');
    if f.len() == 4 && is_octet(f[0]) && is_octet(f[1]) && is_octet(f[2]) && is_octet(f[3]) {
        Some(quad(decimal(f[0]), decimal(f[1]), decimal(f[2]), decimal(f[3])) as u32)
    } else {
        None
    }
}

/// Reads one decimal octet.
pub fn read_octet(s: &[char]) -> (r: Option<u8>)
    ensures
        r == (if is_octet(s@) {
            Some(decimal(s@) as u8)
        } else {
            None
        }),
{
    if s.len() > 3 {
        return None;
    }
    if s.len() > 1 && s[0] == '0' {
        return None;
    }
    parse_decimal(s, 255)
}

/// Reads a dotted-decimal IPv4 address that takes up the whole of `s`.
pub fn read_ipv4(s: &[char]) -> (r: Option<u32>)
    ensures
        r == parse_ipv4(s@),
{
    let ghost fields = split(s@, '.');
    let mut rest: &[char] = s;
    let mut value: u32 = 0;
    let mut count: usize = 0;
    assert(fields.skip(0) == fields);
    loop
        invariant
            count <= 3,
            fields == split(s@, '.'),
            fields.skip(count as int) == split(rest@, '.'),
            count <= fields.len(),
            forall|i: int| 0 <= i < count ==> is_octet(#[trigger] fields[i]),
            count == 0 ==> value == 0,
            count == 1 ==> value == decimal(fields[0]),
            count == 2 ==> value == decimal(fields[0]) * 0x100 + decimal(fields[1]),
            count == 3 ==> value == decimal(fields[0]) * 0x1_0000 + decimal(fields[1]) * 0x100
                + decimal(fields[2]),
        decreases 3 - count,
    {
        let k = find_char(rest, '.');
        let field = slice_subrange(rest, 0, k);
        proof {
            lemma_index_of(rest@, '.');
            lemma_split_fields(rest@, '.');
            assert(fields.skip(count as int).len() >= 1);
            assert(split(rest@, '.')[0] == field@);
            assert(fields.skip(count as int)[0] == fields[count as int]);
        }
        let octet = match read_octet(field) {
            Some(o) => o,
            None => {
                return None;
            },
        };
        value = value * 256 + octet as u32;
        if k == rest.len() {
            if count == 3 {
                return Some(value);
            } else {
                return None;
            }
        }
        proof {
            lemma_split_fields(rest@.skip(k + 1), '.');
            assert(fields.len() - count == split(rest@, '.').len());
        }
        if count == 3 {
            return None;
        }
        proof {
            assert(fields.skip(count as int).skip(1) == fields.skip(count + 1));
            assert(split(rest@, '.').skip(1) == split(rest@.skip(k + 1), '.'));
        }
        rest = slice_subrange(rest, k + 1, rest.len());
        count += 1;
    }
}

/// The four octets of an address as decimal numerals, the most significant
/// first.
pub open spec fn octet_texts(a: u32) -> Seq<Seq<char>> {
    seq![
        decimal_text((a / 0x100_0000) as nat),
        decimal_text((a / 0x1_0000 % 0x100) as nat),
        decimal_text((a / 0x100 % 0x100) as nat),
        decimal_text((a % 0x100) as nat),
    ]
}

/// The dotted-decimal text of an address.
pub open spec fn ipv4_text(a: u32) -> Seq<char> {
    join(octet_texts(a), '.')
}

/// The text of an address reads back as that address, and is made of digits
/// and dots only, with at least one dot.
pub proof fn lemma_ipv4_round_trip(a: u32)
    ensures
        parse_ipv4(ipv4_text(a)) == Some(a),
        split(ipv4_text(a), '.') == octet_texts(a),
        ipv4_text(a).len() > 0,
        ipv4_text(a).contains('.'),
        forall|i: int|
            0 <= i < ipv4_text(a).len() ==> is_digit(#[trigger] ipv4_text(a)[i]) || ipv4_text(a)[i]
                == '.',
{
    let f = octet_texts(a);
    let o0 = (a / 0x100_0000) as nat;
    let o1 = (a / 0x1_0000 % 0x100) as nat;
    let o2 = (a / 0x100 % 0x100) as nat;
    let o3 = (a % 0x100) as nat;
    lemma_decimal_text(o0);
    lemma_decimal_text(o1);
    lemma_decimal_text(o2);
    lemma_decimal_text(o3);
    assert(free_of(f, '.')) by {
        assert forall|k: int, i: int|
            0 <= k < f.len() && 0 <= i < f[k].len() implies #[trigger] f[k][i] != '.' by {
            assert(is_digit(f[k][i]));
        }
    }
    lemma_split_join(f, '.');
    assert(is_octet(f[0]) && is_octet(f[1]) && is_octet(f[2]) && is_octet(f[3]));
    assert(quad(o0, o1, o2, o3) == a);
    let t = ipv4_text(a);
    assert forall|i: int| 0 <= i < t.len() implies is_digit(#[trigger] t[i]) || t[i] == '.' by {
        lemma_join_chars(f, '.', i);
        if t[i] != '.' {
            let (k, j) = choose|k: int, j: int|
                0 <= k < f.len() && 0 <= j < f[k].len() && #[trigger] f[k][j] == t[i];
            assert(is_digit(f[k][j]));
        }
    }
    lemma_index_of(t, '.');
    assert(split(t, '.').len() == 4);
    if index_of(t, '.') >= t.len() {
        assert(split(t, '.') == seq![t]);
    }
    assert(t[index_of(t, '.')] == '.');
}

/// Appends the dotted-decimal text of an address.
pub fn push_ipv4(out: &mut String, a: u32)
    ensures
        final(out)@ == old(out)@ + ipv4_text(a),
{
    let ghost start = out@;
    let ghost f = octet_texts(a);
    proof {
        reveal_strlit(".");
        assert(f.skip(1) =~= seq![f[1], f[2], f[3]]);
        assert(f.skip(1).skip(1) =~= seq![f[2], f[3]]);
        assert(f.skip(1).skip(1).skip(1) =~= seq![f[3]]);
        assert(join(f.skip(1).skip(1).skip(1), '.') == f[3]);
        assert(join(f.skip(1).skip(1), '.') == f[2] + seq!['.'] + f[3]);
        assert(join(f.skip(1), '.') == f[1] + seq!['.'] + (f[2] + seq!['.'] + f[3]));
        assert(join(f, '.') == f[0] + seq!['.'] + (f[1] + seq!['.'] + (f[2] + seq!['.'] + f[3])));
    }
    push_decimal(out, (a / 0x100_0000) as u8);
    out.append(".");
    push_decimal(out, (a / 0x1_0000 % 0x100) as u8);
    out.append(".");
    push_decimal(out, (a / 0x100 % 0x100) as u8);
    out.append(".");
    push_decimal(out, (a % 0x100) as u8);
    assert(out@ =~= start + ipv4_text(a));
}

} // verus!
