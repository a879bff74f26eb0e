//! The text form of an IPv6 address.
//!
//! An address is eight 16-bit groups. Its text is either all eight groups,
//! written in hexadecimal and separated by `:`, or two such lists around one
//! `::`, which stands for the groups left out (at least one), all zero. The
//! last two groups may be written as a dotted-decimal IPv4 address, but not
//! in front of a `::`.

use crate::ipv4::{parse_ipv4, read_ipv4};
use crate::text::{
    find_char, hexadecimal, is_hex_group, lemma_index_of, lemma_split_fields, parse_hex_group,
    split,
};
use vstd::prelude::*;
use vstd::slice::slice_subrange;

verus! {

/// Whether a `::` starts at position `i` of `s`.
pub open spec fn gap_at(s: Seq<char>, i: int) -> bool {
    0 <= i && i + 1 < s.len() && s[i] == ':' && s[i + 1] == ':'
}

/// The position of the first `::` in `s`, or `s.len()` where there is none.
pub open spec fn find_gap(s: Seq<char>) -> int
    decreases s.len(),
{
    if s.len() < 2 {
        s.len() as int
    } else if gap_at(s, 0) {
        0
    } else {
        1 + find_gap(s.skip(1))
    }
}

/// The values of a list of hexadecimal groups.
pub open spec fn hex_values(fields: Seq<Seq<char>>) -> Seq<u16> {
    Seq::new(fields.len(), |i: int| hexadecimal(fields[i]) as u16)
}

/// The two groups that hold the IPv4 address `a`.
pub open spec fn quad_groups(a: u32) -> Seq<u16> {
    seq![(a / 0x1_0000) as u16, (a % 0x1_0000) as u16]
}

/// The groups that a colon-separated list denotes. The empty text is the
/// empty list. With `v4_tail`, the last field may be a dotted-decimal IPv4
/// address, which stands for two groups.
pub open spec fn parse_groups(s: Seq<char>, v4_tail: bool) -> Option<Seq<u16>> {
    let f = split(s, ':');
    let init = f.drop_last();
    if s.len() == 0 {
        Some(Seq::empty())
    } else if !(forall|i: int| 0 <= i < init.len() ==> is_hex_group(#[trigger] init[i])) {
        None
    } else if is_hex_group(f.last()) {
        Some(hex_values(f))
    } else if v4_tail && parse_ipv4(f.last()) is Some {
        Some(hex_values(init) + quad_groups(parse_ipv4(f.last())->0))
    } else {
        None
    }
}

/// `n` groups of zero.
pub open spec fn zero_groups(n: int) -> Seq<u16> {
    Seq::new(n as nat, |i: int| 0u16)
}

/// The 128-bit address made of eight groups, the first being the most
/// significant.
pub open spec fn join_groups(g: Seq<u16>) -> int
    recommends
        g.len() == 8,
{
    g[0] * 0x1_0000_0000_0000_0000_0000_0000_0000 + g[1] * 0x1_0000_0000_0000_0000_0000_0000
        + g[2] * 0x1_0000_0000_0000_0000_0000 + g[3] * 0x1_0000_0000_0000_0000 + g[4]
        * 0x1_0000_0000_0000 + g[5] * 0x1_0000_0000 + g[6] * 0x1_0000 + g[7]
}

/// The address that the text `s` denotes, if it is an IPv6 address.
pub open spec fn parse_ipv6(s: Seq<char>) -> Option<u128> {
    let k = find_gap(s);
    if 0 <= k < s.len() {
        match (parse_groups(s.take(k), false), parse_groups(s.skip(k + 2), true)) {
            (Some(head), Some(tail)) => {
                if head.len() + tail.len() <= 7 {
                    Some(
                        join_groups(
                            head + zero_groups(8 - head.len() - tail.len()) + tail,
                        ) as u128,
                    )
                } else {
                    None
                }
            },
            _ => None,
        }
    } else {
        match parse_groups(s, true) {
            Some(g) => {
                if g.len() == 8 {
                    Some(join_groups(g) as u128)
                } else {
                    None
                }
            },
            None => None,
        }
    }
}

/// `find_gap` is the least position where a `::` starts.
pub proof fn lemma_find_gap(s: Seq<char>)
    ensures
        0 <= find_gap(s) <= s.len(),
        find_gap(s) < s.len() ==> gap_at(s, find_gap(s)),
        forall|i: int| 0 <= i < find_gap(s) ==> !gap_at(s, i),
    decreases s.len(),
{
    if s.len() < 2 {
    } else if gap_at(s, 0) {
    } else {
        let t = s.skip(1);
        lemma_find_gap(t);
        assert forall|i: int| 0 <= i < find_gap(s) implies !gap_at(s, i) by {
            if i > 0 {
                assert(!gap_at(t, i - 1));
                if i + 1 < s.len() {
                    assert(t[i - 1] == s[i]);
                    assert(t[i] == s[i + 1]);
                }
            }
        }
        if find_gap(t) < t.len() {
            assert(gap_at(t, find_gap(t)));
            assert(t[find_gap(t)] == s[find_gap(s)]);
            assert(t[find_gap(t) + 1] == s[find_gap(s) + 1]);
        }
    }
}

/// A position where a `::` starts (or the end), with none before it, is
/// `find_gap`.
pub proof fn lemma_find_gap_unique(s: Seq<char>, k: int)
    requires
        0 <= k <= s.len(),
        forall|i: int| 0 <= i < k ==> !gap_at(s, i),
        k < s.len() ==> gap_at(s, k),
    ensures
        find_gap(s) == k,
{
    lemma_find_gap(s);
    let j = find_gap(s);
    if j < k {
        assert(!gap_at(s, j));
    } else if k < j {
        assert(!gap_at(s, k));
    }
}

/// The position of the first `::` in `s`, or the length of `s`.
pub fn find_double_colon(s: &[char]) -> (r: usize)
    ensures
        r == find_gap(s@),
        r <= s.len(),
{
    let mut i: usize = 0;
    while i < s.len()
        invariant
            i <= s.len(),
            forall|j: int| 0 <= j < i ==> !gap_at(s@, j),
        decreases s.len() - i,
    {
        if i + 1 < s.len() && s[i] == ':' && s[i + 1] == ':' {
            proof {
                lemma_find_gap_unique(s@, i as int);
            }
            return i;
        }
        i += 1;
    }
    proof {
        lemma_find_gap_unique(s@, s@.len() as int);
    }
    s.len()
}

/// Reads a colon-separated list of groups that takes up the whole of `s`.
pub fn read_groups(s: &[char], v4_tail: bool) -> (r: Option<Vec<u16>>)
    ensures
        match r {
            Some(v) => parse_groups(s@, v4_tail) == Some(v@),
            None => parse_groups(s@, v4_tail) is None,
        },
{
    let mut out: Vec<u16> = Vec::new();
    if s.len() == 0 {
        return Some(out);
    }
    let ghost fields = split(s@, ':');
    let mut rest: &[char] = s;
    assert(fields.skip(0) == fields);
    loop
        invariant
            s@.len() > 0,
            fields == split(s@, ':'),
            out.len() < fields.len(),
            fields.skip(out.len() as int) == split(rest@, ':'),
            forall|i: int| 0 <= i < out.len() ==> is_hex_group(#[trigger] fields[i]),
            forall|i: int|
                0 <= i < out.len() ==> out[i] == hexadecimal(#[trigger] fields[i]) as u16,
        decreases rest.len(),
    {
        let k = find_char(rest, ':');
        let field = slice_subrange(rest, 0, k);
        let ghost n = out.len() as int;
        proof {
            lemma_index_of(rest@, ':');
            lemma_split_fields(rest@, ':');
            assert(split(rest@, ':')[0] == field@);
            assert(fields.skip(n)[0] == fields[n]);
        }
        if k == rest.len() {
            proof {
                assert(fields.len() == n + 1);
                assert(fields.last() == field@);
                assert(fields.drop_last() == fields.take(n));
            }
            match parse_hex_group(field) {
                Some(g) => {
                    out.push(g);
                    proof {
                        assert(out@ == hex_values(fields));
                    }
                    return Some(out);
                },
                None => {
                    if !v4_tail {
                        return None;
                    }
                    match read_ipv4(field) {
                        Some(a) => {
                            out.push((a / 0x1_0000) as u16);
                            out.push((a % 0x1_0000) as u16);
                            proof {
                                assert(out@ == hex_values(fields.drop_last()) + quad_groups(a));
                            }
                            return Some(out);
                        },
                        None => {
                            return None;
                        },
                    }
                },
            }
        }
        proof {
            lemma_split_fields(rest@.skip(k + 1), ':');
            assert(fields.len() - n == split(rest@, ':').len());
            assert(fields.drop_last()[n] == fields[n]);
        }
        match parse_hex_group(field) {
            Some(g) => {
                out.push(g);
            },
            None => {
                return None;
            },
        }
        proof {
            assert(fields.skip(n).skip(1) == fields.skip(n + 1));
            assert(split(rest@, ':').skip(1) == split(rest@.skip(k + 1), ':'));
        }
        rest = slice_subrange(rest, k + 1, rest.len());
    }
}

/// Reads an IPv6 address that takes up the whole of `s`.
pub fn read_ipv6(s: &[char]) -> (r: Option<u128>)
    ensures
        r == parse_ipv6(s@),
{
    let k = find_double_colon(s);
    let groups: Vec<u16> = if k < s.len() {
        proof {
            lemma_find_gap(s@);
        }
        let head = match read_groups(slice_subrange(s, 0, k), false) {
            Some(h) => h,
            None => {
                return None;
            },
        };
        let tail = match read_groups(slice_subrange(s, k + 2, s.len()), true) {
            Some(t) => t,
            None => {
                return None;
            },
        };
        if head.len() > 7 || tail.len() > 7 - head.len() {
            return None;
        }
        let mut all: Vec<u16> = head;
        let gap: usize = 8 - all.len() - tail.len();
        let ghost h = all@;
        let mut i: usize = 0;
        while i < gap
            invariant
                i <= gap,
                all@ == h + zero_groups(i as int),
            decreases gap - i,
        {
            all.push(0);
            i += 1;
        }
        let mut j: usize = 0;
        while j < tail.len()
            invariant
                j <= tail.len(),
                all@ == h + zero_groups(gap as int) + tail@.take(j as int),
            decreases tail.len() - j,
        {
            all.push(tail[j]);
            j += 1;
        }
        assert(tail@.take(tail@.len() as int) == tail@);
        all
    } else {
        match read_groups(s, true) {
            Some(g) => {
                if g.len() != 8 {
                    return None;
                }
                g
            },
            None => {
                return None;
            },
        }
    };
    Some(pack_groups(&groups))
}

/// The 128-bit address made of the eight groups in `g`.
pub(crate) fn pack_groups(g: &Vec<u16>) -> (r: u128)
    requires
        g.len() == 8,
    ensures
        r == join_groups(g@),
{
    let mut r: u128 = 0;
    let mut i: usize = 0;
    while i < 8
        invariant
            i <= 8,
            g.len() == 8,
            i == 0 ==> r == 0,
            i == 1 ==> r == g[0],
            i == 2 ==> r == g[0] * 0x1_0000 + g[1],
            i == 3 ==> r == g[0] * 0x1_0000_0000 + g[1] * 0x1_0000 + g[2],
            i == 4 ==> r == g[0] * 0x1_0000_0000_0000 + g[1] * 0x1_0000_0000 + g[2] * 0x1_0000
                + g[3],
            i == 5 ==> r == g[0] * 0x1_0000_0000_0000_0000 + g[1] * 0x1_0000_0000_0000 + g[2]
                * 0x1_0000_0000 + g[3] * 0x1_0000 + g[4],
            i == 6 ==> r == g[0] * 0x1_0000_0000_0000_0000_0000 + g[1] * 0x1_0000_0000_0000_0000
                + g[2] * 0x1_0000_0000_0000 + g[3] * 0x1_0000_0000 + g[4] * 0x1_0000 + g[5],
            i == 7 ==> r == g[0] * 0x1_0000_0000_0000_0000_0000_0000 + g[1]
                * 0x1_0000_0000_0000_0000_0000 + g[2] * 0x1_0000_0000_0000_0000 + g[3]
                * 0x1_0000_0000_0000 + g[4] * 0x1_0000_0000 + g[5] * 0x1_0000 + g[6],
            i == 8 ==> r == join_groups(g@),
        decreases 8 - i,
    {
        r = r * 0x1_0000 + g[i] as u128;
        i += 1;
    }
    r
}

} // verus!
