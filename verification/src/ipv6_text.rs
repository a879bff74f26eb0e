//! Writing an IPv6 address as text.
//!
//! The groups are written in lower-case hexadecimal without leading zeros.
//! The longest run of two or more zero groups, the first of them where
//! several are as long, is written as `::`. An address that holds an IPv4
//! address behind the mark `ffff` is written as `::ffff:` and the IPv4
//! address in dotted decimal.

use crate::ipv4::{ipv4_text, lemma_ipv4_round_trip, push_ipv4};
use crate::ipv6::{
    gap_at, hex_values, join_groups, lemma_find_gap_unique, parse_groups, parse_ipv6, quad_groups,
    zero_groups,
};
use crate::render::{
    doubled_at, free_of, hex_text, join, lemma_hex_text, lemma_join_chars, lemma_join_first,
    lemma_join_isolated, lemma_join_push, lemma_split_join, push_hex,
};
use crate::text::{hexadecimal, is_digit, is_hex_digit, is_hex_group};
use vstd::prelude::*;

verus! {

/// The eight groups of an address, the most significant first.
pub open spec fn groups_of(a: u128) -> Seq<u16> {
    seq![
        (a / 0x1_0000_0000_0000_0000_0000_0000_0000) as u16,
        (a / 0x1_0000_0000_0000_0000_0000_0000 % 0x1_0000) as u16,
        (a / 0x1_0000_0000_0000_0000_0000 % 0x1_0000) as u16,
        (a / 0x1_0000_0000_0000_0000 % 0x1_0000) as u16,
        (a / 0x1_0000_0000_0000 % 0x1_0000) as u16,
        (a / 0x1_0000_0000 % 0x1_0000) as u16,
        (a / 0x1_0000 % 0x1_0000) as u16,
        (a % 0x1_0000) as u16,
    ]
}

/// The hexadecimal numerals of a list of groups.
pub open spec fn hex_texts(g: Seq<u16>) -> Seq<Seq<char>> {
    Seq::new(g.len(), |i: int| hex_text(g[i] as nat))
}

/// How many zero groups stand directly before position `i`.
pub open spec fn zeros_before(g: Seq<u16>, i: int) -> int
    decreases i,
{
    if i <= 0 || i > g.len() || g[i - 1] != 0 {
        0
    } else {
        1 + zeros_before(g, i - 1)
    }
}

/// Start and length of the longest run of zero groups among the first `i`
/// groups; of several runs of that length, the first.
pub open spec fn longest_zero_run(g: Seq<u16>, i: int) -> (int, int)
    decreases i,
{
    if i <= 0 {
        (0, 0)
    } else {
        let best = longest_zero_run(g, i - 1);
        let run = zeros_before(g, i);
        if run > best.1 {
            (i - run, run)
        } else {
            best
        }
    }
}

/// Whether the address holds an IPv4 address behind the mark `ffff`.
pub open spec fn is_v4_mapped(g: Seq<u16>) -> bool {
    g[0] == 0 && g[1] == 0 && g[2] == 0 && g[3] == 0 && g[4] == 0 && g[5] == 0xFFFF
}

/// The text of an address.
pub open spec fn ipv6_text(a: u128) -> Seq<char> {
    let g = groups_of(a);
    let (start, len) = longest_zero_run(g, 8);
    if is_v4_mapped(g) {
        seq![':', ':'] + join(
            seq![hex_text(g[5] as nat), ipv4_text((g[6] * 0x1_0000 + g[7]) as u32)],
            ':',
        )
    } else if len > 1 {
        join(hex_texts(g.take(start)), ':') + seq![':', ':'] + join(
            hex_texts(g.skip(start + len)),
            ':',
        )
    } else {
        join(hex_texts(g), ':')
    }
}

/// The groups of an address make up the address.
pub proof fn lemma_groups_of(a: u128)
    ensures
        groups_of(a).len() == 8,
        join_groups(groups_of(a)) == a,
{
    let a1 = a / 0x1_0000;
    let a2 = a1 / 0x1_0000;
    let a3 = a2 / 0x1_0000;
    let a4 = a3 / 0x1_0000;
    let a5 = a4 / 0x1_0000;
    let a6 = a5 / 0x1_0000;
    let a7 = a6 / 0x1_0000;
    assert(a2 == a / 0x1_0000_0000);
    assert(a3 == a / 0x1_0000_0000_0000);
    assert(a4 == a / 0x1_0000_0000_0000_0000);
    assert(a5 == a / 0x1_0000_0000_0000_0000_0000);
    assert(a6 == a / 0x1_0000_0000_0000_0000_0000_0000);
    assert(a7 == a / 0x1_0000_0000_0000_0000_0000_0000_0000);
    assert(a == a1 * 0x1_0000 + a % 0x1_0000);
    assert(a1 == a2 * 0x1_0000 + a1 % 0x1_0000);
    assert(a2 == a3 * 0x1_0000 + a2 % 0x1_0000);
    assert(a3 == a4 * 0x1_0000 + a3 % 0x1_0000);
    assert(a4 == a5 * 0x1_0000 + a4 % 0x1_0000);
    assert(a5 == a6 * 0x1_0000 + a5 % 0x1_0000);
    assert(a6 == a7 * 0x1_0000 + a6 % 0x1_0000);
}

/// The run that `zeros_before` counts is made of zero groups.
pub proof fn lemma_zeros_before(g: Seq<u16>, i: int)
    requires
        0 <= i <= g.len(),
    ensures
        0 <= zeros_before(g, i) <= i,
        forall|k: int| i - zeros_before(g, i) <= k < i ==> #[trigger] g[k] == 0,
    decreases i,
{
    if i > 0 && g[i - 1] == 0 {
        lemma_zeros_before(g, i - 1);
    }
}

/// The run that `longest_zero_run` picks lies within the groups looked at
/// and is made of zero groups.
pub proof fn lemma_longest_zero_run(g: Seq<u16>, i: int)
    requires
        0 <= i <= g.len(),
    ensures
        ({
            let (start, len) = longest_zero_run(g, i);
            &&& 0 <= start
            &&& 0 <= len
            &&& start + len <= i
            &&& forall|k: int| start <= k < start + len ==> #[trigger] g[k] == 0
        }),
    decreases i,
{
    if i > 0 {
        lemma_longest_zero_run(g, i - 1);
        lemma_zeros_before(g, i);
    }
}

/// A colon-separated list of hexadecimal groups reads back as the groups it
/// was written for. It is made of hexadecimal digits and colons, and a colon
/// stands neither first nor last nor next to another.
pub proof fn lemma_groups_text(g: Seq<u16>, v4_tail: bool)
    ensures
        parse_groups(join(hex_texts(g), ':'), v4_tail) == Some(g),
        g.len() == 0 ==> join(hex_texts(g), ':').len() == 0,
        g.len() > 0 ==> join(hex_texts(g), ':').len() > 0 && join(hex_texts(g), ':')[0] != ':'
            && join(hex_texts(g), ':').last() != ':',
        forall|i: int| !doubled_at(join(hex_texts(g), ':'), ':', i),
        forall|i: int|
            0 <= i < join(hex_texts(g), ':').len() ==> is_hex_digit(
                #[trigger] join(hex_texts(g), ':')[i],
            ) || join(hex_texts(g), ':')[i] == ':',
        g.len() > 1 ==> join(hex_texts(g), ':').contains(':'),
{
    let f = hex_texts(g);
    let t = join(f, ':');
    if g.len() == 0 {
        assert(parse_groups(t, v4_tail)->0 =~= g);
    } else {
        assert forall|k: int| 0 <= k < f.len() implies is_hex_group(#[trigger] f[k]) by {
            lemma_hex_text(g[k] as nat);
        }
        assert(free_of(f, ':')) by {
            assert forall|k: int, i: int|
                0 <= k < f.len() && 0 <= i < f[k].len() implies #[trigger] f[k][i] != ':' by {
                assert(is_hex_group(f[k]));
                assert(is_hex_digit(f[k][i]));
            }
        }
        assert forall|k: int| 0 <= k < f.len() implies (#[trigger] f[k]).len() > 0 by {
            assert(is_hex_group(f[k]));
        }
        lemma_split_join(f, ':');
        lemma_join_isolated(f, ':');
        let init = f.drop_last();
        assert forall|i: int| 0 <= i < init.len() implies is_hex_group(#[trigger] init[i]) by {
            assert(init[i] == f[i]);
        }
        assert(is_hex_group(f.last()));
        assert(hex_values(f) =~= g) by {
            assert forall|k: int| 0 <= k < g.len() implies hex_values(f)[k] == g[k] by {
                lemma_hex_text(g[k] as nat);
            }
        }
        assert forall|i: int| 0 <= i < t.len() implies is_hex_digit(#[trigger] t[i]) || t[i]
            == ':' by {
            lemma_join_chars(f, ':', i);
            if t[i] != ':' {
                let (k, j) = choose|k: int, j: int|
                    0 <= k < f.len() && 0 <= j < f[k].len() && #[trigger] f[k][j] == t[i];
                assert(is_hex_group(f[k]));
                assert(is_hex_digit(f[k][j]));
            }
        }
        if g.len() > 1 {
            lemma_join_first(f, ':');
            assert(t[f[0].len() as int] == ':');
        }
    }
}

/// The round trip for an address that is written with an IPv4 address at
/// its end.
proof fn lemma_round_trip_mapped(a: u128)
    requires
        is_v4_mapped(groups_of(a)),
    ensures
        parse_ipv6(ipv6_text(a)) == Some(a),
        ipv6_text(a).contains(':'),
        forall|i: int|
            0 <= i < ipv6_text(a).len() ==> is_hex_digit(#[trigger] ipv6_text(a)[i]) || ipv6_text(
                a,
            )[i] == ':' || ipv6_text(a)[i] == '.',
{
    let g = groups_of(a);
    let t = ipv6_text(a);
    lemma_groups_of(a);
    let x = (g[6] * 0x1_0000 + g[7]) as u32;
    let mark = hex_text(g[5] as nat);
    let quad = ipv4_text(x);
    let f = seq![mark, quad];
    let tail = join(f, ':');
    lemma_hex_text(g[5] as nat);
    lemma_ipv4_round_trip(x);
    assert(free_of(f, ':')) by {
        assert forall|k: int, i: int|
            0 <= k < f.len() && 0 <= i < f[k].len() implies #[trigger] f[k][i] != ':' by {
            if k == 0 {
                assert(is_hex_digit(mark[i]));
            } else {
                assert(is_digit(quad[i]) || quad[i] == '.');
            }
        }
    }
    lemma_split_join(f, ':');
    lemma_join_first(f, ':');
    assert(t == seq![':', ':'] + tail);
    assert(gap_at(t, 0));
    lemma_find_gap_unique(t, 0);
    assert(t.take(0) =~= Seq::<char>::empty());
    assert(t.skip(2) =~= tail);
    assert(tail.len() > 0);
    let i = choose|i: int| 0 <= i < quad.len() && quad[i] == '.';
    assert(!is_hex_digit(quad[i]));
    assert(!is_hex_group(quad));
    assert(f.drop_last() =~= seq![mark]);
    assert(f.last() == quad);
    assert(hex_values(seq![mark]) =~= seq![g[5]]);
    let groups = seq![g[5]] + quad_groups(x);
    assert(parse_groups(tail, true) == Some(groups));
    assert(parse_groups(t.take(0), false) == Some(Seq::<u16>::empty()));
    assert(Seq::<u16>::empty() + zero_groups(5) + groups =~= g);
    assert(t.contains(':')) by {
        assert(t[0] == ':');
    }
    assert forall|i: int| 0 <= i < t.len() implies is_hex_digit(#[trigger] t[i]) || t[i] == ':'
        || t[i] == '.' by {
        if i >= 2 {
            assert(t[i] == tail[i - 2]);
            lemma_join_chars(f, ':', i - 2);
            if tail[i - 2] != ':' {
                let (k, j) = choose|k: int, j: int|
                    0 <= k < f.len() && 0 <= j < f[k].len() && #[trigger] f[k][j] == tail[i - 2];
                if k == 0 {
                    assert(is_hex_digit(mark[j]));
                } else {
                    assert(is_digit(quad[j]) || quad[j] == '.');
                }
            }
        }
    }
}

/// The round trip for an address that is written with a `::`.
proof fn lemma_round_trip_compressed(a: u128)
    requires
        !is_v4_mapped(groups_of(a)),
        longest_zero_run(groups_of(a), 8).1 > 1,
    ensures
        parse_ipv6(ipv6_text(a)) == Some(a),
        ipv6_text(a).contains(':'),
        forall|i: int|
            0 <= i < ipv6_text(a).len() ==> is_hex_digit(#[trigger] ipv6_text(a)[i]) || ipv6_text(
                a,
            )[i] == ':' || ipv6_text(a)[i] == '.',
{
    let g = groups_of(a);
    let t = ipv6_text(a);
    lemma_groups_of(a);
    lemma_longest_zero_run(g, 8);
    let (start, len) = longest_zero_run(g, 8);
    let head = g.take(start);
    let tail = g.skip(start + len);
    let h = join(hex_texts(head), ':');
    let u = join(hex_texts(tail), ':');
    lemma_groups_text(head, false);
    lemma_groups_text(tail, true);
    assert(t == h + seq![':', ':'] + u);
    let k = h.len() as int;
    assert(gap_at(t, k));
    assert forall|i: int| 0 <= i < k implies !gap_at(t, i) by {
        assert(!doubled_at(h, ':', i));
        assert(t[i] == h[i]);
        if i + 1 < k {
            assert(t[i + 1] == h[i + 1]);
        } else {
            assert(h.last() != ':');
        }
    }
    lemma_find_gap_unique(t, k);
    assert(t.take(k) =~= h);
    assert(t.skip(k + 2) =~= u);
    assert(head + zero_groups(8 - head.len() - tail.len()) + tail =~= g);
    assert(t.contains(':')) by {
        assert(t[k] == ':');
    }
    assert forall|i: int| 0 <= i < t.len() implies is_hex_digit(#[trigger] t[i]) || t[i] == ':'
        || t[i] == '.' by {
        if i < k {
            assert(t[i] == h[i]);
        } else if i >= k + 2 {
            assert(t[i] == u[i - k - 2]);
        }
    }
}

/// The round trip for an address that is written group by group.
proof fn lemma_round_trip_full(a: u128)
    requires
        !is_v4_mapped(groups_of(a)),
        longest_zero_run(groups_of(a), 8).1 <= 1,
    ensures
        parse_ipv6(ipv6_text(a)) == Some(a),
        ipv6_text(a).contains(':'),
        forall|i: int|
            0 <= i < ipv6_text(a).len() ==> is_hex_digit(#[trigger] ipv6_text(a)[i]) || ipv6_text(
                a,
            )[i] == ':' || ipv6_text(a)[i] == '.',
{
    let g = groups_of(a);
    let t = ipv6_text(a);
    lemma_groups_of(a);
    lemma_groups_text(g, true);
    assert forall|i: int| 0 <= i < t.len() implies !gap_at(t, i) by {
        assert(!doubled_at(t, ':', i));
    }
    lemma_find_gap_unique(t, t.len() as int);
}

/// The text of an address reads back as that address. It holds a colon, and
/// nothing but hexadecimal digits, colons and dots.
pub proof fn lemma_ipv6_round_trip(a: u128)
    ensures
        parse_ipv6(ipv6_text(a)) == Some(a),
        ipv6_text(a).contains(':'),
        forall|i: int|
            0 <= i < ipv6_text(a).len() ==> is_hex_digit(#[trigger] ipv6_text(a)[i]) || ipv6_text(
                a,
            )[i] == ':' || ipv6_text(a)[i] == '.',
{
    let g = groups_of(a);
    if is_v4_mapped(g) {
        lemma_round_trip_mapped(a);
    } else if longest_zero_run(g, 8).1 > 1 {
        lemma_round_trip_compressed(a);
    } else {
        lemma_round_trip_full(a);
    }
}

/// The eight groups of an address, the most significant first.
pub fn split_groups(a: u128) -> (g: Vec<u16>)
    ensures
        g@ == groups_of(a),
{
    let mut g: Vec<u16> = Vec::new();
    g.push((a / 0x1_0000_0000_0000_0000_0000_0000_0000) as u16);
    g.push((a / 0x1_0000_0000_0000_0000_0000_0000 % 0x1_0000) as u16);
    g.push((a / 0x1_0000_0000_0000_0000_0000 % 0x1_0000) as u16);
    g.push((a / 0x1_0000_0000_0000_0000 % 0x1_0000) as u16);
    g.push((a / 0x1_0000_0000_0000 % 0x1_0000) as u16);
    g.push((a / 0x1_0000_0000 % 0x1_0000) as u16);
    g.push((a / 0x1_0000 % 0x1_0000) as u16);
    g.push((a % 0x1_0000) as u16);
    assert(g@ =~= groups_of(a));
    g
}

/// Start and length of the longest run of zero groups, the first of the
/// longest.
pub fn find_zero_run(g: &Vec<u16>) -> (r: (usize, usize))
    ensures
        (r.0 as int, r.1 as int) == longest_zero_run(g@, g@.len() as int),
        r.0 + r.1 <= g.len(),
{
    let mut best_start: usize = 0;
    let mut best_len: usize = 0;
    let mut run: usize = 0;
    let mut i: usize = 0;
    while i < g.len()
        invariant
            i <= g.len(),
            run == zeros_before(g@, i as int),
            run <= i,
            (best_start as int, best_len as int) == longest_zero_run(g@, i as int),
            best_start + best_len <= i,
        decreases g.len() - i,
    {
        if g[i] == 0 {
            run = run + 1;
        } else {
            run = 0;
        }
        i += 1;
        if run > best_len {
            best_start = i - run;
            best_len = run;
        }
    }
    (best_start, best_len)
}

/// Appends the groups from position `from` up to `to`, separated by colons.
pub(crate) fn push_groups(out: &mut String, g: &Vec<u16>, from: usize, to: usize)
    requires
        from <= to <= g.len(),
    ensures
        final(out)@ == old(out)@ + join(hex_texts(g@.subrange(from as int, to as int)), ':'),
{
    let ghost start = out@;
    let mut i: usize = from;
    proof {
        reveal_strlit(":");
        assert(hex_texts(g@.subrange(from as int, from as int)) =~= Seq::empty());
        assert(out@ =~= start + join(hex_texts(g@.subrange(from as int, i as int)), ':'));
    }
    while i < to
        invariant
            from <= i <= to <= g.len(),
            ":"@ == seq![':'],
            out@ == start + join(hex_texts(g@.subrange(from as int, i as int)), ':'),
        decreases to - i,
    {
        let ghost sofar = hex_texts(g@.subrange(from as int, i as int));
        if i > from {
            out.append(":");
        }
        push_hex(out, g[i]);
        proof {
            let field = hex_text(g[i as int] as nat);
            assert(hex_texts(g@.subrange(from as int, i + 1)) =~= sofar.push(field));
            lemma_join_push(sofar, field, ':');
            assert(out@ =~= start + join(sofar.push(field), ':'));
        }
        i += 1;
    }
}

/// Appends the text of an address.
pub fn push_ipv6(out: &mut String, a: u128)
    ensures
        final(out)@ == old(out)@ + ipv6_text(a),
{
    let ghost start = out@;
    let g = split_groups(a);
    let (run_start, run_len) = find_zero_run(&g);
    proof {
        reveal_strlit(":");
        reveal_strlit("::");
        assert("::"@ =~= seq![':', ':']);
    }
    if g[0] == 0 && g[1] == 0 && g[2] == 0 && g[3] == 0 && g[4] == 0 && g[5] == 0xFFFF {
        let x: u32 = g[6] as u32 * 0x1_0000 + g[7] as u32;
        out.append("::");
        push_hex(out, g[5]);
        out.append(":");
        push_ipv4(out, x);
        proof {
            let f = seq![hex_text(g[5] as nat), ipv4_text(x)];
            assert(f.skip(1) =~= seq![ipv4_text(x)]);
            assert(join(f.skip(1), ':') == ipv4_text(x));
            assert(join(f, ':') == f[0] + seq![':'] + ipv4_text(x));
            assert(out@ =~= start + ipv6_text(a));
        }
    } else if run_len > 1 {
        push_groups(out, &g, 0, run_start);
        out.append("::");
        push_groups(out, &g, run_start + run_len, 8);
        proof {
            assert(g@.subrange(0, run_start as int) =~= g@.take(run_start as int));
            assert(g@.subrange(run_start + run_len, 8) =~= g@.skip(run_start + run_len));
            assert(out@ =~= start + ipv6_text(a));
        }
    } else {
        push_groups(out, &g, 0, 8);
        proof {
            assert(g@.subrange(0, 8) =~= g@);
            assert(out@ =~= start + ipv6_text(a));
        }
    }
}

} // verus!
