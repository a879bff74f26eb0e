//! Writing numbers and lists as text, and the facts that tie the written
//! form back to what the readers of `text` accept.

use crate::text::{
    all_digits, all_hex_digits, decimal, hexadecimal, is_hex_group, lemma_index_of_unique, split,
};
use vstd::prelude::*;

verus! {

/// The character for a digit below 16: `0` to `9`, then `a` to `f`.
pub open spec fn digit_char(d: nat) -> char {
    if d < 10 {
        ('0' as u32 + d) as char
    } else {
        ('a' as u32 + d - 10) as char
    }
}

/// The decimal numeral of `n`, without leading zeros.
pub open spec fn decimal_text(n: nat) -> Seq<char>
    decreases n,
{
    if n < 10 {
        seq![digit_char(n)]
    } else {
        decimal_text(n / 10).push(digit_char(n % 10))
    }
}

/// The hexadecimal numeral of `n`, in lower case, without leading zeros.
pub open spec fn hex_text(n: nat) -> Seq<char>
    decreases n,
{
    if n < 16 {
        seq![digit_char(n)]
    } else {
        hex_text(n / 16).push(digit_char(n % 16))
    }
}

/// The fields written one after another with `sep` between them.
pub open spec fn join(fields: Seq<Seq<char>>, sep: char) -> Seq<char>
    decreases fields.len(),
{
    if fields.len() == 0 {
        Seq::empty()
    } else if fields.len() == 1 {
        fields[0]
    } else {
        fields[0] + seq![sep] + join(fields.skip(1), sep)
    }
}

/// Whether no field holds the character `c`.
pub open spec fn free_of(fields: Seq<Seq<char>>, c: char) -> bool {
    forall|k: int, i: int|
        0 <= k < fields.len() && 0 <= i < fields[k].len() ==> #[trigger] fields[k][i] != c
}

/// A decimal numeral reads back as the number it was written for. It is made
/// of digits only and starts with a zero only where the number is zero.
pub proof fn lemma_decimal_text(n: nat)
    ensures
        decimal_text(n).len() >= 1,
        all_digits(decimal_text(n)),
        decimal(decimal_text(n)) == n,
        n >= 1 ==> decimal_text(n)[0] != '0',
        n < 10 ==> decimal_text(n).len() == 1,
        n < 100 ==> decimal_text(n).len() <= 2,
        n < 1000 ==> decimal_text(n).len() <= 3,
    decreases n,
{
    let t = decimal_text(n);
    if n < 10 {
        assert(t.drop_last() =~= Seq::<char>::empty());
        assert(decimal(t.drop_last()) == 0);
    } else {
        lemma_decimal_text(n / 10);
        let u = decimal_text(n / 10);
        assert(t.drop_last() =~= u);
        assert(t[0] == u[0]);
    }
}

/// A hexadecimal numeral reads back as the number it was written for, and a
/// number below 2^16 is written as a group of one to four digits.
pub proof fn lemma_hex_text(n: nat)
    ensures
        hex_text(n).len() >= 1,
        all_hex_digits(hex_text(n)),
        hexadecimal(hex_text(n)) == n,
        n < 0x10 ==> hex_text(n).len() == 1,
        n < 0x100 ==> hex_text(n).len() <= 2,
        n < 0x1000 ==> hex_text(n).len() <= 3,
        n < 0x1_0000 ==> hex_text(n).len() <= 4 && is_hex_group(hex_text(n)),
    decreases n,
{
    let t = hex_text(n);
    if n < 16 {
        assert(t.drop_last() =~= Seq::<char>::empty());
        assert(hexadecimal(t.drop_last()) == 0);
    } else {
        lemma_hex_text(n / 16);
        let u = hex_text(n / 16);
        assert(t.drop_last() =~= u);
    }
}

/// The text of a joined list starts with the first field and goes on, where
/// there are more fields, with the separator.
pub proof fn lemma_join_first(fields: Seq<Seq<char>>, sep: char)
    requires
        fields.len() >= 1,
    ensures
        join(fields, sep).len() >= fields[0].len(),
        join(fields, sep).take(fields[0].len() as int) == fields[0],
        fields.len() > 1 ==> ({
            let t = join(fields, sep);
            let n = fields[0].len() as int;
            t.len() > n && t[n] == sep && t.skip(n + 1) == join(fields.skip(1), sep)
        }),
        fields.len() == 1 ==> join(fields, sep) == fields[0],
{
    let f = fields[0];
    if fields.len() == 1 {
        assert(f.take(f.len() as int) =~= f);
    } else {
        let rest = join(fields.skip(1), sep);
        let t = f + seq![sep] + rest;
        assert(t.take(f.len() as int) =~= f);
        assert(t.skip(f.len() as int + 1) =~= rest);
    }
}

/// Splitting undoes joining, where no field holds the separator.
pub proof fn lemma_split_join(fields: Seq<Seq<char>>, sep: char)
    requires
        fields.len() >= 1,
        free_of(fields, sep),
    ensures
        split(join(fields, sep), sep) == fields,
    decreases fields.len(),
{
    let t = join(fields, sep);
    let f = fields[0];
    lemma_join_first(fields, sep);
    assert forall|i: int| 0 <= i < f.len() implies t[i] != sep by {
        assert(t.take(f.len() as int)[i] == f[i]);
        assert(fields[0][i] != sep);
    }
    if fields.len() == 1 {
        lemma_index_of_unique(t, sep, t.len() as int);
        assert(split(t, sep) =~= fields);
    } else {
        let rest = fields.skip(1);
        assert(free_of(rest, sep)) by {
            assert forall|k: int, i: int|
                0 <= k < rest.len() && 0 <= i < rest[k].len() implies #[trigger] rest[k][i]
                != sep by {
                assert(fields[k + 1][i] != sep);
            }
        }
        lemma_split_join(rest, sep);
        lemma_index_of_unique(t, sep, f.len() as int);
        assert(split(t, sep) =~= seq![f] + rest);
        assert(seq![f] + rest =~= fields);
    }
}

/// Every character of a joined list is the separator or a character of one
/// of the fields.
pub proof fn lemma_join_chars(fields: Seq<Seq<char>>, sep: char, i: int)
    requires
        0 <= i < join(fields, sep).len(),
    ensures
        join(fields, sep)[i] == sep || exists|k: int, j: int|
            0 <= k < fields.len() && 0 <= j < fields[k].len() && #[trigger] fields[k][j] == join(
                fields,
                sep,
            )[i],
    decreases fields.len(),
{
    let t = join(fields, sep);
    if fields.len() == 1 {
        assert(fields[0][i] == t[i]);
    } else if fields.len() > 1 {
        let f = fields[0];
        if i < f.len() {
            assert(fields[0][i] == t[i]);
        } else if i > f.len() {
            let rest = fields.skip(1);
            lemma_join_first(fields, sep);
            assert(t[i] == join(rest, sep)[i - f.len() - 1]);
            lemma_join_chars(rest, sep, i - f.len() - 1);
            if t[i] != sep {
                let (k, j) = choose|k: int, j: int|
                    0 <= k < rest.len() && 0 <= j < rest[k].len() && #[trigger] rest[k][j] == t[i];
                assert(fields[k + 1][j] == t[i]);
            }
        }
    }
}

/// Joining one more field puts a separator and the field at the end, or the
/// field alone where it is the first.
pub proof fn lemma_join_push(fields: Seq<Seq<char>>, field: Seq<char>, sep: char)
    ensures
        join(fields.push(field), sep) == (if fields.len() == 0 {
            field
        } else {
            join(fields, sep) + seq![sep] + field
        }),
    decreases fields.len(),
{
    let more = fields.push(field);
    if fields.len() == 0 {
    } else if fields.len() == 1 {
        assert(more.skip(1) =~= seq![field]);
        assert(join(more.skip(1), sep) == field);
    } else {
        let rest = fields.skip(1);
        lemma_join_push(rest, field, sep);
        assert(more.skip(1) =~= rest.push(field));
        assert(join(more, sep) == more[0] + seq![sep] + join(more.skip(1), sep));
        assert(join(more, sep) =~= join(fields, sep) + seq![sep] + field);
    }
}

/// Whether two separators stand next to each other at position `i` of `t`.
pub open spec fn doubled_at(t: Seq<char>, sep: char, i: int) -> bool {
    0 <= i && i + 1 < t.len() && t[i] == sep && t[i + 1] == sep
}

/// In a joined list of non-empty fields that do not hold the separator, a
/// separator stands neither first nor last nor next to another.
pub proof fn lemma_join_isolated(fields: Seq<Seq<char>>, sep: char)
    requires
        fields.len() >= 1,
        free_of(fields, sep),
        forall|k: int| 0 <= k < fields.len() ==> (#[trigger] fields[k]).len() > 0,
    ensures
        join(fields, sep).len() > 0,
        join(fields, sep)[0] != sep,
        join(fields, sep).last() != sep,
        forall|i: int| !doubled_at(join(fields, sep), sep, i),
    decreases fields.len(),
{
    let t = join(fields, sep);
    let f = fields[0];
    assert(f.len() > 0);
    assert forall|i: int| 0 <= i < f.len() implies f[i] != sep by {
        assert(fields[0][i] != sep);
    }
    if fields.len() > 1 {
        let rest = fields.skip(1);
        assert(free_of(rest, sep)) by {
            assert forall|k: int, i: int|
                0 <= k < rest.len() && 0 <= i < rest[k].len() implies #[trigger] rest[k][i]
                != sep by {
                assert(fields[k + 1][i] != sep);
            }
        }
        assert forall|k: int| 0 <= k < rest.len() implies (#[trigger] rest[k]).len() > 0 by {
            assert(fields[k + 1].len() > 0);
        }
        lemma_join_isolated(rest, sep);
        let r = join(rest, sep);
        assert(t == f + seq![sep] + r);
        assert(t.len() == f.len() + 1 + r.len());
        assert(t[0] == f[0]);
        assert(t.last() == r[r.len() - 1]);
        assert forall|i: int| !doubled_at(t, sep, i) by {
            if 0 <= i && i + 1 < t.len() {
                if i < f.len() {
                    assert(t[i] == f[i]);
                } else if i == f.len() {
                    assert(t[i + 1] == r[0]);
                } else {
                    assert(!doubled_at(r, sep, i - f.len() - 1));
                    assert(t[i] == r[i - f.len() - 1]);
                    assert(t[i + 1] == r[i - f.len()]);
                }
            }
        }
    } else {
        assert(t == f);
        assert forall|i: int| !doubled_at(t, sep, i) by {
            if 0 <= i && i + 1 < t.len() {
                assert(t[i] == f[i]);
            }
        }
    }
}

/// The one-character text of a digit below 16.
fn digit_str(d: u8) -> (r: &'static str)
    requires
        d < 16,
    ensures
        r@ == seq![digit_char(d as nat)],
{
    let r = match d {
        0 => "0",
        1 => "1",
        2 => "2",
        3 => "3",
        4 => "4",
        5 => "5",
        6 => "6",
        7 => "7",
        8 => "8",
        9 => "9",
        10 => "a",
        11 => "b",
        12 => "c",
        13 => "d",
        14 => "e",
        _ => "f",
    };
    proof {
        reveal_strlit("0");
        reveal_strlit("1");
        reveal_strlit("2");
        reveal_strlit("3");
        reveal_strlit("4");
        reveal_strlit("5");
        reveal_strlit("6");
        reveal_strlit("7");
        reveal_strlit("8");
        reveal_strlit("9");
        reveal_strlit("a");
        reveal_strlit("b");
        reveal_strlit("c");
        reveal_strlit("d");
        reveal_strlit("e");
        reveal_strlit("f");
        assert(r@ =~= seq![digit_char(d as nat)]);
    }
    r
}

/// Appends the decimal numeral of `n`.
pub fn push_decimal(out: &mut String, n: u8)
    ensures
        final(out)@ == old(out)@ + decimal_text(n as nat),
{
    let ghost start = out@;
    if n >= 100 {
        out.append(digit_str(n / 100));
        out.append(digit_str((n / 10) % 10));
        out.append(digit_str(n % 10));
        proof {
            let m = n as nat;
            assert(decimal_text(m / 100) == seq![digit_char(m / 100)]);
            assert(decimal_text(m / 10) == decimal_text((m / 10) / 10).push(
                digit_char((m / 10) % 10),
            ));
            assert((m / 10) / 10 == m / 100);
            assert(out@ =~= start + decimal_text(m));
        }
    } else if n >= 10 {
        out.append(digit_str(n / 10));
        out.append(digit_str(n % 10));
        proof {
            let m = n as nat;
            assert(decimal_text(m / 10) == seq![digit_char(m / 10)]);
            assert(out@ =~= start + decimal_text(m));
        }
    } else {
        out.append(digit_str(n));
        assert(out@ =~= start + decimal_text(n as nat));
    }
}

/// Appends the hexadecimal numeral of `n`, in lower case.
pub fn push_hex(out: &mut String, n: u16)
    ensures
        final(out)@ == old(out)@ + hex_text(n as nat),
{
    let ghost start = out@;
    let ghost m = n as nat;
    let d3: u8 = (n / 0x1000) as u8;
    let d2: u8 = ((n / 0x100) % 16) as u8;
    let d1: u8 = ((n / 0x10) % 16) as u8;
    let d0: u8 = (n % 16) as u8;
    proof {
        assert((m / 16) / 16 == m / 0x100);
        assert(((m / 16) / 16) / 16 == m / 0x1000);
        assert((m / 16) % 16 == (m / 0x10) % 16);
    }
    if n >= 0x1000 {
        out.append(digit_str(d3));
        out.append(digit_str(d2));
        out.append(digit_str(d1));
        out.append(digit_str(d0));
        proof {
            assert(hex_text(m / 0x1000) == seq![digit_char(m / 0x1000)]);
            assert(hex_text(m / 0x100) == hex_text(m / 0x1000).push(digit_char((m / 0x100) % 16)));
            assert(hex_text(m / 16) == hex_text(m / 0x100).push(digit_char((m / 16) % 16)));
            assert(out@ =~= start + hex_text(m));
        }
    } else if n >= 0x100 {
        out.append(digit_str(d2));
        out.append(digit_str(d1));
        out.append(digit_str(d0));
        proof {
            assert(hex_text(m / 0x100) == seq![digit_char(m / 0x100)]);
            assert(hex_text(m / 16) == hex_text(m / 0x100).push(digit_char((m / 16) % 16)));
            assert(out@ =~= start + hex_text(m));
        }
    } else if n >= 0x10 {
        out.append(digit_str(d1));
        out.append(digit_str(d0));
        proof {
            assert(hex_text(m / 16) == seq![digit_char(m / 16)]);
            assert(out@ =~= start + hex_text(m));
        }
    } else {
        out.append(digit_str(d0));
        assert(out@ =~= start + hex_text(m));
    }
}

} // verus!
