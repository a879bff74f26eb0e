//! Canonical networks and the normalisation of raw policy entries.
//!
//! A raw entry is a bare address or an address with a `/prefix` suffix. Its
//! canonical form is the network address, that is the address with every bit
//! below the prefix length cleared, together with the prefix length.

use crate::ipv4::{ipv4_text, lemma_ipv4_round_trip, parse_ipv4, push_ipv4, read_ipv4};
use crate::ipv6::{parse_ipv6, read_ipv6};
use crate::ipv6_text::{ipv6_text, lemma_ipv6_round_trip, push_ipv6};
use crate::render::{
    decimal_text, free_of, join, lemma_decimal_text, lemma_split_join, push_decimal,
};
use crate::text::{
    all_digits, chars_of, contains_char, decimal, find_char, is_digit, is_hex_digit, is_whitespace,
    lemma_index_of, lemma_split_fields, lemma_trim_contains, lemma_trim_fixed, parse_decimal,
    split, trim, trim_slice,
};
use vstd::prelude::*;
use vstd::slice::slice_subrange;

verus! {

/// An address family. The two families are independent rule universes.
#[derive(Clone, Copy, Debug, PartialEq, Eq, Hash, Structural)]
pub enum Family {
    V4,
    V6,
}

/// The mathematical model of a network: a family, the address bits (for IPv4
/// in the low 32 bits) and a prefix length.
pub struct Cidr {
    pub family: Family,
    pub address: u128,
    pub prefix: u8,
}

/// The longest prefix of a family: the width of its addresses in bits.
pub open spec fn max_prefix(family: Family) -> u8 {
    match family {
        Family::V4 => 32,
        Family::V6 => 128,
    }
}

/// The 32-bit mask whose top `prefix` bits are set. A prefix of 0 gives 0.
pub open spec fn mask_v4(prefix: u8) -> u32 {
    if prefix == 0 {
        0
    } else if prefix >= 32 {
        u32::MAX
    } else {
        u32::MAX << ((32 - prefix) as u32)
    }
}

/// The 128-bit mask whose top `prefix` bits are set. A prefix of 0 gives 0.
pub open spec fn mask_v6(prefix: u8) -> u128 {
    if prefix == 0 {
        0
    } else if prefix >= 128 {
        u128::MAX
    } else {
        u128::MAX << ((128 - prefix) as u128)
    }
}

/// `address & mask(prefix)` in the width of the family.
pub open spec fn mask_address(family: Family, address: u128, prefix: u8) -> u128 {
    match family {
        Family::V4 => ((address as u32) & mask_v4(prefix)) as u128,
        Family::V6 => address & mask_v6(prefix),
    }
}

impl Cidr {
    /// The prefix is within the family's width, the address within its range,
    /// and every address bit below the prefix is zero.
    pub open spec fn is_canonical(self) -> bool {
        &&& self.prefix <= max_prefix(self.family)
        &&& self.family == Family::V4 ==> self.address <= u32::MAX
        &&& mask_address(self.family, self.address, self.prefix) == self.address
    }
}

/// The family that an entry is read as: IPv6 if it holds a colon, else IPv4.
pub open spec fn inferred_family(entry: Seq<char>) -> Family {
    if entry.contains(':') {
        Family::V6
    } else {
        Family::V4
    }
}

/// The address that `s` denotes in the given family.
pub open spec fn parse_address(family: Family, s: Seq<char>) -> Option<u128> {
    match family {
        Family::V4 => match parse_ipv4(s) {
            Some(a) => Some(a as u128),
            None => None,
        },
        Family::V6 => parse_ipv6(s),
    }
}

/// The prefix length that `s` denotes: a decimal numeral, with an optional
/// `+` in front and any number of leading zeros, that is at most `max`.
pub open spec fn parse_prefix(s: Seq<char>, max: u8) -> Option<u8> {
    let digits = if s.len() > 0 && s[0] == '+' {
        s.skip(1)
    } else {
        s
    };
    if digits.len() > 0 && all_digits(digits) && decimal(digits) <= max {
        Some(decimal(digits) as u8)
    } else {
        None
    }
}

/// The canonical network that a raw entry denotes in the given family, or
/// `None` where the entry is rejected.
///
/// Whitespace around the entry, the address and the prefix is ignored. An
/// entry with a colon is IPv6 only, one without is IPv4 only. Without a `/`
/// the entry is a host route. With one `/` it is an address and a prefix
/// length, and the address is masked. More than one `/` is rejected.
pub open spec fn canonical_form(family: Family, entry: Seq<char>) -> Option<Cidr> {
    let s = trim(entry);
    let parts = split(s, '/');
    if s.len() == 0 || inferred_family(s) != family {
        None
    } else if parts.len() == 1 {
        match parse_address(family, s) {
            Some(a) => Some(Cidr { family, address: a, prefix: max_prefix(family) }),
            None => None,
        }
    } else if parts.len() == 2 {
        match (
            parse_address(family, trim(parts[0])),
            parse_prefix(trim(parts[1]), max_prefix(family)),
        ) {
            (Some(a), Some(p)) => Some(
                Cidr { family, address: mask_address(family, a, p), prefix: p },
            ),
            _ => None,
        }
    } else {
        None
    }
}

/// Masking clears nothing that masking has left: a masked address is its own
/// network address.
pub proof fn lemma_mask_idempotent(family: Family, address: u128, prefix: u8)
    ensures
        mask_address(family, mask_address(family, address, prefix), prefix) == mask_address(
            family,
            address,
            prefix,
        ),
        family == Family::V4 ==> mask_address(family, address, prefix) <= u32::MAX,
{
    match family {
        Family::V4 => {
            let a = address as u32;
            let m = mask_v4(prefix);
            assert((a & m) & m == a & m) by (bit_vector);
        },
        Family::V6 => {
            let m = mask_v6(prefix);
            assert((address & m) & m == address & m) by (bit_vector);
        },
    }
}

/// With the longest prefix nothing is masked away.
pub proof fn lemma_mask_full(family: Family, address: u128)
    requires
        family == Family::V4 ==> address <= u32::MAX,
    ensures
        mask_address(family, address, max_prefix(family)) == address,
{
    match family {
        Family::V4 => {
            let a = address as u32;
            assert(a & u32::MAX == a) by (bit_vector);
        },
        Family::V6 => {
            assert(address & u128::MAX == address) by (bit_vector);
        },
    }
}

/// What `canonical_form` accepts is canonical and of the family asked for.
pub proof fn lemma_canonical_form_is_canonical(family: Family, entry: Seq<char>)
    ensures
        canonical_form(family, entry) matches Some(c) ==> c.is_canonical() && c.family == family,
{
    match canonical_form(family, entry) {
        Some(c) => {
            let s = trim(entry);
            let parts = split(s, '/');
            if parts.len() == 1 {
                lemma_mask_full(family, c.address);
            } else {
                let a = parse_address(family, trim(parts[0]))->0;
                lemma_mask_idempotent(family, a, c.prefix);
            }
        },
        None => {},
    }
}

/// Family isolation: an entry with a colon is never accepted as IPv4, and an
/// entry without one is never accepted as IPv6.
pub proof fn lemma_family_isolation(family: Family, entry: Seq<char>)
    ensures
        entry.contains(':') ==> canonical_form(Family::V4, entry) is None,
        !entry.contains(':') ==> canonical_form(Family::V6, entry) is None,
        inferred_family(entry) != family ==> canonical_form(family, entry) is None,
{
    lemma_trim_contains(entry, ':');
}

/// The text of an address of the given family.
pub open spec fn address_text(family: Family, address: u128) -> Seq<char> {
    match family {
        Family::V4 => ipv4_text(address as u32),
        Family::V6 => ipv6_text(address),
    }
}

/// The canonical text of a network: its address, a `/`, its prefix length.
pub open spec fn network_text(c: Cidr) -> Seq<char> {
    join(seq![address_text(c.family, c.address), decimal_text(c.prefix as nat)], '/')
}

/// The text of an address reads back as the address, in its own family. It
/// is not empty and holds neither whitespace nor a `/`, and it holds a colon
/// exactly if the family is IPv6.
pub proof fn lemma_address_text(family: Family, address: u128)
    requires
        family == Family::V4 ==> address <= u32::MAX,
    ensures
        parse_address(family, address_text(family, address)) == Some(address),
        address_text(family, address).len() > 0,
        address_text(family, address).contains(':') <==> family == Family::V6,
        forall|i: int|
            0 <= i < address_text(family, address).len() ==> !is_whitespace(
                #[trigger] address_text(family, address)[i],
            ) && address_text(family, address)[i] != '/',
{
    let t = address_text(family, address);
    match family {
        Family::V4 => {
            lemma_ipv4_round_trip(address as u32);
            assert forall|i: int| 0 <= i < t.len() implies !is_whitespace(#[trigger] t[i]) && t[i]
                != '/' && t[i] != ':' by {
                assert(is_digit(t[i]) || t[i] == '.');
            }
        },
        Family::V6 => {
            lemma_ipv6_round_trip(address);
            assert forall|i: int| 0 <= i < t.len() implies !is_whitespace(#[trigger] t[i]) && t[i]
                != '/' by {
                assert(is_hex_digit(t[i]) || t[i] == ':' || t[i] == '.');
            }
            let i = choose|i: int| 0 <= i < t.len() && t[i] == ':';
            assert(t.len() > 0);
        },
    }
}

/// The shape of a canonical text: it has no whitespace to trim, reads as
/// its own family, and splits at its one `/` into address and prefix.
proof fn lemma_network_text_shape(c: Cidr)
    requires
        c.is_canonical(),
    ensures
        ({
            let a = address_text(c.family, c.address);
            let p = decimal_text(c.prefix as nat);
            let t = network_text(c);
            &&& t.len() > 0
            &&& trim(t) == t
            &&& trim(a) == a
            &&& trim(p) == p
            &&& inferred_family(t) == c.family
            &&& split(t, '/') == seq![a, p]
        }),
{
    let a = address_text(c.family, c.address);
    let p = decimal_text(c.prefix as nat);
    let f = seq![a, p];
    let t = network_text(c);
    lemma_address_text(c.family, c.address);
    lemma_decimal_text(c.prefix as nat);
    assert forall|i: int| 0 <= i < p.len() implies !is_whitespace(#[trigger] p[i]) && p[i] != '/'
        && p[i] != ':' by {
        assert(is_digit(p[i]));
    }
    assert(free_of(f, '/')) by {
        assert forall|k: int, i: int|
            0 <= k < f.len() && 0 <= i < f[k].len() implies #[trigger] f[k][i] != '/' by {
            if k == 0 {
                assert(a[i] != '/');
            } else {
                assert(p[i] != '/');
            }
        }
    }
    lemma_split_join(f, '/');
    assert(f.skip(1) =~= seq![p]);
    assert(join(f.skip(1), '/') == p);
    assert(t == a + seq!['/'] + p);
    assert(t[0] == a[0]);
    assert(t.last() == p[p.len() - 1]);
    lemma_trim_fixed(t);
    lemma_trim_fixed(a);
    lemma_trim_fixed(p);
    if a.contains(':') {
        let i = choose|i: int| 0 <= i < a.len() && a[i] == ':';
        assert(t[i] == ':');
    }
    if t.contains(':') {
        let i = choose|i: int| 0 <= i < t.len() && t[i] == ':';
        if i < a.len() {
            assert(a[i] == ':');
        } else if i > a.len() {
            assert(p[i - a.len() - 1] == ':');
        }
    }
}

/// A prefix length written in decimal reads back as that prefix length.
proof fn lemma_prefix_text(prefix: u8, max: u8)
    requires
        prefix <= max,
    ensures
        parse_prefix(decimal_text(prefix as nat), max) == Some(prefix),
{
    let p = decimal_text(prefix as nat);
    lemma_decimal_text(prefix as nat);
    assert(is_digit(p[0]));
}

/// The canonical text of a canonical network normalises to that network.
pub proof fn lemma_text_round_trip(c: Cidr)
    requires
        c.is_canonical(),
    ensures
        canonical_form(c.family, network_text(c)) == Some(c),
{
    lemma_network_text_shape(c);
    lemma_address_text(c.family, c.address);
    lemma_prefix_text(c.prefix, max_prefix(c.family));
    let t = network_text(c);
    let parts = split(trim(t), '/');
    assert(parts.len() == 2);
    assert(parts[0] == address_text(c.family, c.address));
    assert(parts[1] == decimal_text(c.prefix as nat));
}

/// Idempotence of normalisation: what an entry normalises to, written as
/// text and normalised again, is the same network.
pub proof fn lemma_normalize_idempotent(family: Family, entry: Seq<char>)
    ensures
        canonical_form(family, entry) matches Some(c) ==> canonical_form(family, network_text(c))
            == Some(c),
{
    lemma_canonical_form_is_canonical(family, entry);
    if let Some(c) = canonical_form(family, entry) {
        lemma_text_round_trip(c);
    }
}

/// A network in canonical form: its address has no bit set below its prefix
/// length. Two networks are equal when family, address and prefix are equal.
#[derive(Clone, Copy, Debug, PartialEq, Eq, Hash, Structural)]
pub struct CanonicalNetwork {
    family: Family,
    address: u128,
    prefix: u8,
}

impl View for CanonicalNetwork {
    type V = Cidr;

    closed spec fn view(&self) -> Cidr {
        Cidr { family: self.family, address: self.address, prefix: self.prefix }
    }
}

impl CanonicalNetwork {
    /// Holds of every value of this type: it models a canonical network.
    #[verifier::type_invariant]
    pub open spec fn wf(self) -> bool {
        self@.is_canonical()
    }

    /// Two networks are equal exactly when their models are.
    pub proof fn lemma_equal_views(self, other: Self)
        ensures
            (self == other) == (self@ == other@),
    {
    }

    /// The network with the given parts, where they are in canonical form.
    pub fn new(family: Family, address: u128, prefix: u8) -> (r: Option<Self>)
        ensures
            r matches Some(n) ==> n@ == (Cidr { family, address, prefix }),
            r is Some <==> (Cidr { family, address, prefix }).is_canonical(),
    {
        match Self::containing(family, address, prefix) {
            Some(n) => {
                if n.address == address {
                    Some(n)
                } else {
                    None
                }
            },
            None => None,
        }
    }

    /// The network of the given prefix length that contains `address`.
    /// `None` where the prefix is longer than the family allows or the
    /// address is not one of the family.
    pub fn containing(family: Family, address: u128, prefix: u8) -> (r: Option<Self>)
        ensures
            r matches Some(n) ==> n@ == (Cidr {
                family,
                address: mask_address(family, address, prefix),
                prefix,
            }),
            r is Some <==> prefix <= max_prefix(family) && (family == Family::V4 ==> address
                <= u32::MAX),
    {
        proof {
            lemma_mask_idempotent(family, address, prefix);
        }
        match family {
            Family::V4 => {
                if prefix > 32 || address > 0xFFFF_FFFF {
                    return None;
                }
                let mask: u32 = if prefix == 0 {
                    0
                } else {
                    u32::MAX << (32 - prefix as u32)
                };
                assert(u32::MAX << 0u32 == u32::MAX) by (bit_vector);
                Some(
                    CanonicalNetwork {
                        family,
                        address: ((address as u32) & mask) as u128,
                        prefix,
                    },
                )
            },
            Family::V6 => {
                if prefix > 128 {
                    return None;
                }
                let mask: u128 = if prefix == 0 {
                    0
                } else {
                    u128::MAX << (128 - prefix as u128)
                };
                assert(u128::MAX << 0u128 == u128::MAX) by (bit_vector);
                Some(CanonicalNetwork { family, address: address & mask, prefix })
            },
        }
    }

    /// The family of the network.
    pub fn family(&self) -> (r: Family)
        ensures
            r == self@.family,
    {
        self.family
    }

    /// The canonical text of the network: `address/prefix`.
    pub fn to_text(&self) -> (r: String)
        ensures
            r@ == network_text(self@),
    {
        proof {
            use_type_invariant(self);
            reveal_strlit("/");
        }
        let mut out = String::new();
        match self.family {
            Family::V4 => {
                push_ipv4(&mut out, self.address as u32);
            },
            Family::V6 => {
                push_ipv6(&mut out, self.address);
            },
        }
        out.append("/");
        push_decimal(&mut out, self.prefix);
        proof {
            let f = seq![address_text(self.family, self.address), decimal_text(self.prefix as nat)];
            assert(f.skip(1) =~= seq![f[1]]);
            assert(join(f.skip(1), '/') == f[1]);
            assert(out@ =~= network_text(self@));
        }
        out
    }

    /// The network address as a number; for IPv4 it is below 2^32.
    pub fn address(&self) -> (r: u128)
        ensures
            r == self@.address,
            self@.is_canonical(),
    {
        proof {
            use_type_invariant(self);
        }
        self.address
    }

    /// The prefix length; never longer than the family allows.
    pub fn prefix(&self) -> (r: u8)
        ensures
            r == self@.prefix,
            r <= max_prefix(self@.family),
    {
        proof {
            use_type_invariant(self);
        }
        self.prefix
    }
}

/// The family that an entry is read as: IPv6 if it holds a colon, else IPv4.
pub fn infer_family(entry: &[char]) -> (r: Family)
    ensures
        r == inferred_family(entry@),
{
    if contains_char(entry, ':') {
        Family::V6
    } else {
        Family::V4
    }
}

/// Reads a prefix length of at most `max`.
pub fn read_prefix(s: &[char], max: u8) -> (r: Option<u8>)
    ensures
        r == parse_prefix(s@, max),
{
    let digits = if s.len() > 0 && s[0] == '+' {
        slice_subrange(s, 1, s.len())
    } else {
        s
    };
    parse_decimal(digits, max)
}

/// Reads an address of the given family that takes up the whole of `s`.
pub fn read_address(family: Family, s: &[char]) -> (r: Option<u128>)
    ensures
        r == parse_address(family, s@),
{
    match family {
        Family::V4 => match read_ipv4(s) {
            Some(a) => Some(a as u128),
            None => None,
        },
        Family::V6 => read_ipv6(s),
    }
}

/// Normalises a raw entry, given as characters, in the given family.
pub fn normalize_chars(family: Family, entry: &[char]) -> (r: Option<CanonicalNetwork>)
    ensures
        r matches Some(n) ==> canonical_form(family, entry@) == Some(n@),
        r is None ==> canonical_form(family, entry@) is None,
{
    let s = trim_slice(entry);
    if s.len() == 0 {
        return None;
    }
    if infer_family(s) != family {
        return None;
    }
    let max: u8 = match family {
        Family::V4 => 32,
        Family::V6 => 128,
    };
    let k = find_char(s, '/');
    proof {
        lemma_index_of(s@, '/');
        lemma_split_fields(s@.skip(k + 1), '/');
    }
    if k == s.len() {
        return match read_address(family, s) {
            Some(a) => {
                proof {
                    lemma_canonical_form_is_canonical(family, entry@);
                }
                CanonicalNetwork::new(family, a, max)
            },
            None => None,
        };
    }
    let after = slice_subrange(s, k + 1, s.len());
    let k2 = find_char(after, '/');
    proof {
        lemma_index_of(after@, '/');
        lemma_split_fields(after@.skip(k2 + 1), '/');
    }
    if k2 < after.len() {
        return None;
    }
    let address = match read_address(family, trim_slice(slice_subrange(s, 0, k))) {
        Some(a) => a,
        None => {
            return None;
        },
    };
    let prefix = match read_prefix(trim_slice(after), max) {
        Some(p) => p,
        None => {
            return None;
        },
    };
    proof {
        lemma_canonical_form_is_canonical(family, entry@);
    }
    CanonicalNetwork::containing(family, address, prefix)
}

/// Normalises a raw entry in the given family: the canonical network that
/// it denotes, or `None` where the entry is rejected.
pub fn normalize(family: Family, entry: &str) -> (r: Option<CanonicalNetwork>)
    ensures
        r matches Some(n) ==> canonical_form(family, entry@) == Some(n@),
        r is None ==> canonical_form(family, entry@) is None,
{
    let chars = chars_of(entry);
    normalize_chars(family, chars.as_slice())
}

} // verus!
