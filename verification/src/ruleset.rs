//! Sets of canonical networks of one address family.
//!
//! A rule set is kept as a vector in strictly ascending order of
//! (address, prefix). The order makes membership a binary search and gives
//! every set a single representation, so that walking a set is repeatable.

use crate::network::{CanonicalNetwork, Cidr, Family};
use vstd::prelude::*;

verus! {

/// The order in which a rule set keeps and hands out its members: by
/// address, then by prefix length.
pub open spec fn key_lt(a: Cidr, b: Cidr) -> bool {
    a.address < b.address || (a.address == b.address && a.prefix < b.prefix)
}

/// Strictly ascending by `key_lt`, which also rules out duplicates.
pub open spec fn ascending(s: Seq<Cidr>) -> bool {
    forall|i: int, j: int| 0 <= i < j < s.len() ==> key_lt(#[trigger] s[i], #[trigger] s[j])
}

/// A set of canonical networks of a single family. Inserting a member twice
/// leaves one; the order of insertion leaves no trace.
#[derive(Debug)]
pub struct RuleSet {
    family: Family,
    entries: Vec<CanonicalNetwork>,
}

impl View for RuleSet {
    type V = Set<Cidr>;

    /// The members of the set.
    closed spec fn view(&self) -> Set<Cidr> {
        self.members().to_set()
    }
}

impl RuleSet {
    /// The members in the order in which the set hands them out.
    pub closed spec fn members(&self) -> Seq<Cidr> {
        Seq::new(self.entries@.len(), |i: int| self.entries@[i]@)
    }

    /// The family that every member belongs to.
    pub closed spec fn family_of(&self) -> Family {
        self.family
    }

    /// The representation invariant: every member is a canonical network of
    /// the set's family, and the members ascend strictly.
    #[verifier::type_invariant]
    pub closed spec fn wf(self) -> bool {
        &&& forall|i: int|
            0 <= i < self.members().len() ==> (#[trigger] self.members()[i]).is_canonical()
                && self.members()[i].family == self.family
        &&& ascending(self.members())
    }

    /// What a well-formed set promises of its members.
    pub proof fn lemma_members(self)
        requires
            self.wf(),
        ensures
            self@ == self.members().to_set(),
            self@.finite(),
            self@.len() == self.members().len(),
            self.members().no_duplicates(),
            ascending(self.members()),
            forall|c: Cidr| #[trigger]
                self@.contains(c) ==> c.is_canonical() && c.family == self.family_of(),
    {
        let m = self.members();
        assert(m.no_duplicates()) by {
            assert forall|i: int, j: int|
                0 <= i < m.len() && 0 <= j < m.len() && i != j implies m[i] != m[j] by {
                if i < j {
                    assert(key_lt(m[i], m[j]));
                } else {
                    assert(key_lt(m[j], m[i]));
                }
            }
        }
        m.unique_seq_to_set();
        vstd::seq_lib::seq_to_set_is_finite(m);
        assert forall|c: Cidr| #[trigger] self@.contains(c) implies c.is_canonical() && c.family
            == self.family_of() by {
            let i = choose|i: int| 0 <= i < m.len() && m[i] == c;
            assert(m[i].is_canonical());
        }
    }

    /// The empty set of the given family.
    pub fn new(family: Family) -> (r: Self)
        ensures
            r@ == Set::<Cidr>::empty(),
            r.members() == Seq::<Cidr>::empty(),
            r.family_of() == family,
            r.wf(),
    {
        let r = RuleSet { family, entries: Vec::new() };
        assert(r.members() =~= Seq::<Cidr>::empty());
        assert(r@ =~= Set::<Cidr>::empty());
        r
    }

    /// The family that the set holds.
    pub fn family(&self) -> (r: Family)
        ensures
            r == self.family_of(),
    {
        self.family
    }

    /// The number of members.
    pub fn len(&self) -> (n: usize)
        ensures
            n == self.members().len(),
            n == self@.len(),
    {
        proof {
            use_type_invariant(self);
            self.lemma_members();
        }
        self.entries.len()
    }

    /// Whether the set has no member.
    pub fn is_empty(&self) -> (r: bool)
        ensures
            r == (self@ == Set::<Cidr>::empty()),
            r == (self.members().len() == 0),
    {
        proof {
            use_type_invariant(self);
            self.lemma_members();
            if self.members().len() > 0 {
                assert(self@.contains(self.members()[0]));
            } else {
                assert(self@ =~= Set::<Cidr>::empty());
            }
        }
        self.entries.len() == 0
    }

    /// The member at position `i` of the set's order, if there is one.
    pub fn get(&self, i: usize) -> (r: Option<CanonicalNetwork>)
        ensures
            r matches Some(n) ==> i < self.members().len() && n@ == self.members()[i as int],
            r is Some <==> i < self.members().len(),
    {
        if i < self.entries.len() {
            Some(self.entries[i])
        } else {
            None
        }
    }

    /// The first position whose member is not below `net` in the set's
    /// order, and whether the member there is `net` itself.
    fn locate(&self, net: &CanonicalNetwork) -> (r: (usize, bool))
        ensures
            r.0 <= self.members().len(),
            forall|i: int| 0 <= i < r.0 ==> key_lt(#[trigger] self.members()[i], net@),
            forall|i: int|
                r.0 <= i < self.members().len() ==> !key_lt(#[trigger] self.members()[i], net@),
            r.1 == self@.contains(net@),
            r.1 ==> r.0 < self.members().len() && self.members()[r.0 as int] == net@,
    {
        proof {
            use_type_invariant(self);
            self.lemma_members();
        }
        let address = net.address();
        let prefix = net.prefix();
        let ghost m = self.members();
        let mut lo: usize = 0;
        let mut hi: usize = self.entries.len();
        while lo < hi
            invariant
                lo <= hi <= self.entries.len(),
                m == self.members(),
                m.len() == self.entries.len(),
                ascending(m),
                address == net@.address,
                prefix == net@.prefix,
                forall|i: int| 0 <= i < lo ==> key_lt(#[trigger] m[i], net@),
                forall|i: int| hi <= i < m.len() ==> !key_lt(#[trigger] m[i], net@),
            decreases hi - lo,
        {
            let mid = lo + (hi - lo) / 2;
            let e = &self.entries[mid];
            let a = e.address();
            let p = e.prefix();
            assert(m[mid as int] == e@);
            if a < address || (a == address && p < prefix) {
                proof {
                    assert forall|i: int| 0 <= i < mid + 1 implies key_lt(
                        #[trigger] m[i],
                        net@,
                    ) by {
                        if i < mid {
                            assert(key_lt(m[i], m[mid as int]));
                        }
                    }
                }
                lo = mid + 1;
            } else {
                proof {
                    assert forall|i: int| mid <= i < m.len() implies !key_lt(
                        #[trigger] m[i],
                        net@,
                    ) by {
                        if mid < i {
                            assert(key_lt(m[mid as int], m[i]));
                        }
                    }
                }
                hi = mid;
            }
        }
        let found = lo < self.entries.len() && self.entries[lo] == *net;
        proof {
            if lo < self.entries.len() {
                self.entries[lo as int].lemma_equal_views(*net);
            }
            if found {
                assert(m[lo as int] == net@);
                assert(self@.contains(net@));
            } else if self@.contains(net@) {
                let j = choose|j: int| 0 <= j < m.len() && m[j] == net@;
                if j < lo {
                    assert(key_lt(m[j], net@));
                } else if j > lo {
                    assert(key_lt(m[lo as int], m[j]));
                    assert(!key_lt(m[lo as int], net@));
                }
            }
        }
        (lo, found)
    }

    /// Whether `net` is a member.
    pub fn contains(&self, net: &CanonicalNetwork) -> (r: bool)
        ensures
            r == self@.contains(net@),
    {
        self.locate(net).1
    }

    /// Adds `net` to the set. A network of another family is left out, since
    /// a rule set holds one family only. Returns whether the set has grown.
    pub fn insert(&mut self, net: CanonicalNetwork) -> (grown: bool)
        ensures
            final(self).family_of() == old(self).family_of(),
            final(self)@ == (if net@.family == old(self).family_of() {
                old(self)@.insert(net@)
            } else {
                old(self)@
            }),
            grown == (net@.family == old(self).family_of() && !old(self)@.contains(net@)),
            final(self).wf(),
    {
        proof {
            use_type_invariant(&*self);
            self.lemma_members();
        }
        if net.family() != self.family {
            return false;
        }
        let (pos, found) = self.locate(&net);
        if found {
            assert(self@.insert(net@) =~= self@);
            return false;
        }
        let ghost before = self.members();
        proof {
            use_type_invariant(&net);
        }
        let mut entries: Vec<CanonicalNetwork> = Vec::new();
        std::mem::swap(&mut entries, &mut self.entries);
        entries.insert(pos, net);
        proof {
            let after = Seq::new(entries@.len(), |i: int| entries@[i]@);
            assert(after =~= before.insert(pos as int, net@));
            assert(ascending(after)) by {
                assert forall|i: int, j: int| 0 <= i < j < after.len() implies key_lt(
                    #[trigger] after[i],
                    #[trigger] after[j],
                ) by {
                    if j < pos {
                        assert(key_lt(before[i], before[j]));
                    } else if j == pos {
                        assert(key_lt(before[i], net@));
                    } else if i < pos {
                        assert(key_lt(before[i], before[j - 1]));
                    } else if i == pos {
                        assert(!key_lt(before[j - 1], net@));
                        assert(before[j - 1] != net@);
                    } else {
                        assert(key_lt(before[i - 1], before[j - 1]));
                    }
                }
            }
            assert forall|i: int| 0 <= i < after.len() implies (#[trigger] after[i]).is_canonical()
                && after[i].family == self.family by {
                if i < pos {
                    assert(after[i] == before[i]);
                } else if i > pos {
                    assert(after[i] == before[i - 1]);
                }
            }
            assert(after.to_set() =~= before.to_set().insert(net@)) by {
                assert forall|c: Cidr| after.to_set().contains(c) implies before.to_set().insert(
                    net@,
                ).contains(c) by {
                    let i = choose|i: int| 0 <= i < after.len() && after[i] == c;
                    if i < pos {
                        assert(before[i] == c);
                    } else if i > pos {
                        assert(before[i - 1] == c);
                    }
                }
                assert forall|c: Cidr| before.to_set().insert(net@).contains(
                    c,
                ) implies after.to_set().contains(c) by {
                    if c == net@ {
                        assert(after[pos as int] == c);
                    } else {
                        let i = choose|i: int| 0 <= i < before.len() && before[i] == c;
                        if i < pos {
                            assert(after[i] == c);
                        } else {
                            assert(after[i + 1] == c);
                        }
                    }
                }
            }
        }
        self.entries = entries;
        true
    }

    /// The members of `self` that are not members of `other`.
    pub fn difference(&self, other: &RuleSet) -> (r: RuleSet)
        ensures
            r@ == self@.difference(other@),
            r.family_of() == self.family_of(),
            r.wf(),
    {
        proof {
            use_type_invariant(self);
            self.lemma_members();
        }
        let ghost m = self.members();
        let mut out: Vec<CanonicalNetwork> = Vec::new();
        let ghost mut o: Seq<Cidr> = Seq::empty();
        let mut i: usize = 0;
        while i < self.entries.len()
            invariant
                i <= self.entries.len(),
                m == self.members(),
                m.len() == self.entries.len(),
                ascending(m),
                o.len() == out.len(),
                forall|a: int| 0 <= a < o.len() ==> (#[trigger] out[a])@ == o[a],
                forall|a: int|
                    0 <= a < o.len() ==> m.contains(#[trigger] o[a]) && !other@.contains(o[a]),
                forall|a: int|
                    0 <= a < o.len() && i < m.len() ==> key_lt(#[trigger] o[a], m[i as int]),
                ascending(o),
                forall|k: int| 0 <= k < i && !other@.contains(#[trigger] m[k]) ==> o.contains(m[k]),
            decreases self.entries.len() - i,
        {
            let e = self.entries[i];
            assert(e@ == m[i as int]);
            let ghost before = o;
            if !other.contains(&e) {
                out.push(e);
                proof {
                    o = o.push(e@);
                    assert forall|k: int|
                        0 <= k < i + 1 && !other@.contains(#[trigger] m[k]) implies o.contains(
                        m[k],
                    ) by {
                        if k < i {
                            let a = choose|a: int| 0 <= a < before.len() && before[a] == m[k];
                            assert(o[a] == m[k]);
                        } else {
                            assert(o[o.len() - 1] == m[k]);
                        }
                    }
                }
            }
            proof {
                if i + 1 < m.len() {
                    assert(key_lt(m[i as int], m[i + 1]));
                    assert forall|a: int| 0 <= a < o.len() implies key_lt(
                        #[trigger] o[a],
                        m[i + 1],
                    ) by {
                        if a < before.len() {
                            assert(key_lt(before[a], m[i as int]));
                        }
                    }
                }
            }
            i += 1;
        }
        let r = RuleSet { family: self.family, entries: out };
        proof {
            assert(r.members() =~= o);
            assert forall|a: int| 0 <= a < o.len() implies (#[trigger] o[a]).is_canonical()
                && o[a].family == self.family by {
                let k = choose|k: int| 0 <= k < m.len() && m[k] == o[a];
                assert(m[k].is_canonical());
            }
            assert(r@ =~= self@.difference(other@)) by {
                assert forall|c: Cidr| self@.difference(other@).contains(c) implies r@.contains(
                    c,
                ) by {
                    let k = choose|k: int| 0 <= k < m.len() && m[k] == c;
                    assert(o.contains(m[k]));
                }
            }
        }
        r
    }

    /// Whether the two sets have the same members.
    pub fn same_members(&self, other: &RuleSet) -> (r: bool)
        ensures
            r == (self@ == other@),
    {
        proof {
            use_type_invariant(self);
            use_type_invariant(other);
            self.lemma_members();
            other.lemma_members();
        }
        let ghost a = self.members();
        let ghost b = other.members();
        if self.entries.len() != other.entries.len() {
            return false;
        }
        let mut i: usize = 0;
        while i < self.entries.len()
            invariant
                i <= self.entries.len(),
                a == self.members(),
                b == other.members(),
                a.len() == self.entries.len(),
                b.len() == other.entries.len(),
                a.len() == b.len(),
                self@ == a.to_set(),
                other@ == b.to_set(),
                ascending(a),
                ascending(b),
                forall|k: int| 0 <= k < i ==> a[k] == b[k],
            decreases self.entries.len() - i,
        {
            assert(a[i as int] == self.entries[i as int]@);
            assert(b[i as int] == other.entries[i as int]@);
            proof {
                self.entries[i as int].lemma_equal_views(other.entries[i as int]);
            }
            if self.entries[i] != other.entries[i] {
                proof {
                    lemma_first_difference(a, b, i as int);
                }
                return false;
            }
            i += 1;
        }
        assert(a =~= b);
        true
    }

    /// The members as a vector, in the set's order.
    pub fn to_vec(&self) -> (v: Vec<CanonicalNetwork>)
        ensures
            v@.len() == self.members().len(),
            forall|i: int| 0 <= i < v@.len() ==> (#[trigger] v@[i])@ == self.members()[i],
    {
        let mut v: Vec<CanonicalNetwork> = Vec::new();
        let mut i: usize = 0;
        while i < self.entries.len()
            invariant
                i <= self.entries.len(),
                v@ == self.entries@.take(i as int),
            decreases self.entries.len() - i,
        {
            v.push(self.entries[i]);
            i += 1;
        }
        v
    }
}

/// Two ascending sequences that agree up to a position and differ there do
/// not hold the same members.
proof fn lemma_first_difference(a: Seq<Cidr>, b: Seq<Cidr>, i: int)
    requires
        ascending(a),
        ascending(b),
        a.len() == b.len(),
        0 <= i < a.len(),
        forall|k: int| 0 <= k < i ==> a[k] == b[k],
        a[i] != b[i],
    ensures
        a.to_set() != b.to_set(),
{
    if a.to_set() == b.to_set() {
        assert(a.to_set().contains(a[i]));
        assert(b.to_set().contains(b[i]));
        let j = choose|j: int| 0 <= j < b.len() && b[j] == a[i];
        let k = choose|k: int| 0 <= k < a.len() && a[k] == b[i];
        if j < i {
            assert(key_lt(a[j], a[i]));
        } else if k < i {
            assert(key_lt(b[k], b[i]));
        } else {
            assert(j > i && k > i);
            assert(key_lt(b[i], b[j]));
            assert(key_lt(a[i], a[k]));
        }
    }
}

} // verus!
