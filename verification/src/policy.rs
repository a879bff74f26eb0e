//! Flattening the block section of a policy document into two rule sets.
//!
//! The block section names networks in three places: a flat list, lists
//! keyed by region code, and lists keyed by network operator. Every entry is
//! read in the family that its text infers. What normalises goes into that
//! family's rule set; what does not is reported and skipped.

use crate::network::{
    canonical_form, inferred_family, lemma_canonical_form_is_canonical, lemma_family_isolation,
    Cidr, Family,
};
use crate::ruleset::RuleSet;
use vstd::prelude::*;

verus! {

/// A list of raw entries under a key: a region code or an operator number.
#[derive(Debug)]
pub struct KeyedList {
    pub key: String,
    pub entries: Vec<String>,
}

/// The block section of a policy document.
#[derive(Debug)]
pub struct BlockRules {
    pub ips: Vec<String>,
    pub country: Vec<KeyedList>,
    pub asn: Vec<KeyedList>,
}

/// An entry that was skipped because it does not normalise, with the family
/// it was read as.
#[derive(Debug)]
pub struct Rejection {
    pub family: Family,
    pub raw: String,
}

/// The outcome of flattening: one rule set per family, and what was skipped.
#[derive(Debug)]
pub struct FlatRules {
    pub v4: RuleSet,
    pub v6: RuleSet,
    pub rejected: Vec<Rejection>,
}

/// The texts of a list of entries.
pub open spec fn list_texts(list: Seq<String>) -> Seq<Seq<char>> {
    list.map_values(|s: String| s@)
}

/// The texts of all the lists of a keyed group, list after list.
pub open spec fn group_texts(group: Seq<KeyedList>) -> Seq<Seq<char>> {
    group.map_values(|l: KeyedList| list_texts(l.entries@)).flatten()
}

/// Every entry of the block section: the flat list, then the lists by
/// region, then the lists by operator.
pub open spec fn block_entries(block: BlockRules) -> Seq<Seq<char>> {
    list_texts(block.ips@) + group_texts(block.country@) + group_texts(block.asn@)
}

/// The networks of one family that the entries denote.
pub open spec fn accepted(entries: Seq<Seq<char>>, family: Family) -> Set<Cidr> {
    Set::new(
        |c: Cidr|
            exists|i: int|
                0 <= i < entries.len() && canonical_form(family, #[trigger] entries[i]) == Some(c),
    )
}

/// Whether an entry is skipped: it does not normalise in the family that its
/// text infers.
pub open spec fn is_rejected(entry: Seq<char>) -> bool {
    canonical_form(inferred_family(entry), entry) is None
}

/// The entries that are skipped, in order, each with its inferred family.
pub open spec fn rejected(entries: Seq<Seq<char>>) -> Seq<(Family, Seq<char>)> {
    entries.filter(|e: Seq<char>| is_rejected(e)).map_values(
        |e: Seq<char>| (inferred_family(e), e),
    )
}

/// What a list of rejections says: family and raw text of each.
pub open spec fn rejection_views(v: Seq<Rejection>) -> Seq<(Family, Seq<char>)> {
    v.map_values(|r: Rejection| (r.family, r.raw@))
}

/// One more entry adds its network to the accepted set of its family, if it
/// denotes one, and nothing to the other family's.
pub proof fn lemma_accepted_push(entries: Seq<Seq<char>>, entry: Seq<char>, family: Family)
    ensures
        accepted(entries.push(entry), family) == (match canonical_form(family, entry) {
            Some(c) => accepted(entries, family).insert(c),
            None => accepted(entries, family),
        }),
{
    let more = entries.push(entry);
    let target = match canonical_form(family, entry) {
        Some(c) => accepted(entries, family).insert(c),
        None => accepted(entries, family),
    };
    assert forall|c: Cidr| accepted(more, family).contains(c) implies target.contains(c) by {
        let i = choose|i: int|
            0 <= i < more.len() && canonical_form(family, #[trigger] more[i]) == Some(c);
        if i < entries.len() {
            assert(more[i] == entries[i]);
        }
    }
    assert forall|c: Cidr| target.contains(c) implies accepted(more, family).contains(c) by {
        if accepted(entries, family).contains(c) {
            let i = choose|i: int|
                0 <= i < entries.len() && canonical_form(family, #[trigger] entries[i]) == Some(
                    c,
                );
            assert(more[i] == entries[i]);
        } else {
            assert(more[entries.len() as int] == entry);
        }
    }
    assert(accepted(more, family) =~= target);
}

/// One more entry adds itself to the rejected entries exactly if it is
/// rejected.
pub proof fn lemma_rejected_push(entries: Seq<Seq<char>>, entry: Seq<char>)
    ensures
        rejected(entries.push(entry)) == (if is_rejected(entry) {
            rejected(entries).push((inferred_family(entry), entry))
        } else {
            rejected(entries)
        }),
{
    let pred = |e: Seq<char>| is_rejected(e);
    let more = entries.push(entry);
    reveal(Seq::filter);
    assert(more.drop_last() == entries);
    assert(more.last() == entry);
    assert(more.filter(pred) == (if pred(entry) {
        entries.filter(pred).push(entry)
    } else {
        entries.filter(pred)
    }));
    if is_rejected(entry) {
        assert(rejected(more) =~= rejected(entries).push((inferred_family(entry), entry)));
    }
}

/// The order of the entries, and how often each occurs, does not matter to
/// the networks they denote.
pub proof fn lemma_accepted_order_free(a: Seq<Seq<char>>, b: Seq<Seq<char>>, family: Family)
    requires
        a.to_set() == b.to_set(),
    ensures
        accepted(a, family) == accepted(b, family),
{
    assert forall|c: Cidr| accepted(a, family).contains(c) == accepted(b, family).contains(c) by {
        if accepted(a, family).contains(c) {
            let i = choose|i: int|
                0 <= i < a.len() && canonical_form(family, #[trigger] a[i]) == Some(c);
            assert(a.to_set().contains(a[i]));
            assert(b.contains(a[i]));
            let j = choose|j: int| 0 <= j < b.len() && b[j] == a[i];
            assert(canonical_form(family, b[j]) == Some(c));
        }
        if accepted(b, family).contains(c) {
            let i = choose|i: int|
                0 <= i < b.len() && canonical_form(family, #[trigger] b[i]) == Some(c);
            assert(b.to_set().contains(b[i]));
            assert(a.contains(b[i]));
            let j = choose|j: int| 0 <= j < a.len() && a[j] == b[i];
            assert(canonical_form(family, a[j]) == Some(c));
        }
    }
    assert(accepted(a, family) =~= accepted(b, family));
}

/// Reads one entry in its inferred family and files it: into the rule set of
/// that family, or among the rejections.
fn absorb(entry: &String, v4: &mut RuleSet, v6: &mut RuleSet, skipped: &mut Vec<Rejection>)
    requires
        old(v4).family_of() == Family::V4,
        old(v6).family_of() == Family::V6,
    ensures
        final(v4).family_of() == Family::V4,
        final(v6).family_of() == Family::V6,
        final(v4)@ == (match canonical_form(Family::V4, entry@) {
            Some(c) => old(v4)@.insert(c),
            None => old(v4)@,
        }),
        final(v6)@ == (match canonical_form(Family::V6, entry@) {
            Some(c) => old(v6)@.insert(c),
            None => old(v6)@,
        }),
        rejection_views(final(skipped)@) == (if is_rejected(entry@) {
            rejection_views(old(skipped)@).push((inferred_family(entry@), entry@))
        } else {
            rejection_views(old(skipped)@)
        }),
{
    let chars = crate::text::chars_of(entry.as_str());
    let family = crate::network::infer_family(chars.as_slice());
    proof {
        lemma_family_isolation(family, entry@);
        lemma_canonical_form_is_canonical(family, entry@);
    }
    match crate::network::normalize_chars(family, chars.as_slice()) {
        Some(net) => {
            match family {
                Family::V4 => {
                    v4.insert(net);
                },
                Family::V6 => {
                    v6.insert(net);
                },
            }
        },
        None => {
            let ghost before = rejection_views(skipped@);
            skipped.push(Rejection { family, raw: entry.clone() });
            assert(rejection_views(skipped@) =~= before.push((family, entry@)));
        },
    }
}

/// Files every entry of a list.
fn absorb_list(
    list: &Vec<String>,
    v4: &mut RuleSet,
    v6: &mut RuleSet,
    skipped: &mut Vec<Rejection>,
    Ghost(seen): Ghost<Seq<Seq<char>>>,
)
    requires
        old(v4).family_of() == Family::V4,
        old(v6).family_of() == Family::V6,
        old(v4)@ == accepted(seen, Family::V4),
        old(v6)@ == accepted(seen, Family::V6),
        rejection_views(old(skipped)@) == rejected(seen),
    ensures
        final(v4).family_of() == Family::V4,
        final(v6).family_of() == Family::V6,
        final(v4)@ == accepted(seen + list_texts(list@), Family::V4),
        final(v6)@ == accepted(seen + list_texts(list@), Family::V6),
        rejection_views(final(skipped)@) == rejected(seen + list_texts(list@)),
{
    let mut i: usize = 0;
    assert(seen + list_texts(list@.take(0)) =~= seen);
    while i < list.len()
        invariant
            i <= list.len(),
            v4.family_of() == Family::V4,
            v6.family_of() == Family::V6,
            v4@ == accepted(seen + list_texts(list@.take(i as int)), Family::V4),
            v6@ == accepted(seen + list_texts(list@.take(i as int)), Family::V6),
            rejection_views(skipped@) == rejected(seen + list_texts(list@.take(i as int))),
        decreases list.len() - i,
    {
        let ghost sofar = seen + list_texts(list@.take(i as int));
        absorb(&list[i], v4, v6, skipped);
        proof {
            assert(seen + list_texts(list@.take(i + 1)) =~= sofar.push(list@[i as int]@));
            lemma_accepted_push(sofar, list@[i as int]@, Family::V4);
            lemma_accepted_push(sofar, list@[i as int]@, Family::V6);
            lemma_rejected_push(sofar, list@[i as int]@);
        }
        i += 1;
    }
    assert(list@.take(list@.len() as int) == list@);
}

/// Files every entry of every list of a keyed group.
fn absorb_group(
    group: &Vec<KeyedList>,
    v4: &mut RuleSet,
    v6: &mut RuleSet,
    skipped: &mut Vec<Rejection>,
    Ghost(seen): Ghost<Seq<Seq<char>>>,
)
    requires
        old(v4).family_of() == Family::V4,
        old(v6).family_of() == Family::V6,
        old(v4)@ == accepted(seen, Family::V4),
        old(v6)@ == accepted(seen, Family::V6),
        rejection_views(old(skipped)@) == rejected(seen),
    ensures
        final(v4).family_of() == Family::V4,
        final(v6).family_of() == Family::V6,
        final(v4)@ == accepted(seen + group_texts(group@), Family::V4),
        final(v6)@ == accepted(seen + group_texts(group@), Family::V6),
        rejection_views(final(skipped)@) == rejected(seen + group_texts(group@)),
{
    let mut i: usize = 0;
    assert(group@.take(0).map_values(|l: KeyedList| list_texts(l.entries@)) =~= Seq::empty());
    assert(seen + group_texts(group@.take(0)) =~= seen);
    while i < group.len()
        invariant
            i <= group.len(),
            v4.family_of() == Family::V4,
            v6.family_of() == Family::V6,
            v4@ == accepted(seen + group_texts(group@.take(i as int)), Family::V4),
            v6@ == accepted(seen + group_texts(group@.take(i as int)), Family::V6),
            rejection_views(skipped@) == rejected(seen + group_texts(group@.take(i as int))),
        decreases group.len() - i,
    {
        let ghost sofar = seen + group_texts(group@.take(i as int));
        absorb_list(&group[i].entries, v4, v6, skipped, Ghost(sofar));
        proof {
            let f = |l: KeyedList| list_texts(l.entries@);
            let lists = group@.take(i as int).map_values(f);
            assert(group@.take(i + 1).map_values(f) =~= lists.push(f(group@[i as int])));
            lists.lemma_flatten_push(f(group@[i as int]));
            assert(seen + group_texts(group@.take(i + 1)) =~= sofar + list_texts(
                group@[i as int].entries@,
            ));
        }
        i += 1;
    }
    assert(group@.take(group@.len() as int) == group@);
}

/// Flattens the block section into the rule sets of the two families.
///
/// Each set holds exactly the networks that the entries denote in its
/// family. A rejected entry is reported, with the family it was read as, and
/// never keeps the other entries from being read.
pub fn flatten(block: &BlockRules) -> (r: FlatRules)
    ensures
        r.v4.family_of() == Family::V4,
        r.v6.family_of() == Family::V6,
        r.v4@ == accepted(block_entries(*block), Family::V4),
        r.v6@ == accepted(block_entries(*block), Family::V6),
        rejection_views(r.rejected@) == rejected(block_entries(*block)),
{
    let mut v4 = RuleSet::new(Family::V4);
    let mut v6 = RuleSet::new(Family::V6);
    let mut skipped: Vec<Rejection> = Vec::new();
    let ghost none: Seq<Seq<char>> = Seq::empty();
    proof {
        assert(accepted(none, Family::V4) =~= Set::<Cidr>::empty());
        assert(accepted(none, Family::V6) =~= Set::<Cidr>::empty());
        reveal(Seq::filter);
        assert(rejected(none) =~= Seq::empty());
        assert(rejection_views(skipped@) =~= Seq::empty());
    }
    absorb_list(&block.ips, &mut v4, &mut v6, &mut skipped, Ghost(none));
    let ghost flat = none + list_texts(block.ips@);
    assert(flat =~= list_texts(block.ips@));
    absorb_group(&block.country, &mut v4, &mut v6, &mut skipped, Ghost(flat));
    let ghost regional = flat + group_texts(block.country@);
    absorb_group(&block.asn, &mut v4, &mut v6, &mut skipped, Ghost(regional));
    FlatRules { v4, v6, rejected: skipped }
}

} // verus!
