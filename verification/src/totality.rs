//! Totality of the assignment.  Every value the final mapping holds is a
//! discovered input path, and no path is bound twice.  When no two
//! generated keys collide — witnessed by the mapping being as large as
//! the input set — every discovered input path is bound exactly once.

use vstd::prelude::*;
use vstd::multiset::Multiset;
use crate::disambiguate::assign_group;
use crate::disambiguate::assign_groups;
use crate::disambiguate::assign_members;
use crate::disambiguate::member_key;
use crate::disambiguate::spec_disambiguate;
use crate::groups::add_to_groups;
use crate::groups::groups_of;
use crate::groups::insert_sorted;
use crate::groups::sort_paths;

verus! {

broadcast use vstd::multiset::group_multiset_axioms, vstd::seq_lib::group_to_multiset_ensures, vstd::set::group_set_axioms;

/// No two keys are bound to the same path.
pub open spec fn path_injective(m: Map<Seq<char>, Seq<char>>) -> bool {
    forall|k1: Seq<char>, k2: Seq<char>|
        #![trigger m.dom().contains(k1), m.dom().contains(k2)]
        m.dom().contains(k1) && m.dom().contains(k2) && k1 != k2 ==> m[k1] != m[k2]
}

// ------------------------------------------------- sorting is a permutation

/// Prepending one element inserts it into the multiset.
proof fn lemma_cons_multiset(x: Seq<char>, s: Seq<Seq<char>>)
    ensures
        (seq![x] + s).to_multiset() == s.to_multiset().insert(x),
    decreases s.len(),
{
    if s.len() == 0 {
        assert(seq![x] + s =~= s.push(x));
    } else {
        let c = seq![x] + s;
        lemma_cons_multiset(x, s.drop_last());
        assert(c =~= (seq![x] + s.drop_last()).push(s.last()));
        assert(s =~= s.drop_last().push(s.last()));
        assert(c.to_multiset() =~= s.to_multiset().insert(x));
    }
}

/// Sorted insertion inserts into the multiset.
proof fn lemma_insert_sorted_multiset(x: Seq<char>, s: Seq<Seq<char>>)
    ensures
        insert_sorted(x, s).to_multiset() == s.to_multiset().insert(x),
    decreases s.len(),
{
    if s.len() == 0 {
        assert(insert_sorted(x, s) =~= s.push(x));
    } else if crate::chars::lex_leq(x, s[0]) {
        lemma_cons_multiset(x, s);
    } else {
        lemma_insert_sorted_multiset(x, s.drop_first());
        lemma_cons_multiset(s[0], insert_sorted(x, s.drop_first()));
        lemma_cons_multiset(s[0], s.drop_first());
        assert(s =~= seq![s[0]] + s.drop_first());
        assert(insert_sorted(x, s).to_multiset() =~= s.to_multiset().insert(x));
    }
}

/// Sorting preserves the multiset of paths.
proof fn lemma_sort_multiset(s: Seq<Seq<char>>)
    ensures
        sort_paths(s).to_multiset() == s.to_multiset(),
    decreases s.len(),
{
    if s.len() > 0 {
        lemma_sort_multiset(s.drop_last());
        lemma_insert_sorted_multiset(s.last(), sort_paths(s.drop_last()));
        assert(s =~= s.drop_last().push(s.last()));
    }
}

// ------------------------------------------------ grouping is a permutation

/// All member paths of a group sequence, as a multiset.
pub open spec fn members_ms(gs: Seq<(Seq<char>, Seq<Seq<char>>)>) -> Multiset<Seq<char>>
    decreases gs.len(),
{
    if gs.len() == 0 {
        Multiset::<Seq<char>>::empty()
    } else {
        gs[0].1.to_multiset().add(members_ms(gs.drop_first()))
    }
}

/// Unfolds `members_ms` at a position of the group sequence.
proof fn lemma_members_ms_skip(gs: Seq<(Seq<char>, Seq<Seq<char>>)>, g: int)
    requires
        0 <= g < gs.len(),
    ensures
        members_ms(gs.skip(g)) == gs[g].1.to_multiset().add(members_ms(gs.skip(g + 1))),
{
    assert(gs.skip(g)[0] == gs[g]);
    assert(gs.skip(g).drop_first() =~= gs.skip(g + 1));
}

/// An empty sequence has the empty multiset.
proof fn lemma_empty_multiset()
    ensures
        Seq::<Seq<char>>::empty().to_multiset() == Multiset::<Seq<char>>::empty(),
{
    let e = Seq::<Seq<char>>::empty();
    assert(e.to_multiset().len() == 0);
    assert(e.to_multiset() =~= Multiset::<Seq<char>>::empty());
}

/// Adding a path to the groups inserts it into the member multiset.
proof fn lemma_add_members(gs: Seq<(Seq<char>, Seq<Seq<char>>)>, base: Seq<char>, p: Seq<char>)
    ensures
        members_ms(add_to_groups(gs, base, p)) == members_ms(gs).insert(p),
    decreases gs.len(),
{
    let r = add_to_groups(gs, base, p);
    if gs.len() == 0 {
        lemma_empty_multiset();
        assert(r.drop_first() =~= Seq::<(Seq<char>, Seq<Seq<char>>)>::empty());
        assert(members_ms(r.drop_first()) == Multiset::<Seq<char>>::empty());
        assert(seq![p] =~= Seq::<Seq<char>>::empty().push(p));
        assert(members_ms(r) =~= members_ms(gs).insert(p));
    } else if gs[0].0 == base {
        assert(r[0] == (gs[0].0, gs[0].1.push(p)));
        assert(r.drop_first() =~= gs.drop_first());
        assert(members_ms(r) == gs[0].1.push(p).to_multiset().add(members_ms(gs.drop_first())));
        assert(members_ms(r) =~= members_ms(gs).insert(p));
    } else {
        lemma_add_members(gs.drop_first(), base, p);
        assert(r[0] == gs[0]);
        assert(r.drop_first() =~= add_to_groups(gs.drop_first(), base, p));
        assert(members_ms(r) == gs[0].1.to_multiset().add(
            members_ms(gs.drop_first()).insert(p),
        ));
        assert(members_ms(r) =~= members_ms(gs).insert(p));
    }
}

/// The groups of a path sequence hold exactly its paths.
proof fn lemma_groups_ms(paths: Seq<Seq<char>>)
    ensures
        members_ms(groups_of(paths)) == paths.to_multiset(),
    decreases paths.len(),
{
    if paths.len() == 0 {
        lemma_empty_multiset();
        assert(members_ms(groups_of(paths)) =~= paths.to_multiset());
    } else {
        lemma_groups_ms(paths.drop_last());
        lemma_add_members(
            groups_of(paths.drop_last()),
            crate::groups::base_key_of(paths.last()),
            paths.last(),
        );
        assert(paths =~= paths.drop_last().push(paths.last()));
    }
}

// --------------------------------------------------------- the fold lemmas

/// Folding one group's members: the mapping grows by at most one entry
/// per member, values come from the old mapping or the members, no path
/// is bound twice, and when the mapping grows by exactly one entry per
/// member nothing was overwritten and every member is bound.
proof fn lemma_assign_members_total(
    m: Map<Seq<char>, Seq<char>>,
    prefix: Seq<char>,
    base: Seq<char>,
    members: Seq<Seq<char>>,
    i: int,
)
    requires
        0 <= i <= members.len(),
        m.dom().finite(),
        path_injective(m),
        forall|k: Seq<char>, j: int|
            #![trigger m.dom().contains(k), members[j]]
            m.dom().contains(k) && i <= j < members.len() ==> m[k] != members[j],
        forall|j1: int, j2: int|
            i <= j1 < members.len() && i <= j2 < members.len() && j1 != j2 ==> #[trigger] members[j1]
                != #[trigger] members[j2],
    ensures
        assign_members(m, prefix, base, members, i).dom().finite(),
        assign_members(m, prefix, base, members, i).dom().len() <= m.dom().len() + members.len()
            - i,
        path_injective(assign_members(m, prefix, base, members, i)),
        forall|k: Seq<char>|
            #[trigger] assign_members(m, prefix, base, members, i).dom().contains(k) ==> (
            m.dom().contains(k) && assign_members(m, prefix, base, members, i)[k] == m[k])
                || exists|j: int|
                i <= j < members.len() && assign_members(m, prefix, base, members, i)[k]
                    == #[trigger] members[j],
        assign_members(m, prefix, base, members, i).dom().len() == m.dom().len() + members.len()
            - i ==> (forall|k: Seq<char>|
            #[trigger] m.dom().contains(k) ==> assign_members(
                m,
                prefix,
                base,
                members,
                i,
            ).dom().contains(k) && assign_members(m, prefix, base, members, i)[k] == m[k])
            && (forall|j: int|
            i <= j < members.len() ==> exists|k: Seq<char>|
                assign_members(m, prefix, base, members, i).dom().contains(k) && assign_members(
                    m,
                    prefix,
                    base,
                    members,
                    i,
                )[k] == #[trigger] members[j]),
    decreases members.len() - i,
{
    if i == members.len() {
        assert(assign_members(m, prefix, base, members, i) == m);
    } else {
        let kk = member_key(m, prefix, base, members, i);
        let m2 = m.insert(kk, members[i]);
        let r = assign_members(m, prefix, base, members, i);
        assert(r == assign_members(m2, prefix, base, members, i + 1));
        assert(path_injective(m2)) by {
            assert forall|k1: Seq<char>, k2: Seq<char>|
                m2.dom().contains(k1) && m2.dom().contains(k2) && k1 != k2 implies m2[k1]
                != m2[k2] by {
                if k1 != kk && k2 != kk {
                    assert(m.dom().contains(k1) && m.dom().contains(k2));
                } else if k1 == kk {
                    assert(m.dom().contains(k2));
                    assert(m2[k1] == members[i as int]);
                    assert(m[k2] != members[i as int]);
                } else {
                    assert(m.dom().contains(k1));
                    assert(m2[k2] == members[i as int]);
                    assert(m[k1] != members[i as int]);
                }
            }
        }
        lemma_assign_members_total(m2, prefix, base, members, i + 1);
        if m.dom().contains(kk) {
            assert(m2.dom() =~= m.dom());
            assert(r.dom().len() <= m.dom().len() + members.len() - i - 1);
        } else {
            assert(m2.dom() =~= m.dom().insert(kk));
            assert(m2.dom().len() == m.dom().len() + 1);
        }
        // value origin
        assert forall|k: Seq<char>| #[trigger] r.dom().contains(k) implies (m.dom().contains(k)
            && r[k] == m[k]) || exists|j: int|
            i <= j < members.len() && r[k] == #[trigger] members[j] by {
            if m2.dom().contains(k) && r[k] == m2[k] {
                if k == kk && m2[k] == members[i as int] {
                    assert(i <= i < members.len() && r[k] == members[i as int]);
                } else if m.dom().contains(k) && m2[k] == m[k] {
                } else {
                    assert(r[k] == members[i as int]);
                }
            } else {
                let j = choose|j: int|
                    i + 1 <= j < members.len() && r[k] == #[trigger] members[j];
                assert(i <= j < members.len() && r[k] == members[j]);
            }
        }
        // the exact-growth case
        if r.dom().len() == m.dom().len() + members.len() - i {
            assert(!m.dom().contains(kk));
            assert(m2.dom().len() == m.dom().len() + 1);
            assert(r.dom().len() == m2.dom().len() + members.len() - (i + 1));
            assert forall|k: Seq<char>| #[trigger] m.dom().contains(k) implies r.dom().contains(k)
                && r[k] == m[k] by {
                assert(m2.dom().contains(k));
                assert(m2[k] == m[k]);
            }
            assert forall|j: int| i <= j < members.len() implies exists|k: Seq<char>|
                r.dom().contains(k) && r[k] == #[trigger] members[j] by {
                if j == i {
                    assert(m2.dom().contains(kk));
                    assert(r.dom().contains(kk) && r[kk] == m2[kk]);
                    assert(r[kk] == members[i as int]);
                }
            }
        }
    }
}

/// The total number of members in the groups from position `g` on.
proof fn lemma_assign_groups_total(
    m: Map<Seq<char>, Seq<char>>,
    gs: Seq<(Seq<char>, Seq<Seq<char>>)>,
    prefix: Seq<char>,
    g: int,
)
    requires
        0 <= g <= gs.len(),
        m.dom().finite(),
        path_injective(m),
        forall|k: Seq<char>| #[trigger] m.dom().contains(k)
            ==> !members_ms(gs.skip(g)).contains(m[k]),
        forall|p: Seq<char>| #[trigger] members_ms(gs.skip(g)).count(p) <= 1,
    ensures
        assign_groups(m, gs, prefix, g).dom().finite(),
        assign_groups(m, gs, prefix, g).dom().len() <= m.dom().len() + members_ms(
            gs.skip(g),
        ).len(),
        path_injective(assign_groups(m, gs, prefix, g)),
        forall|k: Seq<char>| #[trigger] assign_groups(m, gs, prefix, g).dom().contains(k) ==> (
        m.dom().contains(k) && assign_groups(m, gs, prefix, g)[k] == m[k]) || members_ms(
            gs.skip(g),
        ).contains(assign_groups(m, gs, prefix, g)[k]),
        assign_groups(m, gs, prefix, g).dom().len() == m.dom().len() + members_ms(gs.skip(g)).len()
            ==> (forall|k: Seq<char>|
            #[trigger] m.dom().contains(k) ==> assign_groups(m, gs, prefix, g).dom().contains(k)
                && assign_groups(m, gs, prefix, g)[k] == m[k]) && (forall|p: Seq<char>|
            #[trigger] members_ms(gs.skip(g)).contains(p) ==> exists|k: Seq<char>|
                assign_groups(m, gs, prefix, g).dom().contains(k) && assign_groups(
                    m,
                    gs,
                    prefix,
                    g,
                )[k] == p),
    decreases gs.len() - g,
{
    let r = assign_groups(m, gs, prefix, g);
    if g == gs.len() {
        assert(gs.skip(g) =~= Seq::<(Seq<char>, Seq<Seq<char>>)>::empty());
        assert(members_ms(gs.skip(g)) == Multiset::<Seq<char>>::empty());
        assert(r == m);
    } else {
        let ms = gs[g].1;
        let here = ms.to_multiset();
        let later = members_ms(gs.skip(g + 1));
        lemma_members_ms_skip(gs, g);
        let m2 = assign_group(m, prefix, gs[g]);
        assert(r == assign_groups(m2, gs, prefix, g + 1));
        // members of this group are distinct and absent from `m`
        assert forall|j1: int, j2: int|
            0 <= j1 < ms.len() && 0 <= j2 < ms.len() && j1 != j2 implies #[trigger] ms[j1]
            != #[trigger] ms[j2] by {
            if ms[j1] == ms[j2] {
                assert(members_ms(gs.skip(g)).count(ms[j1]) <= 1);
                ms.to_multiset_ensures();
                let smaller = ms.remove(j2);
                assert(smaller.to_multiset() =~= here.remove(ms[j2]));
                assert(smaller.contains(ms[j1])) by {
                    if j1 < j2 {
                        assert(smaller[j1] == ms[j1]);
                    } else {
                        assert(smaller[j1 - 1] == ms[j1]);
                    }
                }
                assert(smaller.to_multiset().count(ms[j1]) >= 1);
                assert(here.remove(ms[j2]).count(ms[j1]) == here.count(ms[j1]) - 1);
                assert(here.count(ms[j1]) >= 2);
                assert(false);
            }
        }
        assert forall|k: Seq<char>, j: int|
            #![trigger m.dom().contains(k), ms[j]]
            m.dom().contains(k) && 0 <= j < ms.len() implies m[k] != ms[j] by {
            assert(here.contains(ms[j]));
            assert(members_ms(gs.skip(g)).contains(ms[j]));
        }
        // fold this group
        if ms.len() == 1 {
            assert(m2 == m.insert(crate::keys::base_stem(prefix, gs[g].0), ms[0]));
        } else {
            lemma_assign_members_total(m, prefix, gs[g].0, ms, 0);
            assert(m2 == assign_members(m, prefix, gs[g].0, ms, 0));
        }
        // conditions for the rest of the groups
        assert(m2.dom().finite());
        assert(m2.dom().len() <= m.dom().len() + ms.len());
        assert(path_injective(m2)) by {
            if ms.len() == 1 {
                assert forall|k1: Seq<char>, k2: Seq<char>|
                    m2.dom().contains(k1) && m2.dom().contains(k2) && k1 != k2 implies m2[k1]
                    != m2[k2] by {
                    let kk = crate::keys::base_stem(prefix, gs[g].0);
                    if k1 != kk && k2 != kk {
                        assert(m.dom().contains(k1) && m.dom().contains(k2));
                    } else if k1 == kk {
                        assert(m.dom().contains(k2));
                        assert(m[k2] != ms[0]);
                    } else {
                        assert(m.dom().contains(k1));
                        assert(m[k1] != ms[0]);
                    }
                }
            }
        }
        assert forall|k: Seq<char>| #[trigger] m2.dom().contains(k) implies !later.contains(
            m2[k],
        ) by {
            if m.dom().contains(k) && m2[k] == m[k] {
                assert(members_ms(gs.skip(g)).count(m[k]) == 0);
                assert(later.count(m[k]) <= members_ms(gs.skip(g)).count(m[k]));
            } else {
                // the value is a member of this group
                let v = m2[k];
                if ms.len() == 1 {
                    assert(v == ms[0]);
                    assert(here.contains(v));
                } else {
                    let j = choose|j: int| 0 <= j < ms.len() && v == #[trigger] ms[j];
                    assert(here.contains(v));
                }
                assert(here.count(v) >= 1);
                assert(members_ms(gs.skip(g)).count(v) <= 1);
                assert(later.count(v) == 0);
            }
        }
        assert forall|p: Seq<char>| true implies #[trigger] later.count(p) <= 1 by {
            assert(later.count(p) <= members_ms(gs.skip(g)).count(p));
        }
        lemma_assign_groups_total(m2, gs, prefix, g + 1);
        // cardinality bound
        assert(ms.to_multiset().len() == ms.len()) by {
            ms.to_multiset_ensures();
        }
        assert(members_ms(gs.skip(g)).len() == here.len() + later.len());
        assert(r.dom().len() <= m2.dom().len() + later.len());
        // value origin
        assert forall|k: Seq<char>| #[trigger] r.dom().contains(k) implies (m.dom().contains(k)
            && r[k] == m[k]) || members_ms(gs.skip(g)).contains(r[k]) by {
            if m2.dom().contains(k) && r[k] == m2[k] {
                if m.dom().contains(k) && m2[k] == m[k] {
                } else {
                    let v = m2[k];
                    if ms.len() == 1 {
                        assert(v == ms[0]);
                    } else {
                        let j = choose|j: int| 0 <= j < ms.len() && v == #[trigger] ms[j];
                    }
                    assert(here.contains(v));
                    assert(members_ms(gs.skip(g)).count(v) >= here.count(v));
                }
            } else {
                assert(later.contains(r[k]));
                assert(members_ms(gs.skip(g)).count(r[k]) >= later.count(r[k]));
            }
        }
        // the exact-growth case
        if r.dom().len() == m.dom().len() + members_ms(gs.skip(g)).len() {
            assert(m2.dom().len() == m.dom().len() + ms.len());
            assert(r.dom().len() == m2.dom().len() + later.len());
            assert forall|k: Seq<char>| #[trigger] m.dom().contains(k) implies r.dom().contains(k)
                && r[k] == m[k] by {
                if ms.len() == 1 {
                    let kk = crate::keys::base_stem(prefix, gs[g].0);
                    assert(!m.dom().contains(kk));
                    assert(m2.dom().contains(k) && m2[k] == m[k]);
                } else {
                    assert(m2.dom().contains(k) && m2[k] == m[k]);
                }
            }
            assert forall|p: Seq<char>| #[trigger] members_ms(gs.skip(g)).contains(p)
                implies exists|k: Seq<char>| r.dom().contains(k) && r[k] == p by {
                if here.contains(p) {
                    ms.to_multiset_ensures();
                    assert(ms.contains(p));
                    let j = choose|j: int| 0 <= j < ms.len() && ms[j] == p;
                    if ms.len() == 1 {
                        let kk = crate::keys::base_stem(prefix, gs[g].0);
                        assert(!m.dom().contains(kk)) by {
                            if m.dom().contains(kk) {
                                assert(m2.dom() =~= m.dom());
                            }
                        }
                        assert(m2.dom().contains(kk) && m2[kk] == ms[0]);
                        assert(r.dom().contains(kk) && r[kk] == ms[0]);
                        assert(j == 0);
                    } else {
                        let k0 = choose|k0: Seq<char>|
                            m2.dom().contains(k0) && m2[k0] == #[trigger] ms[j];
                        assert(r.dom().contains(k0) && r[k0] == p);
                    }
                } else {
                    assert(later.contains(p));
                }
            }
        }
    }
}

/// Soundness: every bound value is a discovered input path, and no path
/// is bound under two different keys.
pub proof fn lemma_disambiguate_values(inputs: Seq<Seq<char>>, prefix: Seq<char>)
    requires
        inputs.no_duplicates(),
    ensures
        forall|k: Seq<char>| #[trigger] spec_disambiguate(inputs, prefix).dom().contains(k)
            ==> inputs.contains(spec_disambiguate(inputs, prefix)[k]),
        path_injective(spec_disambiguate(inputs, prefix)),
        spec_disambiguate(inputs, prefix).dom().finite(),
        spec_disambiguate(inputs, prefix).dom().len() <= inputs.len(),
{
    let sorted = sort_paths(inputs);
    let gs = groups_of(sorted);
    lemma_sort_multiset(inputs);
    lemma_groups_ms(sorted);
    inputs.lemma_multiset_has_no_duplicates();
    inputs.to_multiset_ensures();
    assert(gs.skip(0) =~= gs);
    let m0 = Map::<Seq<char>, Seq<char>>::empty();
    assert(m0.dom() =~= Set::<Seq<char>>::empty());
    assert forall|p: Seq<char>| true implies #[trigger] members_ms(gs.skip(0)).count(p) <= 1 by {
        if inputs.to_multiset().contains(p) {
            assert(inputs.to_multiset().count(p) == 1);
        } else {
            assert(inputs.to_multiset().count(p) == 0);
        }
    }
    lemma_assign_groups_total(m0, gs, prefix, 0);
    assert forall|k: Seq<char>| #[trigger] spec_disambiguate(inputs, prefix).dom().contains(k)
        implies inputs.contains(spec_disambiguate(inputs, prefix)[k]) by {
        assert(members_ms(gs).contains(spec_disambiguate(inputs, prefix)[k]));
        assert(inputs.to_multiset().contains(spec_disambiguate(inputs, prefix)[k]));
    }
}

/// Totality: when the mapping is as large as the input set — no two
/// generated keys collided — every discovered input path is bound, and
/// exactly once.
pub proof fn lemma_disambiguate_total(inputs: Seq<Seq<char>>, prefix: Seq<char>)
    requires
        inputs.no_duplicates(),
        spec_disambiguate(inputs, prefix).dom().len() == inputs.len(),
    ensures
        forall|p: Seq<char>|
            inputs.contains(p) <==> exists|k: Seq<char>|
                #[trigger] spec_disambiguate(inputs, prefix).dom().contains(k)
                    && spec_disambiguate(inputs, prefix)[k] == p,
        path_injective(spec_disambiguate(inputs, prefix)),
{
    let sorted = sort_paths(inputs);
    let gs = groups_of(sorted);
    lemma_sort_multiset(inputs);
    lemma_groups_ms(sorted);
    inputs.lemma_multiset_has_no_duplicates();
    inputs.to_multiset_ensures();
    assert(gs.skip(0) =~= gs);
    let m0 = Map::<Seq<char>, Seq<char>>::empty();
    assert(m0.dom() =~= Set::<Seq<char>>::empty());
    assert forall|p: Seq<char>| true implies #[trigger] members_ms(gs.skip(0)).count(p) <= 1 by {
        if inputs.to_multiset().contains(p) {
            assert(inputs.to_multiset().count(p) == 1);
        } else {
            assert(inputs.to_multiset().count(p) == 0);
        }
    }
    lemma_assign_groups_total(m0, gs, prefix, 0);
    let m = spec_disambiguate(inputs, prefix);
    assert(m.dom().len() == m0.dom().len() + members_ms(gs).len());
    assert forall|p: Seq<char>|
        inputs.contains(p) <==> exists|k: Seq<char>|
            #[trigger] m.dom().contains(k) && m[k] == p by {
        if inputs.contains(p) {
            assert(inputs.to_multiset().count(p) >= 1);
            assert(members_ms(gs).contains(p));
        }
        if exists|k: Seq<char>| #[trigger] m.dom().contains(k) && m[k] == p {
            let k = choose|k: Seq<char>| #[trigger] m.dom().contains(k) && m[k] == p;
            assert(members_ms(gs).contains(p));
            assert(inputs.to_multiset().contains(p));
        }
    }
}

} // verus!
