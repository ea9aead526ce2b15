//! The name disambiguator: turns the discovered set of input paths into
//! a mapping from unique, syntax-safe identifiers to input paths.  The
//! result is pinned to a mathematical function of the input paths and
//! the name prefix, so a run is deterministic by construction.

use vstd::prelude::*;
use crate::assign::FinalAssignment;
use crate::chars::chars_string;
use crate::chars::is_safe_char;
use crate::chars::is_valid_identifier;
use crate::chars::str_chars;
use crate::chars::subvec;
use crate::groups::base_key_of;
use crate::groups::build_groups;
use crate::groups::group_view;
use crate::groups::groups_of;
use crate::groups::groups_view;
use crate::groups::has_dup_parent;
use crate::groups::lemma_best_cut_bound;
use crate::groups::lemma_tail_fragment_safe;
use crate::groups::member_analysis;
use crate::groups::parents_of;
use crate::groups::sort_paths;
use crate::groups::sorted_inputs;
use crate::groups::tail_fragment;
use crate::groups::tail_fragment_chars;
use crate::groups::tail_of;
use crate::groups::add_to_groups;
use crate::keys::base_stem;
use crate::keys::dec_chars;
use crate::keys::lemma_dec_digits_shape;
use crate::keys::lemma_free_key_exists;
use crate::keys::lemma_ident_extend;
use crate::keys::lemma_min_free_is;
use crate::keys::is_min_free;
use crate::keys::min_free;
use crate::keys::numeric_key;
use crate::paths::components_chars;
use crate::paths::parent_of;
use crate::pairs::PairSet;
use crate::sanitize::lemma_sanitize_safe;

verus! {

/// Every character of `s` is safe.
pub open spec fn all_safe(s: Seq<char>) -> bool {
    forall|i: int| 0 <= i < s.len() ==> is_safe_char(#[trigger] s[i])
}

/// The key a member of a colliding group receives, given the mapping
/// built so far: its shortest divergent tail, or the numeric fallback
/// when another member shares its parent or the tail is empty.
pub open spec fn member_key(
    m: Map<Seq<char>, Seq<char>>,
    prefix: Seq<char>,
    base: Seq<char>,
    members: Seq<Seq<char>>,
    i: int,
) -> Seq<char> {
    if has_dup_parent(members, i) || tail_of(members, i).len() == 0 {
        numeric_key(prefix, base, min_free(m, prefix, base))
    } else {
        prefix + seq!['_'] + tail_fragment(tail_of(members, i)) + base
    }
}

/// Folds the members of a colliding group into the mapping, in order.
pub open spec fn assign_members(
    m: Map<Seq<char>, Seq<char>>,
    prefix: Seq<char>,
    base: Seq<char>,
    members: Seq<Seq<char>>,
    i: int,
) -> Map<Seq<char>, Seq<char>>
    decreases members.len() - i,
{
    if i < 0 || i >= members.len() {
        m
    } else {
        let k = member_key(m, prefix, base, members, i);
        assign_members(m.insert(k, members[i]), prefix, base, members, i + 1)
    }
}

/// Folds one group into the mapping: a singleton gets the plain stem,
/// a colliding group goes through `assign_members`.
pub open spec fn assign_group(
    m: Map<Seq<char>, Seq<char>>,
    prefix: Seq<char>,
    g: (Seq<char>, Seq<Seq<char>>),
) -> Map<Seq<char>, Seq<char>> {
    if g.1.len() == 1 {
        m.insert(base_stem(prefix, g.0), g.1[0])
    } else {
        assign_members(m, prefix, g.0, g.1, 0)
    }
}

/// Folds the groups into the mapping, in order.
pub open spec fn assign_groups(
    m: Map<Seq<char>, Seq<char>>,
    gs: Seq<(Seq<char>, Seq<Seq<char>>)>,
    prefix: Seq<char>,
    g: int,
) -> Map<Seq<char>, Seq<char>>
    decreases gs.len() - g,
{
    if g < 0 || g >= gs.len() {
        m
    } else {
        assign_groups(assign_group(m, prefix, gs[g]), gs, prefix, g + 1)
    }
}

/// What disambiguation yields: the input paths are sorted, grouped by
/// sanitized base name, and folded into the final mapping.
pub open spec fn spec_disambiguate(inputs: Seq<Seq<char>>, prefix: Seq<char>) -> Map<
    Seq<char>,
    Seq<char>,
> {
    assign_groups(
        Map::<Seq<char>, Seq<char>>::empty(),
        groups_of(sort_paths(inputs)),
        prefix,
        0,
    )
}

/// Determinism: the assignment is a mathematical function of the input
/// paths and the prefix alone, so two runs over the same set agree.
pub proof fn lemma_disambiguate_deterministic(
    inputs: Seq<Seq<char>>,
    prefix: Seq<char>,
    m1: Map<Seq<char>, Seq<char>>,
    m2: Map<Seq<char>, Seq<char>>,
)
    requires
        m1 == spec_disambiguate(inputs, prefix),
        m2 == spec_disambiguate(inputs, prefix),
    ensures
        m1 == m2,
{
}

/// Safe characters concatenate to safe characters.
proof fn lemma_all_safe_concat(a: Seq<char>, b: Seq<char>)
    requires
        all_safe(a),
        all_safe(b),
    ensures
        all_safe(a + b),
{
    assert forall|i: int| 0 <= i < (a + b).len() implies is_safe_char(#[trigger] (a + b)[i]) by {
        if i < a.len() {
            assert((a + b)[i] == a[i]);
        } else {
            assert((a + b)[i] == b[i - a.len()]);
        }
    }
}

/// Every key a group member can receive is a valid identifier.
proof fn lemma_member_key_valid(
    m: Map<Seq<char>, Seq<char>>,
    prefix: Seq<char>,
    base: Seq<char>,
    members: Seq<Seq<char>>,
    i: int,
)
    requires
        is_valid_identifier(prefix),
        all_safe(base),
    ensures
        is_valid_identifier(member_key(m, prefix, base, members, i)),
{
    assert(is_safe_char('_'));
    assert(all_safe(seq!['_'])) by {
        assert(seq!['_'][0] == '_');
    }
    if has_dup_parent(members, i) || tail_of(members, i).len() == 0 {
        let n = min_free(m, prefix, base);
        lemma_dec_digits_shape(n);
        assert(all_safe(crate::keys::dec_digits(n)));
        lemma_all_safe_concat(seq!['_'], base);
        lemma_all_safe_concat(seq!['_'] + base, crate::keys::dec_digits(n));
        lemma_ident_extend(prefix, seq!['_'] + base + crate::keys::dec_digits(n));
        assert(numeric_key(prefix, base, n) =~= prefix + (seq!['_'] + base
            + crate::keys::dec_digits(n)));
    } else {
        let frag = tail_fragment(tail_of(members, i));
        lemma_tail_fragment_safe(tail_of(members, i));
        assert(all_safe(frag));
        lemma_all_safe_concat(seq!['_'], frag);
        lemma_all_safe_concat(seq!['_'] + frag, base);
        lemma_ident_extend(prefix, seq!['_'] + frag + base);
        assert(member_key(m, prefix, base, members, i) =~= prefix + (seq!['_'] + frag + base));
    }
}

/// Folding a colliding group preserves key validity.
proof fn lemma_assign_members_valid(
    m: Map<Seq<char>, Seq<char>>,
    prefix: Seq<char>,
    base: Seq<char>,
    members: Seq<Seq<char>>,
    i: int,
)
    requires
        is_valid_identifier(prefix),
        all_safe(base),
        forall|k: Seq<char>| #[trigger] m.dom().contains(k) ==> is_valid_identifier(k),
    ensures
        forall|k: Seq<char>| #[trigger]
            assign_members(m, prefix, base, members, i).dom().contains(k)
                ==> is_valid_identifier(k),
    decreases members.len() - i,
{
    if 0 <= i < members.len() {
        let key = member_key(m, prefix, base, members, i);
        lemma_member_key_valid(m, prefix, base, members, i);
        let m2 = m.insert(key, members[i]);
        assert forall|k: Seq<char>| #[trigger] m2.dom().contains(k)
            implies is_valid_identifier(k) by {
            if k != key {
                assert(m.dom().contains(k));
            }
        }
        lemma_assign_members_valid(m2, prefix, base, members, i + 1);
        assert(assign_members(m, prefix, base, members, i) == assign_members(
            m2,
            prefix,
            base,
            members,
            i + 1,
        ));
    } else {
        assert(assign_members(m, prefix, base, members, i) == m);
    }
}

/// Folding the groups preserves key validity.
proof fn lemma_assign_groups_valid(
    m: Map<Seq<char>, Seq<char>>,
    gs: Seq<(Seq<char>, Seq<Seq<char>>)>,
    prefix: Seq<char>,
    g: int,
)
    requires
        is_valid_identifier(prefix),
        forall|j: int| 0 <= j < gs.len() ==> all_safe((#[trigger] gs[j]).0),
        forall|k: Seq<char>| #[trigger] m.dom().contains(k) ==> is_valid_identifier(k),
    ensures
        forall|k: Seq<char>| #[trigger]
            assign_groups(m, gs, prefix, g).dom().contains(k) ==> is_valid_identifier(k),
    decreases gs.len() - g,
{
    if 0 <= g < gs.len() {
        let m2 = assign_group(m, prefix, gs[g]);
        assert(all_safe(gs[g].0));
        if gs[g].1.len() == 1 {
            assert(is_safe_char('_'));
            assert(all_safe(seq!['_'])) by {
                assert(seq!['_'][0] == '_');
            }
            lemma_all_safe_concat(seq!['_'], gs[g].0);
            lemma_ident_extend(prefix, seq!['_'] + gs[g].0);
            assert(base_stem(prefix, gs[g].0) =~= prefix + (seq!['_'] + gs[g].0));
            assert forall|k: Seq<char>| #[trigger] m2.dom().contains(k)
                implies is_valid_identifier(k) by {
                if k != base_stem(prefix, gs[g].0) {
                    assert(m.dom().contains(k));
                }
            }
        } else {
            lemma_assign_members_valid(m, prefix, gs[g].0, gs[g].1, 0);
            assert(m2 == assign_members(m, prefix, gs[g].0, gs[g].1, 0));
        }
        lemma_assign_groups_valid(m2, gs, prefix, g + 1);
        assert(assign_groups(m, gs, prefix, g) == assign_groups(m2, gs, prefix, g + 1));
    } else {
        assert(assign_groups(m, gs, prefix, g) == m);
    }
}

/// Adding a path keeps every group base safe, given the new base is.
proof fn lemma_add_to_groups_bases_safe(
    gs: Seq<(Seq<char>, Seq<Seq<char>>)>,
    base: Seq<char>,
    p: Seq<char>,
)
    requires
        forall|j: int| 0 <= j < gs.len() ==> all_safe((#[trigger] gs[j]).0),
        all_safe(base),
    ensures
        forall|j: int|
            0 <= j < add_to_groups(gs, base, p).len() ==> all_safe(
                (#[trigger] add_to_groups(gs, base, p)[j]).0,
            ),
    decreases gs.len(),
{
    let r = add_to_groups(gs, base, p);
    if gs.len() == 0 {
        assert(r[0].0 == base);
    } else if gs[0].0 == base {
        assert forall|j: int| 0 <= j < r.len() implies all_safe((#[trigger] r[j]).0) by {
            if j == 0 {
                assert(r[0].0 == gs[0].0);
            } else {
                assert(r[j] == gs[j]);
            }
        }
    } else {
        let d = gs.drop_first();
        assert forall|j: int| 0 <= j < d.len() implies all_safe((#[trigger] d[j]).0) by {
            assert(d[j] == gs[j + 1]);
        }
        lemma_add_to_groups_bases_safe(d, base, p);
        let rd = add_to_groups(d, base, p);
        assert forall|j: int| 0 <= j < r.len() implies all_safe((#[trigger] r[j]).0) by {
            if j == 0 {
                assert(r[0] == gs[0]);
            } else {
                assert(r[j] == rd[j - 1]);
            }
        }
    }
}

/// Every base a grouping produces is made of safe characters.
proof fn lemma_groups_bases_safe(paths: Seq<Seq<char>>)
    ensures
        forall|j: int|
            0 <= j < groups_of(paths).len() ==> all_safe((#[trigger] groups_of(paths)[j]).0),
    decreases paths.len(),
{
    if paths.len() > 0 {
        lemma_groups_bases_safe(paths.drop_last());
        lemma_sanitize_safe(crate::paths::stem_of(crate::paths::file_name_of(paths.last())));
        assert(all_safe(base_key_of(paths.last())));
        lemma_add_to_groups_bases_safe(
            groups_of(paths.drop_last()),
            base_key_of(paths.last()),
            paths.last(),
        );
    }
}

/// Identifier validity: with a valid prefix, every key the
/// disambiguator produces matches the identifier shape.
pub proof fn lemma_disambiguate_keys_valid(inputs: Seq<Seq<char>>, prefix: Seq<char>)
    requires
        is_valid_identifier(prefix),
    ensures
        forall|k: Seq<char>| #[trigger]
            spec_disambiguate(inputs, prefix).dom().contains(k) ==> is_valid_identifier(k),
{
    lemma_groups_bases_safe(sort_paths(inputs));
    lemma_assign_groups_valid(
        Map::<Seq<char>, Seq<char>>::empty(),
        groups_of(sort_paths(inputs)),
        prefix,
        0,
    );
}

/// Builds the stem `prefix`, underscore, `base` as characters.
fn stem_chars(pc: &Vec<char>, base: &Vec<char>) -> (r: Vec<char>)
    ensures
        r@ == base_stem(pc@, base@),
{
    let mut r = subvec(pc, 0, pc.len());
    r.push('_');
    let mut b = subvec(base, 0, base.len());
    r.append(&mut b);
    proof {
        assert(r@ =~= base_stem(pc@, base@));
    }
    r
}

/// Finds the lowest-numbered free fallback key over the stem.
fn numeric_fallback(fa: &FinalAssignment, pc: &Vec<char>, base: &Vec<char>) -> (r: Vec<char>)
    requires
        fa.wf(),
    ensures
        r@ == numeric_key(pc@, base@, min_free(fa.as_map(), pc@, base@)),
{
    let stem = stem_chars(pc, base);
    let ghost m = fa.as_map();
    proof {
        crate::assign::lemma_assign_map_card(fa.entries@);
    }
    let bound: u128 = (fa.entries.len() as u128) + 1;
    let mut n: u128 = 1;
    let mut key: Vec<char> = Vec::new();
    loop
        invariant_except_break
            1 <= n <= bound,
            forall|k: nat| 1 <= k < n ==> m.dom().contains(#[trigger] numeric_key(pc@, base@, k)),
        invariant
            m == fa.as_map(),
            fa.wf(),
            stem@ == base_stem(pc@, base@),
            bound == fa.entries@.len() + 1,
            m.dom().finite(),
            m.dom().len() <= fa.entries@.len(),
        ensures
            key@ == numeric_key(pc@, base@, min_free(m, pc@, base@)),
        decreases bound - n,
    {
        let mut cand = subvec(&stem, 0, stem.len());
        let mut digits = dec_chars(n);
        cand.append(&mut digits);
        proof {
            assert(cand@ =~= numeric_key(pc@, base@, n as nat));
        }
        if !fa.contains_key(&cand) {
            proof {
                assert(is_min_free(m, pc@, base@, n as nat));
                lemma_min_free_is(m, pc@, base@, n as nat);
            }
            key = cand;
            break ;
        }
        proof {
            assert(n < bound) by {
                if n >= bound {
                    lemma_free_key_exists(m, pc@, base@, (fa.entries@.len() + 1) as nat);
                    let n0 = choose|n0: nat|
                        1 <= n0 <= fa.entries@.len() + 1 && !m.dom().contains(
                            #[trigger] numeric_key(pc@, base@, n0),
                        );
                    assert(m.dom().contains(numeric_key(pc@, base@, n0)));
                    assert(false);
                }
            }
        }
        n = n + 1;
    }
    key
}

/// Assigns every discovered input path a unique identifier: singleton
/// base names get `prefix_base`; colliding ones are told apart by their
/// shortest divergent directory tail, or by a numeric suffix when the
/// parents coincide or the tail vanishes.
pub fn disambiguate(pairs: &PairSet, name_prefix: &str) -> (r: FinalAssignment)
    requires
        pairs.wf(),
        is_valid_identifier(name_prefix@),
    ensures
        r.wf(),
        r.as_map() == spec_disambiguate(pairs.input_seq(), name_prefix@),
        forall|i: int, j: int|
            0 <= i < j < r.entries@.len() ==> (#[trigger] r.entries@[i]).key@ != (
            #[trigger] r.entries@[j]).key@,
        forall|k: Seq<char>| #[trigger] r.as_map().dom().contains(k) ==> is_valid_identifier(k),
{
    let sorted = sorted_inputs(pairs);
    let groups = build_groups(&sorted);
    let pc = str_chars(name_prefix);
    let mut fa = FinalAssignment::new();
    let ghost gsv = groups_view(groups@);
    let ghost target = spec_disambiguate(pairs.input_seq(), name_prefix@);
    proof {
        assert(target == assign_groups(fa.as_map(), gsv, pc@, 0));
    }
    let mut g: usize = 0;
    while g < groups.len()
        invariant
            g <= groups@.len(),
            gsv == groups_view(groups@),
            pc@ == name_prefix@,
            fa.wf(),
            target == assign_groups(fa.as_map(), gsv, pc@, g as int),
        decreases groups@.len() - g,
    {
        let grp = &groups[g];
        let ghost mview = gsv[g as int].1;
        proof {
            assert(gsv[g as int] == group_view(groups@[g as int]));
            assert(gsv[g as int].0 == grp.base@);
            assert(mview == grp.members.deep_view());
        }
        if grp.members.len() == 1 {
            let key = stem_chars(&pc, &grp.base);
            let pth = chars_string(&grp.members[0]);
            proof {
                assert(mview[0] == grp.members@[0]@);
            }
            fa.insert(key, pth);
        } else {
            // parent directory of each member, computed once
            let mut parents: Vec<Vec<char>> = Vec::new();
            let mut t: usize = 0;
            proof {
                assert(parents.deep_view() =~~= parents_of(mview).take(0));
            }
            while t < grp.members.len()
                invariant
                    t <= grp.members@.len(),
                    mview == grp.members.deep_view(),
                    parents.deep_view() == parents_of(mview).take(t as int),
                decreases grp.members@.len() - t,
            {
                let ghost before = parents.deep_view();
                let p = crate::paths::parent_chars(&grp.members[t]);
                parents.push(p);
                t = t + 1;
                proof {
                    assert(mview[t as int - 1] == grp.members@[t as int - 1]@);
                    assert(parents_of(mview)[t as int - 1] == parent_of(mview[t as int - 1]));
                    assert(parents.deep_view() =~~= before.push(parent_of(mview[t as int - 1])));
                    assert(parents.deep_view() =~~= parents_of(mview).take(t as int));
                }
            }
            proof {
                assert(parents_of(mview).take(mview.len() as int) =~~= parents_of(mview));
            }
            let mut idx: usize = 0;
            while idx < grp.members.len()
                invariant
                    idx <= grp.members@.len(),
                    gsv == groups_view(groups@),
                    g < groups@.len(),
                    gsv[g as int] == group_view(groups@[g as int]),
                    mview == grp.members.deep_view(),
                    mview.len() == grp.members@.len(),
                    grp == groups@[g as int],
                    gsv[g as int].0 == grp.base@,
                    parents.deep_view() == parents_of(mview),
                    parents@.len() == grp.members@.len(),
                    pc@ == name_prefix@,
                    fa.wf(),
                    target == assign_groups(
                        assign_members(fa.as_map(), pc@, grp.base@, mview, idx as int),
                        gsv,
                        pc@,
                        g as int + 1,
                    ),
                decreases grp.members@.len() - idx,
            {
                let ghost m0 = fa.as_map();
                let (dup, cut) = member_analysis(&grp.members, &parents, idx);
                let ci = components_chars(&parents[idx]);
                proof {
                    assert(parents.deep_view()[idx as int] == parents@[idx as int]@);
                    assert(parents.deep_view()[idx as int] == parent_of(mview[idx as int]));
                    lemma_best_cut_bound(mview, idx as int, mview.len() as int);
                    assert(tail_of(mview, idx as int) == ci.deep_view().skip(cut as int));
                }
                let key: Vec<char>;
                if dup || cut == ci.len() {
                    proof {
                        if !dup {
                            assert(tail_of(mview, idx as int).len() == 0);
                        }
                    }
                    key = numeric_fallback(&fa, &pc, &grp.base);
                } else {
                    let frag = tail_fragment_chars(&ci, cut);
                    let mut k = subvec(&pc, 0, pc.len());
                    k.push('_');
                    let mut f2 = frag;
                    k.append(&mut f2);
                    let mut b2 = subvec(&grp.base, 0, grp.base.len());
                    k.append(&mut b2);
                    proof {
                        assert(tail_of(mview, idx as int).len() > 0);
                        assert(k@ =~= pc@ + seq!['_'] + tail_fragment(tail_of(mview, idx as int))
                            + grp.base@);
                    }
                    key = k;
                }
                proof {
                    assert(key@ == member_key(m0, pc@, grp.base@, mview, idx as int));
                }
                let pth = chars_string(&grp.members[idx]);
                proof {
                    assert(mview[idx as int] == grp.members@[idx as int]@);
                }
                fa.insert(key, pth);
                idx = idx + 1;
            }
        }
        g = g + 1;
    }
    proof {
        lemma_disambiguate_keys_valid(pairs.input_seq(), name_prefix@);
        assert forall|i: int, j: int| 0 <= i < j < fa.entries@.len() implies (
        #[trigger] fa.entries@[i]).key@ != (#[trigger] fa.entries@[j]).key@ by {
            assert(crate::assign::keys_of(fa.entries@)[i] == fa.entries@[i].key@);
            assert(crate::assign::keys_of(fa.entries@)[j] == fa.entries@[j].key@);
        }
    }
    fa
}

} // verus!
