//! Sorting and grouping of discovered input paths, and the
//! divergent-tail computation that tells same-named files in different
//! directories apart.

use vstd::prelude::*;
use crate::chars::chars_eq;
use crate::chars::lex_leq;
use crate::chars::lex_leq_chars;
use crate::chars::str_chars;
use crate::chars::subvec;
use crate::paths::components_chars;
use crate::paths::components_of;
use crate::paths::file_name_chars;
use crate::paths::file_name_of;
use crate::paths::find_first_dot;
use crate::paths::lemma_first_dot_pos;
use crate::paths::parent_of;
use crate::paths::stem_of;
use crate::pairs::PairSet;
use crate::sanitize::sanitize_chars;
use crate::sanitize::sanitize_spec;

verus! {

// ---------------------------------------------------------------- sorting

/// Insertion of a path into a sorted sequence, before the first entry it
/// does not exceed.
pub open spec fn insert_sorted(x: Seq<char>, s: Seq<Seq<char>>) -> Seq<Seq<char>>
    decreases s.len(),
{
    if s.len() == 0 {
        seq![x]
    } else if lex_leq(x, s[0]) {
        seq![x] + s
    } else {
        seq![s[0]] + insert_sorted(x, s.drop_first())
    }
}

/// The paths of `s`, in lexicographic order: each element is inserted
/// into the sorted arrangement of those before it.
pub open spec fn sort_paths(s: Seq<Seq<char>>) -> Seq<Seq<char>>
    decreases s.len(),
{
    if s.len() == 0 {
        Seq::<Seq<char>>::empty()
    } else {
        insert_sorted(s.last(), sort_paths(s.drop_last()))
    }
}

/// Inserting at the first position whose entry is not below `x` is what
/// `insert_sorted` does.
proof fn lemma_insert_sorted_at(x: Seq<char>, s: Seq<Seq<char>>, k: int)
    requires
        0 <= k <= s.len(),
        forall|j: int| 0 <= j < k ==> !lex_leq(x, #[trigger] s[j]),
        k < s.len() ==> lex_leq(x, s[k]),
    ensures
        insert_sorted(x, s) == s.insert(k, x),
    decreases k,
{
    if k == 0 {
        if s.len() == 0 {
            assert(insert_sorted(x, s) =~= s.insert(0, x));
        } else {
            assert(insert_sorted(x, s) =~= s.insert(0, x));
        }
    } else {
        assert(!lex_leq(x, s[0]));
        let d = s.drop_first();
        assert forall|j: int| 0 <= j < k - 1 implies !lex_leq(x, #[trigger] d[j]) by {
            assert(d[j] == s[j + 1]);
        }
        lemma_insert_sorted_at(x, d, k - 1);
        assert(seq![s[0]] + d.insert(k - 1, x) =~= s.insert(k, x));
    }
}

/// Inserts `x` into the sorted vector `sorted`.
fn insert_sorted_exec(sorted: &mut Vec<Vec<char>>, x: Vec<char>)
    ensures
        final(sorted).deep_view() == insert_sorted(x@, old(sorted).deep_view()),
{
    let ghost dv = sorted.deep_view();
    let mut k: usize = 0;
    while k < sorted.len() && !lex_leq_chars(&x, &sorted[k])
        invariant
            k <= sorted@.len(),
            sorted.deep_view() == dv,
            forall|j: int| 0 <= j < k ==> !lex_leq(x@, #[trigger] dv[j]),
        decreases sorted@.len() - k,
    {
        proof {
            assert(dv[k as int] == sorted@[k as int]@);
        }
        k = k + 1;
    }
    proof {
        if k < sorted.len() {
            assert(dv[k as int] == sorted@[k as int]@);
        }
        lemma_insert_sorted_at(x@, dv, k as int);
    }
    let ghost before = sorted.deep_view();
    sorted.insert(k, x);
    proof {
        assert(sorted.deep_view() =~~= before.insert(k as int, x@));
    }
}

/// The input paths of a pair set, in sorted order.
pub fn sorted_inputs(pairs: &PairSet) -> (r: Vec<Vec<char>>)
    ensures
        r.deep_view() == sort_paths(pairs.input_seq()),
{
    let mut sorted: Vec<Vec<char>> = Vec::new();
    let mut i: usize = 0;
    proof {
        assert(pairs.input_seq().take(0) =~= Seq::<Seq<char>>::empty());
        assert(sorted.deep_view() =~~= sort_paths(pairs.input_seq().take(0)));
    }
    while i < pairs.pairs.len()
        invariant
            i <= pairs.pairs@.len(),
            sorted.deep_view() == sort_paths(pairs.input_seq().take(i as int)),
        decreases pairs.pairs@.len() - i,
    {
        let cs = str_chars(pairs.pairs[i].input_path.as_str());
        proof {
            assert(pairs.input_seq()[i as int] == pairs.pairs@[i as int].input_path@);
        }
        insert_sorted_exec(&mut sorted, cs);
        i = i + 1;
        proof {
            let pre = pairs.input_seq().take(i as int);
            assert(pre.drop_last() =~= pairs.input_seq().take(i as int - 1));
            assert(pre.last() == pairs.input_seq()[i as int - 1]);
        }
    }
    proof {
        assert(pairs.input_seq().take(pairs.pairs@.len() as int) =~= pairs.input_seq());
    }
    sorted
}

// ---------------------------------------------------------------- grouping

/// The base identifier a path is grouped by: its file name up to the
/// first dot, sanitized.
pub open spec fn base_key_of(p: Seq<char>) -> Seq<char> {
    sanitize_spec(stem_of(file_name_of(p)))
}

/// Adds `p` to the group of `base`, appending a new group if none
/// exists yet.
pub open spec fn add_to_groups(
    gs: Seq<(Seq<char>, Seq<Seq<char>>)>,
    base: Seq<char>,
    p: Seq<char>,
) -> Seq<(Seq<char>, Seq<Seq<char>>)>
    decreases gs.len(),
{
    if gs.len() == 0 {
        seq![(base, seq![p])]
    } else if gs[0].0 == base {
        seq![(gs[0].0, gs[0].1.push(p))] + gs.drop_first()
    } else {
        seq![gs[0]] + add_to_groups(gs.drop_first(), base, p)
    }
}

/// The groups of a path sequence, in order of first appearance; members
/// keep the order they arrive in.
pub open spec fn groups_of(paths: Seq<Seq<char>>) -> Seq<(Seq<char>, Seq<Seq<char>>)>
    decreases paths.len(),
{
    if paths.len() == 0 {
        Seq::<(Seq<char>, Seq<Seq<char>>)>::empty()
    } else {
        add_to_groups(groups_of(paths.drop_last()), base_key_of(paths.last()), paths.last())
    }
}

/// Adding to the group found at position `k` updates that entry.
proof fn lemma_add_to_groups_at(
    gs: Seq<(Seq<char>, Seq<Seq<char>>)>,
    base: Seq<char>,
    p: Seq<char>,
    k: int,
)
    requires
        0 <= k < gs.len(),
        forall|j: int| 0 <= j < k ==> (#[trigger] gs[j]).0 != base,
        gs[k].0 == base,
    ensures
        add_to_groups(gs, base, p) == gs.update(k, (base, gs[k].1.push(p))),
    decreases k,
{
    if k == 0 {
        assert(add_to_groups(gs, base, p) =~= gs.update(0, (base, gs[0].1.push(p))));
    } else {
        assert(gs[0].0 != base);
        let d = gs.drop_first();
        assert forall|j: int| 0 <= j < k - 1 implies (#[trigger] d[j]).0 != base by {
            assert(d[j] == gs[j + 1]);
        }
        lemma_add_to_groups_at(d, base, p, k - 1);
        assert(seq![gs[0]] + d.update(k - 1, (base, d[k - 1].1.push(p))) =~= gs.update(
            k,
            (base, gs[k].1.push(p)),
        ));
    }
}

/// Adding a base no group carries appends a fresh group.
proof fn lemma_add_to_groups_new(gs: Seq<(Seq<char>, Seq<Seq<char>>)>, base: Seq<char>, p: Seq<char>)
    requires
        forall|j: int| 0 <= j < gs.len() ==> (#[trigger] gs[j]).0 != base,
    ensures
        add_to_groups(gs, base, p) == gs.push((base, seq![p])),
    decreases gs.len(),
{
    if gs.len() == 0 {
        assert(add_to_groups(gs, base, p) =~= gs.push((base, seq![p])));
    } else {
        let d = gs.drop_first();
        assert forall|j: int| 0 <= j < d.len() implies (#[trigger] d[j]).0 != base by {
            assert(d[j] == gs[j + 1]);
        }
        lemma_add_to_groups_new(d, base, p);
        assert(seq![gs[0]] + d.push((base, seq![p])) =~= gs.push((base, seq![p])));
    }
}

/// One group: a sanitized base name and the member paths carrying it.
pub struct NameGroup {
    pub base: Vec<char>,
    pub members: Vec<Vec<char>>,
}

/// The mathematical value of a group.
pub open spec fn group_view(g: NameGroup) -> (Seq<char>, Seq<Seq<char>>) {
    (g.base@, g.members.deep_view())
}

/// The mathematical value of a group vector.
pub open spec fn groups_view(gs: Seq<NameGroup>) -> Seq<(Seq<char>, Seq<Seq<char>>)> {
    gs.map_values(|g: NameGroup| group_view(g))
}

/// The base identifier of a path, as characters.
pub fn base_key_chars(p: &Vec<char>) -> (r: Vec<char>)
    ensures
        r@ == base_key_of(p@),
{
    let name = file_name_chars(p);
    let dot = find_first_dot(&name);
    proof {
        lemma_first_dot_pos(name@);
    }
    let s = subvec(&name, 0, dot);
    sanitize_chars(&s)
}

/// Buckets the sorted paths by base identifier.
pub fn build_groups(sorted: &Vec<Vec<char>>) -> (r: Vec<NameGroup>)
    ensures
        groups_view(r@) == groups_of(sorted.deep_view()),
{
    let mut r: Vec<NameGroup> = Vec::new();
    let mut i: usize = 0;
    proof {
        assert(sorted.deep_view().take(0) =~~= Seq::<Seq<char>>::empty());
        assert(groups_view(r@) =~~= groups_of(sorted.deep_view().take(0)));
    }
    while i < sorted.len()
        invariant
            i <= sorted@.len(),
            groups_view(r@) == groups_of(sorted.deep_view().take(i as int)),
        decreases sorted@.len() - i,
    {
        let base = base_key_chars(&sorted[i]);
        let member = subvec(&sorted[i], 0, sorted[i].len());
        proof {
            assert(sorted.deep_view()[i as int] == sorted@[i as int]@);
            assert(member@ =~= sorted@[i as int]@);
            assert(base@ == base_key_of(sorted.deep_view()[i as int]));
        }
        let ghost gv = groups_view(r@);
        let mut k: usize = 0;
        let mut found = false;
        while k < r.len()
            invariant_except_break
                !found,
            invariant
                k <= r@.len(),
                groups_view(r@) == gv,
                forall|j: int| 0 <= j < k ==> (#[trigger] gv[j]).0 != base@,
            ensures
                k <= r@.len(),
                groups_view(r@) == gv,
                forall|j: int| 0 <= j < k ==> (#[trigger] gv[j]).0 != base@,
                found ==> k < r@.len() && gv[k as int].0 == base@,
                !found ==> k == r@.len(),
            decreases r@.len() - k,
        {
            proof {
                assert(gv[k as int] == group_view(r@[k as int]));
            }
            if chars_eq(&r[k].base, &base) {
                found = true;
                break;
            }
            k = k + 1;
        }
        if found {
            let ghost rold = r@;
            r[k].members.push(member);
            proof {
                let nr = r@;
                assert(gv.len() == rold.len());
                lemma_add_to_groups_at(gv, base@, member@, k as int);
                assert forall|j: int| 0 <= j < nr.len() implies groups_view(nr)[j]
                    == add_to_groups(gv, base@, member@)[j] by {
                    assert(groups_view(nr)[j] == group_view(nr[j]));
                    assert(gv[j] == group_view(rold[j]));
                    if j == k {
                        assert(nr[j].base@ == rold[j].base@);
                        assert(nr[j].members.deep_view() =~~= rold[j].members.deep_view().push(
                            member@,
                        ));
                        assert(group_view(nr[j]) == (gv[j].0, gv[j].1.push(member@)));
                    } else {
                        assert(nr[j] == rold[j]);
                    }
                }
                assert(groups_view(nr) =~~= add_to_groups(gv, base@, member@));
            }
        } else {
            let mut ms: Vec<Vec<char>> = Vec::new();
            ms.push(member);
            let ghost msv = ms.deep_view();
            let ghost rold = r@;
            r.push(NameGroup { base, members: ms });
            proof {
                assert(gv.len() == rold.len());
                assert(msv =~~= seq![sorted.deep_view()[i as int]]);
                lemma_add_to_groups_new(gv, base@, member@);
                let nr = r@;
                assert forall|j: int| 0 <= j < nr.len() implies groups_view(nr)[j]
                    == add_to_groups(gv, base@, member@)[j] by {
                    assert(groups_view(nr)[j] == group_view(nr[j]));
                    if j < rold.len() {
                        assert(nr[j] == rold[j]);
                        assert(gv[j] == group_view(rold[j]));
                    } else {
                        assert(nr[j] == NameGroup { base, members: ms });
                    }
                }
                assert(groups_view(nr) =~~= add_to_groups(gv, base@, member@));
                assert(base@ == base_key_of(sorted.deep_view()[i as int]));
                assert(member@ == sorted.deep_view()[i as int]);
            }
        }
        i = i + 1;
        proof {
            let pre = sorted.deep_view().take(i as int);
            assert(pre.drop_last() =~~= sorted.deep_view().take(i as int - 1));
            assert(pre.last() == sorted.deep_view()[i as int - 1]);
        }
    }
    proof {
        assert(sorted.deep_view().take(sorted@.len() as int) =~~= sorted.deep_view());
    }
    r
}

// ---------------------------------------------------------------- tails

/// Length of the longest common prefix of two component sequences.
pub open spec fn shared_len(a: Seq<Seq<char>>, b: Seq<Seq<char>>) -> int
    decreases a.len(),
{
    if a.len() == 0 || b.len() == 0 {
        0
    } else if a[0] == b[0] {
        1 + shared_len(a.drop_first(), b.drop_first())
    } else {
        0
    }
}

/// `shared_len` is the first mismatch position.
proof fn lemma_shared_len_at(a: Seq<Seq<char>>, b: Seq<Seq<char>>, k: int)
    requires
        0 <= k <= a.len(),
        k <= b.len(),
        forall|j: int| 0 <= j < k ==> a[j] == b[j],
        k < a.len() && k < b.len() ==> a[k] != b[k],
    ensures
        shared_len(a, b) == k,
    decreases k,
{
    if k == 0 {
    } else {
        let da = a.drop_first();
        let db = b.drop_first();
        assert forall|j: int| 0 <= j < k - 1 implies da[j] == db[j] by {
            assert(a[j + 1] == b[j + 1]);
        }
        assert(k - 1 < da.len() && k - 1 < db.len() ==> da[k - 1] != db[k - 1]);
        lemma_shared_len_at(da, db, k - 1);
    }
}

/// `shared_len` never exceeds the first sequence's length.
pub proof fn lemma_shared_len_bound(a: Seq<Seq<char>>, b: Seq<Seq<char>>)
    ensures
        0 <= shared_len(a, b) <= a.len(),
    decreases a.len(),
{
    if a.len() > 0 && b.len() > 0 && a[0] == b[0] {
        lemma_shared_len_bound(a.drop_first(), b.drop_first());
    }
}

/// Computes `shared_len` on component vectors.
pub fn shared_len_exec(a: &Vec<Vec<char>>, b: &Vec<Vec<char>>) -> (r: usize)
    ensures
        r as int == shared_len(a.deep_view(), b.deep_view()),
{
    let mut j: usize = 0;
    while j < a.len() && j < b.len()
        invariant
            j <= a@.len(),
            j <= b@.len(),
            forall|t: int| 0 <= t < j ==> a.deep_view()[t] == b.deep_view()[t],
        decreases a@.len() - j,
    {
        if !chars_eq(&a[j], &b[j]) {
            proof {
                assert(a.deep_view()[j as int] == a@[j as int]@);
                assert(b.deep_view()[j as int] == b@[j as int]@);
                lemma_shared_len_at(a.deep_view(), b.deep_view(), j as int);
            }
            return j;
        }
        proof {
            assert(a.deep_view()[j as int] == a@[j as int]@);
            assert(b.deep_view()[j as int] == b@[j as int]@);
        }
        j = j + 1;
    }
    proof {
        lemma_shared_len_at(a.deep_view(), b.deep_view(), j as int);
    }
    j
}

/// The parents of the members, elementwise.
pub open spec fn parents_of(members: Seq<Seq<char>>) -> Seq<Seq<char>> {
    members.map_values(|p: Seq<char>| parent_of(p))
}

/// Whether some other member of the group has the same parent
/// directory.
pub open spec fn has_dup_parent(members: Seq<Seq<char>>, i: int) -> bool {
    exists|j: int|
        0 <= j < members.len() && j != i && parent_of(#[trigger] members[j]) == parent_of(
            members[i],
        )
}

/// The longest shared component prefix between member `i`'s parent and
/// any of the first `n` other members' parents.
pub open spec fn best_cut(members: Seq<Seq<char>>, i: int, n: int) -> int
    decreases n,
{
    if n <= 0 {
        0
    } else {
        let prev = best_cut(members, i, n - 1);
        if n - 1 == i {
            prev
        } else {
            let ci = components_of(parent_of(members[i]));
            let s = shared_len(ci, components_of(parent_of(members[n - 1])));
            if s > prev {
                s
            } else {
                prev
            }
        }
    }
}

/// `best_cut` stays within the member's own component count.
pub proof fn lemma_best_cut_bound(members: Seq<Seq<char>>, i: int, n: int)
    ensures
        0 <= best_cut(members, i, n) <= components_of(parent_of(members[i])).len(),
    decreases n,
{
    if n > 0 {
        lemma_best_cut_bound(members, i, n - 1);
        if n - 1 != i {
            lemma_shared_len_bound(
                components_of(parent_of(members[i])),
                components_of(parent_of(members[n - 1])),
            );
        }
    }
}

/// The shortest divergent tail kept for member `i`: its parent's
/// components with the longest shared prefix removed.
pub open spec fn tail_of(members: Seq<Seq<char>>, i: int) -> Seq<Seq<char>> {
    let ci = components_of(parent_of(members[i]));
    ci.skip(best_cut(members, i, members.len() as int))
}

/// Examines member `i` of a group: whether another member shares its
/// parent, and where its shortest divergent tail starts.
pub fn member_analysis(members: &Vec<Vec<char>>, parents: &Vec<Vec<char>>, i: usize) -> (r: (
    bool,
    usize,
))
    requires
        parents.deep_view() == parents_of(members.deep_view()),
        parents@.len() == members@.len(),
        i < members@.len(),
    ensures
        r.0 == has_dup_parent(members.deep_view(), i as int),
        r.1 as int == best_cut(members.deep_view(), i as int, members.deep_view().len() as int),
{
    let ghost md = members.deep_view();
    let ci = components_chars(&parents[i]);
    proof {
        assert(parents.deep_view()[i as int] == parents@[i as int]@);
        assert(parents.deep_view()[i as int] == parent_of(md[i as int]));
    }
    let mut dup = false;
    let mut cut: usize = 0;
    let mut j: usize = 0;
    while j < members.len()
        invariant
            j <= md.len(),
            md == members.deep_view(),
            parents.deep_view() == parents_of(md),
            parents@.len() == md.len(),
            i < md.len(),
            ci.deep_view() == components_of(parent_of(md[i as int])),
            dup == exists|t: int|
                0 <= t < j && t != i && parent_of(#[trigger] md[t]) == parent_of(md[i as int]),
            cut as int == best_cut(md, i as int, j as int),
        decreases md.len() - j,
    {
        let ghost dup0 = dup;
        if j != i {
            proof {
                assert(parents.deep_view()[j as int] == parents@[j as int]@);
                assert(parents.deep_view()[j as int] == parent_of(md[j as int]));
                assert(parents.deep_view()[i as int] == parents@[i as int]@);
                assert(parents.deep_view()[i as int] == parent_of(md[i as int]));
            }
            if chars_eq(&parents[j], &parents[i]) {
                dup = true;
                proof {
                    assert(parent_of(md[j as int]) == parent_of(md[i as int]));
                }
            } else {
                proof {
                    assert(parent_of(md[j as int]) != parent_of(md[i as int]));
                }
            }
            let cj = components_chars(&parents[j]);
            let s = shared_len_exec(&ci, &cj);
            proof {
                lemma_shared_len_bound(ci.deep_view(), cj.deep_view());
            }
            if s > cut {
                cut = s;
            }
        }
        j = j + 1;
        proof {
            if dup {
                if dup0 {
                    let t = choose|t: int|
                        0 <= t < j - 1 && t != i && parent_of(#[trigger] md[t]) == parent_of(
                            md[i as int],
                        );
                    assert(0 <= t < j && t != i && parent_of(md[t]) == parent_of(md[i as int]));
                }
            } else {
                assert forall|t: int|
                    0 <= t < j && t != i implies parent_of(#[trigger] md[t]) != parent_of(
                    md[i as int],
                ) by {}
            }
        }
    }
    (dup, cut)
}

/// The middle fragment a tail contributes to a key: each component
/// sanitized and followed by an underscore.
pub open spec fn tail_fragment(t: Seq<Seq<char>>) -> Seq<char>
    decreases t.len(),
{
    if t.len() == 0 {
        Seq::<char>::empty()
    } else {
        tail_fragment(t.drop_last()) + sanitize_spec(t.last()) + seq!['_']
    }
}

/// Every character of a tail fragment is safe.
pub proof fn lemma_tail_fragment_safe(t: Seq<Seq<char>>)
    ensures
        forall|i: int| 0 <= i < tail_fragment(t).len() ==> crate::chars::is_safe_char(
            #[trigger] tail_fragment(t)[i],
        ),
    decreases t.len(),
{
    if t.len() > 0 {
        lemma_tail_fragment_safe(t.drop_last());
        crate::sanitize::lemma_sanitize_safe(t.last());
        let pre = tail_fragment(t.drop_last());
        let mid = sanitize_spec(t.last());
        assert forall|i: int| 0 <= i < tail_fragment(t).len() implies crate::chars::is_safe_char(
            #[trigger] tail_fragment(t)[i],
        ) by {
            if i < pre.len() {
                assert(tail_fragment(t)[i] == pre[i]);
            } else if i < pre.len() + mid.len() {
                assert(tail_fragment(t)[i] == mid[i - pre.len()]);
            } else {
                assert(tail_fragment(t)[i] == '_');
            }
        }
    }
}

/// Builds the fragment of the tail that starts at component `from`.
pub fn tail_fragment_chars(ci: &Vec<Vec<char>>, from: usize) -> (r: Vec<char>)
    requires
        from <= ci@.len(),
    ensures
        r@ == tail_fragment(ci.deep_view().skip(from as int)),
{
    let ghost tail = ci.deep_view().skip(from as int);
    let mut r: Vec<char> = Vec::new();
    let mut t: usize = from;
    proof {
        assert(tail.take(0) =~~= Seq::<Seq<char>>::empty());
        assert(r@ =~= tail_fragment(tail.take(0)));
    }
    while t < ci.len()
        invariant
            from <= t <= ci@.len(),
            tail == ci.deep_view().skip(from as int),
            r@ == tail_fragment(tail.take(t - from)),
        decreases ci@.len() - t,
    {
        let mut piece = sanitize_chars(&ci[t]);
        r.append(&mut piece);
        r.push('_');
        t = t + 1;
        proof {
            assert(ci.deep_view()[t as int - 1] == ci@[t as int - 1]@);
            let pre = tail.take(t - from);
            assert(pre.drop_last() =~~= tail.take(t - from - 1));
            assert(pre.last() == tail[t - from - 1]);
            assert(tail[t - from - 1] == ci.deep_view()[t as int - 1]);
            assert(r@ =~= tail_fragment(pre.drop_last()) + sanitize_spec(pre.last()) + seq!['_']);
        }
    }
    proof {
        assert(tail.take(ci@.len() - from) =~~= tail);
    }
    r
}

} // verus!
