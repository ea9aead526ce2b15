//! A plain-text model of file-system paths: a path is the text of its
//! canonical form, with components separated by `/`.  The walk hands the
//! crate canonical path strings, so no structured path type is needed.

use vstd::prelude::*;
use crate::chars::subvec;

verus! {

/// Index of the first `.` in `s`, or `s.len()` if there is none.
pub open spec fn first_dot_pos(s: Seq<char>) -> int
    decreases s.len(),
{
    if s.len() == 0 {
        0
    } else if s[0] == '.' {
        0
    } else {
        1 + first_dot_pos(s.drop_first())
    }
}

/// The characteristic facts about `first_dot_pos`.
pub proof fn lemma_first_dot_pos(s: Seq<char>)
    ensures
        0 <= first_dot_pos(s) <= s.len(),
        forall|i: int| 0 <= i < first_dot_pos(s) ==> s[i] != '.',
        first_dot_pos(s) < s.len() ==> s[first_dot_pos(s)] == '.',
    decreases s.len(),
{
    if s.len() > 0 && s[0] != '.' {
        lemma_first_dot_pos(s.drop_first());
        assert forall|i: int| 0 <= i < first_dot_pos(s) implies s[i] != '.' by {
            if i > 0 {
                assert(s.drop_first()[i - 1] != '.');
            }
        }
        if first_dot_pos(s) < s.len() {
            assert(s.drop_first()[first_dot_pos(s.drop_first())] == '.');
        }
    }
}

/// A position with no dot before it that sits on a dot (or at the end)
/// is exactly `first_dot_pos`.
pub proof fn lemma_first_dot_pos_at(s: Seq<char>, k: int)
    requires
        0 <= k <= s.len(),
        forall|i: int| 0 <= i < k ==> s[i] != '.',
        k < s.len() ==> s[k] == '.',
    ensures
        first_dot_pos(s) == k,
{
    lemma_first_dot_pos(s);
}

/// The text before the first dot.
pub open spec fn stem_of(s: Seq<char>) -> Seq<char> {
    s.subrange(0, first_dot_pos(s))
}

/// The text from the first dot onward, including the dot; empty if the
/// string has no dot.
pub open spec fn ext_of(s: Seq<char>) -> Seq<char> {
    s.subrange(first_dot_pos(s), s.len() as int)
}

/// Finds `first_dot_pos` in a character vector.
pub fn find_first_dot(v: &Vec<char>) -> (r: usize)
    ensures
        r as int == first_dot_pos(v@),
{
    let mut i: usize = 0;
    while i < v.len()
        invariant
            i <= v@.len(),
            forall|k: int| 0 <= k < i ==> v@[k] != '.',
        decreases v@.len() - i,
    {
        if v[i] == '.' {
            proof {
                lemma_first_dot_pos_at(v@, i as int);
            }
            return i;
        }
        i = i + 1;
    }
    proof {
        lemma_first_dot_pos_at(v@, v@.len() as int);
    }
    i
}

/// Index right after the last `/` in `s`, or 0 if there is none; the
/// file name starts there.
pub open spec fn name_start(s: Seq<char>) -> int
    decreases s.len(),
{
    if s.len() == 0 {
        0
    } else if s[s.len() - 1] == '/' {
        s.len() as int
    } else {
        name_start(s.drop_last())
    }
}

/// The characteristic facts about `name_start`.
pub proof fn lemma_name_start(s: Seq<char>)
    ensures
        0 <= name_start(s) <= s.len(),
        forall|i: int| name_start(s) <= i < s.len() ==> s[i] != '/',
        name_start(s) > 0 ==> s[name_start(s) - 1] == '/',
    decreases s.len(),
{
    if s.len() > 0 && s[s.len() - 1] != '/' {
        lemma_name_start(s.drop_last());
        assert forall|i: int| name_start(s) <= i < s.len() implies s[i] != '/' by {
            if i < s.len() - 1 {
                assert(s.drop_last()[i] != '/');
            }
        }
        if name_start(s) > 0 {
            assert(s.drop_last()[name_start(s.drop_last()) - 1] == '/');
        }
    }
}

/// A position preceded by a slash (or 0) with no slash after it is
/// exactly `name_start`.
pub proof fn lemma_name_start_at(s: Seq<char>, k: int)
    requires
        0 <= k <= s.len(),
        forall|i: int| k <= i < s.len() ==> s[i] != '/',
        k > 0 ==> s[k - 1] == '/',
    ensures
        name_start(s) == k,
{
    lemma_name_start(s);
}

/// The file name of a path: the text after the last `/`.
pub open spec fn file_name_of(p: Seq<char>) -> Seq<char> {
    p.subrange(name_start(p), p.len() as int)
}

/// The parent of a path: the text before the last `/`; empty if the path
/// has no `/`.
pub open spec fn parent_of(p: Seq<char>) -> Seq<char> {
    if name_start(p) == 0 {
        Seq::<char>::empty()
    } else {
        p.subrange(0, name_start(p) - 1)
    }
}

/// Finds `name_start` in a character vector.
pub fn find_name_start(v: &Vec<char>) -> (r: usize)
    ensures
        r as int == name_start(v@),
{
    let mut j: usize = v.len();
    while j > 0
        invariant
            j <= v@.len(),
            forall|k: int| j <= k < v@.len() ==> v@[k] != '/',
        decreases j,
    {
        if v[j - 1] == '/' {
            proof {
                lemma_name_start_at(v@, j as int);
            }
            return j;
        }
        j = j - 1;
    }
    proof {
        lemma_name_start_at(v@, 0);
    }
    0
}

/// The parent of a path, as a character vector.
pub fn parent_chars(p: &Vec<char>) -> (r: Vec<char>)
    ensures
        r@ == parent_of(p@),
{
    let ns = find_name_start(p);
    if ns == 0 {
        let r: Vec<char> = Vec::new();
        assert(r@ =~= parent_of(p@));
        r
    } else {
        proof {
            lemma_name_start(p@);
        }
        subvec(p, 0, ns - 1)
    }
}

/// The file name of a path, as a character vector.
pub fn file_name_chars(p: &Vec<char>) -> (r: Vec<char>)
    ensures
        r@ == file_name_of(p@),
{
    let ns = find_name_start(p);
    proof {
        lemma_name_start(p@);
    }
    subvec(p, ns, p.len())
}

/// The components of a path: the non-empty pieces between slashes, in
/// order.
pub open spec fn components_of(p: Seq<char>) -> Seq<Seq<char>>
    decreases p.len(),
{
    if p.len() == 0 {
        Seq::<Seq<char>>::empty()
    } else {
        let ns = name_start(p);
        let name = p.subrange(ns, p.len() as int);
        let init = if ns == 0 {
            Seq::<Seq<char>>::empty()
        } else {
            proof {
                lemma_name_start(p);
            }
            components_of(p.subrange(0, ns - 1))
        };
        if name.len() == 0 {
            init
        } else {
            init.push(name)
        }
    }
}

/// The components of a path, as character vectors.
pub fn components_chars(p: &Vec<char>) -> (r: Vec<Vec<char>>)
    ensures
        r.deep_view() == components_of(p@),
    decreases p@.len(),
{
    let mut r: Vec<Vec<char>>;
    if p.len() == 0 {
        r = Vec::new();
        assert(r.deep_view() =~~= components_of(p@));
        return r;
    }
    let ns = find_name_start(p);
    proof {
        lemma_name_start(p@);
    }
    let name = subvec(p, ns, p.len());
    if ns == 0 {
        r = Vec::new();
        assert(r.deep_view() =~~= Seq::<Seq<char>>::empty());
    } else {
        let prefix = subvec(p, 0, ns - 1);
        r = components_chars(&prefix);
    }
    if name.len() > 0 {
        let ghost before = r.deep_view();
        r.push(name);
        assert(r.deep_view() =~~= before.push(name@));
    }
    assert(r.deep_view() =~~= components_of(p@));
    r
}

} // verus!
