//! The identifier sanitizer: safe characters are kept verbatim and every
//! maximal run of other characters collapses into a single underscore.

use vstd::prelude::*;
use crate::chars::is_safe_char;
use crate::chars::safe_char;
use crate::chars::str_chars;
use crate::chars::chars_string;

verus! {

/// What sanitizing a string yields: safe characters are copied, and each
/// maximal run of unsafe characters contributes exactly one underscore.
pub open spec fn sanitize_spec(s: Seq<char>) -> Seq<char>
    decreases s.len(),
{
    if s.len() == 0 {
        Seq::<char>::empty()
    } else {
        let r = sanitize_spec(s.drop_last());
        let c = s[s.len() - 1];
        if is_safe_char(c) {
            r.push(c)
        } else if s.len() >= 2 && !is_safe_char(s[s.len() - 2]) {
            // the previous character already contributed the underscore
            r
        } else {
            r.push('_')
        }
    }
}

/// Every character of a sanitized string is safe.
pub proof fn lemma_sanitize_safe(s: Seq<char>)
    ensures
        forall|i: int| 0 <= i < sanitize_spec(s).len() ==> is_safe_char(
            #[trigger] sanitize_spec(s)[i],
        ),
    decreases s.len(),
{
    if s.len() > 0 {
        lemma_sanitize_safe(s.drop_last());
        let r = sanitize_spec(s.drop_last());
        let c = s[s.len() - 1];
        assert(is_safe_char('_'));
        if is_safe_char(c) {
            assert forall|i: int| 0 <= i < r.push(c).len() implies is_safe_char(
                #[trigger] r.push(c)[i],
            ) by {
                if i < r.len() {
                    assert(r.push(c)[i] == r[i]);
                }
            }
        } else if !(s.len() >= 2 && !is_safe_char(s[s.len() - 2])) {
            assert forall|i: int| 0 <= i < r.push('_').len() implies is_safe_char(
                #[trigger] r.push('_')[i],
            ) by {
                if i < r.len() {
                    assert(r.push('_')[i] == r[i]);
                }
            }
        }
    }
}

/// Sanitizing a string whose characters are all safe returns it unchanged.
pub proof fn lemma_sanitize_safe_identity(s: Seq<char>)
    requires
        forall|i: int| 0 <= i < s.len() ==> is_safe_char(#[trigger] s[i]),
    ensures
        sanitize_spec(s) == s,
    decreases s.len(),
{
    if s.len() > 0 {
        assert(forall|i: int| 0 <= i < s.drop_last().len() ==> is_safe_char(
            #[trigger] s.drop_last()[i],
        ));
        lemma_sanitize_safe_identity(s.drop_last());
        assert(is_safe_char(s[s.len() - 1]));
        assert(sanitize_spec(s) =~= s);
    } else {
        assert(sanitize_spec(s) =~= s);
    }
}

/// Sanitizing is idempotent: a second pass changes nothing.
pub proof fn lemma_sanitize_idempotent(s: Seq<char>)
    ensures
        sanitize_spec(sanitize_spec(s)) == sanitize_spec(s),
{
    lemma_sanitize_safe(s);
    lemma_sanitize_safe_identity(sanitize_spec(s));
}

/// Sanitizes the characters of `v`.
pub fn sanitize_chars(v: &Vec<char>) -> (r: Vec<char>)
    ensures
        r@ == sanitize_spec(v@),
{
    let mut out: Vec<char> = Vec::new();
    let mut i: usize = 0;
    assert(v@.subrange(0, 0) =~= Seq::<char>::empty());
    while i < v.len()
        invariant
            i <= v@.len(),
            out@ == sanitize_spec(v@.subrange(0, i as int)),
        decreases v@.len() - i,
    {
        let c = v[i];
        if safe_char(c) {
            out.push(c);
        } else if i >= 1 && !safe_char(v[i - 1]) {
            // continuing a run of unsafe characters: nothing to emit
        } else {
            out.push('_');
        }
        i = i + 1;
        proof {
            let pre = v@.subrange(0, i as int);
            assert(pre.drop_last() =~= v@.subrange(0, i as int - 1));
            assert(pre[pre.len() - 1] == v@[i as int - 1]);
            assert(i >= 2 ==> pre[pre.len() - 2] == v@[i as int - 2]);
        }
    }
    assert(v@.subrange(0, v@.len() as int) =~= v@);
    out
}

/// Turns raw text into text safe for use inside an identifier.
pub fn safeify(raw: &str) -> (r: String)
    ensures
        r@ == sanitize_spec(raw@),
{
    let cs = str_chars(raw);
    let out = sanitize_chars(&cs);
    chars_string(&out)
}

} // verus!
