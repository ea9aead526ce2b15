//! The pieces generated identifiers are assembled from: the decimal
//! suffixes of the numeric fallback and the prefix/base stem, together
//! with the facts that make generated keys unique and well-formed.

use vstd::prelude::*;
use crate::chars::is_safe_char;
use crate::chars::is_valid_identifier;

verus! {

/// The character of one decimal digit.
pub open spec fn digit_char(d: int) -> char {
    (48 + d) as char
}

/// The decimal digits of `n`, most significant first.
pub open spec fn dec_digits(n: nat) -> Seq<char>
    decreases n,
{
    if n < 10 {
        seq![digit_char(n as int)]
    } else {
        dec_digits(n / 10).push(digit_char((n % 10) as int))
    }
}

/// Digit characters of distinct digits are distinct, and every digit
/// character is safe.
proof fn lemma_digit_char(d1: int, d2: int)
    requires
        0 <= d1 < 10,
        0 <= d2 < 10,
    ensures
        is_safe_char(digit_char(d1)),
        digit_char(d1) as int == 48 + d1,
        d1 != d2 ==> digit_char(d1) != digit_char(d2),
{
}

/// A decimal representation is non-empty, longer than one digit for
/// numbers of ten and above, and made of safe characters.
pub proof fn lemma_dec_digits_shape(n: nat)
    ensures
        dec_digits(n).len() >= 1,
        n >= 10 ==> dec_digits(n).len() >= 2,
        forall|i: int| 0 <= i < dec_digits(n).len() ==> is_safe_char(#[trigger] dec_digits(n)[i]),
    decreases n,
{
    if n < 10 {
        lemma_digit_char(n as int, 0);
    } else {
        lemma_dec_digits_shape(n / 10);
        lemma_digit_char((n % 10) as int, 0);
        let r = dec_digits(n / 10);
        let c = digit_char((n % 10) as int);
        assert forall|i: int| 0 <= i < r.push(c).len() implies is_safe_char(
            #[trigger] r.push(c)[i],
        ) by {
            if i < r.len() {
                assert(r.push(c)[i] == r[i]);
            }
        }
    }
}

/// Distinct numbers have distinct decimal representations.
pub proof fn lemma_dec_digits_inj(a: nat, b: nat)
    requires
        a != b,
    ensures
        dec_digits(a) != dec_digits(b),
    decreases a + b,
{
    if a < 10 && b < 10 {
        lemma_digit_char(a as int, b as int);
        assert(dec_digits(a)[0] == digit_char(a as int));
        assert(dec_digits(b)[0] == digit_char(b as int));
    } else if a < 10 {
        lemma_dec_digits_shape(a);
        lemma_dec_digits_shape(b);
    } else if b < 10 {
        lemma_dec_digits_shape(a);
        lemma_dec_digits_shape(b);
    } else {
        lemma_digit_char((a % 10) as int, (b % 10) as int);
        if a % 10 != b % 10 {
            if dec_digits(a) == dec_digits(b) {
                assert(dec_digits(a).last() == digit_char((a % 10) as int));
                assert(dec_digits(b).last() == digit_char((b % 10) as int));
                assert(false);
            }
        } else {
            assert(a / 10 != b / 10);
            lemma_dec_digits_inj(a / 10, b / 10);
            if dec_digits(a) == dec_digits(b) {
                assert(dec_digits(a).drop_last() =~= dec_digits(a / 10));
                assert(dec_digits(b).drop_last() =~= dec_digits(b / 10));
                assert(false);
            }
        }
    }
}

/// The decimal digits of `n`, as characters.
pub fn dec_chars(n: u128) -> (r: Vec<char>)
    ensures
        r@ == dec_digits(n as nat),
    decreases n,
{
    if n < 10 {
        let mut v: Vec<char> = Vec::new();
        let c = ((48 + n) as u8) as char;
        proof {
            assert(c == digit_char(n as int));
        }
        v.push(c);
        v
    } else {
        let mut v = dec_chars(n / 10);
        let c = ((48 + n % 10) as u8) as char;
        proof {
            assert(c == digit_char((n % 10) as int));
        }
        v.push(c);
        v
    }
}

/// The stem every key of a group starts with: the prefix, an
/// underscore, and the sanitized base name.
pub open spec fn base_stem(prefix: Seq<char>, base: Seq<char>) -> Seq<char> {
    prefix + seq!['_'] + base
}

/// A numeric-fallback key: the stem followed by a decimal suffix.
pub open spec fn numeric_key(prefix: Seq<char>, base: Seq<char>, n: nat) -> Seq<char> {
    base_stem(prefix, base) + dec_digits(n)
}

/// Numeric keys over one stem are pairwise distinct.
pub proof fn lemma_numeric_key_inj(prefix: Seq<char>, base: Seq<char>, n1: nat, n2: nat)
    requires
        n1 != n2,
    ensures
        numeric_key(prefix, base, n1) != numeric_key(prefix, base, n2),
{
    lemma_dec_digits_inj(n1, n2);
    let s = base_stem(prefix, base);
    if numeric_key(prefix, base, n1) == numeric_key(prefix, base, n2) {
        assert((s + dec_digits(n1)).skip(s.len() as int) =~= dec_digits(n1));
        assert((s + dec_digits(n2)).skip(s.len() as int) =~= dec_digits(n2));
        assert(false);
    }
}

/// Appending safe characters to a valid identifier keeps it valid.
pub proof fn lemma_ident_extend(prefix: Seq<char>, t: Seq<char>)
    requires
        is_valid_identifier(prefix),
        forall|i: int| 0 <= i < t.len() ==> is_safe_char(#[trigger] t[i]),
    ensures
        is_valid_identifier(prefix + t),
{
    let s = prefix + t;
    assert(s[0] == prefix[0]);
    assert forall|i: int| 0 <= i < s.len() implies is_safe_char(#[trigger] s[i]) by {
        if i < prefix.len() {
            assert(s[i] == prefix[i]);
        } else {
            assert(s[i] == t[i - prefix.len()]);
        }
    }
}

/// The smallest positive suffix whose numeric key is absent from `m`.
pub open spec fn is_min_free(
    m: Map<Seq<char>, Seq<char>>,
    prefix: Seq<char>,
    base: Seq<char>,
    n: nat,
) -> bool {
    &&& n >= 1
    &&& !m.dom().contains(numeric_key(prefix, base, n))
    &&& forall|k: nat| 1 <= k < n ==> m.dom().contains(#[trigger] numeric_key(prefix, base, k))
}

/// The smallest free numeric suffix, as a value.
pub open spec fn min_free(m: Map<Seq<char>, Seq<char>>, prefix: Seq<char>, base: Seq<char>) -> nat {
    choose|n: nat| is_min_free(m, prefix, base, n)
}

/// A witness of `is_min_free` is the value of `min_free`.
pub proof fn lemma_min_free_is(
    m: Map<Seq<char>, Seq<char>>,
    prefix: Seq<char>,
    base: Seq<char>,
    n: nat,
)
    requires
        is_min_free(m, prefix, base, n),
    ensures
        min_free(m, prefix, base) == n,
{
    assert(exists|k: nat| is_min_free(m, prefix, base, k));
    let w = min_free(m, prefix, base);
    assert(is_min_free(m, prefix, base, w));
    if w < n {
        assert(m.dom().contains(numeric_key(prefix, base, w)));
        assert(false);
    }
    if n < w {
        assert(m.dom().contains(numeric_key(prefix, base, n)));
        assert(false);
    }
}

/// The set of the first `n` numeric keys over one stem.
pub open spec fn numkey_set(prefix: Seq<char>, base: Seq<char>, n: nat) -> Set<Seq<char>>
    decreases n,
{
    if n == 0 {
        Set::<Seq<char>>::empty()
    } else {
        numkey_set(prefix, base, (n - 1) as nat).insert(numeric_key(prefix, base, n))
    }
}

/// The first `n` numeric keys form a set of exactly `n` elements.
pub proof fn lemma_numkey_set(prefix: Seq<char>, base: Seq<char>, n: nat)
    ensures
        numkey_set(prefix, base, n).finite(),
        numkey_set(prefix, base, n).len() == n,
        forall|k: Seq<char>|
            numkey_set(prefix, base, n).contains(k) <==> exists|j: nat|
                1 <= j <= n && k == numeric_key(prefix, base, j),
    decreases n,
{
    if n > 0 {
        lemma_numkey_set(prefix, base, (n - 1) as nat);
        assert(!numkey_set(prefix, base, (n - 1) as nat).contains(
            numeric_key(prefix, base, n),
        )) by {
            if numkey_set(prefix, base, (n - 1) as nat).contains(numeric_key(prefix, base, n)) {
                let j = choose|j: nat|
                    1 <= j <= n - 1 && numeric_key(prefix, base, n) == numeric_key(
                        prefix,
                        base,
                        j,
                    );
                lemma_numeric_key_inj(prefix, base, n, j);
                assert(false);
            }
        }
        assert forall|k: Seq<char>|
            numkey_set(prefix, base, n).contains(k) <==> exists|j: nat|
                1 <= j <= n && k == numeric_key(prefix, base, j) by {
            if numkey_set(prefix, base, n).contains(k) {
                if k != numeric_key(prefix, base, n) {
                    let j = choose|j: nat|
                        1 <= j <= n - 1 && k == numeric_key(prefix, base, j);
                    assert(1 <= j <= n && k == numeric_key(prefix, base, j));
                }
            }
            if exists|j: nat| 1 <= j <= n && k == numeric_key(prefix, base, j) {
                let j = choose|j: nat| 1 <= j <= n && k == numeric_key(prefix, base, j);
                if j <= n - 1 {
                    assert(numkey_set(prefix, base, (n - 1) as nat).contains(k));
                }
            }
        }
    }
}

/// Among the first `bound` numeric suffixes over a stem, at least one
/// key is absent from a map of fewer than `bound` entries.
pub proof fn lemma_free_key_exists(
    m: Map<Seq<char>, Seq<char>>,
    prefix: Seq<char>,
    base: Seq<char>,
    bound: nat,
)
    requires
        m.dom().finite(),
        m.dom().len() < bound,
    ensures
        exists|n: nat|
            1 <= n <= bound && !m.dom().contains(#[trigger] numeric_key(prefix, base, n)),
{
    if forall|n: nat| 1 <= n <= bound ==> m.dom().contains(#[trigger] numeric_key(prefix, base, n)) {
        lemma_numkey_set(prefix, base, bound);
        let ks = numkey_set(prefix, base, bound);
        assert forall|k: Seq<char>| ks.contains(k) implies m.dom().contains(k) by {
            let j = choose|j: nat| 1 <= j <= bound && k == numeric_key(prefix, base, j);
            assert(m.dom().contains(numeric_key(prefix, base, j)));
        }
        vstd::set_lib::lemma_len_subset(ks, m.dom());
        assert(false);
    }
}

} // verus!
