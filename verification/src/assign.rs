//! The final assignment: a mapping from generated identifier to input
//! path, built up with overwriting inserts.

use vstd::prelude::*;
use crate::chars::chars_eq;
use crate::chars::chars_string;
use crate::chars::str_chars;

verus! {

/// One binding of a generated identifier to an input path.
pub struct Assignment {
    pub key: String,
    pub input_path: String,
}

/// The keys of an entry sequence, in entry order.
pub open spec fn keys_of(es: Seq<Assignment>) -> Seq<Seq<char>> {
    es.map_values(|e: Assignment| e.key@)
}

/// The mapping an entry sequence denotes; a later entry shadows an
/// earlier one with the same key.
pub open spec fn assign_map_of(es: Seq<Assignment>) -> Map<Seq<char>, Seq<char>>
    decreases es.len(),
{
    if es.len() == 0 {
        Map::<Seq<char>, Seq<char>>::empty()
    } else {
        assign_map_of(es.drop_last()).insert(es.last().key@, es.last().input_path@)
    }
}

/// With no duplicate keys, the mapping has exactly one entry per
/// element of the sequence.
pub proof fn lemma_assign_map_entries(es: Seq<Assignment>)
    requires
        keys_of(es).no_duplicates(),
    ensures
        forall|k: Seq<char>| assign_map_of(es).dom().contains(k) <==> keys_of(es).contains(k),
        forall|i: int|
            0 <= i < es.len() ==> assign_map_of(es)[(#[trigger] es[i]).key@] == es[i].input_path@,
    decreases es.len(),
{
    if es.len() > 0 {
        let dl = es.drop_last();
        assert(keys_of(dl) =~= keys_of(es).drop_last());
        lemma_assign_map_entries(dl);
        assert(keys_of(es)[es.len() - 1] == es.last().key@);
        assert forall|k: Seq<char>|
            assign_map_of(es).dom().contains(k) <==> keys_of(es).contains(k) by {
            if keys_of(es).contains(k) {
                let i = choose|i: int| 0 <= i < keys_of(es).len() && keys_of(es)[i] == k;
                if i < es.len() - 1 {
                    assert(keys_of(dl)[i] == k);
                    assert(keys_of(dl).contains(k));
                }
            }
            if assign_map_of(es).dom().contains(k) {
                if k != es.last().key@ {
                    assert(keys_of(dl).contains(k));
                    let i = choose|i: int| 0 <= i < keys_of(dl).len() && keys_of(dl)[i] == k;
                    assert(keys_of(es)[i] == keys_of(dl)[i]);
                    assert(keys_of(es).contains(k));
                }
            }
        }
        assert forall|i: int| 0 <= i < es.len() implies assign_map_of(es)[
            (#[trigger] es[i]).key@
        ] == es[i].input_path@ by {
            if i < es.len() - 1 {
                assert(dl[i] == es[i]);
                assert(keys_of(es)[i] == es[i].key@);
                assert(es[i].key@ != es.last().key@);
                assert(assign_map_of(dl)[dl[i].key@] == dl[i].input_path@);
            }
        }
    }
}

/// The mapping of an entry sequence has finitely many keys, at most one
/// per entry.
pub proof fn lemma_assign_map_card(es: Seq<Assignment>)
    ensures
        assign_map_of(es).dom().finite(),
        assign_map_of(es).dom().len() <= es.len(),
    decreases es.len(),
{
    if es.len() > 0 {
        lemma_assign_map_card(es.drop_last());
    }
}

/// With no duplicate keys the mapping is exactly as large as the entry
/// sequence, so a caller can read the key count off the entries.
pub proof fn lemma_assign_map_len(es: Seq<Assignment>)
    requires
        keys_of(es).no_duplicates(),
    ensures
        assign_map_of(es).dom().len() == es.len(),
    decreases es.len(),
{
    if es.len() > 0 {
        let dl = es.drop_last();
        assert(keys_of(dl) =~= keys_of(es).drop_last());
        lemma_assign_map_len(dl);
        lemma_assign_map_entries(dl);
        assert(!assign_map_of(dl).dom().contains(es.last().key@)) by {
            if keys_of(dl).contains(es.last().key@) {
                let i = choose|i: int|
                    0 <= i < keys_of(dl).len() && keys_of(dl)[i] == es.last().key@;
                assert(keys_of(es)[i] == keys_of(es)[es.len() - 1]);
                assert(false);
            }
        }
        lemma_assign_map_card(dl);
        assert(assign_map_of(es).dom() =~= assign_map_of(dl).dom().insert(es.last().key@));
        vstd::set::axiom_set_insert_len(assign_map_of(dl).dom(), es.last().key@);
    } else {
        assert(assign_map_of(es).dom() =~= Set::<Seq<char>>::empty());
    }
}

/// The final mapping from unique identifier to input path; no two
/// entries share a key.
pub struct FinalAssignment {
    pub entries: Vec<Assignment>,
}

impl FinalAssignment {
    /// Well-formedness: keys are pairwise distinct.
    pub open spec fn wf(self) -> bool {
        keys_of(self.entries@).no_duplicates()
    }

    /// The mapping from identifier to input path.
    pub open spec fn as_map(self) -> Map<Seq<char>, Seq<char>> {
        assign_map_of(self.entries@)
    }

    /// An empty assignment.
    pub fn new() -> (r: FinalAssignment)
        ensures
            r.wf(),
            r.as_map() == Map::<Seq<char>, Seq<char>>::empty(),
            r.entries@.len() == 0,
    {
        let r = FinalAssignment { entries: Vec::new() };
        proof {
            assert(keys_of(r.entries@) =~= Seq::<Seq<char>>::empty());
        }
        r
    }

    /// Number of bindings.
    pub fn len(&self) -> (r: usize)
        ensures
            r == self.entries@.len(),
    {
        self.entries.len()
    }

    /// Whether a key is already bound.
    pub fn contains_key(&self, k: &Vec<char>) -> (r: bool)
        requires
            self.wf(),
        ensures
            r == self.as_map().dom().contains(k@),
    {
        proof {
            lemma_assign_map_entries(self.entries@);
        }
        let mut i: usize = 0;
        while i < self.entries.len()
            invariant
                i <= self.entries@.len(),
                forall|j: int| 0 <= j < i ==> (#[trigger] self.entries@[j]).key@ != k@,
                self.wf(),
            decreases self.entries@.len() - i,
        {
            let ks = str_chars(self.entries[i].key.as_str());
            if chars_eq(&ks, k) {
                proof {
                    assert(keys_of(self.entries@)[i as int] == self.entries@[i as int].key@);
                    assert(keys_of(self.entries@).contains(k@));
                    lemma_assign_map_entries(self.entries@);
                }
                return true;
            }
            i = i + 1;
        }
        proof {
            assert forall|kk: Seq<char>| keys_of(self.entries@).contains(kk) implies kk != k@ by {
                let j = choose|j: int|
                    0 <= j < keys_of(self.entries@).len() && keys_of(self.entries@)[j] == kk;
                assert(self.entries@[j].key@ != k@);
            }
            assert(!keys_of(self.entries@).contains(k@));
            lemma_assign_map_entries(self.entries@);
            assert(!self.as_map().dom().contains(k@));
        }
        false
    }

    /// Binds `key` to `input_path`; an existing binding of the same key
    /// is overwritten in place.
    #[verifier::loop_isolation(false)]
    pub fn insert(&mut self, key: Vec<char>, input_path: String)
        requires
            old(self).wf(),
        ensures
            final(self).wf(),
            final(self).as_map() == old(self).as_map().insert(key@, input_path@),
            final(self).entries@.len() <= old(self).entries@.len() + 1,
    {
        let ks = chars_string(&key);
        let ghost oes = self.entries@;
        let mut i: usize = 0;
        while i < self.entries.len()
            invariant
                i <= self.entries@.len(),
                self.entries@ == oes,
                forall|j: int| 0 <= j < i ==> (#[trigger] oes[j]).key@ != key@,
            decreases self.entries@.len() - i,
        {
            let es = str_chars(self.entries[i].key.as_str());
            if chars_eq(&es, &key) {
                self.entries[i] = Assignment { key: ks, input_path };
                proof {
                    let nes = self.entries@;
                    assert(nes[i as int].key@ == key@);
                    assert(oes[i as int].key@ == key@);
                    assert forall|j: int| 0 <= j < nes.len() implies keys_of(nes)[j] == keys_of(
                        oes,
                    )[j] by {
                        assert(keys_of(nes)[j] == nes[j].key@);
                        assert(keys_of(oes)[j] == oes[j].key@);
                    }
                    assert(keys_of(nes) =~= keys_of(oes));
                    lemma_assign_map_entries(oes);
                    lemma_assign_map_entries(nes);
                    let m1 = assign_map_of(nes);
                    let m2 = assign_map_of(oes).insert(key@, input_path@);
                    assert(keys_of(oes)[i as int] == key@);
                    assert(keys_of(oes).contains(key@));
                    assert forall|k: Seq<char>| m1.dom().contains(k) implies #[trigger] m2[k]
                        == m1[k] by {
                        assert(keys_of(nes).contains(k));
                        let j = choose|j: int|
                            0 <= j < keys_of(nes).len() && keys_of(nes)[j] == k;
                        assert(nes[j].key@ == k);
                        assert(m1[nes[j].key@] == nes[j].input_path@);
                        if k == key@ {
                            assert(keys_of(nes)[i as int] == key@);
                            assert(j == i as int);
                            assert(m1[k] == input_path@);
                        } else {
                            assert(j != i as int);
                            assert(nes[j] == oes[j]);
                            assert(assign_map_of(oes)[oes[j].key@] == oes[j].input_path@);
                            assert(m2[k] == assign_map_of(oes)[k]);
                        }
                    }
                    assert forall|k: Seq<char>| m1.dom().contains(k) implies m2.dom().contains(
                        k,
                    ) by {
                        assert(keys_of(oes).contains(k));
                    }
                    assert forall|k: Seq<char>| m2.dom().contains(k) implies m1.dom().contains(
                        k,
                    ) by {
                        if k != key@ {
                            assert(keys_of(oes).contains(k));
                        }
                        assert(keys_of(nes).contains(k));
                    }
                    assert(m1.dom() =~= m2.dom());
                    assert(m1 =~= m2);
                }
                return ;
            }
            i = i + 1;
        }
        proof {
            assert forall|kk: Seq<char>| keys_of(oes).contains(kk) implies kk != key@ by {
                let j = choose|j: int| 0 <= j < keys_of(oes).len() && keys_of(oes)[j] == kk;
                assert(oes[j].key@ != key@);
            }
        }
        self.entries.push(Assignment { key: ks, input_path });
        proof {
            assert(self.entries@.drop_last() =~= oes);
            assert(keys_of(self.entries@) =~= keys_of(oes).push(self.entries@.last().key@));
        }
    }

    /// The input path bound to `key`, if any.
    #[verifier::loop_isolation(false)]
    pub fn lookup(&self, key: &str) -> (r: Option<&String>)
        requires
            self.wf(),
        ensures
            match r {
                Some(p) => self.as_map().dom().contains(key@) && p@ == self.as_map()[key@],
                None => !self.as_map().dom().contains(key@),
            },
    {
        let kc = str_chars(key);
        let mut i: usize = 0;
        while i < self.entries.len()
            invariant
                i <= self.entries@.len(),
                kc@ == key@,
                forall|j: int| 0 <= j < i ==> (#[trigger] self.entries@[j]).key@ != key@,
            decreases self.entries@.len() - i,
        {
            let es = str_chars(self.entries[i].key.as_str());
            if chars_eq(&es, &kc) {
                proof {
                    lemma_assign_map_entries(self.entries@);
                    assert(keys_of(self.entries@)[i as int] == self.entries@[i as int].key@);
                    assert(keys_of(self.entries@).contains(key@));
                    assert(self.as_map()[self.entries@[i as int].key@] == self.entries@[
                        i as int
                    ].input_path@);
                }
                return Some(&self.entries[i].input_path);
            }
            i = i + 1;
        }
        proof {
            assert forall|kk: Seq<char>| keys_of(self.entries@).contains(kk) implies kk
                != key@ by {
                let j = choose|j: int|
                    0 <= j < keys_of(self.entries@).len() && keys_of(self.entries@)[j] == kk;
                assert(self.entries@[j].key@ != key@);
            }
            assert(!keys_of(self.entries@).contains(key@));
            lemma_assign_map_entries(self.entries@);
            assert(!self.as_map().dom().contains(key@));
        }
        None
    }
}

} // verus!
