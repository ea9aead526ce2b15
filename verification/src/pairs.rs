//! The set of discovered fixture pairs, keyed by canonical input path.

use vstd::prelude::*;

verus! {

/// One discovered fixture pair: the canonical path of an input file and
/// the path of its gold counterpart.
pub struct DiscoveredPair {
    pub input_path: String,
    pub gold_path: String,
}

/// The input paths of a pair sequence, in entry order.
pub open spec fn inputs_of(ps: Seq<DiscoveredPair>) -> Seq<Seq<char>> {
    ps.map_values(|p: DiscoveredPair| p.input_path@)
}

/// The mapping a pair sequence denotes; a later entry shadows an earlier
/// one with the same input path.
pub open spec fn pair_map_of(ps: Seq<DiscoveredPair>) -> Map<Seq<char>, Seq<char>>
    decreases ps.len(),
{
    if ps.len() == 0 {
        Map::<Seq<char>, Seq<char>>::empty()
    } else {
        pair_map_of(ps.drop_last()).insert(ps.last().input_path@, ps.last().gold_path@)
    }
}

/// With no duplicate input paths, the mapping has exactly one entry per
/// pair in the sequence.
pub proof fn lemma_pair_map_entries(ps: Seq<DiscoveredPair>)
    requires
        inputs_of(ps).no_duplicates(),
    ensures
        forall|k: Seq<char>|
            pair_map_of(ps).dom().contains(k) <==> inputs_of(ps).contains(k),
        forall|i: int|
            0 <= i < ps.len() ==> pair_map_of(ps)[(#[trigger] ps[i]).input_path@]
                == ps[i].gold_path@,
    decreases ps.len(),
{
    if ps.len() > 0 {
        let dl = ps.drop_last();
        assert(inputs_of(dl) =~= inputs_of(ps).drop_last());
        lemma_pair_map_entries(dl);
        assert(inputs_of(ps)[ps.len() - 1] == ps.last().input_path@);
        assert forall|k: Seq<char>|
            pair_map_of(ps).dom().contains(k) <==> inputs_of(ps).contains(k) by {
            if inputs_of(ps).contains(k) {
                let i = choose|i: int| 0 <= i < inputs_of(ps).len() && inputs_of(ps)[i] == k;
                if i < ps.len() - 1 {
                    assert(inputs_of(dl)[i] == k);
                    assert(inputs_of(dl).contains(k));
                }
            }
            if pair_map_of(ps).dom().contains(k) {
                if k != ps.last().input_path@ {
                    assert(inputs_of(dl).contains(k));
                    let i = choose|i: int| 0 <= i < inputs_of(dl).len() && inputs_of(dl)[i] == k;
                    assert(inputs_of(ps)[i] == inputs_of(dl)[i]);
                    assert(inputs_of(ps).contains(k));
                }
            }
        }
        assert forall|i: int| 0 <= i < ps.len() implies pair_map_of(ps)[
            (#[trigger] ps[i]).input_path@
        ] == ps[i].gold_path@ by {
            if i < ps.len() - 1 {
                assert(dl[i] == ps[i]);
                assert(inputs_of(ps)[i] == ps[i].input_path@);
                assert(ps[i].input_path@ != ps.last().input_path@);
                assert(pair_map_of(dl)[dl[i].input_path@] == dl[i].gold_path@);
            }
        }
    }
}

/// A set of discovered pairs; no two entries share an input path.
pub struct PairSet {
    pub pairs: Vec<DiscoveredPair>,
}

impl PairSet {
    /// Well-formedness: input paths are pairwise distinct.
    pub open spec fn wf(self) -> bool {
        inputs_of(self.pairs@).no_duplicates()
    }

    /// The discovered mapping from input path to gold path.
    pub open spec fn as_map(self) -> Map<Seq<char>, Seq<char>> {
        pair_map_of(self.pairs@)
    }

    /// The input paths, in entry order.
    pub open spec fn input_seq(self) -> Seq<Seq<char>> {
        inputs_of(self.pairs@)
    }

    /// An empty pair set.
    pub fn new() -> (r: PairSet)
        ensures
            r.wf(),
            r.as_map() == Map::<Seq<char>, Seq<char>>::empty(),
            r.input_seq() == Seq::<Seq<char>>::empty(),
    {
        let r = PairSet { pairs: Vec::new() };
        proof {
            assert(inputs_of(r.pairs@) =~= Seq::<Seq<char>>::empty());
        }
        r
    }

    /// Number of discovered pairs.
    pub fn len(&self) -> (r: usize)
        ensures
            r == self.pairs@.len(),
    {
        self.pairs.len()
    }

    /// Records a pair; an existing entry with the same input path is
    /// replaced in place.
    #[verifier::loop_isolation(false)]
    pub fn insert_pair(&mut self, input_path: String, gold_path: String)
        requires
            old(self).wf(),
        ensures
            final(self).wf(),
            final(self).as_map() == old(self).as_map().insert(input_path@, gold_path@),
            final(self).input_seq() == if old(self).input_seq().contains(input_path@) {
                old(self).input_seq()
            } else {
                old(self).input_seq().push(input_path@)
            },
    {
        let ghost ops = self.pairs@;
        let ghost key = input_path@;
        let ghost gval = gold_path@;
        let mut i: usize = 0;
        while i < self.pairs.len()
            invariant
                i <= self.pairs@.len(),
                self.pairs@ == ops,
                inputs_of(ops).no_duplicates(),
                input_path@ == key,
                gold_path@ == gval,
                forall|k: int| 0 <= k < i ==> ops[k].input_path@ != key,
            decreases self.pairs@.len() - i,
        {
            if self.pairs[i].input_path == input_path {
                self.pairs[i] = DiscoveredPair { input_path, gold_path };
                proof {
                    let nps = self.pairs@;
                    assert(nps == ops.update(i as int, DiscoveredPair {
                        input_path: self.pairs[i as int].input_path,
                        gold_path: self.pairs[i as int].gold_path,
                    }));
                    assert(nps[i as int].input_path@ == key);
                    assert(nps[i as int].gold_path@ == gval);
                    assert(ops[i as int].input_path@ == key);
                    assert forall|j: int| 0 <= j < nps.len() implies inputs_of(nps)[j]
                        == inputs_of(ops)[j] by {
                        assert(inputs_of(nps)[j] == nps[j].input_path@);
                        assert(inputs_of(ops)[j] == ops[j].input_path@);
                    }
                    assert(inputs_of(nps) =~= inputs_of(ops));
                    lemma_pair_map_entries(ops);
                    lemma_pair_map_entries(nps);
                    let m1 = pair_map_of(nps);
                    let m2 = pair_map_of(ops).insert(key, gval);
                    assert(inputs_of(ops)[i as int] == key);
                    assert(inputs_of(ops).contains(key));
                    assert forall|k: Seq<char>| m1.dom().contains(k) implies #[trigger] m2[k]
                        == m1[k] by {
                        assert(inputs_of(nps).contains(k));
                        let j = choose|j: int|
                            0 <= j < inputs_of(nps).len() && inputs_of(nps)[j] == k;
                        assert(nps[j].input_path@ == k);
                        assert(m1[nps[j].input_path@] == nps[j].gold_path@);
                        if k == key {
                            assert(inputs_of(nps)[i as int] == key);
                            assert(j == i as int);
                            assert(m1[k] == gval);
                        } else {
                            assert(j != i as int);
                            assert(nps[j] == ops[j]);
                            assert(pair_map_of(ops)[ops[j].input_path@] == ops[j].gold_path@);
                            assert(m2[k] == pair_map_of(ops)[k]);
                        }
                    }
                    assert forall|k: Seq<char>| m1.dom().contains(k) implies m2.dom().contains(
                        k,
                    ) by {
                        assert(inputs_of(ops).contains(k));
                    }
                    assert forall|k: Seq<char>| m2.dom().contains(k) implies m1.dom().contains(
                        k,
                    ) by {
                        if k != key {
                            assert(inputs_of(ops).contains(k));
                        }
                        assert(inputs_of(nps).contains(k));
                    }
                    assert(m1.dom() =~= m2.dom());
                    assert(m1 =~= m2);
                }
                return ;
            }
            i = i + 1;
        }
        proof {
            assert forall|k: Seq<char>| inputs_of(ops).contains(k) implies k != input_path@ by {
                let j = choose|j: int| 0 <= j < inputs_of(ops).len() && inputs_of(ops)[j] == k;
                assert(ops[j].input_path@ != input_path@);
            }
        }
        self.pairs.push(DiscoveredPair { input_path, gold_path });
        proof {
            assert(self.pairs@.drop_last() =~= ops);
            assert(inputs_of(self.pairs@) =~= inputs_of(ops).push(
                self.pairs@.last().input_path@,
            ));
        }
    }

    /// The gold path recorded for the given input path, if any.
    #[verifier::loop_isolation(false)]
    pub fn lookup(&self, input_path: &String) -> (r: Option<&String>)
        requires
            self.wf(),
        ensures
            match r {
                Some(g) => self.as_map().dom().contains(input_path@) && g@ == self.as_map()[
                    input_path@
                ],
                None => !self.as_map().dom().contains(input_path@),
            },
    {
        proof {
            lemma_pair_map_entries(self.pairs@);
        }
        let mut i: usize = 0;
        while i < self.pairs.len()
            invariant
                i <= self.pairs@.len(),
                forall|k: int| 0 <= k < i ==> (#[trigger] self.pairs@[k]).input_path@
                    != input_path@,
                inputs_of(self.pairs@).no_duplicates(),
            decreases self.pairs@.len() - i,
        {
            if self.pairs[i].input_path == *input_path {
                proof {
                    lemma_pair_map_entries(self.pairs@);
                    assert(inputs_of(self.pairs@)[i as int] == self.pairs@[
                        i as int
                    ].input_path@);
                    assert(inputs_of(self.pairs@).contains(input_path@));
                    assert(self.as_map()[self.pairs@[i as int].input_path@] == self.pairs@[
                        i as int
                    ].gold_path@);
                }
                return Some(&self.pairs[i].gold_path);
            }
            i = i + 1;
        }
        proof {
            assert forall|k: Seq<char>| inputs_of(self.pairs@).contains(k)
                implies k != input_path@ by {
                let j = choose|j: int|
                    0 <= j < inputs_of(self.pairs@).len() && inputs_of(self.pairs@)[j] == k;
                assert(self.pairs@[j].input_path@ != input_path@);
            }
            assert(!inputs_of(self.pairs@).contains(input_path@));
            lemma_pair_map_entries(self.pairs@);
            assert(!self.as_map().dom().contains(input_path@));
        }
        None
    }
}

} // verus!
