//! The directory walker, as a verified state machine.  The caller performs
//! the file-system queries (classification, canonicalization, gold-file
//! checks) and feeds the answers back as events; every decision between
//! two queries is taken and verified here.

use vstd::prelude::*;
use crate::chars::chars_eq;
use crate::chars::chars_string;
use crate::chars::str_chars;
use crate::chars::subvec;
use crate::paths::ext_of;
use crate::paths::find_first_dot;
use crate::paths::lemma_first_dot_pos;
use crate::paths::stem_of;
use crate::pairs::DiscoveredPair;
use crate::pairs::PairSet;

verus! {

/// Why a discovery run failed.  Discovery fails fast: the first
/// structural problem aborts the whole walk.
pub enum DiscoveryError {
    /// An input file has no gold counterpart.
    MissingGoldFile { input_path: String, expected_gold_path: String },
    /// A directory's children could not be enumerated.
    DirectoryReadError { path: String },
    /// A path is neither a regular file nor a directory.
    InvalidPathError { path: String },
}

/// What the file system said about the entry the walker asked about.
pub enum FsEvent {
    /// The entry is a regular file; its canonical path is given.
    File { canonical_path: String },
    /// The entry is a directory with these direct children.
    Directory { children: Vec<String> },
    /// The entry is a directory whose children could not be read.
    DirectoryUnreadable,
    /// The entry is neither a regular file nor a directory.
    NotFileNorDirectory,
    /// The queried gold candidate is a regular file.
    GoldPresent,
    /// The queried gold candidate is missing or not a regular file.
    GoldAbsent,
}

/// What the walker asks for next, or how the walk ended.
pub enum WalkStep {
    /// Determine what kind of entry `path` is; canonicalize it if it is
    /// a regular file.
    Classify { path: String },
    /// Determine whether the gold candidate `path` is a regular file.
    CheckGold { path: String },
    /// The walk is complete; take the pairs with `into_pairs`.
    Done,
    /// The walk failed.
    Failed { error: DiscoveryError },
}

/// The walker's position between two queries.
pub enum WalkPhase {
    /// Waiting for the classification of this entry.
    Scanning { current: String },
    /// Waiting for the gold check of this candidate pair.
    Checking { candidate: DiscoveredPair },
    Finished,
    Failed,
}

/// Whether a canonical path names a candidate input file: the text from
/// the first dot of the whole path string onward is exactly the input
/// suffix.
pub open spec fn is_candidate(p: Seq<char>, input_suffix: Seq<char>) -> bool {
    ext_of(p) == input_suffix
}

/// The gold counterpart of a candidate: the text before the first dot,
/// with the gold suffix appended.
pub open spec fn gold_of(p: Seq<char>, gold_suffix: Seq<char>) -> Seq<char> {
    stem_of(p) + gold_suffix
}

/// How popping the next work item relates a walker to the step it
/// returns: the last entry of `todo0` is handed out for classification,
/// or the walk finishes if none is left.
pub open spec fn advanced(todo0: Seq<String>, w: Walker, r: WalkStep) -> bool {
    if todo0.len() == 0 {
        &&& w.todo@ == todo0
        &&& w.phase is Finished
        &&& r is Done
    } else {
        &&& w.todo@ == todo0.drop_last()
        &&& (w.phase matches WalkPhase::Scanning { current } && current@ == todo0.last()@)
        &&& (r matches WalkStep::Classify { path } && path@ == todo0.last()@)
    }
}

/// A depth-first walk over a directory tree, collecting fixture pairs.
pub struct Walker {
    pub input_suffix: String,
    pub gold_suffix: String,
    pub todo: Vec<String>,
    pub pairs: PairSet,
    pub phase: WalkPhase,
}

impl Walker {
    /// A recorded or pending pair is proper: the input is a candidate
    /// and the gold path was derived from it by suffix substitution.
    pub open spec fn pair_ok(self, input: Seq<char>, gold: Seq<char>) -> bool {
        &&& is_candidate(input, self.input_suffix@)
        &&& gold == gold_of(input, self.gold_suffix@)
    }

    /// Well-formedness: the collected pairs are keyed by distinct input
    /// paths and each one is proper, as is a pending candidate.
    pub open spec fn wf(self) -> bool {
        &&& self.pairs.wf()
        &&& forall|k: Seq<char>| #[trigger] self.pairs.as_map().dom().contains(k)
            ==> self.pair_ok(k, self.pairs.as_map()[k])
        &&& (self.phase matches WalkPhase::Checking { candidate }
            ==> self.pair_ok(candidate.input_path@, candidate.gold_path@))
    }

    /// Starts a walk at `root`; the caller must classify `root` and feed
    /// the event to `step`.
    pub fn new(root: String, input_suffix: String, gold_suffix: String) -> (r: Walker)
        ensures
            r.wf(),
            r.input_suffix@ == input_suffix@,
            r.gold_suffix@ == gold_suffix@,
            r.todo@ == Seq::<String>::empty(),
            r.pairs.as_map() == Map::<Seq<char>, Seq<char>>::empty(),
            r.pairs.input_seq() == Seq::<Seq<char>>::empty(),
            r.phase matches WalkPhase::Scanning { current } && current@ == root@,
    {
        let r = Walker {
            input_suffix,
            gold_suffix,
            todo: Vec::new(),
            pairs: PairSet::new(),
            phase: WalkPhase::Scanning { current: root },
        };
        proof {
            assert(r.todo@ =~= Seq::<String>::empty());
        }
        r
    }

    /// Pops the next work item, or finishes.
    fn advance(&mut self) -> (r: WalkStep)
        ensures
            final(self).input_suffix == old(self).input_suffix,
            final(self).gold_suffix == old(self).gold_suffix,
            final(self).pairs == old(self).pairs,
            advanced(old(self).todo@, *final(self), r),
    {
        match self.todo.pop() {
            Some(next) => {
                let handed = next.clone();
                self.phase = WalkPhase::Scanning { current: next };
                WalkStep::Classify { path: handed }
            },
            None => {
                self.phase = WalkPhase::Finished;
                WalkStep::Done
            },
        }
    }

    /// Feeds the walker the answer to its last query and takes the next
    /// decision.
    pub fn step(&mut self, event: FsEvent) -> (r: WalkStep)
        requires
            old(self).wf(),
            match old(self).phase {
                WalkPhase::Scanning { .. } => {
                    ||| event is File
                    ||| event is Directory
                    ||| event is DirectoryUnreadable
                    ||| event is NotFileNorDirectory
                },
                WalkPhase::Checking { .. } => event is GoldPresent || event is GoldAbsent,
                _ => false,
            },
        ensures
            final(self).wf(),
            final(self).input_suffix == old(self).input_suffix,
            final(self).gold_suffix == old(self).gold_suffix,
            match old(self).phase {
                WalkPhase::Scanning { current } => match event {
                    FsEvent::File { canonical_path } => {
                        if is_candidate(canonical_path@, old(self).input_suffix@) {
                            &&& final(self).pairs == old(self).pairs
                            &&& final(self).todo == old(self).todo
                            &&& (final(self).phase matches WalkPhase::Checking { candidate }
                                && candidate.input_path@ == canonical_path@
                                && candidate.gold_path@ == gold_of(
                                canonical_path@,
                                old(self).gold_suffix@,
                            ))
                            &&& (r matches WalkStep::CheckGold { path } && path@ == gold_of(
                                canonical_path@,
                                old(self).gold_suffix@,
                            ))
                        } else {
                            &&& final(self).pairs == old(self).pairs
                            &&& advanced(old(self).todo@, *final(self), r)
                        }
                    },
                    FsEvent::Directory { children } => {
                        &&& final(self).pairs == old(self).pairs
                        &&& advanced(old(self).todo@ + children@, *final(self), r)
                    },
                    FsEvent::DirectoryUnreadable => {
                        &&& final(self).pairs == old(self).pairs
                        &&& final(self).phase is Failed
                        &&& (r matches WalkStep::Failed {
                            error: DiscoveryError::DirectoryReadError { path },
                        } && path@ == current@)
                    },
                    FsEvent::NotFileNorDirectory => {
                        &&& final(self).pairs == old(self).pairs
                        &&& final(self).phase is Failed
                        &&& (r matches WalkStep::Failed {
                            error: DiscoveryError::InvalidPathError { path },
                        } && path@ == current@)
                    },
                    _ => true,
                },
                WalkPhase::Checking { candidate } => match event {
                    FsEvent::GoldPresent => {
                        &&& final(self).pairs.as_map() == old(self).pairs.as_map().insert(
                            candidate.input_path@,
                            candidate.gold_path@,
                        )
                        &&& final(self).pairs.input_seq() == (
                        if old(self).pairs.input_seq().contains(candidate.input_path@) {
                            old(self).pairs.input_seq()
                        } else {
                            old(self).pairs.input_seq().push(candidate.input_path@)
                        })
                        &&& advanced(old(self).todo@, *final(self), r)
                    },
                    FsEvent::GoldAbsent => {
                        &&& final(self).pairs == old(self).pairs
                        &&& final(self).phase is Failed
                        &&& (r matches WalkStep::Failed {
                            error: DiscoveryError::MissingGoldFile {
                                input_path,
                                expected_gold_path,
                            },
                        } && input_path@ == candidate.input_path@ && expected_gold_path@
                            == candidate.gold_path@)
                    },
                    _ => true,
                },
                _ => true,
            },
    {
        match event {
            FsEvent::File { canonical_path } => {
                let cs = str_chars(canonical_path.as_str());
                let dot = find_first_dot(&cs);
                proof {
                    lemma_first_dot_pos(cs@);
                }
                let ext = subvec(&cs, dot, cs.len());
                let isv = str_chars(self.input_suffix.as_str());
                if chars_eq(&ext, &isv) {
                    let stem = subvec(&cs, 0, dot);
                    let mut gsv = str_chars(self.gold_suffix.as_str());
                    let mut gold_chars = stem;
                    gold_chars.append(&mut gsv);
                    let gold = chars_string(&gold_chars);
                    let handed = gold.clone();
                    proof {
                        assert(gold@ == gold_of(canonical_path@, self.gold_suffix@));
                    }
                    self.phase = WalkPhase::Checking {
                        candidate: DiscoveredPair { input_path: canonical_path, gold_path: gold },
                    };
                    WalkStep::CheckGold { path: handed }
                } else {
                    proof {
                        assert(!is_candidate(canonical_path@, self.input_suffix@));
                    }
                    self.advance()
                }
            },
            FsEvent::Directory { mut children } => {
                self.todo.append(&mut children);
                self.advance()
            },
            FsEvent::DirectoryUnreadable => {
                let current: String = match &self.phase {
                    WalkPhase::Scanning { current } => current.clone(),
                    _ => vstd::pervasive::unreached(),
                };
                self.phase = WalkPhase::Failed;
                WalkStep::Failed { error: DiscoveryError::DirectoryReadError { path: current } }
            },
            FsEvent::NotFileNorDirectory => {
                let current: String = match &self.phase {
                    WalkPhase::Scanning { current } => current.clone(),
                    _ => vstd::pervasive::unreached(),
                };
                self.phase = WalkPhase::Failed;
                WalkStep::Failed { error: DiscoveryError::InvalidPathError { path: current } }
            },
            FsEvent::GoldPresent => {
                let candidate: DiscoveredPair = match &self.phase {
                    WalkPhase::Checking { candidate } => DiscoveredPair {
                        input_path: candidate.input_path.clone(),
                        gold_path: candidate.gold_path.clone(),
                    },
                    _ => vstd::pervasive::unreached(),
                };
                self.pairs.insert_pair(candidate.input_path, candidate.gold_path);
                self.advance()
            },
            FsEvent::GoldAbsent => {
                let candidate: DiscoveredPair = match &self.phase {
                    WalkPhase::Checking { candidate } => DiscoveredPair {
                        input_path: candidate.input_path.clone(),
                        gold_path: candidate.gold_path.clone(),
                    },
                    _ => vstd::pervasive::unreached(),
                };
                self.phase = WalkPhase::Failed;
                WalkStep::Failed {
                    error: DiscoveryError::MissingGoldFile {
                        input_path: candidate.input_path,
                        expected_gold_path: candidate.gold_path,
                    },
                }
            },
        }
    }

    /// The discovered pairs of a finished walk.
    pub fn into_pairs(self) -> (r: PairSet)
        requires
            self.phase is Finished,
        ensures
            r == self.pairs,
    {
        let Walker { pairs, .. } = self;
        pairs
    }
}

} // verus!
