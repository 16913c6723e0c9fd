//! The comparison of indexed files with the head commit, record by record: what
//! to read next of Git's answers, and what each of them says.
use vstd::prelude::*;
use vstd::string::*;
use crate::drift;
use crate::drift::FilesBehind;
use crate::drift_scan;
use crate::drift_scan::{batch_requests, judge, set_aside_unaskable, Candidate, CandidateView, Verdict};
use crate::text;
use crate::text::same;

verus! {

/// What the comparison waits for.
#[derive(Debug, Clone, Copy, PartialEq, Eq, Structural)]
pub enum Stage {
    /// The first line of a candidate's record.
    Header,
    /// That a payload has been passed over.
    Skipping,
    /// The hash of a payload.
    Hashing,
    /// Nothing more.
    Over,
}

/// What follows the first line of a record.
#[derive(Debug, Clone, Copy, PartialEq, Eq, Structural)]
pub enum Payload {
    Nothing,
    /// This many bytes and a line end, to pass over.
    Skip(u64),
    /// This many bytes, to hash, and a line end.
    Read(u64),
}

/// A comparison under way.
#[derive(Debug)]
pub struct Comparison {
    pub candidates: Vec<Candidate>,
    /// The candidate whose record is next.
    pub at: usize,
    pub behind: FilesBehind,
    pub stage: Stage,
}

/// One more affected path.
pub open spec fn noted(before: FilesBehind, after: FilesBehind, path: Seq<char>) -> bool {
    &&& after.count == before.count + 1
    &&& after.bounded == before.bounded
    &&& text::views(after.sample@) == (if before.sample@.len() < drift::DRIFT_SAMPLE {
        text::views(before.sample@).push(path)
    } else {
        text::views(before.sample@)
    })
    &&& before.wf() ==> after.wf()
}

/// One more affected path, or none.
pub open spec fn noted_if(before: FilesBehind, after: FilesBehind, path: Seq<char>, affected: bool) -> bool {
    if affected {
        noted(before, after, path)
    } else {
        after == before
    }
}

/// The verdict on a candidate by the first line of its record.
pub open spec fn verdict_on(c: Candidate, line: Seq<char>, indexable: u64) -> Verdict {
    drift_scan::judged(
        drift_scan::batch_header(text::without_trailing(line, '\n')),
        c.hash is Some,
        indexable as nat,
    )
}

impl Comparison {
    /// The candidates left to judge cannot overflow the count.
    pub open spec fn wf(self) -> bool {
        &&& self.at <= self.candidates@.len()
        &&& match self.stage {
            Stage::Header => self.behind.count + (self.candidates@.len() - self.at) <= usize::MAX,
            Stage::Skipping => {
                &&& self.at < self.candidates@.len()
                &&& self.behind.count + (self.candidates@.len() - self.at) <= usize::MAX + 1
            },
            Stage::Hashing => {
                &&& self.at < self.candidates@.len()
                &&& self.candidates@[self.at as int].hash is Some
                &&& self.behind.count + (self.candidates@.len() - self.at) <= usize::MAX
            },
            Stage::Over => true,
        }
    }

    /// The comparison stopped short, so its count is a lower bound.
    pub open spec fn cut(self) -> Comparison {
        Comparison {
            behind: FilesBehind { bounded: true, ..self.behind },
            stage: Stage::Over,
            ..self
        }
    }

    /// Begins with some candidates. Those that cannot be asked for count as
    /// affected at once.
    pub fn begin(candidates: Vec<Candidate>, behind: FilesBehind) -> (out: Comparison)
        requires
            behind.count + candidates@.len() <= usize::MAX,
        ensures
            out.wf(),
            out.stage == Stage::Header,
            out.at == 0,
            ({
                let all = text::views(candidates@);
                let unaskable = all.filter(|c: CandidateView| !drift_scan::askable(c.path));
                &&& text::views(out.candidates@) == all.filter(|c: CandidateView| drift_scan::askable(c.path))
                &&& out.behind.count == behind.count + unaskable.len()
                &&& text::views(out.behind.sample@) == drift_scan::sampled(
                    text::views(behind.sample@),
                    unaskable,
                )
                &&& out.behind.bounded == behind.bounded
                &&& behind.wf() ==> out.behind.wf()
            }),
    {
        broadcast use text::group_views;
        let ghost all = text::views(candidates@);
        let mut behind = behind;
        let askable = set_aside_unaskable(candidates, &mut behind);
        proof {
            lemma_two_parts(all);
            assert(text::views(askable@).len() == askable@.len());
        }
        Comparison { candidates: askable, at: 0, behind, stage: Stage::Header }
    }

    /// The requests that ask Git for every record, in order.
    pub fn requests(&self, head: &str) -> (out: String)
        ensures
            out@ == drift_scan::requested(head@, text::views(self.candidates@)),
    {
        batch_requests(head, &self.candidates)
    }

    /// Whether another record is to be read. Out of time, the comparison stops
    /// short.
    pub fn wants_record(&mut self, passed: bool) -> (r: bool)
        requires
            old(self).wf(),
        ensures
            final(self).wf(),
            r == (old(self).stage is Header && old(self).at < old(self).candidates@.len() && !passed),
            *final(self) == (if old(self).stage is Header && old(self).at < old(self).candidates@.len() && passed {
                old(self).cut()
            } else if old(self).stage is Header && old(self).at == old(self).candidates@.len() {
                Comparison { stage: Stage::Over, ..*old(self) }
            } else {
                *old(self)
            }),
    {
        match self.stage {
            Stage::Header => {
                if self.at >= self.candidates.len() {
                    self.stage = Stage::Over;
                    false
                } else if passed {
                    self.stop();
                    false
                } else {
                    true
                }
            },
            _ => false,
        }
    }

    fn stop(&mut self)
        requires
            old(self).at <= old(self).candidates@.len(),
        ensures
            *final(self) == old(self).cut(),
    {
        self.behind.bounded = true;
        self.stage = Stage::Over;
    }

    fn note(&mut self)
        requires
            old(self).at < old(self).candidates@.len(),
            old(self).behind.count < usize::MAX,
        ensures
            noted(old(self).behind, final(self).behind, old(self).candidates@[old(self).at as int].path@),
            *final(self) == (Comparison { behind: final(self).behind, ..*old(self) }),
    {
        let path = self.candidates[self.at].path.clone();
        self.behind.record(path.as_str());
    }

    /// Takes the first line of the next record, or its absence.
    pub fn take_header(&mut self, line: Option<&str>, indexable: u64) -> (out: Payload)
        requires
            old(self).wf(),
            old(self).stage is Header,
            old(self).at < old(self).candidates@.len(),
        ensures
            final(self).wf(),
            line is None ==> out == Payload::Nothing && *final(self) == old(self).cut(),
            line matches Some(l) ==> {
                let c = old(self).candidates@[old(self).at as int];
                match verdict_on(c, l@, indexable) {
                    Verdict::Absent { affected } => {
                        &&& out == Payload::Nothing
                        &&& noted_if(old(self).behind, final(self).behind, c.path@, affected)
                        &&& *final(self) == (Comparison {
                            at: (old(self).at + 1) as usize,
                            behind: final(self).behind,
                            ..*old(self)
                        })
                    },
                    Verdict::Skip { affected, size } => {
                        &&& out == Payload::Skip(size)
                        &&& noted_if(old(self).behind, final(self).behind, c.path@, affected)
                        &&& *final(self) == (Comparison {
                            stage: Stage::Skipping,
                            behind: final(self).behind,
                            ..*old(self)
                        })
                    },
                    Verdict::Read { size } => {
                        &&& out == Payload::Read(size)
                        &&& *final(self) == (Comparison { stage: Stage::Hashing, ..*old(self) })
                    },
                }
            },
    {
        let line = match line {
            None => {
                self.stop();
                return Payload::Nothing;
            },
            Some(line) => line,
        };
        let indexed = self.candidates[self.at].hash.is_some();
        match judge(line, indexed, indexable) {
            Verdict::Absent { affected } => {
                if affected {
                    self.note();
                }
                let n: usize = self.candidates.len();
                assert(self.at < n);
                self.at = self.at + 1;
                Payload::Nothing
            },
            Verdict::Skip { affected, size } => {
                if affected {
                    self.note();
                }
                self.stage = Stage::Skipping;
                Payload::Skip(size)
            },
            Verdict::Read { size } => {
                self.stage = Stage::Hashing;
                Payload::Read(size)
            },
        }
    }

    /// Takes whether a payload could be passed over.
    pub fn take_skipped(&mut self, whole: bool)
        requires
            old(self).wf(),
            old(self).stage is Skipping,
        ensures
            final(self).wf(),
            *final(self) == (if whole {
                Comparison { at: (old(self).at + 1) as usize, stage: Stage::Header, ..*old(self) }
            } else {
                old(self).cut()
            }),
    {
        if whole {
            let n: usize = self.candidates.len();
            assert(self.at < n);
            self.at = self.at + 1;
            self.stage = Stage::Header;
        } else {
            self.stop();
        }
    }

    /// Takes the hash of a payload, if it could be read. Content that hashes
    /// otherwise than what was indexed is affected.
    pub fn take_hash(&mut self, hash: Option<&str>)
        requires
            old(self).wf(),
            old(self).stage is Hashing,
        ensures
            final(self).wf(),
            hash is None ==> *final(self) == old(self).cut(),
            hash matches Some(h) ==> {
                let c = old(self).candidates@[old(self).at as int];
                &&& noted_if(old(self).behind, final(self).behind, c.path@, h@ != c.hash->0@)
                &&& *final(self) == (Comparison {
                    at: (old(self).at + 1) as usize,
                    stage: Stage::Header,
                    behind: final(self).behind,
                    ..*old(self)
                })
            },
    {
        match hash {
            None => self.stop(),
            Some(h) => {
                let differs = match &self.candidates[self.at].hash {
                    Some(stored) => !same(h, stored.as_str()),
                    None => false,
                };
                if differs {
                    self.note();
                }
                let n: usize = self.candidates.len();
                assert(self.at < n);
                self.at = self.at + 1;
                self.stage = Stage::Header;
            },
        }
    }
}

proof fn lemma_two_parts(all: Seq<CandidateView>)
    ensures
        all.filter(|c: CandidateView| drift_scan::askable(c.path)).len() + all.filter(
            |c: CandidateView| !drift_scan::askable(c.path),
        ).len() == all.len(),
    decreases all.len(),
{
    reveal(Seq::filter);
    if all.len() > 0 {
        lemma_two_parts(all.drop_last());
    }
}

/// Whether a record that was read whole says that a candidate is affected.
/// `hash` is that of its payload.
pub open spec fn affected(c: Candidate, line: Seq<char>, hash: Seq<char>, indexable: u64) -> bool {
    match verdict_on(c, line, indexable) {
        Verdict::Absent { affected } => affected,
        Verdict::Skip { affected, .. } => affected,
        Verdict::Read { .. } => hash != c.hash->0@,
    }
}

/// A file is behind if and only if indexing again could change what the index
/// holds of it. An indexed file that the commit no longer carries is behind,
/// and so is one whose content differs or cannot be compared. A file that was
/// never indexed is behind where the commit carries a blob of an indexable size.
pub proof fn law_behind_means_worth_indexing(c: Candidate, line: Seq<char>, hash: Seq<char>, indexable: u64)
    ensures
        affected(c, line, hash, indexable) <==> match (
            drift_scan::batch_header(text::without_trailing(line, '\n')),
            c.hash,
        ) {
            (None, stored) => stored is Some,
            (Some((blob, size)), Some(stored)) => !blob || size > drift::MAX_DRIFT_BLOB_BYTES || hash
                != stored@,
            (Some((blob, size)), None) => blob && size <= indexable,
        },
{
}

} // verus!
