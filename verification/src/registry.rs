//! The recording registry: a process-wide mapping from canonical recording
//! path to recording state.  The write side registers a recording when it
//! opens the file and removes it when its copy loop ends; followers consult
//! it to decide between waiting for more bytes and declaring end of stream.
//!
//! Callers hand in canonicalized paths; the registry compares them as plain
//! strings.

use vstd::prelude::*;
use vstd::pervasive::VecAdditionalExecFns;

verus! {

/// Why a registry operation was refused.
#[derive(Debug, Clone, Copy, PartialEq, Eq, Structural)]
pub enum RegistryError {
    /// The path is already being recorded.
    AlreadyRecording,
}

/// How a streaming request is to be served.
#[derive(Debug, Clone, Copy, PartialEq, Eq, Structural)]
pub enum AttachDecision {
    /// The recording has already finished: serve the file from disk.
    NotRecorded,
    /// A follower already trails this recording: attach to it.
    Existing,
    /// No follower yet: the caller must create one; the entry now carries it.
    Created,
}

struct RecordingEntry {
    path: String,
    has_follower: bool,
}

/// The registry.  Exactly one entry exists per active recording path.
pub struct Registry {
    entries: Vec<RecordingEntry>,
}

impl Registry {
    /// Whether `p` is an active recording.
    pub closed spec fn spec_contains(self, p: Seq<char>) -> bool {
        exists|i: int| 0 <= i < self.entries@.len() && (#[trigger] self.entries@[i]).path@ == p
    }

    /// Whether the active recording `p` has a follower attached.
    pub closed spec fn spec_has_follower(self, p: Seq<char>) -> bool {
        exists|i: int|
            0 <= i < self.entries@.len() && (#[trigger] self.entries@[i]).path@ == p
                && self.entries@[i].has_follower
    }

    /// Paths are unique: at most one entry per recording.
    pub closed spec fn wf(self) -> bool {
        forall|i: int, j: int|
            0 <= i < j < self.entries@.len() ==> (#[trigger] self.entries@[i]).path@ != (
            #[trigger] self.entries@[j]).path@
    }

    /// An empty registry.
    pub fn new() -> (r: Registry)
        ensures
            r.wf(),
            forall|p: Seq<char>| !r.spec_contains(p),
    {
        let r = Registry { entries: Vec::new() };
        proof {
            assert(r.entries@.len() == 0);
        }
        r
    }

    /// The index of `path`'s entry, if it is active.
    fn find(&self, path: &String) -> (r: Option<usize>)
        ensures
            match r {
                Some(i) => i < self.entries@.len() && self.entries@[i as int].path@ == path@,
                None => !self.spec_contains(path@),
            },
    {
        let mut i: usize = 0;
        while i < self.entries.len()
            invariant
                0 <= i <= self.entries@.len(),
                forall|j: int| 0 <= j < i ==> (#[trigger] self.entries@[j]).path@ != path@,
            decreases self.entries@.len() - i,
        {
            if self.entries[i].path == *path {
                return Some(i);
            }
            i = i + 1;
        }
        None
    }

    /// Whether `path` is an active recording.
    pub fn is_active(&self, path: &String) -> (r: bool)
        ensures
            r == self.spec_contains(path@),
    {
        self.find(path).is_some()
    }

    /// Register the start of a recording.  Fails, changing nothing, if and
    /// only if the path is already being recorded.
    pub fn start(&mut self, path: String) -> (r: Result<(), RegistryError>)
        requires
            old(self).wf(),
        ensures
            final(self).wf(),
            match r {
                Ok(()) => {
                    &&& !old(self).spec_contains(path@)
                    &&& final(self).spec_contains(path@)
                    &&& !final(self).spec_has_follower(path@)
                    &&& forall|q: Seq<char>|
                        q != path@ ==> #[trigger] final(self).spec_contains(q) == old(
                            self,
                        ).spec_contains(q) && final(self).spec_has_follower(q) == old(
                            self,
                        ).spec_has_follower(q)
                },
                Err(RegistryError::AlreadyRecording) => {
                    &&& old(self).spec_contains(path@)
                    &&& *final(self) == *old(self)
                },
            },
    {
        if self.find(&path).is_some() {
            return Err(RegistryError::AlreadyRecording);
        }
        let ghost pre = self.entries@;
        self.entries.push(RecordingEntry { path, has_follower: false });
        proof {
            assert(self.entries@[pre.len() as int].path@ == path@);
            assert forall|q: Seq<char>| q != path@ implies #[trigger] self.spec_contains(q) == old(
                self,
            ).spec_contains(q) && self.spec_has_follower(q) == old(self).spec_has_follower(
                q,
            ) by {
                if old(self).spec_contains(q) {
                    let w = choose|i: int|
                        0 <= i < pre.len() && (#[trigger] pre[i]).path@ == q;
                    assert(self.entries@[w].path@ == q);
                }
                if self.spec_contains(q) {
                    let w = choose|i: int|
                        0 <= i < self.entries@.len() && (#[trigger] self.entries@[i]).path@ == q;
                    assert(pre[w].path@ == q);
                }
                if old(self).spec_has_follower(q) {
                    let w = choose|i: int|
                        0 <= i < pre.len() && (#[trigger] pre[i]).path@ == q
                            && pre[i].has_follower;
                    assert(self.entries@[w].path@ == q && self.entries@[w].has_follower);
                }
                if self.spec_has_follower(q) {
                    let w = choose|i: int|
                        0 <= i < self.entries@.len() && (#[trigger] self.entries@[i]).path@ == q
                            && self.entries@[i].has_follower;
                    assert(pre[w].path@ == q && pre[w].has_follower);
                }
            }
        }
        Ok(())
    }

    /// Remove a recording, signalling its termination; idempotent.
    pub fn stop(&mut self, path: &String)
        requires
            old(self).wf(),
        ensures
            final(self).wf(),
            !final(self).spec_contains(path@),
            forall|q: Seq<char>|
                q != path@ ==> #[trigger] final(self).spec_contains(q) == old(
                    self,
                ).spec_contains(q) && final(self).spec_has_follower(q) == old(
                    self,
                ).spec_has_follower(q),
    {
        let ghost pre = self.entries@;
        match self.find(path) {
            Some(i) => {
                self.entries.remove(i);
                proof {
                    assert forall|q: Seq<char>| q != path@ implies #[trigger] self.spec_contains(
                        q,
                    ) == old(self).spec_contains(q) && self.spec_has_follower(q) == old(
                        self,
                    ).spec_has_follower(q) by {
                        if old(self).spec_contains(q) {
                            let w = choose|k: int|
                                0 <= k < pre.len() && (#[trigger] pre[k]).path@ == q;
                            let w2: int = if w < i { w } else { w - 1 };
                            assert(self.entries@[w2].path@ == q);
                        }
                        if self.spec_contains(q) {
                            let w = choose|k: int|
                                0 <= k < self.entries@.len() && (#[trigger] self.entries@[k]).path@
                                    == q;
                            let w2: int = if w < i { w } else { w + 1 };
                            assert(pre[w2].path@ == q);
                        }
                        if old(self).spec_has_follower(q) {
                            let w = choose|k: int|
                                0 <= k < pre.len() && (#[trigger] pre[k]).path@ == q
                                    && pre[k].has_follower;
                            let w2: int = if w < i { w } else { w - 1 };
                            assert(self.entries@[w2].path@ == q
                                && self.entries@[w2].has_follower);
                        }
                        if self.spec_has_follower(q) {
                            let w = choose|k: int|
                                0 <= k < self.entries@.len() && (#[trigger] self.entries@[k]).path@
                                    == q && self.entries@[k].has_follower;
                            let w2: int = if w < i { w } else { w + 1 };
                            assert(pre[w2].path@ == q && pre[w2].has_follower);
                        }
                    }
                    assert forall|k: int|
                        0 <= k < self.entries@.len() implies (#[trigger] self.entries@[k]).path@
                        != path@ by {
                        let k2: int = if k < i { k } else { k + 1 };
                        assert(pre[k2] == self.entries@[k]);
                    }
                }
            },
            None => {},
        }
    }

    /// Decide how to serve a streaming request for `path`: fall back to the
    /// file on disk when the recording is over, attach to the existing
    /// follower, or record that the caller is creating the first one.
    #[verifier::rlimit(50)]
    #[verifier::spinoff_prover]
    pub fn attach_or_create(&mut self, path: &String) -> (r: AttachDecision)
        requires
            old(self).wf(),
        ensures
            final(self).wf(),
            r is NotRecorded ==> !old(self).spec_contains(path@) && *final(self) == *old(self),
            r is Existing ==> old(self).spec_contains(path@) && old(self).spec_has_follower(
                path@,
            ) && *final(self) == *old(self),
            r is Created ==> old(self).spec_contains(path@) && !old(self).spec_has_follower(
                path@,
            ),
            r is Created ==> final(self).spec_contains(path@) && final(self).spec_has_follower(
                path@,
            ),
            r is Created ==> forall|q: Seq<char>|
                q != path@ ==> #[trigger] final(self).spec_contains(q) == old(
                    self,
                ).spec_contains(q) && final(self).spec_has_follower(q) == old(
                    self,
                ).spec_has_follower(q),
    {
        let ghost pre = self.entries@;
        match self.find(path) {
            None => AttachDecision::NotRecorded,
            Some(i) => {
                if self.entries[i].has_follower {
                    proof {
                        assert(self.spec_has_follower(path@));
                    }
                    AttachDecision::Existing
                } else {
                    self.mark_follower(i);
                    AttachDecision::Created
                }
            },
        }
    }

    /// Record that entry `i` now carries a follower.
    fn mark_follower(&mut self, i: usize)
        requires
            old(self).wf(),
            i < old(self).entries@.len(),
        ensures
            final(self).wf(),
            final(self).entries@.len() == old(self).entries@.len(),
            final(self).entries@[i as int].path@ == old(self).entries@[i as int].path@,
            final(self).entries@[i as int].has_follower,
            forall|k: int|
                0 <= k < old(self).entries@.len() && k != i ==> final(self).entries@[k] == old(
                    self,
                ).entries@[k],
            final(self).spec_contains(old(self).entries@[i as int].path@),
            final(self).spec_has_follower(old(self).entries@[i as int].path@),
            forall|q: Seq<char>|
                q != old(self).entries@[i as int].path@ ==> #[trigger] final(self).spec_contains(
                    q,
                ) == old(self).spec_contains(q) && final(self).spec_has_follower(q) == old(
                    self,
                ).spec_has_follower(q),
    {
        let ghost pre = self.entries@;
        let ghost p = self.entries@[i as int].path@;
        let p2 = self.entries[i].path.clone();
        let mut e2 = RecordingEntry { path: p2, has_follower: true };
        self.entries.set_and_swap(i, &mut e2);
        proof {
            assert(self.entries@[i as int].path@ == p);
            assert(self.entries@[i as int].has_follower);
            assert forall|q: Seq<char>| q != p implies #[trigger] self.spec_contains(q) == old(
                self,
            ).spec_contains(q) && self.spec_has_follower(q) == old(self).spec_has_follower(
                q,
            ) by {
                if old(self).spec_contains(q) {
                    let w = choose|k: int| 0 <= k < pre.len() && (#[trigger] pre[k]).path@ == q;
                    assert(self.entries@[w].path@ == q);
                }
                if self.spec_contains(q) {
                    let w = choose|k: int|
                        0 <= k < self.entries@.len() && (#[trigger] self.entries@[k]).path@ == q;
                    assert(pre[w].path@ == q);
                }
                if old(self).spec_has_follower(q) {
                    let w = choose|k: int|
                        0 <= k < pre.len() && (#[trigger] pre[k]).path@ == q && pre[k].has_follower;
                    assert(self.entries@[w].path@ == q && self.entries@[w].has_follower);
                }
                if self.spec_has_follower(q) {
                    let w = choose|k: int|
                        0 <= k < self.entries@.len() && (#[trigger] self.entries@[k]).path@ == q
                            && self.entries@[k].has_follower;
                    assert(pre[w].path@ == q && pre[w].has_follower);
                }
            }
            assert forall|a: int, b: int|
                0 <= a < b < self.entries@.len() implies (#[trigger] self.entries@[a]).path@ != (
            #[trigger] self.entries@[b]).path@ by {
                assert(pre[a].path@ == self.entries@[a].path@);
                assert(pre[b].path@ == self.entries@[b].path@);
            }
        }
    }
}

} // verus!
