//! The follower: the per-recording worker that trails the growing file,
//! materializes whole Clusters, and fans them out to subscribers.
//!
//! The core is a state machine stepped with what the reading side observed:
//! a parsed tag, a tail EOF together with whether the recording is still
//! active, or a corrupt tag.  The caller performs the waiting, reopening and
//! reseeking the steps ask for; every decision — publish, wait, finish,
//! fail — is taken here.

use vstd::prelude::*;
use crate::encode::{
    encodable_tags, rebase_tags, spec_encode_cluster_body, spec_encode_tags, wf_cluster,
    EncodeError, SubscriberWriter,
};
use crate::ebml::vint_all_ones;
use crate::parse::{tag_views, valid_prelude, HeaderSnapshot};
use vstd::pervasive::VecAdditionalExecFns;
use crate::tags::{is_cluster_end, is_cluster_start, tag_is_cluster_end, tag_is_cluster_start, Tag, TagView};

verus! {

/// Where the follower stands in its cluster loop.
#[derive(Debug, Clone, Copy, PartialEq, Eq, Structural)]
pub enum FollowerPhase {
    /// The next read must yield the Cluster opening at the cursor.
    AwaitClusterStart,
    /// Children of the current Cluster are being accumulated.
    InCluster,
    /// The current Cluster's End was seen; the next tag is peeked to
    /// confirm the Cluster was fully flushed before it is published.
    AwaitNext,
    /// Graceful end of stream: the last whole Cluster has been handed out.
    Done,
    /// Corrupt stream or ill-formed tag order; no further Clusters.
    Failed,
}

/// What the reading side observed.
#[derive(Debug)]
pub enum FollowerEvent {
    /// The scanner yielded a tag; the second field is the offset at which
    /// the tag started, relative to where the scanner was opened.
    Tag(Tag, usize),
    /// The scanner ran out of bytes mid-tag; `active` reports whether the
    /// registry still lists the recording as being written.
    TailEof { active: bool },
    /// The scanner found a malformed id or size.
    Corrupt,
}

/// What the caller must do next.
#[derive(Debug)]
pub enum FollowerAction {
    /// Keep reading from the same scanner.
    Advance,
    /// Wait for the file to grow, append the freshly flushed bytes to the
    /// same scanner, and retry the very same read; nothing was consumed and
    /// the cursor has not moved.
    Wait,
    /// A whole Cluster is confirmed flushed: forward it to every
    /// subscriber, then reopen at the (already advanced) cursor.
    Publish { cluster: Vec<Tag> },
    /// The recording is over and this is its final whole Cluster: forward
    /// it, then the stream is done.
    PublishLast { cluster: Vec<Tag> },
    /// The recording is over with no Cluster pending: the stream is done.
    Finish,
    /// The stream is corrupt or ill-formed; stop following it.
    Fail,
}

/// How the caller must obtain the next tag after a step.  Re-creating a
/// scanner at the cursor after a mere wait would re-read the current
/// Cluster's opening and either fail the follower or publish the buffered
/// Cluster twice; the tail-recovery discipline is: grow the same scanner
/// and retry, and reopen at the cursor only once a Cluster was published
/// and the cursor has moved past it.
#[derive(Debug, Clone, Copy, PartialEq, Eq, Structural)]
pub enum ReadPlan {
    /// Keep reading from the same scanner.
    SameScanner,
    /// Sleep until the file may have grown, append the freshly flushed
    /// bytes to the same scanner with `extend`, and retry the same read.
    ExtendAndRetry,
    /// The cursor has advanced past the published Cluster: reopen the file
    /// there and scan with a fresh scanner.
    ReopenAtCursor,
    /// The stream is over or failed; read nothing further.
    Stop,
}

/// The read the follower's loop must perform after `last`.
pub fn next_read(last: &FollowerAction) -> (r: ReadPlan)
    ensures
        (r is SameScanner) <==> (last is Advance),
        (r is ExtendAndRetry) <==> (last is Wait),
        (r is ReopenAtCursor) <==> (last is Publish),
        (r is Stop) <==> (last is PublishLast || last is Finish || last is Fail),
{
    match last {
        FollowerAction::Advance => ReadPlan::SameScanner,
        FollowerAction::Wait => ReadPlan::ExtendAndRetry,
        FollowerAction::Publish { cluster: _ } => ReadPlan::ReopenAtCursor,
        FollowerAction::PublishLast { cluster: _ } => ReadPlan::Stop,
        FollowerAction::Finish => ReadPlan::Stop,
        FollowerAction::Fail => ReadPlan::Stop,
    }
}

/// The follower's loop state: its phase, the Cluster being accumulated,
/// and the absolute file offset of the next Cluster to consume.
pub struct FollowerCore {
    phase: FollowerPhase,
    cluster_buf: Vec<Tag>,
    cursor: u64,
}

impl FollowerCore {
    /// The phase.
    pub closed spec fn spec_phase(self) -> FollowerPhase {
        self.phase
    }

    /// The Cluster accumulated so far.
    pub closed spec fn spec_buf(self) -> Seq<Tag> {
        self.cluster_buf@
    }

    /// The absolute file offset of the next Cluster to consume.
    pub closed spec fn spec_cursor(self) -> int {
        self.cursor as int
    }

    /// In `InCluster` the buffer is an open Cluster; in `AwaitNext` it is a
    /// whole one, ready to publish.
    pub open spec fn wf(self) -> bool {
        &&& (self.spec_phase() is InCluster ==> {
            let vs = tag_views(self.spec_buf());
            &&& vs.len() >= 1
            &&& is_cluster_start(vs[0])
            &&& forall|i: int| 1 <= i < vs.len() ==> (vs[i] is Timestamp || vs[i] is Leaf)
        })
        &&& (self.spec_phase() is AwaitNext ==> wf_cluster(tag_views(self.spec_buf())))
    }

    /// A follower about to read the Cluster at absolute offset `cursor`.
    pub fn new(cursor: u64) -> (r: FollowerCore)
        ensures
            r.wf(),
            r.spec_phase() is AwaitClusterStart,
            r.spec_buf() == Seq::<Tag>::empty(),
            r.spec_cursor() == cursor,
    {
        let r = FollowerCore { phase: FollowerPhase::AwaitClusterStart, cluster_buf: Vec::new(), cursor };
        proof {
            assert(r.cluster_buf@ =~= Seq::<Tag>::empty());
        }
        r
    }

    /// The phase, for the caller's loop.
    pub fn phase(&self) -> (r: FollowerPhase)
        ensures
            r == self.spec_phase(),
    {
        self.phase
    }

    /// The absolute offset at which the caller must reopen the file.
    pub fn cursor(&self) -> (r: u64)
        ensures
            r == self.spec_cursor(),
    {
        self.cursor
    }

    /// Take one step.  Every transition of the cluster loop is stated here:
    /// what is consumed, when a Cluster is published, when the caller must
    /// wait, and when the stream ends or fails.
    pub fn step(&mut self, event: FollowerEvent) -> (r: FollowerAction)
        requires
            old(self).wf(),
            !(old(self).spec_phase() is Done),
            !(old(self).spec_phase() is Failed),
            event matches FollowerEvent::Tag(_, off) ==> old(self).spec_cursor() + off
                <= u64::MAX,
        ensures
            final(self).wf(),
            match event {
                FollowerEvent::Tag(t, off) => {
                    if old(self).spec_phase() is AwaitClusterStart {
                        if is_cluster_start(t@) {
                            &&& r is Advance
                            &&& final(self).spec_phase() is InCluster
                            &&& tag_views(final(self).spec_buf()) == seq![t@]
                            &&& final(self).spec_cursor() == old(self).spec_cursor()
                        } else {
                            &&& r is Fail
                            &&& final(self).spec_phase() is Failed
                        }
                    } else if old(self).spec_phase() is InCluster {
                        if is_cluster_end(t@) {
                            &&& r is Advance
                            &&& final(self).spec_phase() is AwaitNext
                            &&& tag_views(final(self).spec_buf()) == tag_views(
                                old(self).spec_buf(),
                            ).push(t@)
                            &&& final(self).spec_cursor() == old(self).spec_cursor()
                        } else if t@ is Timestamp || t@ is Leaf {
                            &&& r is Advance
                            &&& final(self).spec_phase() is InCluster
                            &&& tag_views(final(self).spec_buf()) == tag_views(
                                old(self).spec_buf(),
                            ).push(t@)
                            &&& final(self).spec_cursor() == old(self).spec_cursor()
                        } else {
                            &&& r is Fail
                            &&& final(self).spec_phase() is Failed
                        }
                    } else {
                        if is_cluster_start(t@) {
                            &&& r matches FollowerAction::Publish { cluster }
                                && tag_views(cluster@) == tag_views(old(self).spec_buf())
                                && wf_cluster(tag_views(cluster@))
                            &&& final(self).spec_phase() is AwaitClusterStart
                            &&& final(self).spec_buf() == Seq::<Tag>::empty()
                            &&& final(self).spec_cursor() == old(self).spec_cursor() + off
                        } else {
                            &&& r is Fail
                            &&& final(self).spec_phase() is Failed
                        }
                    }
                },
                FollowerEvent::TailEof { active } => {
                    if active {
                        &&& r is Wait
                        &&& *final(self) == *old(self)
                    } else if old(self).spec_phase() is AwaitNext {
                        &&& r matches FollowerAction::PublishLast { cluster }
                            && tag_views(cluster@) == tag_views(old(self).spec_buf())
                            && wf_cluster(tag_views(cluster@))
                        &&& final(self).spec_phase() is Done
                        &&& final(self).spec_buf() == Seq::<Tag>::empty()
                        &&& final(self).spec_cursor() == old(self).spec_cursor()
                    } else {
                        &&& r is Finish
                        &&& final(self).spec_phase() is Done
                        &&& final(self).spec_cursor() == old(self).spec_cursor()
                    }
                },
                FollowerEvent::Corrupt => {
                    &&& r is Fail
                    &&& final(self).spec_phase() is Failed
                    &&& final(self).spec_cursor() == old(self).spec_cursor()
                },
            },
    {
        match event {
            FollowerEvent::Tag(t, off) => {
                match self.phase {
                    FollowerPhase::AwaitClusterStart => {
                        if tag_is_cluster_start(&t) {
                            self.cluster_buf = Vec::new();
                            self.cluster_buf.push(t);
                            self.phase = FollowerPhase::InCluster;
                            proof {
                                assert(tag_views(self.cluster_buf@) =~= seq![
                                    tag_views(self.cluster_buf@)[0],
                                ]);
                            }
                            FollowerAction::Advance
                        } else {
                            self.phase = FollowerPhase::Failed;
                            FollowerAction::Fail
                        }
                    },
                    FollowerPhase::InCluster => {
                        if tag_is_cluster_end(&t) {
                            let ghost pre = tag_views(self.cluster_buf@);
                            let ghost tv = t@;
                            self.cluster_buf.push(t);
                            self.phase = FollowerPhase::AwaitNext;
                            proof {
                                assert(tag_views(self.cluster_buf@) =~= pre.push(tv));
                            }
                            FollowerAction::Advance
                        } else {
                            let keep = match &t {
                                Tag::Timestamp(_) => true,
                                Tag::Leaf(_, _) => true,
                                _ => false,
                            };
                            if keep {
                                let ghost pre = tag_views(self.cluster_buf@);
                                let ghost tv = t@;
                                self.cluster_buf.push(t);
                                proof {
                                    assert(tag_views(self.cluster_buf@) =~= pre.push(tv));
                                }
                                FollowerAction::Advance
                            } else {
                                self.phase = FollowerPhase::Failed;
                                FollowerAction::Fail
                            }
                        }
                    },
                    _ => {
                        if tag_is_cluster_start(&t) {
                            let mut cluster: Vec<Tag> = Vec::new();
                            std::mem::swap(&mut cluster, &mut self.cluster_buf);
                            self.phase = FollowerPhase::AwaitClusterStart;
                            self.cursor = self.cursor + off as u64;
                            proof {
                                assert(self.cluster_buf@ =~= Seq::<Tag>::empty());
                            }
                            FollowerAction::Publish { cluster }
                        } else {
                            self.phase = FollowerPhase::Failed;
                            FollowerAction::Fail
                        }
                    },
                }
            },
            FollowerEvent::TailEof { active } => {
                if active {
                    FollowerAction::Wait
                } else {
                    match self.phase {
                        FollowerPhase::AwaitNext => {
                            let mut cluster: Vec<Tag> = Vec::new();
                            std::mem::swap(&mut cluster, &mut self.cluster_buf);
                            self.phase = FollowerPhase::Done;
                            proof {
                                assert(self.cluster_buf@ =~= Seq::<Tag>::empty());
                            }
                            FollowerAction::PublishLast { cluster }
                        },
                        _ => {
                            self.phase = FollowerPhase::Done;
                            FollowerAction::Finish
                        },
                    }
                }
            },
            FollowerEvent::Corrupt => {
                self.phase = FollowerPhase::Failed;
                FollowerAction::Fail
            },
        }
    }
}

/// Selects how the shared file handle is reopened at a reseek: the
/// follower reopens for reading, the write side for appending.
pub trait ReadOrWrite {
    /// Whether the handle reopens for reading.
    fn is_read(&self) -> bool;
}

/// Reopen the shared file handle for reading.
pub struct Read;

impl ReadOrWrite for Read {
    fn is_read(&self) -> bool {
        true
    }
}

/// Reopen the shared file handle for appending.
pub struct Write;

impl ReadOrWrite for Write {
    fn is_read(&self) -> bool {
        false
    }
}

/// The interior of a whole Cluster: everything between its opening and its
/// closing marker.
pub open spec fn spec_cluster_interior(c: Seq<TagView>) -> Seq<TagView> {
    c.subrange(1, c.len() - 1)
}

/// Whether a subscriber whose timestamp origin is `off` can forward `c`.
pub open spec fn spec_can_forward(off: Option<int>, c: Seq<TagView>) -> bool {
    let (reb, _) = rebase_tags(spec_cluster_interior(c), off);
    &&& encodable_tags(reb)
    &&& spec_encode_tags(reb).len() < vint_all_ones(8)
}

/// The bytes a subscriber whose timestamp origin is `off` emits for `c`.
pub open spec fn spec_cluster_bytes(off: Option<int>, c: Seq<TagView>) -> Seq<u8> {
    spec_encode_cluster_body(rebase_tags(spec_cluster_interior(c), off).0)
}

/// The whole byte run a subscriber emits for a run of published Clusters,
/// starting from timestamp origin `off`, and the origin it ends with.
pub open spec fn spec_forward_clusters(cs: Seq<Seq<TagView>>, off: Option<int>) -> (
    Seq<u8>,
    Option<int>,
)
    decreases cs.len(),
{
    if cs.len() == 0 {
        (Seq::<u8>::empty(), off)
    } else {
        let (reb, off1) = rebase_tags(spec_cluster_interior(cs.first()), off);
        let (rest, off2) = spec_forward_clusters(cs.drop_first(), off1);
        (spec_encode_cluster_body(reb) + rest, off2)
    }
}

/// Forwarding one more Cluster appends that Cluster's bytes.
pub proof fn lemma_forward_snoc(cs: Seq<Seq<TagView>>, c: Seq<TagView>, off: Option<int>)
    ensures
        ({
            let (b1, o1) = spec_forward_clusters(cs, off);
            spec_forward_clusters(cs.push(c), off) == (
                b1 + spec_cluster_bytes(o1, c),
                rebase_tags(spec_cluster_interior(c), o1).1,
            )
        }),
    decreases cs.len(),
{
    reveal_with_fuel(spec_forward_clusters, 3);
    if cs.len() == 0 {
        assert(cs.push(c).drop_first() =~= Seq::<Seq<TagView>>::empty());
        assert(cs.push(c).first() == c);
        let (reb, off1) = rebase_tags(spec_cluster_interior(c), off);
        assert(spec_encode_cluster_body(reb) + Seq::<u8>::empty() =~= spec_encode_cluster_body(
            reb,
        ));
        assert(Seq::<u8>::empty() + spec_encode_cluster_body(reb) =~= spec_encode_cluster_body(
            reb,
        ));
    } else {
        let off1 = rebase_tags(spec_cluster_interior(cs.first()), off).1;
        lemma_forward_snoc(cs.drop_first(), c, off1);
        assert(cs.push(c).drop_first() =~= cs.drop_first().push(c));
        assert(cs.push(c).first() == cs.first());
        let b0 = spec_encode_cluster_body(rebase_tags(spec_cluster_interior(cs.first()), off).0);
        let (b1, o1) = spec_forward_clusters(cs.drop_first(), off1);
        assert(b0 + (b1 + spec_cluster_bytes(o1, c)) =~= (b0 + b1) + spec_cluster_bytes(o1, c));
    }
}

/// The fan-out: the captured header snapshot and the writers of every
/// attached subscriber, with the published history kept alongside in ghost
/// form so that what each subscriber has received can be stated exactly.
pub struct Fanout {
    header: HeaderSnapshot,
    subs: Vec<SubscriberWriter>,
    attach: Ghost<Seq<int>>,
    history: Ghost<Seq<Seq<TagView>>>,
}

impl Fanout {
    /// The prelude every subscriber receives first.
    pub closed spec fn spec_header_views(self) -> Seq<TagView> {
        tag_views(self.header.tags@)
    }

    /// Every Cluster published so far, in order.
    pub closed spec fn spec_history(self) -> Seq<Seq<TagView>> {
        self.history@
    }

    /// How many subscribers are attached.
    pub closed spec fn spec_sub_count(self) -> int {
        self.subs@.len() as int
    }

    /// The publish count at which subscriber `i` attached: it receives
    /// exactly the Clusters published from that point on.
    pub closed spec fn spec_attach_at(self, i: int) -> int {
        self.attach@[i]
    }

    /// Every byte subscriber `i` has been handed, drained or not.
    pub closed spec fn spec_sub_emitted(self, i: int) -> Seq<u8> {
        self.subs@[i].spec_emitted()
    }

    /// Subscriber `i`'s bytes not yet drained into its channel.
    pub closed spec fn spec_sub_pending(self, i: int) -> Seq<u8> {
        self.subs@[i].spec_out()
    }

    /// Subscriber `i`'s timestamp origin.
    pub closed spec fn spec_sub_offset(self, i: int) -> Option<int> {
        self.subs@[i].spec_offset()
    }

    /// The Clusters subscriber `i` has received: the published history from
    /// its attach point on.
    pub open spec fn spec_sub_clusters(self, i: int) -> Seq<Seq<TagView>> {
        self.spec_history().subrange(self.spec_attach_at(i), self.spec_history().len() as int)
    }

    /// Every subscriber's whole output is the encoded prelude followed by
    /// the encodings of exactly the whole Clusters published since it
    /// attached, rebased to its own origin.
    pub closed spec fn wf(self) -> bool {
        &&& self.attach@.len() == self.subs@.len()
        &&& valid_prelude(self.spec_header_views())
        &&& forall|k: int| 0 <= k < self.history@.len() ==> wf_cluster(#[trigger] self.history@[k])
        &&& forall|i: int|
            0 <= i < self.subs@.len() ==> {
                &&& 0 <= #[trigger] self.attach@[i] <= self.history@.len()
                &&& self.subs@[i].spec_emitted() == spec_encode_tags(self.spec_header_views())
                    + spec_forward_clusters(self.spec_sub_clusters(i), None).0
                &&& self.subs@[i].spec_offset() == spec_forward_clusters(
                    self.spec_sub_clusters(i),
                    None,
                ).1
            }
    }

    /// A fan-out for a captured header with nobody attached yet.
    pub fn new(header: HeaderSnapshot) -> (r: Fanout)
        requires
            valid_prelude(tag_views(header.tags@)),
        ensures
            r.wf(),
            r.spec_header_views() == tag_views(header.tags@),
            r.spec_sub_count() == 0,
            r.spec_history() == Seq::<Seq<TagView>>::empty(),
    {
        Fanout {
            header,
            subs: Vec::new(),
            attach: Ghost(Seq::empty()),
            history: Ghost(Seq::empty()),
        }
    }

    /// How many subscribers are attached.
    pub fn subscriber_count(&self) -> (r: usize)
        ensures
            r == self.spec_sub_count(),
    {
        self.subs.len()
    }

    /// Attach a new subscriber: replay the header to it and register it to
    /// receive every Cluster published from now on.  Returns its index.
    pub fn attach(&mut self) -> (r: Result<usize, EncodeError>)
        requires
            old(self).wf(),
        ensures
            final(self).wf(),
            final(self).spec_history() == old(self).spec_history(),
            final(self).spec_header_views() == old(self).spec_header_views(),
            match r {
                Ok(ix) => {
                    &&& encodable_tags(old(self).spec_header_views())
                    &&& ix == old(self).spec_sub_count()
                    &&& final(self).spec_sub_count() == old(self).spec_sub_count() + 1
                    &&& final(self).spec_attach_at(ix as int) == old(self).spec_history().len()
                    &&& final(self).spec_sub_emitted(ix as int) == spec_encode_tags(
                        old(self).spec_header_views(),
                    )
                    &&& forall|i: int|
                        0 <= i < old(self).spec_sub_count() ==> {
                            &&& final(self).spec_sub_emitted(i) == old(self).spec_sub_emitted(i)
                            &&& final(self).spec_sub_pending(i) == old(self).spec_sub_pending(i)
                            &&& final(self).spec_attach_at(i) == old(self).spec_attach_at(i)
                        }
                },
                Err(_) => {
                    &&& !encodable_tags(old(self).spec_header_views())
                    &&& *final(self) == *old(self)
                },
            },
    {
        let mut w = SubscriberWriter::new();
        match w.write_header(&self.header) {
            Ok(()) => {},
            Err(_e) => {
                return Err(_e);
            },
        }
        let ix = self.subs.len();
        let ghost n = self.history@.len() as int;
        self.subs.push(w);
        proof {
            self.attach@ = self.attach@.push(n);
            assert(self.spec_sub_clusters(ix as int) =~= Seq::<Seq<TagView>>::empty());
            assert(spec_encode_tags(self.spec_header_views()) + Seq::<u8>::empty()
                =~= spec_encode_tags(self.spec_header_views()));
            assert forall|i: int| 0 <= i < self.subs@.len() implies {
                &&& 0 <= #[trigger] self.attach@[i] <= self.history@.len()
                &&& self.subs@[i].spec_emitted() == spec_encode_tags(self.spec_header_views())
                    + spec_forward_clusters(self.spec_sub_clusters(i), None).0
                &&& self.subs@[i].spec_offset() == spec_forward_clusters(
                    self.spec_sub_clusters(i),
                    None,
                ).1
            } by {
                if i < ix {
                    assert(self.subs@[i] == old(self).subs@[i]);
                    assert(self.spec_sub_clusters(i) =~= old(self).spec_sub_clusters(i));
                }
            }
        }
        Ok(ix)
    }

    /// Drain subscriber `i`'s pending bytes, to be pushed into its channel.
    pub fn drain(&mut self, i: usize) -> (r: Vec<u8>)
        requires
            old(self).wf(),
            i < old(self).spec_sub_count(),
        ensures
            final(self).wf(),
            r@ == old(self).spec_sub_pending(i as int),
            final(self).spec_sub_pending(i as int) == Seq::<u8>::empty(),
            final(self).spec_history() == old(self).spec_history(),
            final(self).spec_header_views() == old(self).spec_header_views(),
            final(self).spec_sub_count() == old(self).spec_sub_count(),
            forall|j: int|
                0 <= j < old(self).spec_sub_count() ==> {
                    &&& final(self).spec_sub_emitted(j) == old(self).spec_sub_emitted(j)
                    &&& final(self).spec_attach_at(j) == old(self).spec_attach_at(j)
                    &&& (j != i ==> final(self).spec_sub_pending(j) == old(self).spec_sub_pending(
                        j,
                    ))
                },
    {
        let mut w = SubscriberWriter::new();
        self.subs.set_and_swap(i, &mut w);
        let bytes = w.take_bytes();
        self.subs.set_and_swap(i, &mut w);
        proof {
            assert(self.subs@ =~= old(self).subs@.update(
                i as int,
                self.subs@[i as int],
            ));
            assert forall|j: int| 0 <= j < self.subs@.len() implies {
                &&& 0 <= #[trigger] self.attach@[j] <= self.history@.len()
                &&& self.subs@[j].spec_emitted() == spec_encode_tags(self.spec_header_views())
                    + spec_forward_clusters(self.spec_sub_clusters(j), None).0
                &&& self.subs@[j].spec_offset() == spec_forward_clusters(
                    self.spec_sub_clusters(j),
                    None,
                ).1
            } by {
                assert(self.spec_sub_clusters(j) =~= old(self).spec_sub_clusters(j));
                if j != i {
                    assert(self.subs@[j] == old(self).subs@[j]);
                }
            }
        }
        bytes
    }

    /// Remove subscriber `i` — its consumer has gone away.  Everyone else
    /// is untouched and continues to receive every published Cluster.
    pub fn remove_subscriber(&mut self, i: usize)
        requires
            old(self).wf(),
            i < old(self).spec_sub_count(),
        ensures
            final(self).wf(),
            final(self).spec_sub_count() == old(self).spec_sub_count() - 1,
            final(self).spec_history() == old(self).spec_history(),
            final(self).spec_header_views() == old(self).spec_header_views(),
            forall|j: int|
                0 <= j < i ==> {
                    &&& final(self).spec_sub_emitted(j) == old(self).spec_sub_emitted(j)
                    &&& final(self).spec_sub_pending(j) == old(self).spec_sub_pending(j)
                    &&& final(self).spec_attach_at(j) == old(self).spec_attach_at(j)
                },
            forall|j: int|
                i <= j < old(self).spec_sub_count() - 1 ==> {
                    &&& final(self).spec_sub_emitted(j) == old(self).spec_sub_emitted(j + 1)
                    &&& final(self).spec_sub_pending(j) == old(self).spec_sub_pending(j + 1)
                    &&& final(self).spec_attach_at(j) == old(self).spec_attach_at(j + 1)
                },
    {
        self.subs.remove(i);
        proof {
            self.attach@ = self.attach@.remove(i as int);
            assert forall|j: int| 0 <= j < self.subs@.len() implies {
                &&& 0 <= #[trigger] self.attach@[j] <= self.history@.len()
                &&& self.subs@[j].spec_emitted() == spec_encode_tags(self.spec_header_views())
                    + spec_forward_clusters(self.spec_sub_clusters(j), None).0
                &&& self.subs@[j].spec_offset() == spec_forward_clusters(
                    self.spec_sub_clusters(j),
                    None,
                ).1
            } by {
                let jj: int = if j < i { j } else { j + 1 };
                assert(self.subs@[j] == old(self).subs@[jj]);
                assert(self.attach@[j] == old(self).attach@[jj]);
                assert(self.spec_sub_clusters(j) =~= old(self).spec_sub_clusters(jj));
            }
        }
    }

    /// Detach every subscriber, as stopping the stream does.
    pub fn clear(&mut self)
        requires
            old(self).wf(),
        ensures
            final(self).wf(),
            final(self).spec_sub_count() == 0,
            final(self).spec_history() == old(self).spec_history(),
            final(self).spec_header_views() == old(self).spec_header_views(),
    {
        self.subs.clear();
        proof {
            self.attach@ = Seq::<int>::empty();
        }
    }

    /// Whether every attached subscriber can forward `cluster`.
    fn all_can_forward(&self, cluster: &Vec<Tag>) -> (r: bool)
        requires
            self.wf(),
            wf_cluster(tag_views(cluster@)),
        ensures
            r == forall|i: int|
                0 <= i < self.spec_sub_count() ==> spec_can_forward(
                    #[trigger] self.spec_sub_offset(i),
                    tag_views(cluster@),
                ),
    {
        let mut i: usize = 0;
        while i < self.subs.len()
            invariant
                self.wf(),
                wf_cluster(tag_views(cluster@)),
                0 <= i <= self.subs@.len(),
                forall|j: int|
                    0 <= j < i ==> spec_can_forward(
                        #[trigger] self.spec_sub_offset(j),
                        tag_views(cluster@),
                    ),
            decreases self.subs@.len() - i,
        {
            if !self.subs[i].can_write_cluster(cluster) {
                proof {
                    assert(!spec_can_forward(self.spec_sub_offset(i as int), tag_views(cluster@)));
                }
                return false;
            }
            proof {
                assert(spec_can_forward(self.spec_sub_offset(i as int), tag_views(cluster@)));
            }
            i = i + 1;
        }
        true
    }

    /// Publish one whole Cluster to every subscriber, all of them or none:
    /// each gets the Cluster rebased against its own origin, appended to its
    /// own stream, independent of how far any other subscriber has been
    /// drained.
    pub fn publish(&mut self, cluster: &Vec<Tag>) -> (r: Result<(), EncodeError>)
        requires
            old(self).wf(),
            wf_cluster(tag_views(cluster@)),
        ensures
            match r {
                Ok(()) => {
                    &&& final(self).wf()
                    &&& final(self).spec_history() == old(self).spec_history().push(
                        tag_views(cluster@),
                    )
                    &&& final(self).spec_header_views() == old(self).spec_header_views()
                    &&& final(self).spec_sub_count() == old(self).spec_sub_count()
                    &&& forall|i: int|
                        0 <= i < old(self).spec_sub_count() ==> {
                            &&& final(self).spec_sub_emitted(i) == old(self).spec_sub_emitted(i)
                                + spec_cluster_bytes(
                                old(self).spec_sub_offset(i),
                                tag_views(cluster@),
                            )
                            &&& final(self).spec_attach_at(i) == old(self).spec_attach_at(i)
                        }
                },
                Err(_) => {
                    &&& *final(self) == *old(self)
                    &&& exists|i: int|
                        0 <= i < old(self).spec_sub_count() && !spec_can_forward(
                            old(self).spec_sub_offset(i),
                            tag_views(cluster@),
                        )
                },
            },
    {
        if !self.all_can_forward(cluster) {
            return Err(EncodeError::Oversize);
        }
        let ghost views = tag_views(cluster@);
        let mut i: usize = 0;
        while i < self.subs.len()
            invariant
                wf_cluster(views),
                views == tag_views(cluster@),
                self.subs@.len() == old(self).subs@.len(),
                self.attach == old(self).attach,
                self.history == old(self).history,
                self.header == old(self).header,
                old(self).wf(),
                0 <= i <= self.subs@.len(),
                forall|j: int|
                    0 <= j < old(self).spec_sub_count() ==> spec_can_forward(
                        #[trigger] old(self).spec_sub_offset(j),
                        views,
                    ),
                forall|j: int|
                    i <= j < self.subs@.len() ==> self.subs@[j] == old(self).subs@[j],
                forall|j: int|
                    0 <= j < i ==> {
                        &&& (#[trigger] self.subs@[j]).spec_emitted() == old(
                            self,
                        ).subs@[j].spec_emitted() + spec_cluster_bytes(
                            old(self).subs@[j].spec_offset(),
                            views,
                        )
                        &&& self.subs@[j].spec_offset() == rebase_tags(
                            spec_cluster_interior(views),
                            old(self).subs@[j].spec_offset(),
                        ).1
                        &&& self.subs@[j].spec_out() == old(self).subs@[j].spec_out()
                            + spec_cluster_bytes(old(self).subs@[j].spec_offset(), views)
                    },
            decreases self.subs@.len() - i,
        {
            let mut w = SubscriberWriter::new();
            let ghost pre = self.subs@[i as int];
            self.subs.set_and_swap(i, &mut w);
            proof {
                assert(w == old(self).subs@[i as int]);
                assert(spec_can_forward(old(self).spec_sub_offset(i as int), views));
            }
            let res = w.write_cluster(cluster);
            self.subs.set_and_swap(i, &mut w);
            match res {
                Ok(()) => {},
                Err(e) => {
                    proof {
                        assert(false);
                    }
                    return Err(e);
                },
            }
            i = i + 1;
        }
        proof {
            let old_hist = self.history@;
            self.history@ = self.history@.push(views);
            assert forall|j: int| 0 <= j < self.subs@.len() implies {
                &&& 0 <= #[trigger] self.attach@[j] <= self.history@.len()
                &&& self.subs@[j].spec_emitted() == spec_encode_tags(self.spec_header_views())
                    + spec_forward_clusters(self.spec_sub_clusters(j), None).0
                &&& self.subs@[j].spec_offset() == spec_forward_clusters(
                    self.spec_sub_clusters(j),
                    None,
                ).1
            } by {
                let a = self.attach@[j];
                assert(self.spec_sub_clusters(j) =~= old_hist.subrange(
                    a,
                    old_hist.len() as int,
                ).push(views));
                lemma_forward_snoc(old_hist.subrange(a, old_hist.len() as int), views, None);
                let (b1, o1) = spec_forward_clusters(
                    old_hist.subrange(a, old_hist.len() as int),
                    None,
                );
                assert((spec_encode_tags(self.spec_header_views()) + b1) + spec_cluster_bytes(
                    o1,
                    views,
                ) =~= spec_encode_tags(self.spec_header_views()) + (b1 + spec_cluster_bytes(
                    o1,
                    views,
                )));
            }
        }
        Ok(())
    }
}

/// The tags of a run of Cluster interiors, flattened in order.
pub open spec fn concat_interiors(cs: Seq<Seq<TagView>>) -> Seq<TagView>
    decreases cs.len(),
{
    if cs.len() == 0 {
        Seq::<TagView>::empty()
    } else {
        spec_cluster_interior(cs.first()) + concat_interiors(cs.drop_first())
    }
}

/// The rebased tags of a run of Cluster interiors, threading one origin
/// through all of them, exactly as a subscriber's writer does.
pub open spec fn rebased_interiors(cs: Seq<Seq<TagView>>, off: Option<int>) -> (
    Seq<TagView>,
    Option<int>,
)
    decreases cs.len(),
{
    if cs.len() == 0 {
        (Seq::<TagView>::empty(), off)
    } else {
        let (r0, o1) = rebase_tags(spec_cluster_interior(cs.first()), off);
        let (rest, o2) = rebased_interiors(cs.drop_first(), o1);
        (r0 + rest, o2)
    }
}

/// Rebasing distributes over concatenation, threading the origin.
pub proof fn lemma_rebase_concat(a: Seq<TagView>, b: Seq<TagView>, off: Option<int>)
    ensures
        ({
            let (ra, o1) = rebase_tags(a, off);
            let (rb, o2) = rebase_tags(b, o1);
            rebase_tags(a + b, off) == (ra + rb, o2)
        }),
    decreases a.len(),
{
    reveal_with_fuel(rebase_tags, 3);
    if a.len() == 0 {
        assert(a + b =~= b);
        assert(rebase_tags(a, off).0 =~= Seq::<TagView>::empty());
        assert(Seq::<TagView>::empty() + rebase_tags(b, off).0 =~= rebase_tags(b, off).0);
    } else {
        let (t0, o0) = crate::encode::rebase_one(a.first(), off);
        lemma_rebase_concat(a.drop_first(), b, o0);
        assert((a + b).first() == a.first());
        assert((a + b).drop_first() =~= a.drop_first() + b);
        let (ra2, o1) = rebase_tags(a.drop_first(), o0);
        let (rb, o2) = rebase_tags(b, o1);
        assert(seq![t0] + (ra2 + rb) =~= (seq![t0] + ra2) + rb);
    }
}

/// Rebasing Cluster by Cluster, as the subscriber writer does, rebases the
/// flattened run of all their interiors in one pass.
pub proof fn lemma_rebased_interiors_flatten(cs: Seq<Seq<TagView>>, off: Option<int>)
    ensures
        rebased_interiors(cs, off) == rebase_tags(concat_interiors(cs), off),
    decreases cs.len(),
{
    if cs.len() > 0 {
        let (r0, o1) = rebase_tags(spec_cluster_interior(cs.first()), off);
        lemma_rebased_interiors_flatten(cs.drop_first(), o1);
        lemma_rebase_concat(
            spec_cluster_interior(cs.first()),
            concat_interiors(cs.drop_first()),
            off,
        );
    }
}

/// Timestamp rebasing, seen by a whole consumer: over everything inside
/// the Clusters a subscriber receives — whose Timestamps the follower
/// produced in non-decreasing order — the rebased run its writer emits has
/// its first Timestamp at zero and never decreases afterwards, and the
/// cluster-by-cluster rebasing equals rebasing that flat run once.
pub proof fn lemma_consumer_timestamps(f: Fanout, i: int)
    requires
        f.wf(),
        0 <= i < f.spec_sub_count(),
        ({
            let flat = concat_interiors(f.spec_sub_clusters(i));
            forall|a: int, b: int|
                0 <= a < b < flat.len() && flat[a] is Timestamp && flat[b] is Timestamp
                    ==> flat[a]->Timestamp_0 <= flat[b]->Timestamp_0
        }),
    ensures
        ({
            let flat = concat_interiors(f.spec_sub_clusters(i));
            let out = rebase_tags(flat, None).0;
            &&& rebased_interiors(f.spec_sub_clusters(i), None).0 == out
            &&& out.len() == flat.len()
            &&& forall|a: int|
                #![trigger out[a]]
                (0 <= a < flat.len() && flat[a] is Timestamp && (forall|k: int|
                    0 <= k < a ==> !(flat[k] is Timestamp))) ==> out[a] == TagView::Timestamp(0)
            &&& forall|a: int, b: int|
                #![trigger out[a], out[b]]
                (0 <= a < b < flat.len() && flat[a] is Timestamp && flat[b] is Timestamp)
                    ==> out[a]->Timestamp_0 <= out[b]->Timestamp_0
        }),
{
    lemma_rebased_interiors_flatten(f.spec_sub_clusters(i), None);
    crate::encode::lemma_timestamp_rebasing(concat_interiors(f.spec_sub_clusters(i)));
}

/// Late-joiner validity at the byte level: run a consumer's whole output
/// back through this library's own header scan and it reproduces exactly
/// the header snapshot, with the cursor at the first Cluster it received —
/// the output is a self-contained stream a fresh reader can attach to.
pub proof fn lemma_consumer_prelude_replays(f: Fanout, i: int)
    requires
        f.wf(),
        0 <= i < f.spec_sub_count(),
        crate::encode::encodable_tags(f.spec_header_views()),
        f.spec_sub_clusters(i).len() >= 1,
        f.spec_sub_emitted(i).len() <= usize::MAX,
        ({
            let reb = rebase_tags(spec_cluster_interior(f.spec_sub_clusters(i)[0]), None).0;
            &&& forall|k: int|
                0 <= k < reb.len() ==> crate::parse::scannable_child(#[trigger] reb[k])
            &&& spec_encode_tags(reb).len() < vint_all_ones(8)
        }),
    ensures
        crate::parse::spec_capture_file(f.spec_sub_emitted(i)) == Ok::<
            (Seq<TagView>, int),
            crate::parse::HeaderError,
        >((f.spec_header_views(), spec_encode_tags(f.spec_header_views()).len() as int)),
{
    let b = f.spec_sub_emitted(i);
    let hs = f.spec_header_views();
    let hdr = spec_encode_tags(hs);
    let h = hdr.len() as int;
    let cs = f.spec_sub_clusters(i);
    let reb = rebase_tags(spec_cluster_interior(cs[0]), None).0;
    let cb = spec_encode_cluster_body(reb);
    let fwd = spec_forward_clusters(cs, None).0;
    assert(cs[0] == cs.first());
    assert(fwd == cb + spec_forward_clusters(cs.drop_first(), rebase_tags(
        spec_cluster_interior(cs[0]),
        None,
    ).1).0);
    assert(b == hdr + fwd);
    assert(b.subrange(0, h) =~= hdr);
    assert(b.subrange(h, h + cb.len() as int) =~= cb) by {
        assert forall|j: int| 0 <= j < cb.len() implies #[trigger] b.subrange(
            h,
            h + cb.len() as int,
        )[j] == cb[j] by {
            assert(b[h + j] == fwd[j]);
            assert(fwd[j] == cb[j]);
        }
    }
    let seg_stack = seq![
        crate::parse::OpenMaster { id: crate::tags::ID_SEGMENT, end: None },
    ];
    assert(!crate::parse::spec_header_breaks().contains(crate::tags::ID_CLUSTER)) by {
        assert(forall|k: int|
            0 <= k < 3 ==> crate::parse::spec_header_breaks()[k] != crate::tags::ID_CLUSTER);
    }
    crate::parse::lemma_encoded_cluster_scans_back(
        b,
        h,
        reb,
        seg_stack,
        crate::parse::spec_header_breaks(),
    );
    assert(crate::parse::spec_next(b, h, seg_stack, crate::parse::spec_header_breaks())
        matches Ok((t, _, _)) && is_cluster_start(t)) by {
        reveal_with_fuel(crate::parse::spec_scan_run, 2);
        let run = crate::parse::spec_scan_run(
            b,
            h,
            seg_stack,
            crate::parse::spec_header_breaks(),
            (reb.len() + 2) as nat,
        );
        assert(run is Ok);
        let (ts, _, _) = run->Ok_0;
        assert(ts[0] == TagView::MasterStart(crate::tags::ID_CLUSTER as int));
    }
    crate::parse::lemma_encoded_header_captures_back(b, hs);
}

/// Late-joiner validity: whenever a consumer attaches, everything it is
/// ever handed is the encoding of a valid, self-contained WebM stream — the
/// full prelude first, then whole Clusters only, in publish order.
pub proof fn lemma_late_joiner_validity(f: Fanout, i: int)
    requires
        f.wf(),
        0 <= i < f.spec_sub_count(),
    ensures
        valid_prelude(f.spec_header_views()),
        f.spec_sub_emitted(i) == spec_encode_tags(f.spec_header_views()) + spec_forward_clusters(
            f.spec_sub_clusters(i),
            None,
        ).0,
        forall|k: int|
            0 <= k < f.spec_sub_clusters(i).len() ==> wf_cluster(#[trigger] f.spec_sub_clusters(i)[k]),
{
    assert forall|k: int| 0 <= k < f.spec_sub_clusters(i).len() implies wf_cluster(
        #[trigger] f.spec_sub_clusters(i)[k],
    ) by {
        assert(f.spec_sub_clusters(i)[k] == f.spec_history()[f.spec_attach_at(i) + k]);
    }
}

/// Prefix property: any two subscribers received the same header snapshot,
/// and the later joiner's Cluster sequence is exactly the earlier joiner's
/// from the later attach point on.
pub proof fn lemma_prefix_property(f: Fanout, i: int, j: int)
    requires
        f.wf(),
        0 <= i < f.spec_sub_count(),
        0 <= j < f.spec_sub_count(),
        f.spec_attach_at(i) <= f.spec_attach_at(j),
    ensures
        ({
            let hdr = spec_encode_tags(f.spec_header_views());
            &&& f.spec_sub_emitted(i).len() >= hdr.len()
            &&& f.spec_sub_emitted(j).len() >= hdr.len()
            &&& f.spec_sub_emitted(i).subrange(0, hdr.len() as int) == f.spec_sub_emitted(
                j,
            ).subrange(0, hdr.len() as int)
        }),
        f.spec_sub_clusters(j) == f.spec_sub_clusters(i).subrange(
            f.spec_attach_at(j) - f.spec_attach_at(i),
            f.spec_sub_clusters(i).len() as int,
        ),
{
    let hdr = spec_encode_tags(f.spec_header_views());
    let bi = spec_forward_clusters(f.spec_sub_clusters(i), None).0;
    let bj = spec_forward_clusters(f.spec_sub_clusters(j), None).0;
    assert((hdr + bi).subrange(0, hdr.len() as int) =~= hdr);
    assert((hdr + bj).subrange(0, hdr.len() as int) =~= hdr);
    assert(f.spec_sub_clusters(j) =~= f.spec_sub_clusters(i).subrange(
        f.spec_attach_at(j) - f.spec_attach_at(i),
        f.spec_sub_clusters(i).len() as int,
    ));
}

} // verus!
