//! The tag-to-byte encoder and the per-subscriber writer.
//!
//! A subscriber's byte stream is the encoded header snapshot followed by the
//! encoding of every whole Cluster published to it, in order.  Any master
//! opening is written with the all-ones "unknown size" sentinel — in the
//! snapshot that master is the Segment, which must stay open-ended so the
//! file remains valid while it grows — while published Clusters are written
//! with their actual size, computed from their encoded children.

use vstd::prelude::*;
use crate::ebml::{
    encode_id, encode_size, encode_uint, encode_unknown_size, id_bytes, size_bytes, uint_bytes,
    valid_id, vint_all_ones,
};
use crate::parse::{tag_views, HeaderSnapshot};
use crate::tags::{is_cluster_end, is_cluster_start, Tag, TagView, ID_CLUSTER, ID_TIMESTAMP};

verus! {

/// Why a tag could not be encoded.
#[derive(Debug, Clone, Copy, PartialEq, Eq, Structural)]
pub enum EncodeError {
    /// An element id whose magnitude does not fit its marker class.
    BadId,
    /// A payload too large for a size vint.
    Oversize,
}

/// The encoded form of one element with a known payload.
pub open spec fn spec_encode_element(id: int, payload: Seq<u8>) -> Seq<u8> {
    id_bytes(id) + size_bytes(payload.len() as int) + payload
}

/// The encoded form of one tag.  A master opening is written with the
/// unknown-size sentinel and its closing marker writes nothing: the pair
/// delimits children that are streamed after it.
pub open spec fn spec_encode_tag(t: TagView) -> Seq<u8> {
    match t {
        TagView::MasterStart(id) => id_bytes(id) + seq![0xffu8],
        TagView::MasterEnd(_) => Seq::empty(),
        TagView::MasterFull(id, body) => spec_encode_element(id, body),
        TagView::Timestamp(v) => spec_encode_element(ID_TIMESTAMP as int, uint_bytes(v)),
        TagView::Leaf(id, p) => spec_encode_element(id, p),
    }
}

/// The concatenated encoding of a run of tags.
pub open spec fn spec_encode_tags(ts: Seq<TagView>) -> Seq<u8>
    decreases ts.len(),
{
    if ts.len() == 0 {
        Seq::empty()
    } else {
        spec_encode_tag(ts.first()) + spec_encode_tags(ts.drop_first())
    }
}

/// Whether a tag can be encoded at all.
pub open spec fn encodable_tag(t: TagView) -> bool {
    match t {
        TagView::MasterStart(id) => valid_id(id),
        TagView::MasterEnd(_) => true,
        TagView::MasterFull(id, body) => valid_id(id) && body.len() < vint_all_ones(8),
        TagView::Timestamp(_) => true,
        TagView::Leaf(id, p) => valid_id(id) && p.len() < vint_all_ones(8),
    }
}

/// Whether every tag of a run can be encoded.
pub open spec fn encodable_tags(ts: Seq<TagView>) -> bool {
    forall|i: int| 0 <= i < ts.len() ==> encodable_tag(ts[i])
}

/// A whole Cluster as the follower publishes it: its opening, any run of
/// non-master children, and its closing.
pub open spec fn wf_cluster(ts: Seq<TagView>) -> bool {
    &&& ts.len() >= 2
    &&& is_cluster_start(ts.first())
    &&& is_cluster_end(ts.last())
    &&& forall|i: int|
        0 < i < ts.len() - 1 ==> (ts[i] is Timestamp || ts[i] is Leaf)
}

/// Executable twin of [`valid_id`].
pub fn id_is_valid(id: u64) -> (r: bool)
    ensures
        r == valid_id(id as int),
{
    (0x80 <= id && id < 0x100) || (0x4000 <= id && id < 0x8000) || (0x20_0000 <= id && id
        < 0x40_0000) || (0x1000_0000 <= id && id < 0x2000_0000)
}

/// A fresh copy of a byte vector.
fn clone_bytes(v: &Vec<u8>) -> (r: Vec<u8>)
    ensures
        r@ == v@,
{
    let mut r: Vec<u8> = Vec::new();
    let mut i: usize = 0;
    while i < v.len()
        invariant
            0 <= i <= v.len(),
            r@ =~= v@.subrange(0, i as int),
        decreases v.len() - i,
    {
        r.push(v[i]);
        i = i + 1;
    }
    proof {
        assert(r@ =~= v@);
    }
    r
}

/// A fresh copy of a tag.
fn copy_tag(t: &Tag) -> (r: Tag)
    ensures
        r@ == t@,
{
    match t {
        Tag::MasterStart(id) => Tag::MasterStart(*id),
        Tag::MasterEnd(id) => Tag::MasterEnd(*id),
        Tag::MasterFull(id, b) => Tag::MasterFull(*id, clone_bytes(b)),
        Tag::Timestamp(v) => Tag::Timestamp(*v),
        Tag::Leaf(id, p) => Tag::Leaf(*id, clone_bytes(p)),
    }
}

/// Append all of `src` to `out`.
fn append_bytes(out: &mut Vec<u8>, src: &Vec<u8>)
    ensures
        final(out)@ == old(out)@ + src@,
{
    let mut i: usize = 0;
    while i < src.len()
        invariant
            0 <= i <= src.len(),
            out@ =~= old(out)@ + src@.subrange(0, i as int),
        decreases src.len() - i,
    {
        out.push(src[i]);
        i = i + 1;
    }
    proof {
        assert(out@ =~= old(out)@ + src@);
    }
}

/// Append one element with a known payload.
fn append_element(out: &mut Vec<u8>, id: u64, payload: &Vec<u8>) -> (r: Result<(), EncodeError>)
    ensures
        match r {
            Ok(()) => {
                &&& valid_id(id as int)
                &&& payload@.len() < vint_all_ones(8)
                &&& final(out)@ == old(out)@ + spec_encode_element(id as int, payload@)
            },
            Err(EncodeError::BadId) => !valid_id(id as int) && final(out)@ == old(out)@,
            Err(EncodeError::Oversize) => {
                &&& valid_id(id as int)
                &&& payload@.len() >= vint_all_ones(8)
                &&& final(out)@ == old(out)@
            },
        },
{
    if !id_is_valid(id) {
        return Err(EncodeError::BadId);
    }
    proof {
        reveal_with_fuel(crate::ebml::pow128, 9);
    }
    if payload.len() as u64 >= 0xff_ffff_ffff_ffff {
        return Err(EncodeError::Oversize);
    }
    let idb = encode_id(id);
    append_bytes(out, &idb);
    let sb = encode_size(payload.len() as u64);
    append_bytes(out, &sb);
    append_bytes(out, payload);
    proof {
        assert(out@ =~= old(out)@ + spec_encode_element(id as int, payload@));
    }
    Ok(())
}

/// Append one tag.
fn append_tag(out: &mut Vec<u8>, t: &Tag) -> (r: Result<(), EncodeError>)
    ensures
        match r {
            Ok(()) => encodable_tag(t@) && final(out)@ == old(out)@ + spec_encode_tag(t@),
            Err(_) => !encodable_tag(t@) && final(out)@ == old(out)@,
        },
{
    match t {
        Tag::MasterStart(id) => {
            if !id_is_valid(*id) {
                return Err(EncodeError::BadId);
            }
            let idb = encode_id(*id);
            append_bytes(out, &idb);
            let ub = encode_unknown_size();
            append_bytes(out, &ub);
            proof {
                assert(out@ =~= old(out)@ + spec_encode_tag(t@));
            }
            Ok(())
        },
        Tag::MasterEnd(_) => {
            proof {
                assert(out@ =~= old(out)@ + spec_encode_tag(t@));
            }
            Ok(())
        },
        Tag::MasterFull(id, body) => append_element(out, *id, body),
        Tag::Timestamp(v) => {
            let payload = encode_uint(*v);
            proof {
                reveal_with_fuel(crate::ebml::pow128, 9);
            }
            append_element(out, ID_TIMESTAMP, &payload)
        },
        Tag::Leaf(id, p) => append_element(out, *id, p),
    }
}

/// Encode a run of tags, whole or not at all.
fn encode_tags_all(tags: &Vec<Tag>) -> (r: Result<Vec<u8>, EncodeError>)
    ensures
        match r {
            Ok(v) => encodable_tags(tag_views(tags@)) && v@ == spec_encode_tags(tag_views(tags@)),
            Err(_) => !encodable_tags(tag_views(tags@)),
        },
{
    let mut out: Vec<u8> = Vec::new();
    let mut i: usize = 0;
    let ghost views = tag_views(tags@);
    while i < tags.len()
        invariant
            0 <= i <= tags.len(),
            views == tag_views(tags@),
            forall|j: int| 0 <= j < i ==> encodable_tag(views[j]),
            out@ == spec_encode_tags(views.subrange(0, i as int)),
        decreases tags.len() - i,
    {
        let ghost pre = out@;
        match append_tag(&mut out, &tags[i]) {
            Ok(()) => {
                proof {
                    assert(views[i as int] == tags@[i as int]@);
                }
            },
            Err(e) => {
                proof {
                    assert(views[i as int] == tags@[i as int]@);
                    assert(!encodable_tag(views[i as int]));
                }
                return Err(e);
            },
        }
        proof {
            lemma_encode_tags_snoc(views, i as int);
        }
        i = i + 1;
    }
    proof {
        assert(views.subrange(0, views.len() as int) =~= views);
    }
    Ok(out)
}

/// Rebase one tag against a subscriber's timestamp origin.  The first
/// Timestamp seen fixes the origin; every Timestamp is emitted with the
/// origin subtracted, saturating at zero.
pub open spec fn rebase_one(t: TagView, off: Option<int>) -> (TagView, Option<int>) {
    match t {
        TagView::Timestamp(v) => {
            let o = match off {
                Some(o) => o,
                None => v,
            };
            (TagView::Timestamp(if v >= o { v - o } else { 0 }), Some(o))
        },
        _ => (t, off),
    }
}

/// Rebase a run of tags, threading the origin through.
pub open spec fn rebase_tags(ts: Seq<TagView>, off: Option<int>) -> (Seq<TagView>, Option<int>)
    decreases ts.len(),
{
    if ts.len() == 0 {
        (ts, off)
    } else {
        let (t0, off1) = rebase_one(ts.first(), off);
        let (rest, off2) = rebase_tags(ts.drop_first(), off1);
        (seq![t0] + rest, off2)
    }
}

/// Rebasing one more tag at the end extends the rebased run pointwise.
proof fn lemma_rebase_snoc(ts: Seq<TagView>, i: int, off: Option<int>)
    requires
        0 <= i < ts.len(),
    ensures
        ({
            let (pre, o1) = rebase_tags(ts.subrange(0, i), off);
            let (t2, o2) = rebase_one(ts[i], o1);
            rebase_tags(ts.subrange(0, i + 1), off) == (pre.push(t2), o2)
        }),
    decreases i,
{
    reveal_with_fuel(rebase_tags, 3);
    if i == 0 {
        assert(ts.subrange(0, 1).drop_first() =~= Seq::<TagView>::empty());
        assert(ts.subrange(0, 0) =~= Seq::<TagView>::empty());
        let (t2, o2) = rebase_one(ts[0], off);
        assert(seq![t2] + Seq::<TagView>::empty() =~= Seq::<TagView>::empty().push(t2));
    } else {
        let tail = ts.drop_first();
        lemma_rebase_snoc(tail, i - 1, rebase_one(ts[0], off).1);
        assert(ts.subrange(0, i + 1).drop_first() =~= tail.subrange(0, i));
        assert(ts.subrange(0, i).drop_first() =~= tail.subrange(0, i - 1));
        assert(ts.subrange(0, i + 1).first() == ts[0]);
        assert(ts.subrange(0, i).first() == ts[0]);
        assert(tail[i - 1] == ts[i]);
        let o1 = rebase_one(ts[0], off).1;
        let (pre_t, pre_o) = rebase_tags(tail.subrange(0, i - 1), o1);
        let (t2, o2) = rebase_one(ts[i], pre_o);
        assert(seq![rebase_one(ts[0], off).0] + pre_t.push(t2) =~= (seq![
            rebase_one(ts[0], off).0,
        ] + pre_t).push(t2));
    }
}

/// A tag rebased against the fixed origin `o`: Timestamps are shifted,
/// saturating at zero; everything else is untouched.
pub open spec fn saturating_rebased(t: TagView, o: int) -> TagView {
    match t {
        TagView::Timestamp(v) => TagView::Timestamp(if v >= o { v - o } else { 0 }),
        _ => t,
    }
}

/// Rebasing with a fixed origin `o` maps every Timestamp `v` to
/// `v - o` saturated at zero, pointwise, and never changes the origin.
proof fn lemma_rebase_fixed(ts: Seq<TagView>, o: int)
    ensures
        ({
            let (out, off2) = rebase_tags(ts, Some(o));
            &&& out.len() == ts.len()
            &&& off2 == Some(o)
            &&& forall|i: int|
                0 <= i < ts.len() ==> #[trigger] out[i] == saturating_rebased(ts[i], o)
        }),
    decreases ts.len(),
{
    if ts.len() > 0 {
        lemma_rebase_fixed(ts.drop_first(), o);
        let (out, _) = rebase_tags(ts, Some(o));
        let (rest, _) = rebase_tags(ts.drop_first(), Some(o));
        assert forall|i: int| 0 <= i < ts.len() implies #[trigger] out[i] == saturating_rebased(
            ts[i],
            o,
        ) by {
            if i > 0 {
                assert(out[i] == rest[i - 1]);
                assert(ts.drop_first()[i - 1] == ts[i]);
            }
        }
    }
}

/// Timestamp rebasing: in the writer's output of a run of tags whose
/// Timestamps are non-decreasing — as the follower produces them — and with
/// no origin fixed yet, the first Timestamp is zero and every later
/// Timestamp is at least the one before it; no other tag is changed.
pub proof fn lemma_timestamp_rebasing(ts: Seq<TagView>)
    requires
        forall|i: int, j: int|
            0 <= i < j < ts.len() && ts[i] is Timestamp && ts[j] is Timestamp
                ==> ts[i]->Timestamp_0 <= ts[j]->Timestamp_0,
    ensures
        ({
            let out = rebase_tags(ts, None).0;
            &&& out.len() == ts.len()
            &&& forall|i: int|
                #![trigger out[i]]
                0 <= i < ts.len() && !(ts[i] is Timestamp) ==> out[i] == ts[i]
            &&& forall|i: int|
                #![trigger out[i]]
                0 <= i < ts.len() && ts[i] is Timestamp ==> out[i] is Timestamp
                    && out[i]->Timestamp_0 >= 0
            &&& forall|i: int|
                #![trigger out[i]]
                (0 <= i < ts.len() && ts[i] is Timestamp && (forall|k: int|
                    0 <= k < i ==> !(ts[k] is Timestamp))) ==> out[i] == TagView::Timestamp(0)
            &&& forall|i: int, j: int|
                #![trigger out[i], out[j]]
                (0 <= i < j < ts.len() && ts[i] is Timestamp && ts[j] is Timestamp)
                    ==> out[i]->Timestamp_0 <= out[j]->Timestamp_0
        }),
    decreases ts.len(),
{
    if ts.len() == 0 {
    } else if !(ts.first() is Timestamp) {
        lemma_timestamp_rebasing(ts.drop_first());
        let out = rebase_tags(ts, None).0;
        let rest = rebase_tags(ts.drop_first(), None).0;
        assert forall|i: int| 1 <= i < ts.len() implies out[i] == rest[i - 1] && ts.drop_first()[i
            - 1] == ts[i] by {}
    } else {
        let o = ts.first()->Timestamp_0;
        lemma_rebase_fixed(ts.drop_first(), o);
        let out = rebase_tags(ts, None).0;
        let rest = rebase_tags(ts.drop_first(), Some(o)).0;
        assert(out[0] == TagView::Timestamp(0));
        assert forall|i: int| 1 <= i < ts.len() implies out[i] == rest[i - 1] && ts.drop_first()[i
            - 1] == ts[i] by {}
    }
}

/// The per-subscriber tag-to-byte writer: rebases Cluster timestamps to the
/// subscriber's origin and encodes everything it is handed, in order,
/// dropping and reordering nothing.
pub struct SubscriberWriter {
    time_offset: Option<u64>,
    out: Vec<u8>,
    emitted: Ghost<Seq<u8>>,
}

impl SubscriberWriter {
    /// The bytes written so far and not yet drained.
    pub closed spec fn spec_out(self) -> Seq<u8> {
        self.out@
    }

    /// Every byte this writer has ever produced, drained or not.
    pub closed spec fn spec_emitted(self) -> Seq<u8> {
        self.emitted@
    }

    /// The timestamp origin, fixed by the first Timestamp written.
    pub closed spec fn spec_offset(self) -> Option<int> {
        match self.time_offset {
            Some(o) => Some(o as int),
            None => None,
        }
    }

    /// A fresh writer with no origin and nothing written.
    pub fn new() -> (r: SubscriberWriter)
        ensures
            r.spec_out() == Seq::<u8>::empty(),
            r.spec_emitted() == Seq::<u8>::empty(),
            r.spec_offset() is None,
    {
        let r = SubscriberWriter {
            time_offset: None,
            out: Vec::new(),
            emitted: Ghost(Seq::<u8>::empty()),
        };
        proof {
            assert(r.out@ =~= Seq::<u8>::empty());
        }
        r
    }

    /// Hand out everything written so far, leaving the writer empty; the
    /// origin survives, so later Clusters stay on the same time base.
    pub fn take_bytes(&mut self) -> (r: Vec<u8>)
        ensures
            r@ == old(self).spec_out(),
            final(self).spec_out() == Seq::<u8>::empty(),
            final(self).spec_offset() == old(self).spec_offset(),
            final(self).spec_emitted() == old(self).spec_emitted(),
    {
        let mut drained: Vec<u8> = Vec::new();
        std::mem::swap(&mut drained, &mut self.out);
        proof {
            assert(self.out@ =~= Seq::<u8>::empty());
        }
        drained
    }

    /// Replay the header snapshot, whole or not at all.  The Segment
    /// opening within it is encoded with the unknown-size sentinel.
    pub fn write_header(&mut self, h: &HeaderSnapshot) -> (r: Result<(), EncodeError>)
        ensures
            final(self).spec_offset() == old(self).spec_offset(),
            match r {
                Ok(()) => {
                    &&& encodable_tags(tag_views(h.tags@))
                    &&& final(self).spec_out() == old(self).spec_out() + spec_encode_tags(
                        tag_views(h.tags@),
                    )
                    &&& final(self).spec_emitted() == old(self).spec_emitted()
                        + spec_encode_tags(tag_views(h.tags@))
                },
                Err(_) => {
                    &&& !encodable_tags(tag_views(h.tags@))
                    &&& final(self).spec_out() == old(self).spec_out()
                    &&& final(self).spec_emitted() == old(self).spec_emitted()
                },
            },
    {
        let bytes = match encode_tags_all(&h.tags) {
            Ok(b) => b,
            Err(e) => {
                return Err(e);
            },
        };
        append_bytes(&mut self.out, &bytes);
        proof {
            self.emitted@ = self.emitted@ + bytes@;
        }
        Ok(())
    }

    /// Whether [`Self::write_cluster`] would succeed for this writer's
    /// current origin, without changing anything.
    pub fn can_write_cluster(&self, cluster: &Vec<Tag>) -> (r: bool)
        requires
            wf_cluster(tag_views(cluster@)),
        ensures
            r == ({
                let interior = tag_views(cluster@).subrange(
                    1,
                    tag_views(cluster@).len() - 1,
                );
                let (reb, _) = rebase_tags(interior, self.spec_offset());
                encodable_tags(reb) && spec_encode_tags(reb).len() < vint_all_ones(8)
            }),
    {
        let mut probe = SubscriberWriter {
            time_offset: self.time_offset,
            out: Vec::new(),
            emitted: Ghost(Seq::empty()),
        };
        probe.write_cluster(cluster).is_ok()
    }

    /// Forward one whole Cluster: rebase its Timestamps, then write the
    /// Cluster with its actual size — whole or not at all.
    pub fn write_cluster(&mut self, cluster: &Vec<Tag>) -> (r: Result<(), EncodeError>)
        requires
            wf_cluster(tag_views(cluster@)),
        ensures
            ({
                let interior = tag_views(cluster@).subrange(
                    1,
                    tag_views(cluster@).len() - 1,
                );
                let (reb, off2) = rebase_tags(interior, old(self).spec_offset());
                match r {
                    Ok(()) => {
                        &&& encodable_tags(reb)
                        &&& spec_encode_tags(reb).len() < vint_all_ones(8)
                        &&& final(self).spec_out() == old(self).spec_out()
                            + spec_encode_cluster_body(reb)
                        &&& final(self).spec_emitted() == old(self).spec_emitted()
                            + spec_encode_cluster_body(reb)
                        &&& final(self).spec_offset() == off2
                    },
                    Err(_) => {
                        &&& !(encodable_tags(reb) && spec_encode_tags(reb).len()
                            < vint_all_ones(8))
                        &&& final(self).spec_out() == old(self).spec_out()
                        &&& final(self).spec_emitted() == old(self).spec_emitted()
                        &&& final(self).spec_offset() == old(self).spec_offset()
                    },
                }
            }),
    {
        let ghost views = tag_views(cluster@);
        let ghost interior = views.subrange(1, views.len() - 1);
        let ghost off0 = self.spec_offset();
        let mut rebased: Vec<Tag> = Vec::new();
        let mut cur: Option<u64> = self.time_offset;
        let mut i: usize = 1;
        proof {
            assert(interior.subrange(0, 0) =~= Seq::<TagView>::empty());
            assert(tag_views(rebased@) =~= Seq::<TagView>::empty());
        }
        while i + 1 < cluster.len()
            invariant
                1 <= i,
                i + 1 <= cluster.len(),
                views == tag_views(cluster@),
                interior == views.subrange(1, views.len() - 1),
                cluster@.len() == views.len(),
                rebase_tags(interior.subrange(0, i - 1), off0) == (tag_views(rebased@), ({
                    let co: Option<int> = match cur {
                        Some(o) => Some(o as int),
                        None => None,
                    };
                    co
                })),
            decreases cluster.len() - i,
        {
            let ghost pre_views = tag_views(rebased@);
            let ghost pre_off: Option<int> = match cur {
                Some(o) => Some(o as int),
                None => None,
            };
            proof {
                lemma_rebase_snoc(interior, i - 1, off0);
                assert(interior[i - 1] == views[i as int]);
                assert(views[i as int] == cluster@[i as int]@);
            }
            let t = &cluster[i];
            match t {
                Tag::Timestamp(v) => {
                    let o: u64 = match cur {
                        Some(o) => o,
                        None => *v,
                    };
                    let nv: u64 = if *v >= o {
                        *v - o
                    } else {
                        0
                    };
                    cur = Some(o);
                    rebased.push(Tag::Timestamp(nv));
                },
                _ => {
                    rebased.push(copy_tag(t));
                    proof {
                        assert(cluster@[i as int]@ == rebase_one(
                            interior[i - 1],
                            pre_off,
                        ).0);
                    }
                },
            }
            proof {
                assert(tag_views(rebased@) =~= pre_views.push(
                    rebase_one(interior[i - 1], pre_off).0,
                ));
            }
            i = i + 1;
        }
        proof {
            assert(interior.subrange(0, i - 1) =~= interior);
        }
        let body = match encode_tags_all(&rebased) {
            Ok(b) => b,
            Err(e) => {
                return Err(e);
            },
        };
        proof {
            reveal_with_fuel(crate::ebml::pow128, 9);
        }
        if body.len() as u64 >= 0xff_ffff_ffff_ffff {
            return Err(EncodeError::Oversize);
        }
        let idb = encode_id(ID_CLUSTER);
        append_bytes(&mut self.out, &idb);
        let sb = encode_size(body.len() as u64);
        append_bytes(&mut self.out, &sb);
        append_bytes(&mut self.out, &body);
        self.time_offset = cur;
        proof {
            assert(self.out@ =~= old(self).out@ + spec_encode_cluster_body(
                tag_views(rebased@),
            ));
            self.emitted@ = self.emitted@ + spec_encode_cluster_body(tag_views(rebased@));
        }
        Ok(())
    }
}

/// The encoded form of a whole Cluster from its (already rebased) interior:
/// the Cluster id, the actual size of the encoded children, the children.
pub open spec fn spec_encode_cluster_body(interior: Seq<TagView>) -> Seq<u8> {
    let body = spec_encode_tags(interior);
    id_bytes(ID_CLUSTER as int) + size_bytes(body.len() as int) + body
}

/// Peeling one more tag off the front of the remainder extends the
/// encoding by that tag's bytes.
proof fn lemma_encode_tags_snoc(ts: Seq<TagView>, i: int)
    requires
        0 <= i < ts.len(),
    ensures
        spec_encode_tags(ts.subrange(0, i + 1)) == spec_encode_tags(ts.subrange(0, i))
            + spec_encode_tag(ts[i]),
    decreases i,
{
    reveal_with_fuel(spec_encode_tags, 3);
    if i == 0 {
        assert(ts.subrange(0, 1).drop_first() =~= Seq::<TagView>::empty());
        assert(ts.subrange(0, 0) =~= Seq::<TagView>::empty());
        assert(spec_encode_tags(ts.subrange(0, 1)) =~= spec_encode_tag(ts[0]));
        assert(spec_encode_tags(ts.subrange(0, 1)) == spec_encode_tags(ts.subrange(0, 0))
            + spec_encode_tag(ts[0]));
    } else {
        let tail = ts.drop_first();
        lemma_encode_tags_snoc(tail, i - 1);
        assert(ts.subrange(0, i + 1).drop_first() =~= tail.subrange(0, i));
        assert(ts.subrange(0, i).drop_first() =~= tail.subrange(0, i - 1));
        assert(ts.subrange(0, i + 1).first() == ts[0]);
        assert(ts.subrange(0, i).first() == ts[0]);
        assert(tail[i - 1] == ts[i]);
        assert(spec_encode_tags(ts.subrange(0, i + 1)) == spec_encode_tag(ts[0])
            + spec_encode_tags(tail.subrange(0, i)));
        assert(spec_encode_tags(ts.subrange(0, i)) == spec_encode_tag(ts[0])
            + spec_encode_tags(tail.subrange(0, i - 1)));
        assert(spec_encode_tag(ts[0]) + (spec_encode_tags(tail.subrange(0, i - 1))
            + spec_encode_tag(ts[i])) =~= (spec_encode_tag(ts[0]) + spec_encode_tags(
            tail.subrange(0, i - 1),
        )) + spec_encode_tag(ts[i]));
    }
}

} // verus!
