//! The tag scanner: a lazy iterator of typed tags over a byte buffer whose
//! tail may still grow.
//!
//! `next_tag` leaves the scanner untouched whenever it fails, so after an
//! [`ParseError::UnexpectedEof`] the caller may append freshly flushed bytes
//! with `extend` and retry the very same read — the recovery discipline the
//! tail follower is built on.

use vstd::prelude::*;
use crate::ebml::{
    acc_bytes, lemma_parse_size_bounds, spec_parse_id, spec_parse_size, vint_all_ones, parse_id,
    parse_size, ParseError,
};
use crate::tags::{
    is_cluster_start, is_header_kind, is_master_id, master_id, tag_is_cluster_start, Tag, TagView,
    ID_CLUSTER, ID_EBML, ID_INFO, ID_SEGMENT, ID_TIMESTAMP, ID_TRACKS,
};

verus! {

/// A master element whose `Start` has been yielded and whose `End` has not.
#[derive(Debug, Clone, Copy, PartialEq, Eq)]
pub struct OpenMaster {
    /// The master's element id.
    pub id: u64,
    /// Offset at which the master's body ends, or `None` for an
    /// unknown-sized master, which is never closed.
    pub end: Option<usize>,
}

/// What one scanner step yields: the tag, the new position, and the new
/// stack of open masters.
pub open spec fn spec_next(b: Seq<u8>, pos: int, stack: Seq<OpenMaster>, breaks: Seq<u64>) -> Result<
    (TagView, int, Seq<OpenMaster>),
    ParseError,
> {
    if stack.len() > 0 && (stack.last().end matches Some(e) && e <= pos) {
        Ok((TagView::MasterEnd(stack.last().id as int), pos, stack.drop_last()))
    } else {
        match spec_parse_id(b, pos) {
            Err(e) => Err(e),
            Ok((id, wi)) => match spec_parse_size(b, pos + wi) {
                Err(e) => Err(e),
                Ok((size, ws)) => {
                    let body = pos + wi + ws;
                    let unknown = size == vint_all_ones(ws);
                    if is_master_id(id) {
                        if breaks.contains(id as u64) {
                            if unknown {
                                Err(ParseError::Corrupt)
                            } else if body + size > b.len() {
                                Err(ParseError::UnexpectedEof)
                            } else {
                                Ok(
                                    (
                                        TagView::MasterFull(id, b.subrange(body, body + size)),
                                        body + size,
                                        stack,
                                    ),
                                )
                            }
                        } else if unknown {
                            Ok(
                                (
                                    TagView::MasterStart(id),
                                    body,
                                    stack.push(OpenMaster { id: id as u64, end: None }),
                                ),
                            )
                        } else if body + size > usize::MAX {
                            Err(ParseError::Corrupt)
                        } else {
                            Ok(
                                (
                                    TagView::MasterStart(id),
                                    body,
                                    stack.push(
                                        OpenMaster { id: id as u64, end: Some((body + size) as usize) },
                                    ),
                                ),
                            )
                        }
                    } else if unknown {
                        Err(ParseError::Corrupt)
                    } else if body + size > b.len() {
                        Err(ParseError::UnexpectedEof)
                    } else if id == ID_TIMESTAMP {
                        if size > 8 {
                            Err(ParseError::Corrupt)
                        } else {
                            Ok((TagView::Timestamp(acc_bytes(0, b, body, size)), body + size, stack))
                        }
                    } else {
                        Ok((TagView::Leaf(id, b.subrange(body, body + size)), body + size, stack))
                    }
                },
            },
        }
    }
}

/// A step that yields a tag moves the position forward or pops the stack,
/// and never moves the position outside the buffer.
pub proof fn lemma_spec_next_progress(b: Seq<u8>, pos: int, stack: Seq<OpenMaster>, breaks: Seq<u64>)
    requires
        0 <= pos <= b.len(),
        spec_next(b, pos, stack, breaks) is Ok,
    ensures
        ({
            let (_, p2, s2) = spec_next(b, pos, stack, breaks)->Ok_0;
            &&& pos <= p2 <= b.len()
            &&& (p2 > pos || s2.len() < stack.len())
        }),
{
    if !(stack.len() > 0 && (stack.last().end matches Some(e) && e <= pos)) {
        if spec_parse_id(b, pos) is Ok {
            let (id, wi) = spec_parse_id(b, pos)->Ok_0;
            if spec_parse_size(b, pos + wi) is Ok {
                lemma_parse_size_bounds(b, pos + wi);
            }
        }
    }
}

/// Every tag a scan yields can be encoded again: parsed ids are well
/// formed and parsed payloads fit a size vint.
pub proof fn lemma_spec_next_encodable(
    b: Seq<u8>,
    pos: int,
    stack: Seq<OpenMaster>,
    breaks: Seq<u64>,
)
    requires
        0 <= pos,
        spec_next(b, pos, stack, breaks) is Ok,
    ensures
        crate::encode::encodable_tag(spec_next(b, pos, stack, breaks)->Ok_0.0),
{
    reveal_with_fuel(crate::ebml::pow128, 9);
    if !(stack.len() > 0 && (stack.last().end matches Some(e) && e <= pos)) {
        let (id, wi) = spec_parse_id(b, pos)->Ok_0;
        crate::ebml::lemma_parsed_id_valid(b, pos);
        let (size, ws) = spec_parse_size(b, pos + wi)->Ok_0;
        lemma_parse_size_bounds(b, pos + wi);
        assert(1 <= ws <= 8);
        if size != vint_all_ones(ws) {
            assert(size < vint_all_ones(8)) by {
                if ws <= 7 {
                    assert(crate::ebml::pow128(ws) <= crate::ebml::pow128(7)) by {
                        if ws == 1 {
                        } else if ws == 2 {
                        } else if ws == 3 {
                        } else if ws == 4 {
                        } else if ws == 5 {
                        } else if ws == 6 {
                        } else {
                        }
                    }
                }
            }
        }
    }
}

/// Scans a byte buffer into tags, pausing at the buffer's end.
pub struct TagScanner {
    buf: Vec<u8>,
    pos: usize,
    open: Vec<OpenMaster>,
    breaks: Vec<u64>,
    last_off: usize,
}

/// Copy `buf[start..end]` into a fresh vector.
fn copy_range(buf: &Vec<u8>, start: usize, end: usize) -> (r: Vec<u8>)
    requires
        start <= end <= buf@.len(),
    ensures
        r@ == buf@.subrange(start as int, end as int),
{
    let mut r: Vec<u8> = Vec::new();
    let mut i: usize = start;
    while i < end
        invariant
            start <= i <= end <= buf.len(),
            r@ =~= buf@.subrange(start as int, i as int),
        decreases end - i,
    {
        r.push(buf[i]);
        i = i + 1;
    }
    proof {
        assert(r@ =~= buf@.subrange(start as int, end as int));
    }
    r
}

/// Whether `v` holds `id`.
fn contains_id(v: &Vec<u64>, id: u64) -> (r: bool)
    ensures
        r == v@.contains(id),
{
    let mut i: usize = 0;
    while i < v.len()
        invariant
            0 <= i <= v.len(),
            forall|j: int| 0 <= j < i ==> v@[j] != id,
        decreases v.len() - i,
    {
        if v[i] == id {
            return true;
        }
        i = i + 1;
    }
    false
}

impl TagScanner {
    /// The scanner never runs past the end of its buffer.
    pub closed spec fn wf(self) -> bool {
        self.pos <= self.buf@.len()
    }

    /// The bytes being scanned.
    pub closed spec fn spec_buf(self) -> Seq<u8> {
        self.buf@
    }

    /// The current read position.
    pub closed spec fn spec_pos(self) -> int {
        self.pos as int
    }

    /// The stack of open masters.
    pub closed spec fn spec_stack(self) -> Seq<OpenMaster> {
        self.open@
    }

    /// The masters flattened into `Full` tags.
    pub closed spec fn spec_breaks(self) -> Seq<u64> {
        self.breaks@
    }

    /// Offset at which the most recently yielded tag started.
    pub closed spec fn spec_last_offset(self) -> int {
        self.last_off as int
    }

    /// A scanner over `buf`, flattening the masters in `breaks` into
    /// `Full` tags.
    pub fn new(buf: Vec<u8>, breaks: Vec<u64>) -> (r: TagScanner)
        ensures
            r.wf(),
            r.spec_buf() == buf@,
            r.spec_pos() == 0,
            r.spec_stack() == Seq::<OpenMaster>::empty(),
            r.spec_breaks() == breaks@,
            r.spec_last_offset() == 0,
    {
        let r = TagScanner { buf, pos: 0, open: Vec::new(), breaks, last_off: 0 };
        proof {
            assert(r.open@ =~= Seq::<OpenMaster>::empty());
        }
        r
    }

    /// Append freshly flushed bytes; the scan position and the open masters
    /// are untouched, so an interrupted read can be retried.
    pub fn extend(&mut self, extra: &Vec<u8>)
        requires
            old(self).wf(),
        ensures
            final(self).wf(),
            final(self).spec_buf() == old(self).spec_buf() + extra@,
            final(self).spec_pos() == old(self).spec_pos(),
            final(self).spec_stack() == old(self).spec_stack(),
            final(self).spec_breaks() == old(self).spec_breaks(),
            final(self).spec_last_offset() == old(self).spec_last_offset(),
    {
        let mut i: usize = 0;
        while i < extra.len()
            invariant
                0 <= i <= extra.len(),
                self.buf@ =~= old(self).buf@ + extra@.subrange(0, i as int),
                self.pos == old(self).pos,
                self.open == old(self).open,
                self.breaks == old(self).breaks,
                self.last_off == old(self).last_off,
                self.pos <= old(self).buf@.len(),
            decreases extra.len() - i,
        {
            self.buf.push(extra[i]);
            i = i + 1;
        }
        proof {
            assert(self.buf@ =~= old(self).buf@ + extra@);
        }
    }

    /// Offset within the buffer at which the most recently yielded tag
    /// started.
    pub fn last_emitted_tag_offset(&self) -> (r: usize)
        ensures
            r == self.spec_last_offset(),
    {
        self.last_off
    }

    /// How many bytes the scanner holds; fresh tail bytes are appended
    /// after this point with `extend`.
    pub fn buffered_len(&self) -> (r: usize)
        ensures
            r == self.spec_buf().len(),
    {
        self.buf.len()
    }

    /// Yield the next tag.  On any error the scanner is left exactly as it
    /// was: after `UnexpectedEof` the caller may `extend` and retry.
    pub fn next_tag(&mut self) -> (r: Result<Tag, ParseError>)
        requires
            old(self).wf(),
        ensures
            final(self).wf(),
            final(self).spec_buf() == old(self).spec_buf(),
            final(self).spec_breaks() == old(self).spec_breaks(),
            match r {
                Ok(tag) => {
                    &&& spec_next(
                        old(self).spec_buf(),
                        old(self).spec_pos(),
                        old(self).spec_stack(),
                        old(self).spec_breaks(),
                    ) == Ok::<(TagView, int, Seq<OpenMaster>), ParseError>(
                        (tag@, final(self).spec_pos(), final(self).spec_stack()),
                    )
                    &&& final(self).spec_last_offset() == old(self).spec_pos()
                },
                Err(e) => {
                    &&& spec_next(
                        old(self).spec_buf(),
                        old(self).spec_pos(),
                        old(self).spec_stack(),
                        old(self).spec_breaks(),
                    ) == Err::<(TagView, int, Seq<OpenMaster>), ParseError>(e)
                    &&& *final(self) == *old(self)
                },
            },
    {
        if self.open.len() > 0 {
            let top = self.open[self.open.len() - 1];
            if let Some(e) = top.end {
                if e <= self.pos {
                    self.open.pop();
                    self.last_off = self.pos;
                    proof {
                        assert(self.open@ =~= old(self).open@.drop_last());
                    }
                    return Ok(Tag::MasterEnd(top.id));
                }
            }
        }
        let (id, wi) = match parse_id(&self.buf, self.pos) {
            Ok(v) => v,
            Err(e) => {
                return Err(e);
            },
        };
        assert(self.pos + wi <= self.buf.len());
        let sv = match parse_size(&self.buf, self.pos + wi) {
            Ok(v) => v,
            Err(e) => {
                return Err(e);
            },
        };
        assert(self.pos + wi + sv.width <= self.buf.len());
        let body: usize = self.pos + wi + sv.width;
        if master_id(id) {
            if contains_id(&self.breaks, id) {
                if sv.unknown {
                    return Err(ParseError::Corrupt);
                }
                let remaining: usize = self.buf.len() - body;
                if (remaining as u64) < sv.value {
                    return Err(ParseError::UnexpectedEof);
                }
                let end: usize = body + sv.value as usize;
                let payload = copy_range(&self.buf, body, end);
                self.last_off = self.pos;
                self.pos = end;
                return Ok(Tag::MasterFull(id, payload));
            }
            if sv.unknown {
                self.open.push(OpenMaster { id, end: None });
                self.last_off = self.pos;
                self.pos = body;
                return Ok(Tag::MasterStart(id));
            }
            let headroom: usize = usize::MAX - body;
            if sv.value > (headroom as u64) {
                return Err(ParseError::Corrupt);
            }
            let end: usize = body + sv.value as usize;
            self.open.push(OpenMaster { id, end: Some(end) });
            self.last_off = self.pos;
            self.pos = body;
            return Ok(Tag::MasterStart(id));
        }
        if sv.unknown {
            return Err(ParseError::Corrupt);
        }
        let remaining: usize = self.buf.len() - body;
        if (remaining as u64) < sv.value {
            return Err(ParseError::UnexpectedEof);
        }
        let end: usize = body + sv.value as usize;
        if id == ID_TIMESTAMP {
            if sv.value > 8 {
                return Err(ParseError::Corrupt);
            }
            let t = match crate::ebml::parse_uint(&self.buf, body, sv.value as usize) {
                Ok(v) => v,
                Err(e) => {
                    return Err(e);
                },
            };
            self.last_off = self.pos;
            self.pos = end;
            return Ok(Tag::Timestamp(t));
        }
        let payload = copy_range(&self.buf, body, end);
        self.last_off = self.pos;
        self.pos = end;
        Ok(Tag::Leaf(id, payload))
    }
}

/// The result of scanning `n` consecutive tags: the tags, the position and
/// the stack the scan ends with.
pub open spec fn spec_scan_run(
    b: Seq<u8>,
    pos: int,
    stack: Seq<OpenMaster>,
    breaks: Seq<u64>,
    n: nat,
) -> Result<(Seq<TagView>, int, Seq<OpenMaster>), ParseError>
    decreases n,
{
    if n == 0 {
        Ok((Seq::<TagView>::empty(), pos, stack))
    } else {
        match spec_next(b, pos, stack, breaks) {
            Err(e) => Err(e),
            Ok((t, p2, s2)) => match spec_scan_run(b, p2, s2, breaks, (n - 1) as nat) {
                Err(e) => Err(e),
                Ok((ts, p3, s3)) => Ok((seq![t] + ts, p3, s3)),
            },
        }
    }
}

/// A tag that can sit inside a Cluster and scan back unchanged: a decoded
/// Timestamp, or a leaf whose id is well formed and not a master's.
pub open spec fn scannable_child(t: TagView) -> bool {
    match t {
        TagView::Timestamp(v) => 0 <= v < crate::ebml::pow256(8),
        TagView::Leaf(id, p) => crate::ebml::valid_id(id) && !is_master_id(id) && id
            != ID_TIMESTAMP as int && p.len() < vint_all_ones(8),
        _ => false,
    }
}

/// A well-formed id embedded at `pos` parses there.
proof fn lemma_parse_id_embed(b: Seq<u8>, pos: int, id: int)
    requires
        crate::ebml::valid_id(id),
        0 <= pos,
        pos + crate::ebml::id_nbytes(id) <= b.len(),
        b.subrange(pos, pos + crate::ebml::id_nbytes(id)) == crate::ebml::id_bytes(id),
    ensures
        spec_parse_id(b, pos) == Ok::<(int, int), ParseError>((id, crate::ebml::id_nbytes(id))),
{
    let n = crate::ebml::id_nbytes(id);
    let r = crate::ebml::id_bytes(id);
    crate::ebml::lemma_id_bytes_parse(id);
    assert forall|j: int| 0 <= j < n implies #[trigger] b[pos + j] == r[j] by {
        assert(b.subrange(pos, pos + n)[j] == b[pos + j]);
    }
    crate::ebml::lemma_acc_bytes_offset(0, b, pos, r, 0, n);
}

/// A minimal size vint embedded at `pos` parses there.
proof fn lemma_parse_size_embed(b: Seq<u8>, pos: int, v: int)
    requires
        0 <= v < vint_all_ones(8),
        0 <= pos,
        pos + crate::ebml::size_vint_len(v) <= b.len(),
        b.subrange(pos, pos + crate::ebml::size_vint_len(v)) == crate::ebml::size_bytes(v),
    ensures
        spec_parse_size(b, pos) == Ok::<(int, int), ParseError>(
            (v, crate::ebml::size_vint_len(v)),
        ),
        v != vint_all_ones(crate::ebml::size_vint_len(v)),
{
    let w = crate::ebml::size_vint_len(v);
    let r = crate::ebml::size_bytes(v);
    crate::ebml::lemma_size_bytes_parse(v);
    assert forall|j: int| 0 <= j < w implies #[trigger] b[pos + j] == r[j] by {
        assert(b.subrange(pos, pos + w)[j] == b[pos + j]);
    }
    assert(b[pos] == r[0]);
    assert(crate::ebml::vint_width(b[pos]) == w);
    crate::ebml::lemma_acc_bytes_offset(
        b[pos] - crate::ebml::vint_marker(w),
        b,
        pos + 1,
        r,
        1,
        w - 1,
    );
}

/// One encoded Cluster child, embedded anywhere, scans back to itself.
proof fn lemma_encoded_child_scans_back(
    b: Seq<u8>,
    pos: int,
    t: TagView,
    stack: Seq<OpenMaster>,
    breaks: Seq<u64>,
)
    requires
        scannable_child(t),
        0 <= pos,
        pos + crate::encode::spec_encode_tag(t).len() <= b.len(),
        b.subrange(pos, pos + crate::encode::spec_encode_tag(t).len())
            == crate::encode::spec_encode_tag(t),
        !(stack.len() > 0 && (stack.last().end matches Some(e) && e <= pos)),
    ensures
        spec_next(b, pos, stack, breaks) == Ok::<(TagView, int, Seq<OpenMaster>), ParseError>(
            (t, pos + crate::encode::spec_encode_tag(t).len(), stack),
        ),
{
    reveal_with_fuel(crate::ebml::pow128, 9);
    reveal_with_fuel(crate::ebml::pow256, 9);
    let e = crate::encode::spec_encode_tag(t);
    let (id, payload): (int, Seq<u8>) = match t {
        TagView::Timestamp(v) => (ID_TIMESTAMP as int, crate::ebml::uint_bytes(v)),
        TagView::Leaf(id, p) => (id, p),
        _ => (0, Seq::<u8>::empty()),
    };
    if t is Timestamp {
        crate::ebml::lemma_be_bytes_fold(t->Timestamp_0, crate::ebml::uint_nbytes(t->Timestamp_0));
    }
    let ni = crate::ebml::id_nbytes(id);
    let ns = crate::ebml::size_vint_len(payload.len() as int);
    let idb = crate::ebml::id_bytes(id);
    let sb = crate::ebml::size_bytes(payload.len() as int);
    crate::ebml::lemma_id_bytes_parse(id);
    crate::ebml::lemma_size_bytes_parse(payload.len() as int);
    assert(e == (idb + sb) + payload);
    assert(e.len() == ni + ns + payload.len());
    assert(b.subrange(pos, pos + ni) =~= idb) by {
        assert forall|j: int| 0 <= j < ni implies #[trigger] b.subrange(pos, pos + ni)[j]
            == idb[j] by {
            assert(b[pos + j] == b.subrange(pos, pos + e.len() as int)[j]);
            assert(e[j] == idb[j]);
        }
    }
    lemma_parse_id_embed(b, pos, id);
    assert(b.subrange(pos + ni, pos + ni + ns) =~= sb) by {
        assert forall|j: int| 0 <= j < ns implies #[trigger] b.subrange(pos + ni, pos + ni + ns)[j]
            == sb[j] by {
            assert(b[pos + ni + j] == b.subrange(pos, pos + e.len() as int)[ni + j]);
            assert(e[ni + j] == sb[j]);
        }
    }
    lemma_parse_size_embed(b, pos + ni, payload.len() as int);
    let body = pos + ni + ns;
    assert(b.subrange(body, body + payload.len() as int) =~= payload) by {
        assert forall|j: int|
            0 <= j < payload.len() implies #[trigger] b.subrange(
            body,
            body + payload.len() as int,
        )[j] == payload[j] by {
            assert(b[body + j] == b.subrange(pos, pos + e.len() as int)[ni + ns + j]);
            assert(e[ni + ns + j] == payload[j]);
        }
    }
    if t is Timestamp {
        let v = t->Timestamp_0;
        crate::ebml::lemma_acc_bytes_offset(0, b, body, payload, 0, payload.len() as int);
        assert(crate::ebml::acc_bytes(0, b, body, payload.len() as int) == v);
    }
}

/// An encoded Cluster child takes at least its id and size bytes.
proof fn lemma_child_enc_len(t: TagView)
    requires
        scannable_child(t),
    ensures
        crate::encode::spec_encode_tag(t).len() >= 2,
{
    match t {
        TagView::Timestamp(v) => {
            reveal_with_fuel(crate::ebml::pow128, 9);
            reveal_with_fuel(crate::ebml::pow256, 9);
            crate::ebml::lemma_id_bytes_parse(ID_TIMESTAMP as int);
            crate::ebml::lemma_be_bytes_fold(v, crate::ebml::uint_nbytes(v));
            crate::ebml::lemma_size_bytes_parse(crate::ebml::uint_nbytes(v));
        },
        TagView::Leaf(id, p) => {
            crate::ebml::lemma_id_bytes_parse(id);
            crate::ebml::lemma_size_bytes_parse(p.len() as int);
        },
        _ => {},
    }
}

/// A run of encoded children, sitting just before the end of the open
/// master above them, scans back to the children followed by that master's
/// closing marker, popping it.
proof fn lemma_children_then_end(
    b: Seq<u8>,
    pos: int,
    ts: Seq<TagView>,
    stack: Seq<OpenMaster>,
    breaks: Seq<u64>,
    end: int,
)
    requires
        forall|k: int| 0 <= k < ts.len() ==> scannable_child(#[trigger] ts[k]),
        0 <= pos,
        pos + crate::encode::spec_encode_tags(ts).len() == end,
        end <= b.len(),
        b.subrange(pos, end) == crate::encode::spec_encode_tags(ts),
        stack.len() > 0,
        stack.last().end matches Some(e) && e == end,
    ensures
        spec_scan_run(b, pos, stack, breaks, (ts.len() + 1) as nat) == Ok::<
            (Seq<TagView>, int, Seq<OpenMaster>),
            ParseError,
        >((ts.push(TagView::MasterEnd(stack.last().id as int)), end, stack.drop_last())),
    decreases ts.len(),
{
    reveal_with_fuel(spec_scan_run, 3);
    if ts.len() == 0 {
        assert(crate::encode::spec_encode_tags(ts).len() == 0);
        assert(pos == end);
        assert(spec_next(b, pos, stack, breaks) == Ok::<
            (TagView, int, Seq<OpenMaster>),
            ParseError,
        >((TagView::MasterEnd(stack.last().id as int), pos, stack.drop_last())));
        assert(seq![TagView::MasterEnd(stack.last().id as int)]
            + Seq::<TagView>::empty() =~= ts.push(TagView::MasterEnd(stack.last().id as int)));
    } else {
        let t0 = ts.first();
        let rest = ts.drop_first();
        let enc0 = crate::encode::spec_encode_tag(t0);
        let enc_rest = crate::encode::spec_encode_tags(rest);
        assert(crate::encode::spec_encode_tags(ts) == enc0 + enc_rest);
        lemma_child_enc_len(t0);
        assert(b.subrange(pos, pos + enc0.len() as int) =~= enc0) by {
            assert forall|j: int|
                0 <= j < enc0.len() implies #[trigger] b.subrange(
                pos,
                pos + enc0.len() as int,
            )[j] == enc0[j] by {
                assert(b[pos + j] == b.subrange(pos, end)[j]);
                assert((enc0 + enc_rest)[j] == enc0[j]);
            }
        }
        assert(!(stack.last().end matches Some(e) && e <= pos));
        lemma_encoded_child_scans_back(b, pos, t0, stack, breaks);
        let p2 = pos + enc0.len() as int;
        assert(b.subrange(p2, end) =~= enc_rest) by {
            assert forall|j: int| 0 <= j < enc_rest.len() implies #[trigger] b.subrange(
                p2,
                end,
            )[j] == enc_rest[j] by {
                assert(b[p2 + j] == b.subrange(pos, end)[enc0.len() + j]);
                assert((enc0 + enc_rest)[enc0.len() + j] == enc_rest[j]);
            }
        }
        assert forall|k: int| 0 <= k < rest.len() implies scannable_child(#[trigger] rest[k]) by {
            assert(rest[k] == ts[k + 1]);
        }
        lemma_children_then_end(b, p2, rest, stack, breaks, end);
        assert(seq![t0] + rest.push(TagView::MasterEnd(stack.last().id as int)) =~= ts.push(
            TagView::MasterEnd(stack.last().id as int),
        ));
    }
}

/// Round trip at the Cluster level: the bytes the subscriber writer emits
/// for one whole Cluster scan back, wherever they sit in the stream, to
/// exactly the Cluster's opening, its (already rebased) children, and its
/// closing — nothing dropped, reordered, or changed.
pub proof fn lemma_encoded_cluster_scans_back(
    b: Seq<u8>,
    pos: int,
    interior: Seq<TagView>,
    stack: Seq<OpenMaster>,
    breaks: Seq<u64>,
)
    requires
        forall|k: int| 0 <= k < interior.len() ==> scannable_child(#[trigger] interior[k]),
        crate::encode::spec_encode_tags(interior).len() < vint_all_ones(8),
        0 <= pos,
        pos + crate::encode::spec_encode_cluster_body(interior).len() <= b.len(),
        b.len() <= usize::MAX,
        b.subrange(pos, pos + crate::encode::spec_encode_cluster_body(interior).len())
            == crate::encode::spec_encode_cluster_body(interior),
        !breaks.contains(ID_CLUSTER),
        !(stack.len() > 0 && (stack.last().end matches Some(e) && e <= pos)),
    ensures
        spec_scan_run(b, pos, stack, breaks, (interior.len() + 2) as nat) == Ok::<
            (Seq<TagView>, int, Seq<OpenMaster>),
            ParseError,
        >(
            (
                seq![TagView::MasterStart(ID_CLUSTER as int)] + interior + seq![
                    TagView::MasterEnd(ID_CLUSTER as int),
                ],
                pos + crate::encode::spec_encode_cluster_body(interior).len(),
                stack,
            ),
        ),
{
    reveal_with_fuel(spec_scan_run, 3);
    let body = crate::encode::spec_encode_tags(interior);
    let idb = crate::ebml::id_bytes(ID_CLUSTER as int);
    let sb = crate::ebml::size_bytes(body.len() as int);
    let e = crate::encode::spec_encode_cluster_body(interior);
    assert(e == (idb + sb) + body);
    crate::ebml::lemma_id_bytes_parse(ID_CLUSTER as int);
    crate::ebml::lemma_size_bytes_parse(body.len() as int);
    let ni = crate::ebml::id_nbytes(ID_CLUSTER as int);
    let ns = crate::ebml::size_vint_len(body.len() as int);
    assert(b.subrange(pos, pos + ni) =~= idb) by {
        assert forall|j: int| 0 <= j < ni implies #[trigger] b.subrange(pos, pos + ni)[j]
            == idb[j] by {
            assert(b[pos + j] == b.subrange(pos, pos + e.len() as int)[j]);
            assert(e[j] == idb[j]);
        }
    }
    lemma_parse_id_embed(b, pos, ID_CLUSTER as int);
    assert(b.subrange(pos + ni, pos + ni + ns) =~= sb) by {
        assert forall|j: int| 0 <= j < ns implies #[trigger] b.subrange(pos + ni, pos + ni + ns)[j]
            == sb[j] by {
            assert(b[pos + ni + j] == b.subrange(pos, pos + e.len() as int)[ni + j]);
            assert(e[ni + j] == sb[j]);
        }
    }
    lemma_parse_size_embed(b, pos + ni, body.len() as int);
    let p2 = pos + ni + ns;
    let end = p2 + body.len() as int;
    let stack2 = stack.push(OpenMaster { id: ID_CLUSTER, end: Some(end as usize) });
    assert(spec_next(b, pos, stack, breaks) == Ok::<
        (TagView, int, Seq<OpenMaster>),
        ParseError,
    >((TagView::MasterStart(ID_CLUSTER as int), p2, stack2)));
    assert(b.subrange(p2, end) =~= body) by {
        assert forall|j: int| 0 <= j < body.len() implies #[trigger] b.subrange(p2, end)[j]
            == body[j] by {
            assert(b[p2 + j] == b.subrange(pos, pos + e.len() as int)[ni + ns + j]);
            assert(e[ni + ns + j] == body[j]);
        }
    }
    lemma_children_then_end(b, p2, interior, stack2, breaks, end);
    assert(stack2.drop_last() =~= stack);
    assert(seq![TagView::MasterStart(ID_CLUSTER as int)] + interior.push(
        TagView::MasterEnd(ID_CLUSTER as int),
    ) =~= seq![TagView::MasterStart(ID_CLUSTER as int)] + interior + seq![
        TagView::MasterEnd(ID_CLUSTER as int),
    ]);
}

/// Why a header scan failed.
#[derive(Debug, Clone, Copy, PartialEq, Eq, Structural)]
pub enum HeaderError {
    /// The bytes ran out before the first Cluster; the prelude is incomplete.
    Truncated,
    /// A malformed id or size before the first Cluster.
    Corrupt,
    /// The scan reached the first Cluster, but the tags before it do not
    /// form the EBML, Segment, Info, Tracks prelude in that order.
    BadPrelude,
}

/// The views of a sequence of tags.
pub open spec fn tag_views(ts: Seq<Tag>) -> Seq<TagView> {
    ts.map_values(|t: Tag| t@)
}

/// The masters flattened to `Full` while scanning the header.
pub open spec fn spec_header_breaks() -> Seq<u64> {
    seq![ID_EBML, ID_INFO, ID_TRACKS]
}

/// Executable twin of [`spec_header_breaks`].
pub fn header_breaks() -> (r: Vec<u64>)
    ensures
        r@ == spec_header_breaks(),
{
    let mut r: Vec<u64> = Vec::new();
    r.push(ID_EBML);
    r.push(ID_INFO);
    r.push(ID_TRACKS);
    proof {
        assert(r@ =~= spec_header_breaks());
    }
    r
}

/// A complete, replayable prelude: EBML as a full payload, the Segment
/// opening, then Info and Tracks as full payloads.
pub open spec fn valid_prelude(tags: Seq<TagView>) -> bool {
    &&& tags.len() == 4
    &&& tags[0] matches TagView::MasterFull(id0, _) && id0 == ID_EBML as int
    &&& tags[1] == TagView::MasterStart(ID_SEGMENT as int)
    &&& tags[2] matches TagView::MasterFull(id2, _) && id2 == ID_INFO as int
    &&& tags[3] matches TagView::MasterFull(id3, _) && id3 == ID_TRACKS as int
}

/// What scanning the header out of `b` yields: the tags kept for the
/// snapshot and the offset at which the first Cluster starts, or the error
/// that ended the scan.  Non-header leaves before the first Cluster are
/// skipped.
pub open spec fn spec_capture(b: Seq<u8>, pos: int, stack: Seq<OpenMaster>, acc: Seq<TagView>) -> Result<
    (Seq<TagView>, int),
    HeaderError,
>
    decreases b.len() - pos, stack.len(),
    when 0 <= pos <= b.len()
    via spec_capture_decreases
{
    match spec_next(b, pos, stack, spec_header_breaks()) {
        Err(ParseError::UnexpectedEof) => Err(HeaderError::Truncated),
        Err(ParseError::Corrupt) => Err(HeaderError::Corrupt),
        Ok((tag, p2, s2)) => {
            if is_cluster_start(tag) {
                Ok((acc, pos))
            } else if is_header_kind(tag) {
                spec_capture(b, p2, s2, acc.push(tag))
            } else {
                spec_capture(b, p2, s2, acc)
            }
        },
    }
}

#[via_fn]
proof fn spec_capture_decreases(b: Seq<u8>, pos: int, stack: Seq<OpenMaster>, acc: Seq<TagView>) {
    if spec_next(b, pos, stack, spec_header_breaks()) is Ok {
        lemma_spec_next_progress(b, pos, stack, spec_header_breaks());
    }
}

/// Scanning a whole buffer for its header, from the start.
pub open spec fn spec_capture_file(b: Seq<u8>) -> Result<(Seq<TagView>, int), HeaderError> {
    spec_capture(b, 0, Seq::<OpenMaster>::empty(), Seq::<TagView>::empty())
}

/// The ordered tags of a replayable WebM prelude, and the file offset of
/// the first Cluster, from which the follower's cluster loop begins.
#[derive(Debug, Clone, PartialEq, Eq)]
pub struct HeaderSnapshot {
    /// EBML (full), Segment (start), Info (full), Tracks (full).
    pub tags: Vec<Tag>,
    /// Absolute offset at which the first `Cluster` starts.
    pub cursor: usize,
}

/// Whether `tags` has the exact prelude shape.
pub fn prelude_ok(tags: &Vec<Tag>) -> (r: bool)
    ensures
        r == valid_prelude(tag_views(tags@)),
{
    if tags.len() != 4 {
        return false;
    }
    let ok0 = match &tags[0] {
        Tag::MasterFull(id, _) => *id == ID_EBML,
        _ => false,
    };
    let ok1 = match &tags[1] {
        Tag::MasterStart(id) => *id == ID_SEGMENT,
        _ => false,
    };
    let ok2 = match &tags[2] {
        Tag::MasterFull(id, _) => *id == ID_INFO,
        _ => false,
    };
    let ok3 = match &tags[3] {
        Tag::MasterFull(id, _) => *id == ID_TRACKS,
        _ => false,
    };
    ok0 && ok1 && ok2 && ok3
}

/// Scan the opening of a recording: collect the prelude tags and stop at
/// the first Cluster, which is not consumed.  `buf` must hold the bytes of
/// the file from its start.
pub fn capture_header(buf: Vec<u8>) -> (r: Result<HeaderSnapshot, HeaderError>)
    ensures
        match r {
            Ok(h) => {
                &&& spec_capture_file(buf@) == Ok::<(Seq<TagView>, int), HeaderError>(
                    (tag_views(h.tags@), h.cursor as int),
                )
                &&& valid_prelude(tag_views(h.tags@))
                &&& crate::encode::encodable_tags(tag_views(h.tags@))
                &&& h.cursor <= buf@.len()
            },
            Err(HeaderError::BadPrelude) => {
                &&& spec_capture_file(buf@) is Ok
                &&& !valid_prelude(spec_capture_file(buf@)->Ok_0.0)
            },
            Err(e) => spec_capture_file(buf@) == Err::<(Seq<TagView>, int), HeaderError>(e),
        },
{
    let ghost b = buf@;
    let mut scanner = TagScanner::new(buf, header_breaks());
    let mut tags: Vec<Tag> = Vec::new();
    proof {
        assert(tag_views(tags@) =~= Seq::<TagView>::empty());
    }
    loop
        invariant
            b == buf@,
            scanner.wf(),
            scanner.spec_buf() == b,
            scanner.spec_breaks() == spec_header_breaks(),
            spec_capture_file(b) == spec_capture(
                b,
                scanner.spec_pos(),
                scanner.spec_stack(),
                tag_views(tags@),
            ),
            forall|k: int|
                0 <= k < tags@.len() ==> crate::encode::encodable_tag(
                    #[trigger] tag_views(tags@)[k],
                ),
        decreases b.len() - scanner.spec_pos(), scanner.spec_stack().len(),
    {
        let ghost pos0 = scanner.spec_pos();
        let ghost stack0 = scanner.spec_stack();
        let ghost acc0 = tag_views(tags@);
        proof {
            if spec_next(b, pos0, stack0, spec_header_breaks()) is Ok {
                lemma_spec_next_progress(b, pos0, stack0, spec_header_breaks());
            }
        }
        match scanner.next_tag() {
            Err(ParseError::UnexpectedEof) => {
                proof {
                    assert(spec_next(b, pos0, stack0, spec_header_breaks())
                        == Err::<(TagView, int, Seq<OpenMaster>), ParseError>(
                        ParseError::UnexpectedEof,
                    ));
                    assert(spec_capture(b, pos0, stack0, acc0) == Err::<
                        (Seq<TagView>, int),
                        HeaderError,
                    >(HeaderError::Truncated));
                }
                return Err(HeaderError::Truncated);
            },
            Err(ParseError::Corrupt) => {
                proof {
                    assert(spec_capture(b, pos0, stack0, acc0) == Err::<
                        (Seq<TagView>, int),
                        HeaderError,
                    >(HeaderError::Corrupt));
                }
                return Err(HeaderError::Corrupt);
            },
            Ok(tag) => {
                if tag_is_cluster_start(&tag) {
                    if !prelude_ok(&tags) {
                        return Err(HeaderError::BadPrelude);
                    }
                    let cursor = scanner.last_emitted_tag_offset();
                    return Ok(HeaderSnapshot { tags, cursor });
                }
                let keep = match &tag {
                    Tag::MasterStart(id) => *id != ID_CLUSTER,
                    Tag::MasterEnd(id) => *id != ID_CLUSTER,
                    Tag::MasterFull(id, _) => *id != ID_CLUSTER,
                    _ => false,
                };
                if keep {
                    let ghost tv = tag@;
                    proof {
                        lemma_spec_next_encodable(b, pos0, stack0, spec_header_breaks());
                    }
                    tags.push(tag);
                    proof {
                        assert(tag_views(tags@) =~= acc0.push(tv));
                    }
                }
            },
        }
    }
}

/// A flattened master with its whole body, embedded anywhere, scans back
/// to itself when its id is on the break list.
proof fn lemma_encoded_full_scans_back(
    b: Seq<u8>,
    pos: int,
    id: int,
    payload: Seq<u8>,
    stack: Seq<OpenMaster>,
    breaks: Seq<u64>,
)
    requires
        crate::ebml::valid_id(id),
        is_master_id(id),
        breaks.contains(id as u64),
        payload.len() < vint_all_ones(8),
        0 <= pos,
        pos + crate::encode::spec_encode_element(id, payload).len() <= b.len(),
        b.subrange(pos, pos + crate::encode::spec_encode_element(id, payload).len())
            == crate::encode::spec_encode_element(id, payload),
        !(stack.len() > 0 && (stack.last().end matches Some(e) && e <= pos)),
    ensures
        spec_next(b, pos, stack, breaks) == Ok::<(TagView, int, Seq<OpenMaster>), ParseError>(
            (
                TagView::MasterFull(id, payload),
                pos + crate::encode::spec_encode_element(id, payload).len(),
                stack,
            ),
        ),
{
    let e = crate::encode::spec_encode_element(id, payload);
    let idb = crate::ebml::id_bytes(id);
    let sb = crate::ebml::size_bytes(payload.len() as int);
    crate::ebml::lemma_id_bytes_parse(id);
    crate::ebml::lemma_size_bytes_parse(payload.len() as int);
    let ni = crate::ebml::id_nbytes(id);
    let ns = crate::ebml::size_vint_len(payload.len() as int);
    assert(e == (idb + sb) + payload);
    assert(b.subrange(pos, pos + ni) =~= idb) by {
        assert forall|j: int| 0 <= j < ni implies #[trigger] b.subrange(pos, pos + ni)[j]
            == idb[j] by {
            assert(b[pos + j] == b.subrange(pos, pos + e.len() as int)[j]);
            assert(e[j] == idb[j]);
        }
    }
    lemma_parse_id_embed(b, pos, id);
    assert(b.subrange(pos + ni, pos + ni + ns) =~= sb) by {
        assert forall|j: int| 0 <= j < ns implies #[trigger] b.subrange(pos + ni, pos + ni + ns)[j]
            == sb[j] by {
            assert(b[pos + ni + j] == b.subrange(pos, pos + e.len() as int)[ni + j]);
            assert(e[ni + j] == sb[j]);
        }
    }
    lemma_parse_size_embed(b, pos + ni, payload.len() as int);
    let body = pos + ni + ns;
    assert(b.subrange(body, body + payload.len() as int) =~= payload) by {
        assert forall|j: int|
            0 <= j < payload.len() implies #[trigger] b.subrange(
            body,
            body + payload.len() as int,
        )[j] == payload[j] by {
            assert(b[body + j] == b.subrange(pos, pos + e.len() as int)[ni + ns + j]);
            assert(e[ni + ns + j] == payload[j]);
        }
    }
}

/// A master opened with the unknown-size sentinel, embedded anywhere,
/// scans back to its opening marker and stays open.
proof fn lemma_encoded_unknown_start_scans_back(
    b: Seq<u8>,
    pos: int,
    id: int,
    stack: Seq<OpenMaster>,
    breaks: Seq<u64>,
)
    requires
        crate::ebml::valid_id(id),
        is_master_id(id),
        !breaks.contains(id as u64),
        0 <= pos,
        pos + crate::ebml::id_nbytes(id) + 1 <= b.len(),
        b.subrange(pos, pos + crate::ebml::id_nbytes(id) + 1) == crate::ebml::id_bytes(id)
            + seq![0xffu8],
        !(stack.len() > 0 && (stack.last().end matches Some(e) && e <= pos)),
    ensures
        spec_next(b, pos, stack, breaks) == Ok::<(TagView, int, Seq<OpenMaster>), ParseError>(
            (
                TagView::MasterStart(id),
                pos + crate::ebml::id_nbytes(id) + 1,
                stack.push(OpenMaster { id: id as u64, end: None }),
            ),
        ),
{
    reveal_with_fuel(crate::ebml::pow128, 9);
    let idb = crate::ebml::id_bytes(id);
    crate::ebml::lemma_id_bytes_parse(id);
    let ni = crate::ebml::id_nbytes(id);
    let e = idb + seq![0xffu8];
    assert(b.subrange(pos, pos + ni) =~= idb) by {
        assert forall|j: int| 0 <= j < ni implies #[trigger] b.subrange(pos, pos + ni)[j]
            == idb[j] by {
            assert(b[pos + j] == b.subrange(pos, pos + ni + 1)[j]);
            assert(e[j] == idb[j]);
        }
    }
    lemma_parse_id_embed(b, pos, id);
    assert(b[pos + ni] == 0xffu8) by {
        assert(b[pos + ni] == b.subrange(pos, pos + ni + 1)[ni]);
        assert(e[ni] == 0xffu8);
    }
    assert(crate::ebml::vint_width(b[pos + ni]) == 1);
    assert(crate::ebml::vint_data(b, pos + ni, 1) == 127);
    assert(spec_parse_size(b, pos + ni) == Ok::<(int, int), ParseError>((127, 1)));
    assert(127 == vint_all_ones(1));
}

/// Round trip at the prelude level: the bytes a subscriber's writer emits
/// for a header snapshot, followed by the first Cluster's opening, run back
/// through this library's own header scan to exactly that snapshot, with
/// the cursor at the Cluster.
#[verifier::rlimit(100)]
#[verifier::spinoff_prover]
pub proof fn lemma_encoded_header_captures_back(b: Seq<u8>, hs: Seq<TagView>)
    requires
        valid_prelude(hs),
        crate::encode::encodable_tags(hs),
        ({
            let h = crate::encode::spec_encode_tags(hs).len() as int;
            &&& h <= b.len()
            &&& b.subrange(0, h) == crate::encode::spec_encode_tags(hs)
            &&& (spec_next(
                b,
                h,
                seq![OpenMaster { id: ID_SEGMENT, end: None }],
                spec_header_breaks(),
            ) matches Ok((t, _, _)) && is_cluster_start(t))
        }),
    ensures
        spec_capture_file(b) == Ok::<(Seq<TagView>, int), HeaderError>(
            (hs, crate::encode::spec_encode_tags(hs).len() as int),
        ),
{
    let breaks = spec_header_breaks();
    let t0 = hs[0];
    let t1 = hs[1];
    let t2 = hs[2];
    let t3 = hs[3];
    let e0 = crate::encode::spec_encode_tag(t0);
    let e1 = crate::encode::spec_encode_tag(t1);
    let e2 = crate::encode::spec_encode_tag(t2);
    let e3 = crate::encode::spec_encode_tag(t3);
    let eh = crate::encode::spec_encode_tags(hs);
    assert(eh == e0 + (e1 + (e2 + (e3 + Seq::<u8>::empty())))) by {
        reveal_with_fuel(crate::encode::spec_encode_tags, 6);
        assert(hs.drop_first().drop_first().drop_first().drop_first()
            =~= Seq::<TagView>::empty());
        assert(hs.drop_first()[0] == t1 && hs.drop_first().drop_first()[0] == t2
            && hs.drop_first().drop_first().drop_first()[0] == t3);
    }
    let h = eh.len() as int;
    let p1 = e0.len() as int;
    let p2 = p1 + e1.len() as int;
    let p3 = p2 + e2.len() as int;
    assert(h == p3 + e3.len() as int);
    assert forall|j: int| 0 <= j < h implies #[trigger] b[j] == eh[j] by {
        assert(b.subrange(0, h)[j] == b[j]);
    }
    let body0 = t0->MasterFull_1;
    let body2 = t2->MasterFull_1;
    let body3 = t3->MasterFull_1;
    assert(breaks.contains(ID_EBML) && breaks.contains(ID_INFO) && breaks.contains(ID_TRACKS)
        && !breaks.contains(ID_SEGMENT)) by {
        assert(breaks[0] == ID_EBML && breaks[1] == ID_INFO && breaks[2] == ID_TRACKS);
        assert(forall|k: int| 0 <= k < 3 ==> breaks[k] != ID_SEGMENT);
    }
    let s1 = Seq::<OpenMaster>::empty();
    let s2 = s1.push(OpenMaster { id: ID_SEGMENT, end: None });

    assert(spec_next(b, 0, s1, breaks) == Ok::<(TagView, int, Seq<OpenMaster>), ParseError>(
        (t0, p1, s1),
    )) by {
        assert(e0 == crate::encode::spec_encode_element(ID_EBML as int, body0));
        assert(b.subrange(0, p1) =~= e0) by {
            assert(forall|j: int| 0 <= j < e0.len() ==> #[trigger] eh[j] == e0[j]);
        }
        lemma_encoded_full_scans_back(b, 0, ID_EBML as int, body0, s1, breaks);
    }

    assert(spec_next(b, p1, s1, breaks) == Ok::<(TagView, int, Seq<OpenMaster>), ParseError>(
        (t1, p2, s2),
    )) by {
        crate::ebml::lemma_id_bytes_parse(ID_SEGMENT as int);
        assert(e1 == crate::ebml::id_bytes(ID_SEGMENT as int) + seq![0xffu8]);
        assert(b.subrange(p1, p2) =~= e1) by {
            assert(forall|j: int|
                0 <= j < e1.len() ==> #[trigger] eh[p1 + j] == (e1 + (e2 + (e3
                    + Seq::<u8>::empty())))[j]);
            assert(forall|j: int|
                0 <= j < e1.len() ==> (e1 + (e2 + (e3 + Seq::<u8>::empty())))[j] == e1[j]);
        }
        lemma_encoded_unknown_start_scans_back(b, p1, ID_SEGMENT as int, s1, breaks);
    }

    assert(spec_next(b, p2, s2, breaks) == Ok::<(TagView, int, Seq<OpenMaster>), ParseError>(
        (t2, p3, s2),
    )) by {
        assert(e2 == crate::encode::spec_encode_element(ID_INFO as int, body2));
        assert(b.subrange(p2, p3) =~= e2) by {
            assert(forall|j: int|
                0 <= j < e2.len() ==> #[trigger] eh[p2 + j] == (e2 + (e3
                    + Seq::<u8>::empty()))[j]);
            assert(forall|j: int|
                0 <= j < e2.len() ==> (e2 + (e3 + Seq::<u8>::empty()))[j] == e2[j]);
        }
        assert(!(s2.len() > 0 && (s2.last().end matches Some(e) && e <= p2)));
        lemma_encoded_full_scans_back(b, p2, ID_INFO as int, body2, s2, breaks);
    }

    assert(spec_next(b, p3, s2, breaks) == Ok::<(TagView, int, Seq<OpenMaster>), ParseError>(
        (t3, h, s2),
    )) by {
        assert(e3 == crate::encode::spec_encode_element(ID_TRACKS as int, body3));
        assert(b.subrange(p3, h) =~= e3) by {
            assert(forall|j: int|
                0 <= j < e3.len() ==> #[trigger] eh[p3 + j] == (e3 + Seq::<u8>::empty())[j]);
            assert(forall|j: int| 0 <= j < e3.len() ==> (e3 + Seq::<u8>::empty())[j] == e3[j]);
        }
        lemma_encoded_full_scans_back(b, p3, ID_TRACKS as int, body3, s2, breaks);
    }

    let a0 = Seq::<TagView>::empty();
    assert(spec_capture(b, 0, s1, a0) == spec_capture(b, p1, s1, a0.push(t0))) by {
        reveal_with_fuel(spec_capture, 2);
    }
    assert(spec_capture(b, p1, s1, a0.push(t0)) == spec_capture(
        b,
        p2,
        s2,
        a0.push(t0).push(t1),
    )) by {
        reveal_with_fuel(spec_capture, 2);
    }
    assert(spec_capture(b, p2, s2, a0.push(t0).push(t1)) == spec_capture(
        b,
        p3,
        s2,
        a0.push(t0).push(t1).push(t2),
    )) by {
        reveal_with_fuel(spec_capture, 2);
    }
    assert(spec_capture(b, p3, s2, a0.push(t0).push(t1).push(t2)) == spec_capture(
        b,
        h,
        s2,
        a0.push(t0).push(t1).push(t2).push(t3),
    )) by {
        reveal_with_fuel(spec_capture, 2);
    }
    assert(a0.push(t0).push(t1).push(t2).push(t3) =~= hs);
    assert(s2 =~= seq![OpenMaster { id: ID_SEGMENT, end: None }]);
    assert(spec_capture(b, h, s2, hs) == Ok::<(Seq<TagView>, int), HeaderError>((hs, h))) by {
        reveal_with_fuel(spec_capture, 2);
    }
}

} // verus!
