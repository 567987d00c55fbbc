//! The typed Matroska tags the stream is parsed into.
//!
//! Master elements appear in one of three forms: `Start` and `End` delimit a
//! master whose body is streamed tag by tag, while `Full` carries the whole
//! body as one payload.  Non-master elements carry their payload directly;
//! the Cluster Timestamp element is decoded into its numeric value because
//! the subscriber writer rebases it.

use vstd::prelude::*;

verus! {

/// Element id of the EBML header master.
pub const ID_EBML: u64 = 0x1A45_DFA3;

/// Element id of the Segment master.
pub const ID_SEGMENT: u64 = 0x1853_8067;

/// Element id of the Info master.
pub const ID_INFO: u64 = 0x1549_A966;

/// Element id of the Tracks master.
pub const ID_TRACKS: u64 = 0x1654_AE6B;

/// Element id of the Cluster master.
pub const ID_CLUSTER: u64 = 0x1F43_B675;

/// Element id of a Cluster's Timestamp child.
pub const ID_TIMESTAMP: u64 = 0xE7;

/// Element id of a SimpleBlock child of a Cluster.
pub const ID_SIMPLE_BLOCK: u64 = 0xA3;

/// The masters this parser streams or flattens; every other element is
/// carried through as a sized leaf, so its bytes survive unchanged.
pub open spec fn is_master_id(id: int) -> bool {
    ||| id == ID_EBML
    ||| id == ID_SEGMENT
    ||| id == ID_INFO
    ||| id == ID_TRACKS
    ||| id == ID_CLUSTER
}

/// Executable twin of [`is_master_id`].
pub fn master_id(id: u64) -> (r: bool)
    ensures
        r == is_master_id(id as int),
{
    id == ID_EBML || id == ID_SEGMENT || id == ID_INFO || id == ID_TRACKS || id == ID_CLUSTER
}

/// A parsed Matroska tag.
#[derive(Debug, Clone, PartialEq, Eq)]
pub enum Tag {
    /// Opening marker of a master element.
    MasterStart(u64),
    /// Closing marker of a master element.
    MasterEnd(u64),
    /// A master element materialized with its whole body.
    MasterFull(u64, Vec<u8>),
    /// A Cluster Timestamp element, decoded.
    Timestamp(u64),
    /// Any other non-master element: id and raw payload.
    Leaf(u64, Vec<u8>),
}

/// Mathematical shape of a [`Tag`].
pub enum TagView {
    /// Opening marker of a master element.
    MasterStart(int),
    /// Closing marker of a master element.
    MasterEnd(int),
    /// A master element with its whole body.
    MasterFull(int, Seq<u8>),
    /// A decoded Cluster Timestamp.
    Timestamp(int),
    /// Any other non-master element.
    Leaf(int, Seq<u8>),
}

impl View for Tag {
    type V = TagView;

    open spec fn view(&self) -> TagView {
        match self {
            Tag::MasterStart(id) => TagView::MasterStart(*id as int),
            Tag::MasterEnd(id) => TagView::MasterEnd(*id as int),
            Tag::MasterFull(id, body) => TagView::MasterFull(*id as int, body@),
            Tag::Timestamp(t) => TagView::Timestamp(*t as int),
            Tag::Leaf(id, body) => TagView::Leaf(*id as int, body@),
        }
    }
}

/// The tag that opens a Cluster.
pub open spec fn is_cluster_start(t: TagView) -> bool {
    t == TagView::MasterStart(ID_CLUSTER as int)
}

/// The tag that closes a Cluster.
pub open spec fn is_cluster_end(t: TagView) -> bool {
    t == TagView::MasterEnd(ID_CLUSTER as int)
}

/// Tags the header snapshot keeps: EBML, Segment, Info and Tracks, in any
/// of their forms.
pub open spec fn is_header_kind(t: TagView) -> bool {
    match t {
        TagView::MasterStart(id) => id != ID_CLUSTER,
        TagView::MasterEnd(id) => id != ID_CLUSTER,
        TagView::MasterFull(id, _) => id != ID_CLUSTER,
        TagView::Timestamp(_) => false,
        TagView::Leaf(_, _) => false,
    }
}

/// Executable check for the Cluster opening marker.
pub fn tag_is_cluster_start(t: &Tag) -> (r: bool)
    ensures
        r == is_cluster_start(t@),
{
    match t {
        Tag::MasterStart(id) => *id == ID_CLUSTER,
        _ => false,
    }
}

/// Executable check for the Cluster closing marker.
pub fn tag_is_cluster_end(t: &Tag) -> (r: bool)
    ensures
        r == is_cluster_end(t@),
{
    match t {
        Tag::MasterEnd(id) => *id == ID_CLUSTER,
        _ => false,
    }
}

} // verus!
