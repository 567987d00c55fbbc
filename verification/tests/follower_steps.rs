//! The follower state machine, transition by transition, and the header
//! scan's error classification.

use webm_streamer::follower::{FollowerAction, FollowerCore, FollowerEvent, FollowerPhase, Read, ReadOrWrite, Write};
use webm_streamer::parse::{capture_header, HeaderError};
use webm_streamer::tags::{Tag, ID_CLUSTER, ID_SIMPLE_BLOCK, ID_TRACKS};

fn start_tag() -> Tag {
    Tag::MasterStart(ID_CLUSTER)
}

fn end_tag() -> Tag {
    Tag::MasterEnd(ID_CLUSTER)
}

#[test]
fn whole_cluster_is_published_after_the_peek() {
    let mut core = FollowerCore::new(1000);
    assert!(matches!(core.step(FollowerEvent::Tag(start_tag(), 0)), FollowerAction::Advance));
    assert_eq!(core.phase(), FollowerPhase::InCluster);
    assert!(matches!(
        core.step(FollowerEvent::Tag(Tag::Timestamp(7), 5)),
        FollowerAction::Advance
    ));
    assert!(matches!(
        core.step(FollowerEvent::Tag(Tag::Leaf(ID_SIMPLE_BLOCK, vec![1]), 9)),
        FollowerAction::Advance
    ));
    assert!(matches!(core.step(FollowerEvent::Tag(end_tag(), 14)), FollowerAction::Advance));
    assert_eq!(core.phase(), FollowerPhase::AwaitNext);
    // The peek finds the next Cluster 20 bytes into this reopen: the whole
    // Cluster goes out and the cursor advances to the absolute offset.
    match core.step(FollowerEvent::Tag(start_tag(), 20)) {
        FollowerAction::Publish { cluster } => {
            assert_eq!(cluster.len(), 4);
            assert_eq!(cluster[0], start_tag());
            assert_eq!(cluster[3], end_tag());
        }
        other => panic!("expected a publish, got {:?}", other),
    }
    assert_eq!(core.cursor(), 1020);
    assert_eq!(core.phase(), FollowerPhase::AwaitClusterStart);
}

#[test]
fn active_tail_eof_means_wait() {
    let mut core = FollowerCore::new(0);
    core.step(FollowerEvent::Tag(start_tag(), 0));
    let before = core.cursor();
    assert!(matches!(
        core.step(FollowerEvent::TailEof { active: true }),
        FollowerAction::Wait
    ));
    assert_eq!(core.cursor(), before);
    assert_eq!(core.phase(), FollowerPhase::InCluster);
}

#[test]
fn inactive_eof_mid_cluster_discards_the_partial() {
    let mut core = FollowerCore::new(0);
    core.step(FollowerEvent::Tag(start_tag(), 0));
    core.step(FollowerEvent::Tag(Tag::Timestamp(3), 5));
    assert!(matches!(
        core.step(FollowerEvent::TailEof { active: false }),
        FollowerAction::Finish
    ));
    assert_eq!(core.phase(), FollowerPhase::Done);
}

#[test]
fn inactive_eof_after_end_publishes_the_last_cluster() {
    let mut core = FollowerCore::new(0);
    core.step(FollowerEvent::Tag(start_tag(), 0));
    core.step(FollowerEvent::Tag(Tag::Timestamp(3), 5));
    core.step(FollowerEvent::Tag(end_tag(), 9));
    match core.step(FollowerEvent::TailEof { active: false }) {
        FollowerAction::PublishLast { cluster } => assert_eq!(cluster.len(), 3),
        other => panic!("expected the final publish, got {:?}", other),
    }
    assert_eq!(core.phase(), FollowerPhase::Done);
}

#[test]
fn unexpected_tags_fail_the_follower() {
    let mut core = FollowerCore::new(0);
    assert!(matches!(
        core.step(FollowerEvent::Tag(Tag::MasterFull(ID_TRACKS, vec![]), 0)),
        FollowerAction::Fail
    ));
    assert_eq!(core.phase(), FollowerPhase::Failed);

    let mut core = FollowerCore::new(0);
    core.step(FollowerEvent::Tag(start_tag(), 0));
    assert!(matches!(
        core.step(FollowerEvent::Tag(Tag::MasterStart(ID_TRACKS), 4)),
        FollowerAction::Fail
    ));
}

#[test]
fn corrupt_stream_fails_the_follower() {
    let mut core = FollowerCore::new(0);
    core.step(FollowerEvent::Tag(start_tag(), 0));
    assert!(matches!(core.step(FollowerEvent::Corrupt), FollowerAction::Fail));
    assert_eq!(core.phase(), FollowerPhase::Failed);
}

#[test]
fn reopen_modes_answer_their_kind() {
    assert!(Read.is_read());
    assert!(!Write.is_read());
}

#[test]
fn header_scan_classifies_failures() {
    // Too short to reach the first Cluster.
    assert_eq!(capture_header(vec![0x1a, 0x45]), Err(HeaderError::Truncated));
    // A zero byte can begin no element id.
    assert_eq!(capture_header(vec![0x00, 0x00]), Err(HeaderError::Corrupt));
    // A Cluster before any prelude: the attach must fail.
    let bytes = vec![0x1f, 0x43, 0xb6, 0x75, 0xff];
    assert_eq!(capture_header(bytes), Err(HeaderError::BadPrelude));
}
