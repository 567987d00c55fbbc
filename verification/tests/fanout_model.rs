//! The fan-out: independent pacing, stopped consumers, and the prefix
//! relation between consumers that attach at different times.

use webm_streamer::follower::Fanout;
use webm_streamer::parse::HeaderSnapshot;
use webm_streamer::tags::{Tag, ID_CLUSTER, ID_EBML, ID_INFO, ID_SEGMENT, ID_SIMPLE_BLOCK, ID_TRACKS};

fn plain_header() -> HeaderSnapshot {
    HeaderSnapshot {
        tags: vec![
            Tag::MasterFull(ID_EBML, vec![0x42, 0x82, 0x84, 0x77, 0x65, 0x62, 0x6d]),
            Tag::MasterStart(ID_SEGMENT),
            Tag::MasterFull(ID_INFO, vec![]),
            Tag::MasterFull(ID_TRACKS, vec![]),
        ],
        cursor: 0,
    }
}

fn cluster(t: u64) -> Vec<Tag> {
    vec![
        Tag::MasterStart(ID_CLUSTER),
        Tag::Timestamp(t),
        Tag::Leaf(ID_SIMPLE_BLOCK, vec![0x81, 0, 0, 0x80, 9]),
        Tag::MasterEnd(ID_CLUSTER),
    ]
}

#[test]
fn stopped_consumer_gets_no_further_bytes() {
    // Two consumers; the second stops after the second Cluster.  The
    // follower keeps serving the first; the stopped one gets nothing more.
    let mut fanout = Fanout::new(plain_header());
    fanout.attach().unwrap();
    fanout.attach().unwrap();
    fanout.publish(&cluster(0)).unwrap();
    fanout.publish(&cluster(100)).unwrap();

    let continuing_before = fanout.drain(0);
    let stopped_before = fanout.drain(1);
    assert_eq!(continuing_before, stopped_before);

    // The consumer sent a Stop: its subscriber is removed.
    fanout.remove_subscriber(1);
    fanout.publish(&cluster(200)).unwrap();

    let more = fanout.drain(0);
    assert!(!more.is_empty());
    assert_eq!(fanout.subscriber_count(), 1);
}

#[test]
fn dropped_consumer_does_not_disturb_the_rest() {
    // Removing one subscriber leaves every other subscriber's stream the
    // same as if the removed one had never been there.
    let mut lone = Fanout::new(plain_header());
    lone.attach().unwrap();
    lone.publish(&cluster(0)).unwrap();
    lone.publish(&cluster(40)).unwrap();
    let expected = lone.drain(0);

    let mut crowd = Fanout::new(plain_header());
    crowd.attach().unwrap();
    crowd.attach().unwrap();
    crowd.attach().unwrap();
    crowd.publish(&cluster(0)).unwrap();
    crowd.remove_subscriber(0);
    crowd.remove_subscriber(1);
    crowd.publish(&cluster(40)).unwrap();
    let survivor = crowd.drain(0);

    assert_eq!(survivor, expected);
}

#[test]
fn later_joiner_output_is_a_suffix_with_shared_header() {
    // Consumer A attaches before any Cluster, consumer B between the second
    // and the third.  Both start with the same header bytes, and B's
    // Clusters are A's from its attach point on, each rebased to its own
    // origin.
    let mut fanout = Fanout::new(plain_header());
    fanout.attach().unwrap();
    fanout.publish(&cluster(0)).unwrap();
    fanout.publish(&cluster(100)).unwrap();
    fanout.attach().unwrap();
    fanout.publish(&cluster(200)).unwrap();

    let a = fanout.drain(0);
    let b = fanout.drain(1);

    let mut header_only = Fanout::new(plain_header());
    header_only.attach().unwrap();
    let header_bytes = header_only.drain(0);

    assert_eq!(&a[..header_bytes.len()], &header_bytes[..]);
    assert_eq!(&b[..header_bytes.len()], &header_bytes[..]);

    // B's one Cluster carries timestamp 0 (200 rebased to its own origin).
    let mut late = Fanout::new(plain_header());
    late.attach().unwrap();
    late.publish(&cluster(200)).unwrap();
    let expected_b = late.drain(0);
    assert_eq!(b, expected_b);
}

#[test]
fn publish_rejects_unencodable_cluster_and_changes_nothing() {
    // A Cluster child with an ill-formed element id cannot be encoded; the
    // publish is refused whole and no subscriber sees a partial Cluster.
    let mut fanout = Fanout::new(plain_header());
    fanout.attach().unwrap();
    fanout.publish(&cluster(0)).unwrap();
    let before = fanout.drain(0);
    assert!(!before.is_empty());

    let bad = vec![
        Tag::MasterStart(ID_CLUSTER),
        Tag::Timestamp(10),
        Tag::Leaf(0x7f, vec![1]),
        Tag::MasterEnd(ID_CLUSTER),
    ];
    assert!(fanout.publish(&bad).is_err());
    let after = fanout.drain(0);
    assert!(after.is_empty());
}
