//! End-to-end scenarios: a reference writer produces a recording, the
//! library follows it, and each consumer's output is checked through an
//! independent parser.

use std::io::Cursor;

use webm_iterable::matroska_spec::{Master, MatroskaSpec};
use webm_iterable::{WebmIterator, WebmWriter, WriteOptions};

use webm_streamer::follower::{
    next_read, Fanout, FollowerAction, FollowerCore, FollowerEvent, ReadPlan,
};
use webm_streamer::parse::{capture_header, HeaderSnapshot, TagScanner};
use webm_streamer::ebml::ParseError;

/// A recording with one Cluster per entry of `timestamps`, as the write
/// side lays it down: unknown-sized Segment, sized Clusters.
fn reference_recording(timestamps: &[u64]) -> Vec<u8> {
    let mut dest: Vec<u8> = Vec::new();
    {
        let mut w = WebmWriter::new(&mut dest);
        w.write(&MatroskaSpec::Ebml(Master::Start)).unwrap();
        w.write(&MatroskaSpec::DocType("webm".to_string())).unwrap();
        w.write(&MatroskaSpec::Ebml(Master::End)).unwrap();
        w.write_advanced(
            &MatroskaSpec::Segment(Master::Start),
            WriteOptions::is_unknown_sized_element(),
        )
        .unwrap();
        w.write(&MatroskaSpec::Info(Master::Start)).unwrap();
        w.write(&MatroskaSpec::TimestampScale(1_000_000)).unwrap();
        w.write(&MatroskaSpec::Info(Master::End)).unwrap();
        w.write(&MatroskaSpec::Tracks(Master::Start)).unwrap();
        w.write(&MatroskaSpec::TrackEntry(Master::Start)).unwrap();
        w.write(&MatroskaSpec::TrackNumber(1)).unwrap();
        w.write(&MatroskaSpec::TrackEntry(Master::End)).unwrap();
        w.write(&MatroskaSpec::Tracks(Master::End)).unwrap();
        for t in timestamps {
            w.write(&MatroskaSpec::Cluster(Master::Start)).unwrap();
            w.write(&MatroskaSpec::Timestamp(*t)).unwrap();
            w.write(&MatroskaSpec::SimpleBlock(vec![0x81, 0, 0, 0x80, 1, 2, 3])).unwrap();
            w.write(&MatroskaSpec::Cluster(Master::End)).unwrap();
        }
        w.flush().unwrap();
    }
    dest
}

/// Follow `bytes` to its end with the recording already inactive,
/// attaching one subscriber once `attach_after` Clusters have been
/// published.  Returns how many Clusters were published in all.
fn follow_to_end(bytes: &[u8], fanout: &mut Fanout, cursor0: u64, attach_after: usize) -> usize {
    let mut core = FollowerCore::new(cursor0);
    let mut published = 0usize;
    let mut attached = attach_after == 0;
    if attached {
        fanout.attach().unwrap();
    }
    'reseek: loop {
        let cur = core.cursor() as usize;
        let mut scanner = TagScanner::new(bytes[cur..].to_vec(), Vec::new());
        loop {
            let event = match scanner.next_tag() {
                Ok(tag) => {
                    let off = scanner.last_emitted_tag_offset();
                    FollowerEvent::Tag(tag, off)
                }
                Err(ParseError::UnexpectedEof) => FollowerEvent::TailEof { active: false },
                Err(ParseError::Corrupt) => FollowerEvent::Corrupt,
            };
            match core.step(event) {
                FollowerAction::Advance => {}
                FollowerAction::Wait => panic!("no wait expected on an inactive recording"),
                FollowerAction::Publish { cluster } => {
                    fanout.publish(&cluster).unwrap();
                    published += 1;
                    if !attached && published == attach_after {
                        fanout.attach().unwrap();
                        attached = true;
                    }
                    continue 'reseek;
                }
                FollowerAction::PublishLast { cluster } => {
                    fanout.publish(&cluster).unwrap();
                    published += 1;
                    return published;
                }
                FollowerAction::Finish => return published,
                FollowerAction::Fail => panic!("follower failed"),
            }
        }
    }
}

/// Parse a byte stream into tags, flattening the header masters as the
/// header scan does.
fn parse_with_independent_parser(bytes: &[u8]) -> Vec<MatroskaSpec> {
    let breaks = [
        MatroskaSpec::Ebml(Master::Start),
        MatroskaSpec::Info(Master::Start),
        MatroskaSpec::Tracks(Master::Start),
    ];
    WebmIterator::new(Cursor::new(bytes.to_vec()), &breaks)
        .map(|t| t.expect("consumer output must parse"))
        .collect()
}

#[test]
fn header_snapshot_has_the_prelude() {
    let bytes = reference_recording(&[0, 100, 200]);
    let h: HeaderSnapshot = capture_header(bytes.clone()).unwrap();
    assert_eq!(h.tags.len(), 4);
    assert!(matches!(&h.tags[0], webm_streamer::tags::Tag::MasterFull(id, _) if *id == webm_streamer::tags::ID_EBML));
    assert!(matches!(&h.tags[1], webm_streamer::tags::Tag::MasterStart(id) if *id == webm_streamer::tags::ID_SEGMENT));
    assert!(matches!(&h.tags[2], webm_streamer::tags::Tag::MasterFull(id, _) if *id == webm_streamer::tags::ID_INFO));
    assert!(matches!(&h.tags[3], webm_streamer::tags::Tag::MasterFull(id, _) if *id == webm_streamer::tags::ID_TRACKS));
    // The cursor points at the first Cluster's id.
    assert_eq!(&bytes[h.cursor..h.cursor + 4], &[0x1f, 0x43, 0xb6, 0x75]);
}

#[test]
fn early_joiner_sees_the_whole_recording() {
    // A consumer attaching before the first Cluster receives the header and
    // all three Clusters with their timestamps starting at zero.
    let bytes = reference_recording(&[0, 100, 200]);
    let h = capture_header(bytes.clone()).unwrap();
    let cursor = h.cursor as u64;
    let mut fanout = Fanout::new(h);
    let published = follow_to_end(&bytes, &mut fanout, cursor, 0);
    assert_eq!(published, 3);

    let out = fanout.drain(0);
    let tags = parse_with_independent_parser(&out);
    let source_tags = parse_with_independent_parser(&bytes);
    assert_eq!(tags, source_tags);

    let timestamps: Vec<u64> = tags
        .iter()
        .filter_map(|t| match t {
            MatroskaSpec::Timestamp(v) => Some(*v),
            _ => None,
        })
        .collect();
    assert_eq!(timestamps, vec![0, 100, 200]);
}

#[test]
fn late_joiner_gets_rebased_suffix() {
    // A consumer attaching after the first Cluster was published receives
    // the header plus the later Clusters, rebased to start at zero.
    let bytes = reference_recording(&[0, 100, 200]);
    let h = capture_header(bytes.clone()).unwrap();
    let cursor = h.cursor as u64;
    let mut fanout = Fanout::new(h);
    let published = follow_to_end(&bytes, &mut fanout, cursor, 1);
    assert_eq!(published, 3);

    let out = fanout.drain(0);
    let tags = parse_with_independent_parser(&out);
    let timestamps: Vec<u64> = tags
        .iter()
        .filter_map(|t| match t {
            MatroskaSpec::Timestamp(v) => Some(*v),
            _ => None,
        })
        .collect();
    assert_eq!(timestamps, vec![0, 100]);
    let clusters = tags
        .iter()
        .filter(|t| matches!(t, MatroskaSpec::Cluster(Master::Start)))
        .count();
    assert_eq!(clusters, 2);
}

#[test]
fn crashed_writer_truncates_cleanly() {
    // The writer dies mid-Cluster-3: its End never appears.  The follower
    // publishes the two whole Clusters and finishes; no partial bytes leak.
    let mut bytes = reference_recording(&[0, 100]);
    // A third Cluster's opening and the first byte of a child, then nothing.
    bytes.extend_from_slice(&[0x1f, 0x43, 0xb6, 0x75, 0x84, 0xe7]);

    let h = capture_header(bytes.clone()).unwrap();
    let cursor = h.cursor as u64;
    let mut fanout = Fanout::new(h);
    let published = follow_to_end(&bytes, &mut fanout, cursor, 0);
    assert_eq!(published, 2);

    let out = fanout.drain(0);
    let tags = parse_with_independent_parser(&out);
    let timestamps: Vec<u64> = tags
        .iter()
        .filter_map(|t| match t {
            MatroskaSpec::Timestamp(v) => Some(*v),
            _ => None,
        })
        .collect();
    assert_eq!(timestamps, vec![0, 100]);
}

#[test]
fn emitted_segment_size_is_the_all_ones_sentinel() {
    let bytes = reference_recording(&[0]);
    let h = capture_header(bytes.clone()).unwrap();
    let cursor = h.cursor as u64;
    let mut fanout = Fanout::new(h);
    follow_to_end(&bytes, &mut fanout, cursor, 0);
    let out = fanout.drain(0);
    // The Segment id followed immediately by the one-byte all-ones vint.
    let pattern = [0x18u8, 0x53, 0x80, 0x67, 0xff];
    assert!(out.windows(5).any(|w| w == pattern));
}

#[test]
fn transient_tail_eof_recovers_after_growth() {
    // The scanner pauses mid-tag, the buffer grows, and the very same read
    // succeeds: nothing was consumed by the failed attempt.
    let bytes = reference_recording(&[0, 100]);
    let h = capture_header(bytes.clone()).unwrap();
    let cut = h.cursor + 3;
    let mut scanner = TagScanner::new(bytes[h.cursor..cut].to_vec(), Vec::new());
    assert_eq!(scanner.next_tag(), Err(ParseError::UnexpectedEof));
    scanner.extend(&bytes[cut..].to_vec());
    let tag = scanner.next_tag().unwrap();
    assert!(matches!(tag, webm_streamer::tags::Tag::MasterStart(id) if id == webm_streamer::tags::ID_CLUSTER));
}


/// Absolute offsets of every Cluster opening from `cursor` on.
fn cluster_start_offsets(bytes: &[u8], cursor: usize) -> Vec<usize> {
    let mut scanner = TagScanner::new(bytes[cursor..].to_vec(), Vec::new());
    let mut offsets = Vec::new();
    loop {
        match scanner.next_tag() {
            Ok(tag) => {
                if matches!(tag, webm_streamer::tags::Tag::MasterStart(id) if id == webm_streamer::tags::ID_CLUSTER)
                {
                    offsets.push(cursor + scanner.last_emitted_tag_offset());
                }
            }
            Err(_) => return offsets,
        }
    }
}

/// Follow a recording that is still being written: only `cuts[0]` bytes are
/// on disk at first, and every `Wait` reveals bytes up to the next cut (the
/// file is done once all cuts are spent).  The loop obeys `next_read`:
/// a wait grows the same scanner, and only a publish reopens at the cursor.
/// Returns how many Clusters were published and how many waits happened.
fn follow_with_growth(
    bytes: &[u8],
    fanout: &mut Fanout,
    cursor0: u64,
    cuts: &[usize],
) -> (usize, usize) {
    let mut revealed = cuts[0].max(cursor0 as usize);
    let mut next_cut = 1usize;
    let mut core = FollowerCore::new(cursor0);
    let mut published = 0usize;
    let mut waits = 0usize;
    let mut scanner = TagScanner::new(bytes[cursor0 as usize..revealed].to_vec(), Vec::new());
    loop {
        let event = match scanner.next_tag() {
            Ok(tag) => {
                let off = scanner.last_emitted_tag_offset();
                FollowerEvent::Tag(tag, off)
            }
            Err(ParseError::UnexpectedEof) => {
                FollowerEvent::TailEof { active: revealed < bytes.len() }
            }
            Err(ParseError::Corrupt) => FollowerEvent::Corrupt,
        };
        let action = core.step(event);
        let plan = next_read(&action);
        match action {
            FollowerAction::Publish { cluster } | FollowerAction::PublishLast { cluster } => {
                fanout.publish(&cluster).unwrap();
                published += 1;
            }
            FollowerAction::Fail => panic!("follower failed on a partially flushed recording"),
            _ => {}
        }
        match plan {
            ReadPlan::SameScanner => {}
            ReadPlan::ExtendAndRetry => {
                waits += 1;
                let prev = revealed;
                revealed = if next_cut < cuts.len() {
                    cuts[next_cut].max(prev)
                } else {
                    bytes.len()
                };
                next_cut += 1;
                scanner.extend(&bytes[prev..revealed].to_vec());
            }
            ReadPlan::ReopenAtCursor => {
                let base = core.cursor() as usize;
                scanner = TagScanner::new(bytes[base..revealed].to_vec(), Vec::new());
            }
            ReadPlan::Stop => return (published, waits),
        }
    }
}

#[test]
fn tail_wait_recovers_without_loss_or_duplicates() {
    // The writer flushes in pieces: mid-Cluster, exactly at a Cluster
    // boundary (the peek case), and mid-Cluster again.  The follower waits,
    // grows the same scanner, and ends with exactly the same consumer
    // output as if the whole file had been there from the start.
    let bytes = reference_recording(&[0, 100, 200]);
    let h = capture_header(bytes.clone()).unwrap();
    let cursor = h.cursor as u64;
    let starts = cluster_start_offsets(&bytes, h.cursor);
    assert_eq!(starts.len(), 3);

    let mut reference = Fanout::new(capture_header(bytes.clone()).unwrap());
    follow_to_end(&bytes, &mut reference, cursor, 0);
    let expected = reference.drain(0);

    let cuts = vec![
        starts[0] + 2,   // mid Cluster-1 opening
        starts[1] - 3,   // mid Cluster-1 body
        starts[1],       // exactly after Cluster-1's End: the peek waits
        starts[2] - 3,   // mid Cluster-2 body
        starts[2],       // the peek boundary again
        bytes.len() - 4, // mid Cluster-3 body
    ];
    let mut grown = Fanout::new(h);
    grown.attach().unwrap();
    let (published, waits) = follow_with_growth(&bytes, &mut grown, cursor, &cuts);
    assert_eq!(published, 3);
    assert!(waits >= cuts.len());
    let out = grown.drain(0);
    assert_eq!(out, expected);
}

#[test]
fn tail_wait_then_crash_discards_the_partial() {
    // The writer flushes cluster 1 whole, half of cluster 2, and dies.
    // While active the follower waits; once inactive it finishes with only
    // the whole Cluster published.
    let bytes = reference_recording(&[0, 100]);
    let h = capture_header(bytes.clone()).unwrap();
    let cursor = h.cursor as u64;
    let starts = cluster_start_offsets(&bytes, h.cursor);
    assert_eq!(starts.len(), 2);

    let truncated = &bytes[..starts[1] + 6];
    let mut fanout = Fanout::new(h);
    fanout.attach().unwrap();
    let cuts = vec![starts[1], truncated.len()];
    let (published, waits) = follow_with_growth(truncated, &mut fanout, cursor, &cuts);
    assert_eq!(published, 1);
    assert!(waits >= 1);

    let out = fanout.drain(0);
    let tags = parse_with_independent_parser(&out);
    let timestamps: Vec<u64> = tags
        .iter()
        .filter_map(|t| match t {
            MatroskaSpec::Timestamp(v) => Some(*v),
            _ => None,
        })
        .collect();
    assert_eq!(timestamps, vec![0]);
}
