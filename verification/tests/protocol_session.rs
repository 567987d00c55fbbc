//! The consumer protocol: message framing, pull-loop decisions, and the
//! one-EOF discipline.

use webm_streamer::protocol::{
    effective_pull_size, tail_read_needs_wait, ClientRequest, Metadata, PullAction, PullSession,
    ServerResponse, SimpleCodec, DEFAULT_PULL_SIZE,
};

#[test]
fn type_codes_and_names() {
    let chunk = ServerResponse::Chunk { metadata: None, data: vec![1, 2, 3] };
    let eof = ServerResponse::EOF;
    assert_eq!(chunk.type_code(), 0);
    assert_eq!(eof.type_code(), 1);
    assert_eq!(chunk.name(), "Chunk");
    assert_eq!(eof.name(), "EOF");
}

#[test]
fn eof_frame_is_one_byte() {
    let mut dst: Vec<u8> = Vec::new();
    SimpleCodec::encode_eof(&mut dst);
    assert_eq!(dst, vec![1]);
}

#[test]
fn chunk_frame_layout() {
    // Type code, 4 bytes big-endian metadata length, metadata, payload.
    let meta = b"{\"chunk_size\":3,\"offset\":3,\"total_size\":9}".to_vec();
    let data = vec![0xaa, 0xbb, 0xcc];
    let mut dst: Vec<u8> = Vec::new();
    SimpleCodec::encode_chunk(&Some(meta.clone()), &data, &mut dst).unwrap();
    assert_eq!(dst[0], 0);
    assert_eq!(&dst[1..5], &(meta.len() as u32).to_be_bytes());
    assert_eq!(&dst[5..5 + meta.len()], &meta[..]);
    assert_eq!(&dst[5 + meta.len()..], &data[..]);
}

#[test]
fn chunk_frame_without_metadata() {
    let data = vec![7, 8];
    let mut dst: Vec<u8> = Vec::new();
    SimpleCodec::encode_chunk(&None, &data, &mut dst).unwrap();
    assert_eq!(dst, vec![0, 0, 0, 0, 0, 7, 8]);
}

#[test]
fn pull_size_defaults() {
    // A Pull without a size asks for the protocol's default of 1 MiB.
    assert_eq!(DEFAULT_PULL_SIZE, 1024 * 1024);
    assert_eq!(effective_pull_size(Some(256)), 256);
    assert_eq!(effective_pull_size(None), 1024 * 1024);
    let req = ClientRequest::Pull { size: Some(256) };
    match req {
        ClientRequest::Pull { size } => assert_eq!(effective_pull_size(size), 256),
        ClientRequest::Stop => unreachable!(),
    }
}

#[test]
fn chunk_offset_is_cumulative() {
    // A Pull of 256 answers with a chunk of at most 256 bytes whose offset
    // equals the bytes previously sent plus this chunk's length.
    let mut session = PullSession::new();
    let size = effective_pull_size(Some(256));
    assert_eq!(size, 256);

    let n1 = 256usize.min(300);
    match session.on_read(n1, 700, true) {
        PullAction::SendChunk { metadata } => {
            assert!(metadata.chunk_size <= 256);
            assert_eq!(metadata.offset, 256);
            assert_eq!(metadata.total_size, 700);
        }
        other => panic!("expected a chunk, got {:?}", other),
    }
    match session.on_read(44, 700, true) {
        PullAction::SendChunk { metadata } => {
            assert_eq!(metadata.chunk_size, 44);
            assert_eq!(metadata.offset, 300);
        }
        other => panic!("expected a chunk, got {:?}", other),
    }
}

#[test]
fn wait_while_recording_still_active() {
    let mut session = PullSession::new();
    assert_eq!(session.on_read(0, 100, true), PullAction::Wait);
    assert!(!session.is_finished());
}

#[test]
fn exactly_one_eof_after_drain() {
    // Once the writer has stopped and the file is drained, the consumer
    // gets one EOF; the session is then finished and asks for nothing more.
    let mut session = PullSession::new();
    match session.on_read(10, 10, false) {
        PullAction::SendChunk { metadata } => assert_eq!(metadata.offset, 10),
        other => panic!("expected a chunk, got {:?}", other),
    }
    assert_eq!(session.on_read(0, 10, false), PullAction::SendEof);
    assert!(session.is_finished());
}

#[test]
fn stop_finishes_the_session() {
    let mut session = PullSession::new();
    session.on_stop();
    assert!(session.is_finished());
}

#[test]
fn metadata_constructor_keeps_fields() {
    let m = Metadata::new(5, 15, 100);
    assert_eq!(m.chunk_size, 5);
    assert_eq!(m.offset, 15);
    assert_eq!(m.total_size, 100);
}

#[test]
fn tail_reader_waits_only_when_short() {
    // Nothing read, nothing new, or a short read: hold the stream open.
    assert!(tail_read_needs_wait(0, 0, 10240));
    assert!(tail_read_needs_wait(5, 5, 10240));
    assert!(tail_read_needs_wait(0, 100, 10240));
    assert!(!tail_read_needs_wait(0, 10240, 10240));
}
