//! The bounded byte channel: order, backpressure, and closed consumers.

use webm_streamer::channel::{ByteChannel, ChannelError};

#[test]
fn bytes_come_out_in_order() {
    let mut ch = ByteChannel::new(4);
    ch.write(&vec![1, 2]);
    ch.write(&vec![3]);
    ch.flush().unwrap();
    ch.write(&vec![4, 5, 6]);
    ch.flush().unwrap();
    assert!(ch.recv());
    assert!(ch.recv());
    assert!(!ch.recv());
    assert_eq!(ch.read(2), vec![1, 2]);
    assert_eq!(ch.read(10), vec![3, 4, 5, 6]);
    assert_eq!(ch.read(10), Vec::<u8>::new());
}

#[test]
fn backpressure_blocks_but_loses_nothing() {
    // A slow consumer fills the bound; the producer is refused until the
    // consumer takes delivery, and no bytes are skipped.
    let mut ch = ByteChannel::new(1);
    ch.write(&vec![10]);
    ch.flush().unwrap();
    ch.write(&vec![20]);
    assert_eq!(ch.flush(), Err(ChannelError::Full));
    // The staged run stays put; after the consumer catches up, the retry
    // delivers it whole.
    assert!(ch.recv());
    ch.flush().unwrap();
    assert!(ch.recv());
    assert_eq!(ch.read(10), vec![10, 20]);
}

#[test]
fn slow_consumer_does_not_slow_the_fast_one() {
    // Each consumer has its own channel: the fast one drains everything
    // while the slow one has not taken a single delivery.
    let mut fast = ByteChannel::new(2);
    let mut slow = ByteChannel::new(2);
    for run in [vec![1u8, 2], vec![3, 4]] {
        fast.write(&run);
        fast.flush().unwrap();
        slow.write(&run);
        slow.flush().unwrap();
        assert!(fast.recv());
    }
    assert_eq!(fast.read(100), vec![1, 2, 3, 4]);
    // The slow consumer's data is all still there, in order.
    assert!(slow.recv());
    assert!(slow.recv());
    assert_eq!(slow.read(100), vec![1, 2, 3, 4]);
}

#[test]
fn closed_channel_refuses_the_producer() {
    let mut ch = ByteChannel::new(2);
    ch.write(&vec![1]);
    ch.close();
    assert_eq!(ch.flush(), Err(ChannelError::Closed));
}
