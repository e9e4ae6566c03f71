use std::time::Instant;

use ascii_video_renderer::video::{DecodedFrame, FrameToken, LatestFrameSlot};

fn frame(value: u8) -> DecodedFrame {
    DecodedFrame { width: 1, height: 1, pixels: vec![value], decode_instant: Instant::now(), sequence: 0 }
}

#[test]
fn slot_keeps_only_the_latest_frame() {
    let mut slot = LatestFrameSlot::new();
    assert!(slot.latest().is_none());
    assert!(slot.latest_if_newer(FrameToken(0)).is_none());
    assert_eq!(slot.published(), 0);
    slot.publish(frame(10));
    slot.publish(frame(20));
    let latest = slot.latest().unwrap();
    assert_eq!(latest.pixels, vec![20]);
    assert_eq!(latest.sequence, 2);
    assert_eq!(slot.published(), 2);
}

#[test]
fn latest_if_newer_compares_sequences() {
    let mut slot = LatestFrameSlot::new();
    slot.publish(frame(1));
    assert_eq!(slot.latest_if_newer(FrameToken(0)).unwrap().sequence, 1);
    assert!(slot.latest_if_newer(FrameToken(1)).is_none());
    assert!(slot.latest_if_newer(FrameToken(5)).is_none());
    slot.publish(frame(2));
    assert_eq!(slot.latest_if_newer(FrameToken(1)).unwrap().pixels, vec![2]);
}
