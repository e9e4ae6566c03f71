use std::path::PathBuf;
use std::sync::Arc;
use std::time::Instant;

use ascii_video_renderer::player::{
    frame_limit_reached, playback_exhausted, FrameOffer, FrameTracker, PlayerOptions,
};
use ascii_video_renderer::video::{DecodedFrame, FrameToken};

fn frame(sequence: u64) -> Arc<DecodedFrame> {
    Arc::new(DecodedFrame { width: 1, height: 1, pixels: vec![0], decode_instant: Instant::now(), sequence })
}

#[test]
fn tracker_takes_newer_frames_and_reuses_otherwise() {
    let mut tracker = FrameTracker::new();
    assert_eq!(tracker.token(), FrameToken(0));
    assert_eq!(tracker.offer(None), FrameOffer::NeedLatest);
    tracker.adopt_latest(Some(frame(4)));
    assert_eq!(tracker.token(), FrameToken(0));
    assert_eq!(tracker.current().unwrap().sequence, 4);
    assert_eq!(tracker.offer(None), FrameOffer::Reused);
    assert_eq!(tracker.offer(Some(frame(5))), FrameOffer::Accepted);
    assert_eq!(tracker.token(), FrameToken(5));
    assert_eq!(tracker.current().unwrap().sequence, 5);
}

#[test]
fn frame_limit() {
    assert!(!frame_limit_reached(2, Some(3)));
    assert!(frame_limit_reached(3, Some(3)));
    assert!(!frame_limit_reached(u64::MAX, None));
    let options = PlayerOptions { input: PathBuf::from("video.mp4"), max_frames: Some(3) };
    assert_eq!(options.clone().max_frames, Some(3));
}

#[test]
fn playback_ends_only_on_a_stale_frame_after_decoding_finished() {
    assert!(playback_exhausted(true, FrameOffer::Reused));
    assert!(!playback_exhausted(false, FrameOffer::Reused));
    assert!(!playback_exhausted(true, FrameOffer::Accepted));
    assert!(!playback_exhausted(true, FrameOffer::NeedLatest));
}
