//! The player's decisions between terminal and decoder work: which frame to
//! draw next and when to stop.

use vstd::prelude::*;
use std::path::PathBuf;
use std::sync::Arc;
use crate::video::{DecodedFrame, FrameToken};

verus! {

/// `std::path::PathBuf`, carried unread.
#[verifier::external_type_specification]
#[verifier::external_body]
pub struct ExPathBuf(PathBuf);

/// `PathBuf::clone`. Its documentation promises an equal path.
pub assume_specification[ <PathBuf as Clone>::clone ](path: &PathBuf) -> (r: PathBuf)
    ensures
        r == *path,
;

/// What the player was asked to play.
#[derive(Debug, Clone)]
pub struct PlayerOptions {
    pub input: PathBuf,
    /// Stop after drawing this many frames.
    pub max_frames: Option<u64>,
}

/// The outcome of offering the player a frame newer than its last one.
#[derive(Clone, Copy, Debug, PartialEq, Eq)]
pub enum FrameOffer {
    /// The newer frame becomes the current one.
    Accepted,
    /// There was no newer frame and nothing to draw yet: fetch the latest.
    NeedLatest,
    /// There was no newer frame: draw the current one again.
    Reused,
}

/// The frame the player draws and the token of the last new frame it took.
pub struct FrameTracker {
    token: FrameToken,
    current: Option<Arc<DecodedFrame>>,
}

impl FrameTracker {
    /// The token of the last new frame taken.
    pub closed spec fn spec_token(&self) -> FrameToken {
        self.token
    }

    /// The frame being drawn.
    pub closed spec fn spec_current(&self) -> Option<DecodedFrame> {
        match self.current {
            Some(f) => Some(*f),
            None => None,
        }
    }

    /// No frame yet; token 0.
    pub fn new() -> (t: Self)
        ensures
            t.spec_token() == FrameToken(0),
            t.spec_current() is None,
    {
        FrameTracker { token: FrameToken(0), current: None }
    }

    /// The token of the last new frame taken.
    pub fn token(&self) -> (t: FrameToken)
        ensures
            t == self.spec_token(),
    {
        self.token
    }

    /// Takes a newer frame if there is one; otherwise says whether the
    /// latest frame must be fetched or the current one drawn again.
    pub fn offer(&mut self, newer: Option<Arc<DecodedFrame>>) -> (r: FrameOffer)
        ensures
            match newer {
                Some(f) => r == FrameOffer::Accepted && final(self).spec_token() == FrameToken(f.sequence)
                    && final(self).spec_current() == Some(*f),
                None => final(self).spec_token() == old(self).spec_token() && final(self).spec_current()
                    == old(self).spec_current() && (r == (if old(self).spec_current() is None {
                    FrameOffer::NeedLatest
                } else {
                    FrameOffer::Reused
                })),
            },
    {
        match newer {
            Some(frame) => {
                self.token = FrameToken(frame.sequence);
                self.current = Some(frame);
                FrameOffer::Accepted
            },
            None => {
                if self.current.is_none() {
                    FrameOffer::NeedLatest
                } else {
                    FrameOffer::Reused
                }
            },
        }
    }

    /// Draws the latest frame from now on; the token is unchanged.
    pub fn adopt_latest(&mut self, latest: Option<Arc<DecodedFrame>>)
        ensures
            final(self).spec_token() == old(self).spec_token(),
            final(self).spec_current() == (match latest {
                Some(f) => Some(*f),
                None => None,
            }),
    {
        self.current = latest;
    }

    /// The frame being drawn, if any.
    pub fn current(&self) -> (r: Option<Arc<DecodedFrame>>)
        ensures
            match r {
                Some(f) => self.spec_current() == Some(*f),
                None => self.spec_current() is None,
            },
    {
        match &self.current {
            Some(f) => Some(Arc::clone(f)),
            None => None,
        }
    }
}

/// Whether playback is over: the decoder has finished and the offer found
/// no newer frame than the one already drawn.
pub fn playback_exhausted(decoder_finished: bool, offer: FrameOffer) -> (r: bool)
    ensures
        r == (decoder_finished && offer == FrameOffer::Reused),
{
    decoder_finished && matches!(offer, FrameOffer::Reused)
}

/// Whether drawing `rendered_frames` frames reaches the limit, if there is one.
pub fn frame_limit_reached(rendered_frames: u64, max_frames: Option<u64>) -> (r: bool)
    ensures
        r == (match max_frames {
            Some(m) => rendered_frames >= m,
            None => false,
        }),
{
    match max_frames {
        Some(max_frames) => rendered_frames >= max_frames,
        None => false,
    }
}

} // verus!
