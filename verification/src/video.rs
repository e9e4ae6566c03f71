//! Decoded video frames and the slot that holds the newest of them, so that
//! a renderer always draws the latest frame and never a backlog.

use vstd::prelude::*;
use std::sync::Arc;
use std::time::Instant;

verus! {

/// `std::time::Instant`, carried through frames unread.
#[verifier::external_type_specification]
#[verifier::external_body]
pub struct ExInstant(Instant);

/// `Instant::clone`. `Instant` is `Copy`, so a clone is the same instant.
pub assume_specification[ <Instant as Clone>::clone ](instant: &Instant) -> (r: Instant)
    ensures
        r == *instant,
;

/// One decoded grey frame.
#[derive(Debug, Clone)]
pub struct DecodedFrame {
    pub width: usize,
    pub height: usize,
    pub pixels: Vec<u8>,
    /// When decoding finished.
    pub decode_instant: Instant,
    /// Position in publication order, starting at 1; 0 before publication.
    pub sequence: u64,
}

/// The sequence number of the last frame a consumer has seen.
#[derive(Debug, Clone, Copy, PartialEq, Eq)]
pub struct FrameToken(pub u64);

/// Holds only the most recently published frame.
pub struct LatestFrameSlot {
    frame: Option<Arc<DecodedFrame>>,
    sequence: u64,
}

/// `frame` stamped with sequence number `sequence`.
pub open spec fn stamped(frame: DecodedFrame, sequence: u64) -> DecodedFrame {
    DecodedFrame { sequence, ..frame }
}

impl LatestFrameSlot {
    #[verifier::type_invariant]
    spec fn well_formed(self) -> bool {
        match self.frame {
            Some(f) => f.sequence == self.sequence && self.sequence > 0,
            None => self.sequence == 0,
        }
    }

    /// The newest frame published, if any.
    pub closed spec fn spec_latest(&self) -> Option<DecodedFrame> {
        match self.frame {
            Some(f) => Some(*f),
            None => None,
        }
    }

    /// How many frames were published.
    pub closed spec fn spec_published(&self) -> u64 {
        self.sequence
    }

    /// An empty slot.
    pub fn new() -> (slot: Self)
        ensures
            slot.spec_latest() is None,
            slot.spec_published() == 0,
    {
        LatestFrameSlot { frame: None, sequence: 0 }
    }

    /// How many frames were published.
    pub fn published(&self) -> (n: u64)
        ensures
            n == self.spec_published(),
    {
        self.sequence
    }

    /// Replaces the held frame by `frame`, stamped with the next sequence number.
    pub fn publish(&mut self, frame: DecodedFrame)
        requires
            old(self).spec_published() < u64::MAX,
        ensures
            final(self).spec_published() == old(self).spec_published() + 1,
            final(self).spec_latest() == Some(stamped(frame, (old(self).spec_published() + 1) as u64)),
    {
        let sequence = self.sequence + 1;
        let mut frame = frame;
        frame.sequence = sequence;
        *self = LatestFrameSlot { frame: Some(Arc::new(frame)), sequence };
    }

    /// The newest frame, if any.
    pub fn latest(&self) -> (r: Option<Arc<DecodedFrame>>)
        ensures
            match r {
                Some(f) => self.spec_latest() == Some(*f) && f.sequence == self.spec_published()
                    && self.spec_published() > 0,
                None => self.spec_latest() is None && self.spec_published() == 0,
            },
    {
        proof {
            use_type_invariant(self);
        }
        match &self.frame {
            Some(f) => Some(Arc::clone(f)),
            None => None,
        }
    }

    /// The newest frame if it is newer than the one `token` names.
    pub fn latest_if_newer(&self, token: FrameToken) -> (r: Option<Arc<DecodedFrame>>)
        ensures
            match r {
                Some(f) => self.spec_latest() == Some(*f) && f.sequence > token.0,
                None => self.spec_latest() matches Some(f) ==> f.sequence <= token.0,
            },
    {
        let frame = self.latest()?;
        if frame.sequence > token.0 {
            Some(frame)
        } else {
            None
        }
    }
}

/// A frame published after the slot was read is newer than any token taken
/// from what was read then, so `latest_if_newer` hands it out exactly once
/// per consumer: the token of the frame it returns is not newer than itself.
pub proof fn lemma_published_frame_is_newer(published: u64, frame: DecodedFrame, token: FrameToken)
    requires
        token.0 <= published,
        published < u64::MAX,
    ensures
        stamped(frame, (published + 1) as u64).sequence > token.0,
        !(stamped(frame, (published + 1) as u64).sequence > FrameToken(
            stamped(frame, (published + 1) as u64).sequence,
        ).0),
{
}

} // verus!
