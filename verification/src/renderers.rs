//! What the renderers share with the verified library: the state of a scan
//! across one line of pixels.

use vstd::prelude::*;

verus! {

/// Position of a scan along a line of pixels, relative to the hexagon that
/// is being drawn.
#[derive(Clone, Copy, Debug, PartialEq, Eq, Structural)]
pub enum LineState {
    BeforeHex,
    InHex,
    AfterHex,
}

impl LineState {
    /// The state after a pixel that lies inside the hexagon, or outside of
    /// it: the scan enters the hexagon once and leaves it once.
    pub open spec fn next(self, in_hex: bool) -> LineState {
        match self {
            LineState::BeforeHex => if in_hex {
                LineState::InHex
            } else {
                LineState::BeforeHex
            },
            LineState::InHex => if in_hex {
                LineState::InHex
            } else {
                LineState::AfterHex
            },
            LineState::AfterHex => LineState::AfterHex,
        }
    }

    /// Starts a new line.
    pub fn reset(&mut self)
        ensures
            *final(self) == LineState::BeforeHex,
    {
        *self = LineState::BeforeHex;
    }

    /// Moves on by one pixel.
    pub fn update(&mut self, in_hex: bool)
        ensures
            *final(self) == old(self).next(in_hex),
    {
        let next: LineState = match *self {
            LineState::BeforeHex => if in_hex {
                LineState::InHex
            } else {
                LineState::BeforeHex
            },
            LineState::InHex => if in_hex {
                LineState::InHex
            } else {
                LineState::AfterHex
            },
            LineState::AfterHex => LineState::AfterHex,
        };
        *self = next;
    }
}

} // verus!
