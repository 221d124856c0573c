//! Typed errors for framerate and timecode construction.  Every fallible
//! entry point reports one of these; nothing in the crate panics on
//! malformed user input.

use vstd::prelude::*;

verus! {

/// Why a framerate source was rejected.
#[derive(Clone, Debug, PartialEq, Eq)]
pub enum FramerateParseError {
    /// A bad NTSC playback or timebase rate was given.
    Ntsc(String),
    /// A bad drop-frame playback or timebase rate was given.
    DropFrame(String),
    /// A negative value cannot be a framerate.
    Negative(String),
    /// The value is not precise enough for a non-NTSC framerate.
    Imprecise(String),
    /// An internal numeric conversion failed, or a component of a text
    /// source did not parse as a number.
    Conversion(String),
}

/// Why a timecode source was rejected.
#[derive(Clone, Debug, PartialEq, Eq)]
pub enum TimecodeParseError {
    /// An internal numeric conversion failed, such as a section value
    /// overflowing a 64-bit count.
    Conversion(String),
    /// The text matched no known timecode format.
    UnknownStrFormat(String),
    /// A drop-frame timecode string carried a frames value that should
    /// have been dropped, such as `00:01:00:01` at 29.97 drop-frame.
    DropFrameValue(String),
}

} // verus!
