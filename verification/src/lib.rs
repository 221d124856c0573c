//! SMPTE timecode arithmetic over exact rational seconds.
//!
//! The crate models a point in a video or film sequence as an exact
//! rational number of real-world seconds paired with a validated
//! framerate, and converts among timecode strings, frame counts,
//! runtime strings, editing-application ticks and film footage.

mod errors;
mod framerate;
mod framerate_parse;
mod laws;
pub mod rates;
mod rational;
mod text;
mod timecode;
mod timecode_parse;

pub use errors::{FramerateParseError, TimecodeParseError};
pub use framerate::{Framerate, Ntsc};
pub use framerate_parse::{FramerateParseResult, FramerateSource};
pub use laws::{
    law_division_remainder, law_footage_round_trip, law_footage_text_round_trip,
    law_frame_count_round_trip, law_negate_involution, law_quotient_scales_back,
    law_seconds_snap_to_frame,
};
pub use rational::Rational;
pub use timecode::{sort_timecodes, FeetFramesStr, FilmFormat, Timecode, TimecodeSections};
pub use timecode_parse::{FramesSource, PremiereTicksSource, SecondsSource, TimecodeParseResult};

