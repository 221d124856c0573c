// Parsing timecode, footage and runtime text into timecodes.

use vtc::{rates, FeetFramesStr, FilmFormat, FramesSource, SecondsSource, Timecode, TimecodeParseError, TimecodeSections};

fn frames_of(text: &str, rate: vtc::Framerate) -> i64 {
    Timecode::with_frames(FramesSource::Text(text.to_string()), rate)
        .unwrap()
        .frames()
}

#[test]
fn test_parse_timecode_text() {
    assert_eq!(frames_of("17:23:13:02", rates::f23_98()), 1502234);
    assert_eq!(frames_of("01:00:00:00", rates::f23_98()), 86400);
    assert_eq!(frames_of("00:00:00:10", rates::f24()), 10);
    assert_eq!(frames_of("3:12", rates::f23_98()), 84);
    assert_eq!(frames_of("04", rates::f24()), 4);
    assert_eq!(frames_of("-01:00:00:00", rates::f24()), -86400);
    // Overflowing sections carry into the next place.
    assert_eq!(frames_of("00:00:62:04", rates::f24()), 62 * 24 + 4);
}

#[test]
fn test_parse_drop_frame() {
    let tc = Timecode::with_frames(FramesSource::Integer(15000), rates::f29_97_df()).unwrap();
    assert_eq!(tc.timecode(), "00:08:20;16");
    let tc = Timecode::with_frames(
        FramesSource::Text("00:08:20;16".to_string()),
        rates::f29_97_df(),
    )
    .unwrap();
    assert_eq!(tc.frames(), 15000);
    let err = Timecode::with_frames(
        FramesSource::Text("00:01:00:01".to_string()),
        rates::f29_97_df(),
    );
    assert!(matches!(err, Err(TimecodeParseError::DropFrameValue(_))));
    // Tenth minutes keep their low frame numbers.
    assert!(Timecode::with_frames(
        FramesSource::Text("00:10:00:01".to_string()),
        rates::f29_97_df()
    )
    .is_ok());
}

#[test]
fn test_parse_feet_and_frames() {
    assert_eq!(frames_of("5400+00", rates::f23_98()), 86400);
    assert_eq!(frames_of("1+08", rates::f23_98()), 24);
    assert_eq!(frames_of("-1+08", rates::f23_98()), -24);
    // A perforation suffix selects three-perforation film.
    let tc = Timecode::with_frames(FramesSource::Text("2+5.1".to_string()), rates::f24()).unwrap();
    assert_eq!(tc.timecode(), "00:00:01:23");
    // An explicit format hint overrides the inference.
    let ff = FeetFramesStr::new("22+1", FilmFormat::FF16mm);
    let tc = Timecode::with_frames(FramesSource::FeetFrames(ff), rates::f24()).unwrap();
    assert_eq!(tc.timecode(), "00:00:18:09");
    // A perforation field is refused where the format has none.
    let ff = FeetFramesStr::new("2+5.1", FilmFormat::FF35mm4perf);
    let err = Timecode::with_frames(FramesSource::FeetFrames(ff), rates::f24());
    assert!(matches!(err, Err(TimecodeParseError::UnknownStrFormat(_))));
}

#[test]
fn test_parse_unknown_and_conversion() {
    let err = Timecode::with_frames(FramesSource::Text("not a timecode".to_string()), rates::f24());
    assert!(matches!(err, Err(TimecodeParseError::UnknownStrFormat(_))));
    let err = Timecode::with_frames(
        FramesSource::Text("99999999999999999999999".to_string()),
        rates::f24(),
    );
    assert!(matches!(err, Err(TimecodeParseError::Conversion(_))));
    let err = Timecode::with_seconds(SecondsSource::Rational(1, 0), rates::f24());
    assert!(matches!(err, Err(TimecodeParseError::Conversion(_))));
}

#[test]
fn test_parse_runtime() {
    let tc = Timecode::with_seconds(SecondsSource::Text("01:00:00.0".to_string()), rates::f24())
        .unwrap();
    assert_eq!(tc.timecode(), "01:00:00:00");
    let tc = Timecode::with_seconds(SecondsSource::Text("1.5".to_string()), rates::f23_98())
        .unwrap();
    assert_eq!(tc.timecode(), "00:00:01:12");
    let tc = Timecode::with_seconds(SecondsSource::Text("-0.5".to_string()), rates::f24()).unwrap();
    assert_eq!(tc.frames(), -12);
    let err = Timecode::with_seconds(SecondsSource::Text("bad".to_string()), rates::f24());
    assert!(matches!(err, Err(TimecodeParseError::UnknownStrFormat(_))));
}

#[test]
fn test_with_seconds_rational() {
    let tc = Timecode::with_seconds(SecondsSource::Rational(3600, 1), rates::f24()).unwrap();
    assert_eq!(tc.seconds(), vtc::Rational::new(3600, 1).unwrap());
    assert_eq!(tc.frames(), 86400);
    // Seconds snap to the nearest frame boundary of the rate.
    let tc = Timecode::with_seconds(SecondsSource::Rational(3600, 1), rates::f23_98()).unwrap();
    assert_eq!(tc.seconds(), vtc::Rational::new(43200157, 12000).unwrap());
}

#[test]
fn test_premiere_ticks() {
    let tc = Timecode::with_frames(FramesSource::Integer(86400), rates::f24()).unwrap();
    assert_eq!(tc.premiere_ticks(), 914457600000000);
    let tc = Timecode::with_seconds(SecondsSource::Rational(1, 1), rates::f24()).unwrap();
    assert_eq!(tc.premiere_ticks(), 254016000000);
    let tc = Timecode::with_frames(
        FramesSource::Text("01:00:00:00".to_string()),
        rates::f23_98(),
    )
    .unwrap();
    assert_eq!(tc.premiere_ticks(), 915372057600000);
    let back = Timecode::with_premiere_ticks(915372057600000, rates::f23_98()).unwrap();
    assert_eq!(back.timecode(), "01:00:00:00");
    let parsed = Timecode::with_premiere_ticks(254016000000, rates::f23_98()).unwrap();
    assert_eq!(parsed.timecode(), "00:00:01:00");
}

#[test]
fn test_sections() {
    let tc = Timecode::with_frames(
        FramesSource::Text("01:00:00:00".to_string()),
        rates::f23_98(),
    )
    .unwrap();
    let expected = TimecodeSections { negative: false, hours: 1, minutes: 0, seconds: 0, frames: 0 };
    assert_eq!(tc.sections(), expected);
    let tc = Timecode::with_frames(FramesSource::Integer(-15000), rates::f29_97_df()).unwrap();
    let s = tc.sections();
    assert!(s.negative);
    assert_eq!((s.hours, s.minutes, s.seconds, s.frames), (0, 8, 20, 16));
}
