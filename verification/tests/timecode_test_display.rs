// The string forms a timecode produces.

use vtc::{rates, FilmFormat, FramesSource, Timecode};

fn tc(text: &str, rate: vtc::Framerate) -> Timecode {
    Timecode::with_frames(FramesSource::Text(text.to_string()), rate).unwrap()
}

#[test]
fn test_timecode_strings() {
    assert_eq!(tc("01:00:00:00", rates::f23_98()).timecode(), "01:00:00:00");
    let df = Timecode::with_frames(FramesSource::Integer(15000), rates::f29_97_df()).unwrap();
    assert_eq!(df.timecode(), "00:08:20;16");
    assert_eq!(tc("-01:00:00:00", rates::f24()).timecode(), "-01:00:00:00");
}

#[test]
fn test_runtime_strings() {
    let t = tc("01:00:00:00", rates::f23_98());
    assert_eq!(t.runtime(3), "01:00:03.6");
    assert_eq!(t.runtime(9), "01:00:03.6");
    assert_eq!(tc("17:23:13:02", rates::f23_98()).runtime(3), "17:24:15.676");
    assert_eq!(tc("01:00:00:00", rates::f24()).runtime(9), "01:00:00.0");
    assert_eq!(tc("-01:00:00:00", rates::f24()).runtime(2), "-01:00:00.0");
}

#[test]
fn test_feet_and_frames_strings() {
    let t = tc("17:23:13:02", rates::f23_98());
    assert_eq!(t.feet_and_frames(FilmFormat::FF35mm4perf), "93889+10");
    assert_eq!(t.feet_and_frames(FilmFormat::FF16mm), "75111+14");
    let one_hour = tc("01:00:00:00", rates::f23_98());
    assert_eq!(one_hour.feet_and_frames(FilmFormat::FF35mm4perf), "5400+00");
    // Three-perforation footage carries the perforation marker.
    let f47 = Timecode::with_frames(FramesSource::Integer(47), rates::f24()).unwrap();
    assert_eq!(f47.feet_and_frames(FilmFormat::FF35mm3perf), "2+05.2");
}

#[test]
fn test_footage_round_trip_all_formats() {
    let t = tc("17:23:13:02", rates::f23_98());
    for fmt in [
        FilmFormat::FF35mm4perf,
        FilmFormat::FF35mm3perf,
        FilmFormat::FF35mm2perf,
        FilmFormat::FF16mm,
    ] {
        let text = t.feet_and_frames(fmt);
        let ff = vtc::FeetFramesStr::new(&text, fmt);
        let back = Timecode::with_frames(FramesSource::FeetFrames(ff), rates::f23_98()).unwrap();
        assert_eq!(back.frames(), t.frames(), "format {:?}", fmt);
    }
}

#[test]
fn test_film_format_constants() {
    assert_eq!(FilmFormat::FF35mm4perf.footage_modulus_frame_count(), 16);
    assert_eq!(FilmFormat::FF35mm3perf.footage_modulus_frame_count(), 64);
    assert_eq!(FilmFormat::FF35mm2perf.footage_modulus_frame_count(), 32);
    assert_eq!(FilmFormat::FF16mm.footage_modulus_frame_count(), 20);
    assert_eq!(FilmFormat::FF35mm3perf.footage_modulus_footage_count(), 3);
    assert!(FilmFormat::FF35mm3perf.allows_perf_field());
    assert!(!FilmFormat::FF35mm4perf.allows_perf_field());
    assert_eq!(FilmFormat::FF16mm.perfs_per_foot(), 20);
    assert_eq!(FilmFormat::FF35mm2perf.perfs_per_frame(), 2);
}

#[test]
fn test_drop_frames_per_minute() {
    assert_eq!(rates::f29_97_df().drop_frames_per_minute(), Some(2));
    assert_eq!(rates::f59_94_df().drop_frames_per_minute(), Some(4));
    assert_eq!(rates::f24().drop_frames_per_minute(), None);
}
