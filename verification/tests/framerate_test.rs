// Construction and validation of framerates.

use vtc::{rates, Framerate, FramerateParseError, FramerateSource, Ntsc, Rational};

#[test]
fn test_with_playback_rational() {
    let rate = Framerate::with_playback(FramerateSource::Rational(24000, 1001), Ntsc::NonDropFrame)
        .unwrap();
    assert_eq!(rate.playback(), Rational::new(24000, 1001).unwrap());
    assert_eq!(rate.timebase(), Rational::new(24, 1).unwrap());
    assert_eq!(rate.ntsc(), Ntsc::NonDropFrame);
}

#[test]
fn test_with_playback_text() {
    let rate =
        Framerate::with_playback(FramerateSource::Text("24000/1001".to_string()), Ntsc::NonDropFrame)
            .unwrap();
    assert_eq!(rate.playback(), Rational::new(24000, 1001).unwrap());
    let rate = Framerate::with_playback(FramerateSource::Text("23.98".to_string()), Ntsc::NonDropFrame)
        .unwrap();
    assert_eq!(rate.playback(), Rational::new(24000, 1001).unwrap());
    let rate = Framerate::with_playback(FramerateSource::Text("24".to_string()), Ntsc::NotNtsc).unwrap();
    assert_eq!(rate.playback(), Rational::new(24, 1).unwrap());
    let rate = Framerate::with_playback(FramerateSource::Text("3/1".to_string()), Ntsc::NotNtsc).unwrap();
    assert_eq!(rate.playback(), Rational::new(3, 1).unwrap());
}

#[test]
fn test_with_playback_errors() {
    let err = Framerate::with_playback(FramerateSource::Text("24/1".to_string()), Ntsc::NonDropFrame);
    assert_eq!(
        err.err().unwrap(),
        FramerateParseError::Ntsc("ntsc framerates must be n/1001".to_string())
    );
    let err = Framerate::with_playback(FramerateSource::Integer(24), Ntsc::NonDropFrame);
    assert!(err.is_err());
    let err = Framerate::with_playback(FramerateSource::Decimal(2398, 100), Ntsc::DropFrame);
    assert_eq!(
        err.err().unwrap(),
        FramerateParseError::DropFrame(
            "dropframe must have playback divisible by 30000/1001 (multiple of 29.97)".to_string()
        )
    );
    let err = Framerate::with_playback(FramerateSource::Text("-24000/1001".to_string()), Ntsc::NonDropFrame);
    assert_eq!(
        err.err().unwrap(),
        FramerateParseError::Negative("framerates cannot be negative".to_string())
    );
    let err = Framerate::with_playback(FramerateSource::Text("23.98".to_string()), Ntsc::NotNtsc);
    assert!(matches!(err, Err(FramerateParseError::Imprecise(_))));
    let err = Framerate::with_playback(FramerateSource::Text("not a rate".to_string()), Ntsc::NotNtsc);
    assert!(matches!(err, Err(FramerateParseError::Conversion(_))));
}

#[test]
fn test_with_timebase() {
    let rate = Framerate::with_timebase(FramerateSource::Integer(24), Ntsc::NonDropFrame).unwrap();
    assert_eq!(rate.playback(), Rational::new(24000, 1001).unwrap());
    assert_eq!(rate.timebase(), Rational::new(24, 1).unwrap());
    let rate = Framerate::with_timebase(FramerateSource::Text("24".to_string()), Ntsc::NonDropFrame)
        .unwrap();
    assert_eq!(rate.playback(), Rational::new(24000, 1001).unwrap());
    let rate = Framerate::with_timebase(FramerateSource::Text("24.0".to_string()), Ntsc::NonDropFrame)
        .unwrap();
    assert_eq!(rate.playback(), Rational::new(24000, 1001).unwrap());
    // The concrete case from the specification surface.
    let rate = Framerate::with_timebase(FramerateSource::Integer(120), Ntsc::NonDropFrame).unwrap();
    assert_eq!(rate.playback(), Rational::new(120000, 1001).unwrap());
}

#[test]
fn test_with_timebase_errors() {
    let err = Framerate::with_timebase(FramerateSource::Text("24000/1001".to_string()), Ntsc::NonDropFrame);
    assert_eq!(
        err.err().unwrap(),
        FramerateParseError::Ntsc("ntsc timebases must be whole numbers".to_string())
    );
    let err = Framerate::with_timebase(FramerateSource::Text("24".to_string()), Ntsc::DropFrame);
    assert_eq!(
        err.err().unwrap(),
        FramerateParseError::DropFrame(
            "dropframe must have timebase divisible by 30 (multiple of 29.97)".to_string()
        )
    );
}

#[test]
fn test_rate_constants() {
    assert_eq!(
        rates::f23_98(),
        Framerate::with_playback(FramerateSource::Decimal(2398, 100), Ntsc::NonDropFrame).unwrap()
    );
    assert_eq!(
        rates::f24(),
        Framerate::with_playback(FramerateSource::Integer(24), Ntsc::NotNtsc).unwrap()
    );
    assert_eq!(
        rates::f29_97_ndf(),
        Framerate::with_playback(FramerateSource::Decimal(2997, 100), Ntsc::NonDropFrame).unwrap()
    );
    assert_eq!(
        rates::f29_97_df(),
        Framerate::with_playback(FramerateSource::Decimal(2997, 100), Ntsc::DropFrame).unwrap()
    );
    assert_eq!(
        rates::f59_94_df(),
        Framerate::with_timebase(FramerateSource::Integer(60), Ntsc::DropFrame).unwrap()
    );
    assert_eq!(rates::f47_95().playback(), Rational::new(48000, 1001).unwrap());
    assert_eq!(rates::f30().playback(), Rational::new(30, 1).unwrap());
    assert_eq!(rates::f48().playback(), Rational::new(48, 1).unwrap());
    assert_eq!(rates::f59_94_ndf().playback(), Rational::new(60000, 1001).unwrap());
    assert_eq!(rates::f60().playback(), Rational::new(60, 1).unwrap());
}

#[test]
fn test_ntsc_flags() {
    assert!(!Ntsc::NotNtsc.is_ntsc());
    assert!(Ntsc::NonDropFrame.is_ntsc());
    assert!(Ntsc::DropFrame.is_ntsc());
}

#[test]
fn test_rate_display() {
    assert_eq!(rates::f23_98().display_str(), "[23.98 NTSC NDF]");
    assert_eq!(rates::f24().display_str(), "[24]");
    assert_eq!(rates::f29_97_df().display_str(), "[29.97 NTSC DF]");
}

#[test]
fn test_rational_reduction() {
    // Construction reduces to lowest terms with a positive denominator.
    let r = Rational::new(48000, 2002).unwrap();
    assert_eq!(r, Rational::new(24000, 1001).unwrap());
    assert_eq!((r.numer(), r.denom()), (24000, 1001));
    let r = Rational::new(3, -6).unwrap();
    assert_eq!((r.numer(), r.denom()), (-1, 2));
    let r = Rational::new(0, -7).unwrap();
    assert_eq!((r.numer(), r.denom()), (0, 1));
}
