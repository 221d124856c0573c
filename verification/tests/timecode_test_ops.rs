// Operator behaviour of Timecode values.

use vtc::{rates, FramesSource, Rational, Timecode};

fn tc_frames(text: &str) -> Timecode {
    Timecode::with_frames(FramesSource::Text(text.to_string()), rates::f24()).unwrap()
}

#[test]
fn test_negative() {
    assert_eq!(
        tc_frames("01:00:00:00").negate(),
        tc_frames("-01:00:00:00"),
        "neg positive",
    );
    assert_eq!(
        tc_frames("-01:00:00:00").negate(),
        tc_frames("01:00:00:00"),
        "neg negative",
    )
}

#[test]
fn test_abs() {
    assert_eq!(
        tc_frames("01:00:00:00").abs(),
        tc_frames("01:00:00:00"),
        "abs positive",
    );
    assert_eq!(
        tc_frames("-01:00:00:00").abs(),
        tc_frames("01:00:00:00"),
        "abs negative",
    )
}

#[test]
fn test_add_subtract() {
    let a = Timecode::with_frames(
        FramesSource::Text("01:00:00:00".to_string()),
        rates::f23_98(),
    )
    .unwrap();
    let b = Timecode::with_frames(
        FramesSource::Text("00:30:00:00".to_string()),
        rates::f23_98(),
    )
    .unwrap();
    assert_eq!(a.add(b).timecode(), "01:30:00:00");
    assert_eq!(a.subtract(b).timecode(), "00:30:00:00");
    assert_eq!(b.subtract(a).timecode(), "-00:30:00:00");
}

#[test]
fn test_scale_divide_remainder() {
    let tc = Timecode::with_frames(
        FramesSource::Text("01:00:00:01".to_string()),
        rates::f23_98(),
    )
    .unwrap();
    let n = Rational::new(3, 2).unwrap();
    let div = tc.divide_floor(n);
    assert_eq!(div.timecode(), "00:40:00:00");
    let rem = tc.remainder(n);
    assert_eq!(rem.timecode(), "00:00:00:01");
    // The complementary-pair law at the frame level.
    assert_eq!(div.scale(n).frames() + rem.frames(), tc.frames());
    assert_eq!(div.scale(n).add(rem), tc);
}

#[test]
fn test_divide_by_integer() {
    let tc = Timecode::with_frames(
        FramesSource::Text("01:00:00:00".to_string()),
        rates::f23_98(),
    )
    .unwrap();
    let two = Rational::new(2, 1).unwrap();
    assert_eq!(tc.divide_floor(two).timecode(), "00:30:00:00");
    let mut halved = tc.divide_floor(two);
    halved = halved.scale(two);
    assert_eq!(halved, tc);
}

#[test]
fn test_compare_and_sort() {
    let tc1 = Timecode::with_frames(
        FramesSource::Text("01:00:00:00".to_string()),
        rates::f23_98(),
    )
    .unwrap();
    let tc2 = Timecode::with_frames(
        FramesSource::Text("01:00:00:00".to_string()),
        rates::f23_98(),
    )
    .unwrap();
    let tc3 = Timecode::with_frames(
        FramesSource::Text("00:30:00:00".to_string()),
        rates::f23_98(),
    )
    .unwrap();
    let tc4 = Timecode::with_frames(
        FramesSource::Text("01:30:00:00".to_string()),
        rates::f23_98(),
    )
    .unwrap();
    assert!(tc1 == tc2);
    assert!(tc1 > tc3);
    assert!(tc1 < tc4);
    // Sorting is by real-world seconds even across rates.
    let quick = Timecode::with_frames(FramesSource::Integer(1), rates::f60()).unwrap();
    let mut list = vec![tc4, tc1, quick, tc3];
    vtc::sort_timecodes(&mut list);
    assert_eq!(list[0], quick);
    assert_eq!(list[1], tc3);
    assert_eq!(list[2], tc1);
    assert_eq!(list[3], tc4);
    for w in list.windows(2) {
        assert!(w[0] <= w[1]);
    }
}

#[test]
fn test_rebase() {
    let tc = Timecode::with_frames(
        FramesSource::Text("01:00:00:00".to_string()),
        rates::f24(),
    )
    .unwrap();
    let rebased = tc.rebase(rates::f48());
    assert_eq!(rebased.timecode(), "00:30:00:00");
    assert_eq!(rebased.frames(), tc.frames());
}
