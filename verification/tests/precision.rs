use fizzle::precision::Precision;

#[test]
fn ordering() {
    assert!(Precision::Nanoseconds < Precision::Microseconds);
    assert!(Precision::Microseconds < Precision::Milliseconds);
    assert!(Precision::Milliseconds < Precision::Seconds);
}

#[test]
fn tokens() {
    assert_eq!(Precision::Nanoseconds.as_str(), "ns");
    assert_eq!(Precision::Microseconds.as_str(), "us");
    assert_eq!(Precision::Milliseconds.as_str(), "ms");
    assert_eq!(Precision::Seconds.as_str(), "s");
    assert_eq!(Precision::Milliseconds.to_string(), "ms");
}

#[test]
fn default_is_nanoseconds() {
    assert_eq!(Precision::default(), Precision::Nanoseconds);
}
