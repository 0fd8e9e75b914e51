use ledger::amount::{format_amount, parse_amount};

#[test]
fn de() {
    assert_eq!(parse_amount(b"1"), Some(10000));
    assert_eq!(parse_amount(b"1.0"), Some(10000));
    assert_eq!(parse_amount(b"1.1234"), Some(11234));
    assert_eq!(parse_amount(b"1.12345"), Some(11234));
    assert_eq!(parse_amount(b"-1.12345"), Some(-11234));
    assert_eq!(parse_amount(b"x"), None);
}

#[test]
fn ser() {
    assert_eq!(format_amount(0), b"0.0000".to_vec());
    assert_eq!(format_amount(10), b"0.0010".to_vec());
    assert_eq!(format_amount(10000), b"1.0000".to_vec());
    assert_eq!(format_amount(-10000), b"-1.0000".to_vec());
}

#[test]
fn parse_edges() {
    // Fewer fractional digits are padded; extra digits are truncated, not
    // rounded, for negative amounts too.
    assert_eq!(parse_amount(b"5."), Some(50000));
    assert_eq!(parse_amount(b".5"), Some(5000));
    assert_eq!(parse_amount(b"-1.99999"), Some(-19999));
    assert_eq!(parse_amount(b"+2.5"), Some(25000));
    // A second dot survives normalization and is rejected as a digit.
    assert_eq!(parse_amount(b"1.2.3"), None);
    assert_eq!(parse_amount(b"-"), Some(0));
    // Values outside the signed 64-bit range are rejected.
    assert_eq!(parse_amount(b"99999999999999999999"), None);
    assert_eq!(parse_amount(b"922337203685477.5807"), Some(i64::MAX));
    assert_eq!(parse_amount(b"922337203685477.5808"), None);
    assert_eq!(parse_amount(b"-922337203685477.5808"), Some(i64::MIN));
    assert_eq!(parse_amount(b"-922337203685477.5809"), None);
}

#[test]
fn format_edges() {
    assert_eq!(format_amount(-10), b"-0.0010".to_vec());
    assert_eq!(format_amount(1), b"0.0001".to_vec());
    assert_eq!(format_amount(123456789), b"12345.6789".to_vec());
    assert_eq!(format_amount(i64::MAX), b"922337203685477.5807".to_vec());
    assert_eq!(format_amount(i64::MIN), b"-922337203685477.5808".to_vec());
}

#[test]
fn round_trip() {
    for v in [0, 1, -1, 10, -10, 12345, -98765, i64::MAX, i64::MIN] {
        assert_eq!(parse_amount(&format_amount(v)), Some(v));
    }
}
