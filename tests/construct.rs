use packed_decimal::{Decimal, Signature};

#[test]
fn assert_invalid() {
    let invalid: Option<Decimal> = Decimal::new(String::from(""));
    assert!(invalid.is_none());

    let invalid: Option<Decimal> = Decimal::new(String::from("text"));
    assert!(invalid.is_none());

    let invalid: Option<Decimal> = Decimal::new(String::from("+.67"));
    assert!(invalid.is_none());

    let invalid: Option<Decimal> = Decimal::new(String::from("-.566"));
    assert!(invalid.is_none());

    let invalid: Option<Decimal> = Decimal::new(String::from(".566"));
    assert!(invalid.is_none());

    let invalid: Option<Decimal> = Decimal::new(String::from("566."));
    assert!(invalid.is_none());

    let invalid: Option<Decimal> = Decimal::new(String::from("+x"));
    assert!(invalid.is_none());

    let invalid: Option<Decimal> = Decimal::new(String::from("-y"));
    assert!(invalid.is_none());

    let invalid: Option<Decimal> = Decimal::new(String::from("+67.566z"));
    assert!(invalid.is_none());

    let invalid: Option<Decimal> = Decimal::new(String::from("-99084d54.566"));
    assert!(invalid.is_none());
}

#[test]
fn pass_valid() {
    let zero: Option<Decimal> = Decimal::new(String::from("0"));
    assert!(zero.is_some());

    let valid: Option<Decimal> = Decimal::new(String::from("+1234.56789"));
    assert!(valid.is_some());
}

#[test]
fn zero_record() {
    let d = Decimal::new(String::from("0")).unwrap();
    assert_eq!(d.signature, Signature::Zero);
    assert_eq!(d.num_of_decimals, 0);
    assert_eq!(d.digits, vec![0x00u8]);
}

#[test]
fn positive_with_fraction() {
    let d = Decimal::new(String::from("+1234.56789")).unwrap();
    assert_eq!(d.signature, Signature::Positive);
    assert_eq!(d.num_of_decimals, 5);
    assert_eq!(d.digits, vec![0x89u8, 0x67, 0x45, 0x23, 0x01]);
}

#[test]
fn negative_with_fraction() {
    let d = Decimal::new(String::from("-99084.566")).unwrap();
    assert_eq!(d.signature, Signature::Negative);
    assert_eq!(d.num_of_decimals, 3);
    assert_eq!(d.digits, vec![0x66u8, 0x45, 0x08, 0x99]);
}

#[test]
fn unsigned_integer() {
    let d = Decimal::new(String::from("7")).unwrap();
    assert_eq!(d.signature, Signature::Positive);
    assert_eq!(d.num_of_decimals, 0);
    assert_eq!(d.digits, vec![0x07u8]);
}

#[test]
fn zero_leading_collapses_to_zero() {
    for text in ["00.5", "00", "0123.45", "01.000"] {
        let d = Decimal::new(String::from(text)).unwrap();
        assert_eq!(d.signature, Signature::Zero);
        assert_eq!(d.num_of_decimals, 0);
        assert_eq!(d.digits, vec![0x00u8]);
    }
}

#[test]
fn point_in_second_place_rejected_even_after_zero() {
    assert!(Decimal::new(String::from("0.5")).is_none());
}

#[test]
fn constructing_twice_gives_equal_records() {
    for text in ["-12.3", "0.5", "+1234.56789", "abc"] {
        let a = Decimal::new(String::from(text));
        let b = Decimal::new(String::from(text));
        match (a, b) {
            (Some(a), Some(b)) => {
                assert_eq!(a.signature, b.signature);
                assert_eq!(a.num_of_decimals, b.num_of_decimals);
                assert_eq!(a.digits, b.digits);
            }
            (None, None) => {}
            _ => panic!("constructions disagree on {}", text),
        }
    }
}

#[test]
fn digit_count_parity() {
    let odd = Decimal::new(String::from("-12.3")).unwrap();
    assert_eq!(odd.digits, vec![0x23u8, 0x01]);
    let even = Decimal::new(String::from("+12.34")).unwrap();
    assert_eq!(even.digits, vec![0x34u8, 0x12]);
    let long = Decimal::new(String::from("123456789012345")).unwrap();
    assert_eq!(long.digits.len(), 8);
}

#[test]
fn bare_signs_rejected() {
    assert!(Decimal::new(String::from("+")).is_none());
    assert!(Decimal::new(String::from("-")).is_none());
    assert!(Decimal::new(String::from(".")).is_none());
}

#[test]
fn several_points_rejected() {
    assert!(Decimal::new(String::from("1.2.3")).is_none());
    assert!(Decimal::new(String::from("-12..3")).is_none());
}

#[test]
fn non_ascii_rejected() {
    assert!(Decimal::new(String::from("1\u{e9}2")).is_none());
    assert!(Decimal::new(String::from("\u{661}2")).is_none());
    assert!(Decimal::new(String::from("12 ")).is_none());
}
