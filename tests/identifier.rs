use kadtable::id::{Id, ParseIdError};

#[test]
fn xor_with_self_is_zero() {
    let a: Id = "949e1514bc61a4cda96b40879e5f0513865a2644".parse().unwrap();
    let zero = a ^ a;
    assert_eq!(zero, Id([0u8; 20]));
    assert_eq!(zero.leading_zeros(), 160);
}

#[test]
fn xor_is_symmetric_and_self_inverse() {
    let a: Id = "8bb7c3513f3c547eb8782e775d3895972b22aaa3".parse().unwrap();
    let b: Id = "3a210072672c070de4029b361f8984b76d3d2fc5".parse().unwrap();
    assert_eq!(a ^ b, b ^ a);
    assert_eq!((a ^ b) ^ b, a);
    assert_eq!(a.xor(b).to_hex(), "b196c323581053735c7ab54142b11120461f8566");
}

#[test]
fn distinct_ids_have_distinct_distances() {
    let a: Id = "8bb7c3513f3c547eb8782e775d3895972b22aaa3".parse().unwrap();
    let b: Id = "8bb7c3513f3c547eb8782e775d3895972b22aaa2".parse().unwrap();
    let t: Id = "3a21264604acddf0678e917c1d3440d059c4dfc4".parse().unwrap();
    assert_ne!(a ^ t, b ^ t);
}

#[test]
fn leading_zeros_counts_bits() {
    let mut bytes = [0u8; 20];
    bytes[0] = 0x80;
    assert_eq!(Id(bytes).leading_zeros(), 0);
    bytes[0] = 0x01;
    assert_eq!(Id(bytes).leading_zeros(), 7);
    bytes[0] = 0;
    bytes[1] = 0x20;
    assert_eq!(Id(bytes).leading_zeros(), 10);
    bytes[1] = 0;
    bytes[19] = 1;
    assert_eq!(Id(bytes).leading_zeros(), 159);
}

#[test]
fn less_than_is_byte_order() {
    let mut a = [0u8; 20];
    let mut b = [0u8; 20];
    a[5] = 1;
    b[5] = 2;
    a[6] = 0xff;
    assert!(Id(a).less_than(&Id(b)));
    assert!(!Id(b).less_than(&Id(a)));
    assert!(!Id(a).less_than(&Id(a)));
}

#[test]
fn parses_and_formats_hex() {
    let id = Id::from_hex("00000856ADE0fad1aec472413691ed58698f68cb").unwrap();
    assert_eq!(id.0[0], 0);
    assert_eq!(id.0[3], 0x56);
    assert_eq!(id.0[4], 0xad);
    assert_eq!(id.0[19], 0xcb);
    assert_eq!(id.to_hex(), "00000856ade0fad1aec472413691ed58698f68cb");
}

#[test]
fn rejects_malformed_hex() {
    assert_eq!(Id::from_hex("abc"), Err(ParseIdError::Malformed));
    assert_eq!(
        Id::from_hex("00000856ade0fad1aec472413691ed58698f68c"),
        Err(ParseIdError::Malformed)
    );
    assert_eq!(
        Id::from_hex("00000856ade0fad1aec472413691ed58698f68cb00"),
        Err(ParseIdError::Malformed)
    );
    assert_eq!(
        Id::from_hex("00000856ade0fad1aec472413691ed58698f68cg"),
        Err(ParseIdError::Malformed)
    );
    assert!("".parse::<Id>().is_err());
}

#[test]
fn random_ids_differ() {
    assert_ne!(Id::random(), Id::random());
}

#[test]
fn hex_round_trip() {
    for text in [
        "949e1514bc61a4cda96b40879e5f0513865a2644",
        "0000000000000000000000000000000000000000",
        "ffffffffffffffffffffffffffffffffffffffff",
    ] {
        let id = Id::from_hex(text).unwrap();
        assert_eq!(id.to_hex(), text);
        assert_eq!(Id::from_hex(&id.to_hex()), Ok(id));
    }
}

#[test]
fn from_str_is_case_insensitive_and_strict() {
    let lower: Id = "3a21264604acddf0678e917c1d3440d059c4dfc4".parse().unwrap();
    let upper: Id = "3A21264604ACDDF0678E917C1D3440D059C4DFC4".parse().unwrap();
    assert_eq!(lower, upper);
    assert_eq!(upper.to_hex(), "3a21264604acddf0678e917c1d3440d059c4dfc4");
    assert_eq!(lower.0[0], 0x3a);
    assert_eq!(lower.0[19], 0xc4);
    assert_eq!(
        "3a21264604acddf0678e917c1d3440d059c4dfc".parse::<Id>(),
        Err(ParseIdError::Malformed)
    );
    assert_eq!(
        "3a21264604acddf0678e917c1d3440d059c4dfcz".parse::<Id>(),
        Err(ParseIdError::Malformed)
    );
    assert_eq!(
        " 3a21264604acddf0678e917c1d3440d059c4dfc".parse::<Id>(),
        Err(ParseIdError::Malformed)
    );
}
