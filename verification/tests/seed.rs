use propsim::{Seed, SeedParseError};

#[test]
fn display_is_zero_padded_hex() {
    assert_eq!(Seed(0).to_string(), "0x0000000000000000");
    assert_eq!(Seed(0xC0FFEE).to_string(), "0x0000000000c0ffee");
    assert_eq!(Seed(0x9f3a17c4e2b01a55).to_string(), "0x9f3a17c4e2b01a55");
}

#[test]
fn round_trips_through_string() {
    for raw in [0u64, 1, 0xC0FFEE, 0x9f3a17c4e2b01a55, u64::MAX] {
        let s = Seed(raw);
        let back: Seed = s.to_string().parse().unwrap();
        assert_eq!(s, back);
    }
}

#[test]
fn parses_decimal_and_hex() {
    assert_eq!("255".parse::<Seed>().unwrap(), Seed(255));
    assert_eq!("0xff".parse::<Seed>().unwrap(), Seed(255));
    assert_eq!("0XFF".parse::<Seed>().unwrap(), Seed(255));
}

#[test]
fn rejects_garbage() {
    assert!("not-a-seed".parse::<Seed>().is_err());
    assert!("0xZZ".parse::<Seed>().is_err());
}

#[test]
fn parse_trims_surrounding_whitespace() {
    assert_eq!("  42 \n".parse::<Seed>().unwrap(), Seed(42));
    assert_eq!(Seed::parse(" 0x10 "), Ok(Seed(16)));
}

#[test]
fn parse_error_keeps_the_input() {
    let e = "0xZZ".parse::<Seed>().unwrap_err();
    assert_eq!(e, SeedParseError("0xZZ".to_string()));
    assert!(e.to_string().contains("0xZZ"));
}

#[test]
fn empty_and_overflowing_seeds_are_rejected() {
    assert!("".parse::<Seed>().is_err());
    assert!("0x".parse::<Seed>().is_err());
    assert!("18446744073709551616".parse::<Seed>().is_err());
    assert_eq!("18446744073709551615".parse::<Seed>().unwrap(), Seed(u64::MAX));
}
