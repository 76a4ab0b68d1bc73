use authenticate_saml::instant::instant;

#[test]
fn a_saml_datetime_is_seconds_since_the_epoch() {
    assert_eq!(instant("2027-01-15T08:00:00Z").expect("time"), 1_800_000_000);
    assert_eq!(instant("2027-01-15T08:00:00.500Z").expect("time"), 1_800_000_000);
    assert!(instant("2027-01-15 08:00:00").is_err());
}

#[test]
fn the_calendar_is_the_gregorian_one() {
    assert_eq!(instant("1970-01-01T00:00:00Z").expect("time"), 0);
    assert_eq!(instant("1969-12-31T23:59:59Z").expect("time"), -1);
    assert_eq!(instant("2000-02-29T00:00:00Z").expect("time"), 951_782_400);
    assert_eq!(instant("2000-03-01T00:00:00Z").expect("time"), 951_868_800);
    assert_eq!(instant("1900-03-01T00:00:00Z").expect("time"), -2_203_891_200);
    assert_eq!(instant("9999-12-31T23:59:59Z").expect("time"), 253_402_300_799);
    assert_eq!(instant("0000-01-01T00:00:00Z").expect("time"), -62_167_219_200);
    // The end of a month, and of a year, is a day before the next.
    for (last, first) in [
        ("2023-02-28T00:00:00Z", "2023-03-01T00:00:00Z"),
        ("2024-02-29T00:00:00Z", "2024-03-01T00:00:00Z"),
        ("2024-04-30T00:00:00Z", "2024-05-01T00:00:00Z"),
        ("2024-12-31T00:00:00Z", "2025-01-01T00:00:00Z"),
    ] {
        assert_eq!(instant(last).expect("time") + 86_400, instant(first).expect("time"));
    }
}

#[test]
fn a_fraction_is_dropped_whatever_its_length() {
    let whole = instant("2027-01-15T08:00:00Z").expect("time");

    for text in ["2027-01-15T08:00:00.0Z", "2027-01-15T08:00:00.123456789Z"] {
        assert_eq!(instant(text).expect("time"), whole);
    }
}

#[test]
fn what_is_not_that_shape_is_refused_naming_it() {
    for text in [
        "",
        "Z",
        "2027-01-15T08:00:00",
        "2027-01-15T08:00:00+01:00",
        "2027-1-15T08:00:00Z",
        "27-01-15T08:00:00Z",
        "+027-01-15T08:00:00Z",
        "2027-01-15T08:00Z",
        "2027-01-15t08:00:00Z",
        "2027-00-15T08:00:00Z",
        "2027-13-15T08:00:00Z",
        "2027-01-00T08:00:00Z",
        "2027-01-32T08:00:00Z",
        "2027-01-15T24:00:00Z",
        "2027-01-15T08:60:00Z",
        "2027-01-15T08:00:00.Z",
        "2027-01-15T08:00:00.5x",
        "2027-01-15T08:00:00.xZ",
        "2027-01-15T08:00:0\u{660}Z",
    ] {
        assert_eq!(
            instant(text).expect_err("refused").message,
            format!("'{text}' is not a UTC SAML dateTime")
        );
    }
}
