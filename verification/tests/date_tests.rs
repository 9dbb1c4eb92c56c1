use jmap_core::date::JMAPDate;

#[test]
fn parse_jmap_date() {
    for (input, expected_result) in [
        ("1997-11-21T09:55:06-06:00", "1997-11-21T09:55:06-06:00"),
        ("1997-11-21T09:55:06+00:00", "1997-11-21T09:55:06Z"),
        ("2021-01-01T09:55:06+02:00", "2021-01-01T09:55:06+02:00"),
        ("2004-06-28T23:43:45.000Z", "2004-06-28T23:43:45Z"),
        ("1997-11-21T09:55:06.123+00:00", "1997-11-21T09:55:06Z"),
        ("2021-01-01T09:55:06.4567+02:00", "2021-01-01T09:55:06+02:00"),
    ] {
        let date = JMAPDate::parse(input).unwrap();
        assert_eq!(date.to_rfc3339(), expected_result);

        let timestamp = date.timestamp();
        assert_eq!(JMAPDate::from_timestamp(timestamp).timestamp(), timestamp);
    }
}

#[test]
fn parse_fields() {
    let d = JMAPDate::parse("2004-06-28T23:43:45.000Z").unwrap();
    assert_eq!(d.year, 2004);
    assert_eq!(d.month, 6);
    assert_eq!(d.day, 28);
    assert_eq!(d.hour, 23);
    assert_eq!(d.minute, 43);
    assert_eq!(d.second, 45);
    assert_eq!(d.tz_hour, 0);
    assert_eq!(d.tz_minute, 0);
    assert!(!d.tz_before_gmt);
    assert_eq!(d.to_rfc3339(), "2004-06-28T23:43:45Z");
}

#[test]
fn parse_rejects_malformed() {
    assert!(JMAPDate::parse("2004-06").is_none());
    assert!(JMAPDate::parse("").is_none());
    assert!(JMAPDate::parse("20040628").is_none());
    assert!(JMAPDate::parse("2004:06:28T23-43-45Z").is_none());
}

#[test]
fn epoch_and_validity() {
    let epoch = JMAPDate::from_timestamp(0);
    assert_eq!(epoch.year, 1970);
    assert_eq!(epoch.month, 1);
    assert_eq!(epoch.day, 1);
    assert_eq!(epoch.timestamp(), 0);
    assert!(epoch.is_valid());

    let bad = JMAPDate::parse("2004-13-45T25:61:61Z").unwrap();
    assert!(!bad.is_valid());
}
