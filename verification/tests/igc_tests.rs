use aeroscore::igc::{parse_fix, Fix};

#[test]
fn a_record_from_a_flight_log() {
    let fix = parse_fix("B1602455107126N00149300WA002880031000900").unwrap();
    assert_eq!(fix, Fix {
        seconds_since_midnight: 16 * 3600 + 2 * 60 + 45,
        latitude: 51 * 60000 + 7126,
        longitude: -(1 * 60000 + 49300),
        altitude_gps: 288,
        altitude_pressure: 310,
    });
}

#[test]
fn south_and_east_and_altitudes_below_the_sea() {
    let fix = parse_fix("B0000003354900S15112345EV-0042-9999").unwrap();
    assert_eq!(fix, Fix {
        seconds_since_midnight: 0,
        latitude: -(33 * 60000 + 54900),
        longitude: 151 * 60000 + 12345,
        altitude_gps: -42,
        altitude_pressure: -9999,
    });
}

#[test]
fn the_fields_are_not_held_to_their_ranges() {
    let fix = parse_fix("B9999999999999N99999999EZ3276700000").unwrap();
    assert_eq!(fix.seconds_since_midnight, 99 * 3600 + 99 * 60 + 99);
    assert_eq!(fix.latitude, 99 * 60000 + 99999);
    assert_eq!(fix.longitude, 999 * 60000 + 99999);
    assert_eq!(fix.altitude_gps, 32767);
    assert_eq!(fix.altitude_pressure, 0);
}

#[test]
fn what_follows_the_record_is_not_read() {
    let short = parse_fix("B1602455107126N00149300WA0028800310").unwrap();
    let long = parse_fix("B1602455107126N00149300WA0028800310\u{e9}t\u{e9} 123\r\n").unwrap();
    assert_eq!(short, long);
}

#[test]
fn broken_records_are_refused() {
    let good = "B1602455107126N00149300WA0028800310";
    assert!(parse_fix(good).is_some());
    // too short
    assert!(parse_fix(&good[..34]).is_none());
    assert!(parse_fix("").is_none());
    assert!(parse_fix("B").is_none());
    // not a B record
    assert!(parse_fix("A1602455107126N00149300WA0028800310").is_none());
    assert!(parse_fix(" B1602455107126N00149300WA0028800310").is_none());
    // a letter where a digit belongs
    for at in (1..14).chain(15..23).chain(26..30).chain(31..35) {
        let mut line = String::from(good);
        line.replace_range(at..at + 1, "x");
        assert!(parse_fix(&line).is_none(), "position {}", at);
    }
    // a minus sign anywhere but at the head of an altitude
    assert!(parse_fix("B1602455107126N00149300WA0-28800310").is_none());
    assert!(parse_fix("B1602455107126N00149300WA00288003-0").is_none());
    assert!(parse_fix("B16024-5107126N00149300WA0028800310").is_none());
    // hemispheres and validity
    assert!(parse_fix("B1602455107126E00149300WA0028800310").is_none());
    assert!(parse_fix("B1602455107126n00149300WA0028800310").is_none());
    assert!(parse_fix("B1602455107126N00149300NA0028800310").is_none());
    assert!(parse_fix("B1602455107126N00149300Wa0028800310").is_none());
    assert!(parse_fix("B1602455107126N00149300W10028800310").is_none());
    // digits of other scripts
    assert!(parse_fix("B16024\u{0665}5107126N00149300WA0028800310").is_none());
}

#[test]
fn altitudes_above_32767_are_refused() {
    assert!(parse_fix("B1602455107126N00149300WA3276732767").is_some());
    assert!(parse_fix("B1602455107126N00149300WA3276800310").is_none());
    assert!(parse_fix("B1602455107126N00149300WA0028832768").is_none());
    assert!(parse_fix("B1602455107126N00149300WA9999900310").is_none());
}

#[test]
fn a_minus_sign_before_zeros_gives_zero() {
    let fix = parse_fix("B1602455107126N00149300WA-0000-0001").unwrap();
    assert_eq!(fix.altitude_gps, 0);
    assert_eq!(fix.altitude_pressure, -1);
}
