use webscout::clock::{civil_from_days, format_civil, today_utc};

#[test]
fn epoch_day_zero_is_the_unix_epoch() {
    assert_eq!(civil_from_days(0), (1970, 1, 1));
    assert_eq!(format_civil(civil_from_days(0)), "1970-01-01");
}

#[test]
fn known_epoch_2024_new_year() {
    // 54 years × 365 = 19_710 days, plus 13 leap days (1972..=2020).
    assert_eq!(civil_from_days(19_723), (2024, 1, 1));
    assert_eq!(format_civil(civil_from_days(19_723)), "2024-01-01");
}

#[test]
fn leap_day_2024_02_29_exists_and_is_followed_by_march() {
    // 19_723 (2024-01-01) + 31 (January) + 28 = 19_782.
    assert_eq!(civil_from_days(19_782), (2024, 2, 29));
    assert_eq!(civil_from_days(19_783), (2024, 3, 1));
    // And the day before is the 28th, so February 2024 has exactly 29 days.
    assert_eq!(civil_from_days(19_781), (2024, 2, 28));
}

#[test]
fn century_case_2000_is_a_leap_year() {
    // 2000 is divisible by 400, so the 100-year rule does not apply.
    // 30 years × 365 = 10_950 + 7 leap days (1972..=1996) = 10_957 → 2000-01-01.
    assert_eq!(civil_from_days(10_957), (2000, 1, 1));
    assert_eq!(civil_from_days(10_957 + 31 + 28), (2000, 2, 29));
    assert_eq!(civil_from_days(11_017), (2000, 3, 1));
}

#[test]
fn century_case_1900_is_not_a_leap_year() {
    // The other half of the century rule, on the negative side of the epoch.
    // 1900-01-01 is 25_567 days before the epoch, so 1900-02-28 is -25_509.
    // The next day is March 1: there is no 1900-02-29, because the 100-year
    // rule applies and the 400-year exemption does not.
    assert_eq!(civil_from_days(-25_567), (1900, 1, 1));
    assert_eq!(civil_from_days(-25_509), (1900, 2, 28));
    assert_eq!(civil_from_days(-25_508), (1900, 3, 1));
}

#[test]
fn year_boundaries_round_trip_both_ways() {
    assert_eq!(civil_from_days(-1), (1969, 12, 31));
    assert_eq!(civil_from_days(19_722), (2023, 12, 31));
    // 2024 is a leap year, so 2025-01-01 is 366 days after 2024-01-01.
    assert_eq!(civil_from_days(20_088), (2024, 12, 31));
    assert_eq!(civil_from_days(19_723 + 366), (2025, 1, 1));
}

#[test]
fn format_pads_every_component() {
    assert_eq!(format_civil((2024, 1, 5)), "2024-01-05");
    assert_eq!(format_civil((999, 12, 31)), "0999-12-31");
}

#[test]
fn today_utc_has_the_iso_shape_and_a_plausible_year() {
    let s = today_utc();
    assert_eq!(s.len(), 10, "expected YYYY-MM-DD, got {s}");
    let parts: Vec<&str> = s.split('-').collect();
    assert_eq!(parts.len(), 3);
    let y: i64 = parts[0].parse().expect("year parses");
    let m: u32 = parts[1].parse().expect("month parses");
    let d: u32 = parts[2].parse().expect("day parses");
    // Not a pinned date (the test would rot); a sanity window that still
    // catches an off-by-an-era arithmetic slip.
    assert!((2020..2200).contains(&y), "implausible year {y}");
    assert!((1..=12).contains(&m), "bad month {m}");
    assert!((1..=31).contains(&d), "bad day {d}");
}
