use rapid_solve::converters::{
    days_of_month, from_d_hh_mm_ss_to_seconds, from_days_seconds_to_yyyy_mm_dd_hh_mm_ss,
    from_days_to_yyyy_mm_dd, from_h_mm_ss_to_seconds, from_seconds_to_h_mm_ss,
    from_yyyy_mm_dd_hh_mm_ss_to_days_seconds, from_yyyy_mm_dd_to_days, get_days_in_year,
    is_leap_year,
};
use rapid_solve::date_time::DateTime;
use rapid_solve::duration::Duration;

#[test]
fn test_from_yyyy_mm_dd_to_days_for_1990() {
    let year = 1999;
    let month = 12;
    let day = 31;
    let mut days = 0;
    for y in 0..year {
        days += get_days_in_year(y) as u64;
    }
    for m in 1..month {
        days += days_of_month(year, m) as u64;
    }
    days = days + day as u64 - 1;
    assert_eq!(
        from_yyyy_mm_dd_to_days(year, month, day),
        days,
        "from_yyyy_mm_dd_to_days() does not return the correct number of days"
    );
}

#[test]
fn test_from_yyyy_mm_dd_to_days_for_2990() {
    let year = 2999;
    let month = 12;
    let day = 31;
    let mut days = 0;
    for y in 0..year {
        days += get_days_in_year(y) as u64;
    }
    for m in 1..month {
        days += days_of_month(year, m) as u64;
    }
    days = days + day as u64 - 1;
    assert_eq!(
        from_yyyy_mm_dd_to_days(year, month, day),
        days,
        "from_yyyy_mm_dd_to_days() does not return the correct number of days"
    );
}

#[test]
fn test_from_days_to_yyyy_mm_dd() {
    let days = 4234221321;
    let mut year = 0;
    let mut month = 1;
    let mut days_remaining = days;
    while days_remaining >= get_days_in_year(year) as u64 {
        days_remaining -= get_days_in_year(year) as u64;
        year += 1;
    }
    while days_remaining >= days_of_month(year, month) as u64 {
        days_remaining -= days_of_month(year, month) as u64;
        month += 1;
    }
    let day = days_remaining as u8 + 1;
    assert_eq!(
        from_days_to_yyyy_mm_dd(days),
        (year, month, day),
        "from_days_to_yyyy_mm_dd() does not return the correct date"
    );
}

#[test]
fn test_days_of_month() {
    assert_eq!(days_of_month(2000, 1), 31);
    assert_eq!(days_of_month(2000, 2), 29);
    assert_eq!(days_of_month(2000, 3), 31);
    assert_eq!(days_of_month(2000, 4), 30);
    assert_eq!(days_of_month(2000, 5), 31);
    assert_eq!(days_of_month(2000, 6), 30);
    assert_eq!(days_of_month(2000, 7), 31);
    assert_eq!(days_of_month(2000, 8), 31);
    assert_eq!(days_of_month(2000, 9), 30);
    assert_eq!(days_of_month(2000, 10), 31);
    assert_eq!(days_of_month(2000, 11), 30);
    assert_eq!(days_of_month(2000, 12), 31);

    assert_eq!(days_of_month(2001, 2), 28);
    assert_eq!(days_of_month(2024, 2), 29);
    assert_eq!(days_of_month(2100, 2), 28);
}

#[test]
fn test_is_leap_year() {
    assert!(is_leap_year(2000), "2000 is a leap year");
    assert!(!is_leap_year(2001), "2001 is not a leap year");
    assert!(is_leap_year(2024), "2024 is a leap year");
    assert!(!is_leap_year(2100), "2100 is not leap year");
}

#[test]
fn test_iso_with_seconds() {
    let time = DateTime::new("2022-02-06T23:59:59");
    assert_eq!(
        time.as_iso(),
        "2022-02-06T23:59:59",
        "as_iso() does not return the correct string"
    );
    assert_eq!(
        time.to_string(),
        "06.02.2022_23:59:59",
        "format!() does not return the correct string"
    );
}

#[test]
fn test_iso_without_seconds() {
    let time = DateTime::new("2022-02-06T23:59");
    assert_eq!(
        time.as_iso(),
        "2022-02-06T23:59:00",
        "as_iso() does not return the correct string"
    );
    assert_eq!(
        time.to_string(),
        "06.02.2022_23:59",
        "format!() does not return the correct string"
    );
}

#[test]
fn test_iso_with_earliest() {
    let time = DateTime::Earliest;
    assert_eq!(
        time.as_iso(),
        "EARLIEST",
        "as_iso() does not return the correct string"
    );
    assert_eq!(
        time.to_string(),
        "Earliest",
        "format!() does not return the correct string"
    );
}

#[test]
fn test_iso_with_latest() {
    let time = DateTime::Latest;
    assert_eq!(
        time.as_iso(),
        "LATEST",
        "as_iso() does not return the correct string"
    );
    assert_eq!(
        time.to_string(),
        "Latest",
        "format!() does not return the correct string"
    );
}

#[test]
fn sum_up_duration() {
    let dur1 = Duration::new("5000:40:31");
    let dur2 = Duration::new("00:46:30");
    let sum = Duration::new("5001:27:01");
    assert!(
        dur1.add(dur2) == sum,
        "Duration does not sum up correctly. dur1: {:?} + dur2: {:?} is {:?}; but should be {:?}",
        dur1,
        dur2,
        dur1.add(dur2),
        sum
    );
}

#[test]
fn add_duration_to_time_no_leap_year() {
    let time = DateTime::new("1999-2-28T23:40:59");
    let dur = Duration::new("48:46:01");
    let sum = DateTime::new("1999-3-3T00:27");
    assert!(
        time.add(dur) == sum,
        "Duration does not sum up correctly. time: {:?} + dur: {:?} is {:?}; but should be {:?}",
        time,
        dur,
        time.add(dur),
        sum
    );
}

#[test]
fn add_duration_to_time_leap_year() {
    let time = DateTime::new("2000-02-28T23:40");
    let dur = Duration::new("48:46:03");
    let sum = DateTime::new("2000-3-2T00:26:03");
    assert!(
        time.add(dur) == sum,
        "Duration does not sum up correctly. time: {:?} + dur: {:?} is {:?}; but should be {:?}",
        time,
        dur,
        time.add(dur),
        sum
    );
}

#[test]
fn add_long_duration_to_time() {
    let time = DateTime::new("1-01-01T00:00");
    let dur = Duration::new("10000000:00:00");
    let sum = DateTime::new("1141-10-18T16:00");
    assert!(
        time.add(dur) == sum,
        "Duration does not sum up correctly. time: {:?} + dur: {:?} is {:?}; but should be {:?}",
        time,
        dur,
        time.add(dur),
        sum
    );
}

#[test]
fn add_duration_to_earliest_latest() {
    {
        let earliest = DateTime::Earliest;
        let dur = Duration::new("50:00");
        assert!(
            earliest.add(dur) == DateTime::Earliest,
            "Duration does not sum up correctly. time: {:?} + dur: {:?} is {:?}; but should be Time::Earliest",
            earliest,
            dur,
            earliest.add(dur)
        );
    }
    {
        let latest = DateTime::Latest;
        let dur = Duration::new("50:00");
        assert!(
            latest.add(dur) == DateTime::Latest,
            "Duration does not sum up correctly. time: {:?} + dur: {:?} is {:?}; but should be Time::Latest",
            latest,
            dur,
            latest.add(dur)
        );
    }
}

#[test]
fn add_infinity_to_time() {
    {
        let time = DateTime::new("1-01-01T00:00");
        let dur = Duration::Infinity;
        assert!(
            time.add(dur) == DateTime::Latest,
            "Duration does not sum up correctly. time: {:?} + dur: {:?} is {:?}; but should be Time::Latest",
            time,
            dur,
            time.add(dur)
        );
    }
    {
        let earliest = DateTime::Earliest;
        let dur = Duration::Infinity;
        assert!(
            earliest.add(dur) == DateTime::Latest,
            "Duration does not sum up correctly. time: {:?} + dur: {:?} is {:?}; but should be Time::Earliest",
            earliest,
            dur,
            earliest.add(dur)
        );
    }
}

fn check_difference(earlier: &str, later: &str, duration: &str) {
    let earlier = DateTime::new(earlier);
    let later = DateTime::new(later);
    let duration = Duration::new(duration);
    assert!(
        later.sub(earlier) == duration,
        "Subtracting {:?} from {:?} gives {:?} but should give {:?}",
        earlier,
        later,
        later.sub(earlier),
        duration
    );
    assert!(
        earlier.add(later.sub(earlier)) == later,
        "Adding (later - earlier) to earlier should give later; earlier: {:?}, later: {:?}",
        earlier,
        later
    );
}

#[test]
fn test_difference_of_two_times() {
    check_difference("2022-02-06T16:32:45", "2022-02-06T16:32:45", "0:00:00");
    check_difference("2022-02-06T16:32:45", "2022-02-06T17:32:44", "0:59:59");
    check_difference("1989-10-01T02:25", "2022-02-06T17:31", "283599:06:00");
    check_difference("2000-01-01T23:59:59", "2000-01-02T00:00:00", "0:00:01");
}

#[test]
fn test_difference_of_latest_and_earliest() {
    {
        let earliest = DateTime::Earliest;
        let later = DateTime::new("2022-02-06T17:31");
        let duration = Duration::Infinity;
        assert!(
            later.sub(earliest) == duration,
            "Subtracting {:?} from {:?} gives {:?} but should give {:?}",
            earliest,
            later,
            later.sub(earliest),
            duration
        );
    }
    {
        let earlier = DateTime::new("2022-02-06T16:32");
        let latest = DateTime::Latest;
        let duration = Duration::Infinity;
        assert!(
            latest.sub(earlier) == duration,
            "Subtracting {:?} from {:?} gives {:?} but should give {:?}",
            earlier,
            latest,
            latest.sub(earlier),
            duration
        );
    }
    {
        let earliest = DateTime::Earliest;
        let latest = DateTime::Latest;
        let duration = Duration::Infinity;
        assert!(
            latest.sub(earliest) == duration,
            "Subtracting {:?} from {:?} gives {:?} but should give {:?}",
            earliest,
            latest,
            latest.sub(earliest),
            duration
        );
        assert!(
            earliest.add(latest.sub(earliest)) == latest,
            "Adding (later - earlier) to earlier should give later; earlier: {:?}, later: {:?}",
            earliest,
            latest
        );
    }
}

fn check_subtraction(later: &str, duration: &str, earlier: &str) {
    let later = DateTime::new(later);
    let duration = Duration::new(duration);
    let earlier = DateTime::new(earlier);
    assert!(
        later.sub_duration(duration) == earlier,
        "Subtracting {:?} from {:?} gives {:?} but should give {:?}",
        duration,
        later,
        later.sub_duration(duration),
        earlier
    );
    assert!(
        later.sub_duration(later.sub(earlier)) == earlier,
        "Subtracting (later - earlier) from later should give earlier; earlier: {:?}, later: {:?}",
        earlier,
        later
    );
}

#[test]
fn test_subtracting_duration_from_time() {
    check_subtraction("2022-02-06T16:32", "0:00:00", "2022-02-06T16:32");
    check_subtraction("2022-02-06T17:31:10", "0:59:59", "2022-02-06T16:31:11");
    check_subtraction("2022-02-06T17:31:00", "283599:06:01", "1989-10-01T02:24:59");
}

#[test]
fn duration_from_iso_and_units() {
    let d = Duration::from_iso("P10DT2H00M59S");
    assert_eq!(d.in_min(), Ok(10 * 24 * 60 + 2 * 60));
    assert_eq!(d.in_sec(), Ok(10 * 86400 + 2 * 3600 + 59));
    assert_eq!(Duration::from_iso("PT20H2M10S"), Duration::from_seconds(72130));
    assert!(Duration::Infinity.in_sec().is_err());
    assert!(Duration::Infinity.in_min().is_err());
}

#[test]
fn duration_text_and_order() {
    assert_eq!(Duration::new("1:02:03").to_string(), "01:02:03h");
    assert_eq!(Duration::new("100:05").to_string(), "100:05h");
    assert_eq!(Duration::Infinity.to_string(), "Inf");
    assert!(Duration::new("1:00").compare(&Duration::Infinity).is_lt());
    assert_eq!(
        Duration::sum(&vec![Duration::from_seconds(10), Duration::from_seconds(20)]),
        Duration::from_seconds(30)
    );
    assert_eq!(Duration::sum(&vec![]), Duration::zero());
    assert_eq!(
        Duration::from_seconds(50).sub(Duration::from_seconds(20)),
        Duration::from_seconds(30)
    );
}

#[test]
fn date_time_basic_usage() {
    let tour_start = DateTime::new("2024-02-28T08:00:00");
    let tour_length = Duration::new("100:00:00");
    let tour_end = DateTime::new("2024-03-03T12:00:00");
    assert_eq!(tour_start.add(tour_length), tour_end);
    assert_eq!(tour_end.sub(tour_start), tour_length);
    assert_eq!(tour_end.sub_duration(tour_length), tour_start);
    assert_eq!(DateTime::new("2024-02-28T08:30Z").as_iso(), "2024-02-28T08:30:00");
    assert!(DateTime::Earliest.compare(&tour_start).is_lt());
}

#[test]
fn clock_conversions_have_exact_values() {
    assert_eq!(from_seconds_to_h_mm_ss(3725), (1, 2, 5));
    assert_eq!(from_h_mm_ss_to_seconds(1, 2, 5), 3725);
    assert_eq!(from_d_hh_mm_ss_to_seconds(1, 1, 1, 1), 90061);
    assert_eq!(from_yyyy_mm_dd_hh_mm_ss_to_days_seconds(0, 1, 2, 0, 0, 1), (1, 1));
    assert_eq!(from_days_seconds_to_yyyy_mm_dd_hh_mm_ss(366, 3661), (1, 1, 1, 1, 1, 1));
}

#[test]
fn calendar_round_trip() {
    for (y, m, d) in [(0, 1, 1), (2000, 2, 29), (2024, 12, 31), (2100, 3, 1), (400, 2, 29)] {
        let days = from_yyyy_mm_dd_to_days(y, m, d);
        assert_eq!(from_days_to_yyyy_mm_dd(days), (y, m, d));
    }
    assert_eq!(from_yyyy_mm_dd_to_days(0, 1, 1), 0);
    assert_eq!(from_yyyy_mm_dd_to_days(400, 1, 1), 146097);
    assert_eq!(get_days_in_year(1900), 365);
    assert_eq!(days_of_month(2023, 13), 0);
}
