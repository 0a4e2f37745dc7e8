use calendar::date::{increment_date, years_to_days, Date, DateStream};

#[test]
fn test_the_first_leap_year() {
    let days = years_to_days(1972);
    assert_eq!(days, 365 * 2);
}

#[test]
fn test_the_year_after_the_first_leap_year() {
    let days = years_to_days(1973);
    assert_eq!(days, 365 * 3 + 1);
}

#[test]
fn test_one_day_subtraction() {
    let term1 = Date {
        year: 2025,
        month: 12,
        day: 30,
    };
    let term2 = Date {
        year: 2025,
        month: 12,
        day: 29,
    };

    let diff = term1.subtract(&term2);
    assert_eq!(diff, 1)
}

#[test]
fn test_cross_leap_year() {
    let week_start = Date {
        year: 2028,
        month: 12,
        day: 29,
    };
    let event_start = Date {
        year: 2029,
        month: 1,
        day: 4,
    };
    let diff = event_start.subtract(&week_start);
    assert_eq!(diff, 6)
}

#[test]
fn test_cross_year() {
    let week_start = Date {
        year: 2025,
        month: 12,
        day: 29,
    };
    let event_start = Date {
        year: 2026,
        month: 1,
        day: 4,
    };
    let diff = event_start.subtract(&week_start);
    assert_eq!(diff, 6)
}

#[test]
fn test_week_within_december() {
    let later = Date { year: 2025, month: 12, day: 29 };
    let earlier = Date { year: 2025, month: 12, day: 22 };
    assert_eq!(later.subtract(&earlier), 7);
    assert_eq!(earlier.subtract(&later), -7);
}

#[test]
fn test_epoch_days_of_known_dates() {
    assert_eq!(Date { year: 1970, month: 1, day: 1 }.days_from_epoch(), 1);
    assert_eq!(Date { year: 1969, month: 12, day: 31 }.days_from_epoch(), 0);
    assert_eq!(Date { year: 2000, month: 3, day: 1 }.days_from_epoch(), 11_018);
    assert_eq!(Date { year: 1, month: 1, day: 1 }.days_from_epoch(), -719_161);
    assert_eq!(Date { year: 65535, month: 12, day: 31 }.days_from_epoch(), 23_217_004);
}

#[test]
fn test_round_trip_of_every_date_up_to_2100() {
    let mut expected = Date { year: 1, month: 1, day: 1 }.days_from_epoch();
    for year in 1..=2100u16 {
        for month in 1..=12u8 {
            for day in 1..=Date::month_day_count(year, month) {
                let date = Date::try_new(year, month, day).unwrap();
                let days = date.days_from_epoch();
                assert_eq!(days, expected);
                assert_eq!(Date::from_days_from_epoch(days), Some(date));
                expected += 1;
            }
        }
    }
}

#[test]
fn test_round_trip_at_the_end_of_the_range() {
    let last = Date { year: 65535, month: 12, day: 31 };
    let days = last.days_from_epoch();
    assert_eq!(Date::from_days_from_epoch(days), Some(last));
    assert_eq!(Date::from_days_from_epoch(days + 1), None);
    let first = Date { year: 1, month: 1, day: 1 };
    assert_eq!(Date::from_days_from_epoch(first.days_from_epoch()), Some(first));
    assert_eq!(Date::from_days_from_epoch(first.days_from_epoch() - 1), None);
    assert_eq!(Date::from_days_from_epoch(i32::MAX), None);
    assert_eq!(Date::from_days_from_epoch(i32::MIN), None);
}

#[test]
fn test_consecutive_dates_differ_by_one_day() {
    let mut date = Date { year: 1899, month: 12, day: 25 };
    for _ in 0..1000 {
        let next = increment_date(&date);
        assert_eq!(next.days_from_epoch(), date.days_from_epoch() + 1);
        assert_eq!(next.subtract(&date), 1);
        date = next;
    }
    assert_eq!(date, Date { year: 1902, month: 9, day: 21 });
}

#[test]
fn test_increment_over_the_ends_of_months() {
    let end_of_february = Date { year: 2024, month: 2, day: 28 };
    assert_eq!(increment_date(&end_of_february), Date { year: 2024, month: 2, day: 29 });
    let leap_day = Date { year: 2024, month: 2, day: 29 };
    assert_eq!(increment_date(&leap_day), Date { year: 2024, month: 3, day: 1 });
    let plain_february = Date { year: 2025, month: 2, day: 28 };
    assert_eq!(increment_date(&plain_february), Date { year: 2025, month: 3, day: 1 });
    let new_years_eve = Date { year: 2025, month: 12, day: 31 };
    assert_eq!(increment_date(&new_years_eve), Date { year: 2026, month: 1, day: 1 });
    let end_of_april = Date { year: 2025, month: 4, day: 30 };
    assert_eq!(increment_date(&end_of_april), Date { year: 2025, month: 5, day: 1 });
}

#[test]
fn test_week_arithmetic() {
    let mut date = Date { year: 2023, month: 12, day: 1 };
    for _ in 0..500 {
        assert_eq!(date.add_week().subtract(&date), 7);
        assert_eq!(date.subtract_week().subtract(&date), -7);
        date = increment_date(&date);
    }
    let monday = Date { year: 2025, month: 12, day: 29 };
    assert_eq!(monday.add_week(), Date { year: 2026, month: 1, day: 5 });
    assert_eq!(monday.subtract_week(), Date { year: 2025, month: 12, day: 22 });
}

#[test]
fn test_add_days_both_ways() {
    let date = Date { year: 2024, month: 2, day: 28 };
    assert_eq!(date.add_days(0), date);
    assert_eq!(date.add_days(2), Date { year: 2024, month: 3, day: 1 });
    assert_eq!(date.add_days(-59), Date { year: 2023, month: 12, day: 31 });
    assert_eq!(date.add_days(366), Date { year: 2025, month: 2, day: 28 });
    assert_eq!(date.add_days(i16::MAX).subtract(&date), i16::MAX as i32);
    assert_eq!(date.add_days(i16::MIN).subtract(&date), i16::MIN as i32);
}

#[test]
fn test_checked_add_days_at_the_ends() {
    let first = Date { year: 1, month: 1, day: 1 };
    assert_eq!(first.checked_add_days(-1), None);
    assert_eq!(first.checked_add_days(1), Some(Date { year: 1, month: 1, day: 2 }));
    let last = Date { year: 65535, month: 12, day: 31 };
    assert_eq!(last.checked_add_days(1), None);
    assert_eq!(last.checked_add_days(-1), Some(Date { year: 65535, month: 12, day: 30 }));
}

#[test]
fn test_leap_years() {
    assert!(Date::is_leap_year(2024));
    assert!(Date::is_leap_year(2000));
    assert!(!Date::is_leap_year(1900));
    assert!(!Date::is_leap_year(2025));
    assert!(!Date::is_leap_year(2100));
    assert_eq!(Date::month_day_count(2024, 2), 29);
    assert_eq!(Date::month_day_count(1900, 2), 28);
    assert_eq!(Date::month_day_count(2025, 4), 30);
    assert_eq!(Date::month_day_count(2025, 12), 31);
}

#[test]
fn test_try_new_checks_the_month_and_the_day() {
    assert_eq!(Date::try_new(2025, 2, 28), Ok(Date { year: 2025, month: 2, day: 28 }));
    assert!(Date::try_new(2025, 2, 29).is_err());
    assert!(Date::try_new(2024, 2, 29).is_ok());
    assert!(Date::try_new(2025, 0, 1).is_err());
    assert!(Date::try_new(2025, 13, 1).is_err());
    assert!(Date::try_new(2025, 1, 0).is_err());
    assert!(Date::try_new(2025, 4, 31).is_err());
    assert!(Date::try_new(0, 1, 1).is_err());
}

#[test]
fn test_date_stream_starts_with_its_first_date() {
    let mut stream = DateStream::new(Date { year: 2025, month: 12, day: 29 });
    let mut week = Vec::new();
    for _ in 0..7 {
        week.push(stream.next().unwrap());
    }
    assert_eq!(week[0], Date { year: 2025, month: 12, day: 29 });
    assert_eq!(week[2], Date { year: 2025, month: 12, day: 31 });
    assert_eq!(week[3], Date { year: 2026, month: 1, day: 1 });
    assert_eq!(week[6], Date { year: 2026, month: 1, day: 4 });
}

#[test]
fn test_date_stream_ends_after_the_last_date() {
    let mut stream = DateStream::new(Date { year: 65535, month: 12, day: 30 });
    assert_eq!(stream.next(), Some(Date { year: 65535, month: 12, day: 30 }));
    assert_eq!(stream.next(), Some(Date { year: 65535, month: 12, day: 31 }));
    assert_eq!(stream.next(), None);
    assert_eq!(stream.next(), None);
}

#[test]
fn test_dates_are_ordered_as_their_day_numbers() {
    let dates = [
        Date { year: 1999, month: 12, day: 31 },
        Date { year: 2000, month: 1, day: 1 },
        Date { year: 2000, month: 1, day: 31 },
        Date { year: 2000, month: 2, day: 1 },
        Date { year: 2000, month: 2, day: 29 },
        Date { year: 2001, month: 1, day: 1 },
    ];
    for a in dates.iter() {
        for b in dates.iter() {
            assert_eq!(a.partial_cmp(b), a.days_from_epoch().partial_cmp(&b.days_from_epoch()));
            assert_eq!(a.cmp(b), a.days_from_epoch().cmp(&b.days_from_epoch()));
            assert_eq!(a < b, a.subtract(b) < 0);
            assert_eq!(a == b, a.subtract(b) == 0);
        }
    }
    assert!(Date { year: 2025, month: 12, day: 29 } < Date { year: 2026, month: 1, day: 4 });
    assert!(Date { year: 2025, month: 12, day: 29 } > Date { year: 2025, month: 11, day: 30 });
}
