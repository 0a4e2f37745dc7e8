use calendar::date::{get_week_start, natural_weekday, Date};

#[test]
fn test_get_start_week() {
    // 2025-10-10 is Friday
    let today = Date { year: 2025, month: 10, day: 10 };
    let res = get_week_start(&today, 5);
    let Date { year, month, day } = res;
    assert_eq!(2025, year);
    assert_eq!(10, month);
    assert_eq!(6, day);
}

#[test]
fn test_week_start_of_every_weekday() {
    let monday = Date { year: 2025, month: 12, day: 29 };
    for (offset, weekday) in [1u8, 2, 3, 4, 5, 6, 0].into_iter().enumerate() {
        let today = monday.add_days(offset as i16);
        assert_eq!(get_week_start(&today, weekday), monday);
    }
    let sunday = Date { year: 2026, month: 1, day: 4 };
    assert_eq!(get_week_start(&sunday, 0), monday);
}

#[test]
fn test_weekdays_from_monday() {
    assert_eq!(natural_weekday(0), 7);
    assert_eq!(natural_weekday(1), 1);
    assert_eq!(natural_weekday(3), 3);
    assert_eq!(natural_weekday(6), 6);
}

#[test]
fn test_the_day_number_tells_the_weekday() {
    // 1 January 1970 was a Thursday
    let thursday = Date { year: 1970, month: 1, day: 1 };
    let days = thursday.subtract(&Date { year: 1, month: 1, day: 1 }) + 1;
    assert_eq!(days % 7, 4);
    assert_eq!(get_week_start(&thursday, 4), Date { year: 1969, month: 12, day: 29 });
}
