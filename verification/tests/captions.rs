use calendar::date::Date;
use calendar::render::{
    column_caption_point, event_texts, place_event_texts, render_hours, render_rectangles,
    render_week_captions, render_weekdays, row_caption_point, Arguments, Point, Rectangle,
    RenderHoursArgs, RenderRectangles, RenderWeekCaptionsArgs, TextRender,
};
use calendar::ui::{
    create_date_texts, create_event_title_texts, create_hours_texts, create_texts,
    create_weekday_texts, date_text, hour_text, weekday_name, TextCreate,
};

struct Upper;

impl TextCreate for Upper {
    type Result = String;

    fn text_create(&self, s: &str) -> Self::Result {
        s.to_uppercase()
    }
}

struct Placed;

impl TextRender for Placed {
    type Text = String;
    type Result = (String, i64, i64);

    fn text_render(&self, text: &Self::Text, x: i64, y: i64) -> Self::Result {
        (text.clone(), x, y)
    }
}

struct Counted;

impl RenderRectangles for Counted {
    type Result = usize;

    fn render_rectangles<'r, 's>(&self, data: &'r [Rectangle<'s>]) -> Self::Result {
        data.len()
    }
}

#[test]
fn test_hour_captions() {
    assert_eq!(hour_text(0), "00:00");
    assert_eq!(hour_text(7), "07:00");
    assert_eq!(hour_text(23), "23:00");
    assert_eq!(hour_text(100), "100:00");
    let hours = create_hours_texts(&Upper);
    assert_eq!(hours.len(), 24);
    assert_eq!(hours[0], "00:00");
    assert_eq!(hours[9], "09:00");
    assert_eq!(hours[10], "10:00");
    assert_eq!(hours[23], "23:00");
}

#[test]
fn test_weekday_captions() {
    assert_eq!(weekday_name(0), "Monday");
    assert_eq!(weekday_name(6), "Sunday");
    assert_eq!(
        create_weekday_texts(&Upper),
        vec!["MONDAY", "TUESDAY", "WEDNESDAY", "THURSDAY", "FRIDAY", "SATURDAY", "SUNDAY"]
    );
}

#[test]
fn test_date_captions() {
    assert_eq!(date_text(&Date { year: 2025, month: 10, day: 31 }), "2025-10-31");
    assert_eq!(date_text(&Date { year: 1, month: 2, day: 3 }), "0001-02-03");
    assert_eq!(date_text(&Date { year: 65535, month: 12, day: 31 }), "65535-12-31");
    let dates = [Date { year: 2025, month: 12, day: 31 }, Date { year: 2026, month: 1, day: 1 }];
    assert_eq!(create_date_texts(&Upper, &dates), vec!["2025-12-31", "2026-01-01"]);
}

#[test]
fn test_title_texts() {
    assert_eq!(create_event_title_texts(&Upper, &["lunch", "trip"]), vec!["LUNCH", "TRIP"]);
}

#[test]
fn test_texts_of_a_week() {
    let mut dates = Vec::new();
    let mut date = Date { year: 2025, month: 12, day: 29 };
    for _ in 0..7 {
        dates.push(date);
        date = date.add_days(1);
    }
    let week = create_texts(&Upper, &dates);
    assert_eq!(week.days.len(), 7);
    assert_eq!(week.hours.len(), 24);
    assert_eq!(week.dates.len(), 7);
    assert_eq!(week.dates[0], "2025-12-29");
    assert_eq!(week.dates[6], "2026-01-04");
    let args = RenderWeekCaptionsArgs {
        hours_arguments: RenderHoursArgs { row_height: 25, offset_x: 0, offset_y: 75 },
        days_arguments: Arguments { column_width: 100, column_height: 25, offset_x: 100, offset_y: 35 },
        dates_arguments: Arguments { column_width: 100, column_height: 25, offset_x: 100, offset_y: 10 },
    };
    let drawn = week.render(&Placed, &args);
    assert_eq!(drawn.len(), 38);
    assert_eq!(drawn[0], ("MONDAY".to_owned(), 100, 35));
    assert_eq!(drawn[6], ("SUNDAY".to_owned(), 700, 35));
    assert_eq!(drawn[7], ("00:00".to_owned(), 0, 75));
    assert_eq!(drawn[30], ("23:00".to_owned(), 0, 650));
    assert_eq!(drawn[31], ("2025-12-29".to_owned(), 100, 10));
    assert_eq!(drawn[37], ("2026-01-04".to_owned(), 700, 10));
}

#[test]
fn test_places_of_captions() {
    let columns = Arguments { column_width: 125, column_height: 600, offset_x: -5, offset_y: 10 };
    assert_eq!(column_caption_point(0, &columns), Point { x: -5, y: 10 });
    assert_eq!(column_caption_point(6, &columns), Point { x: 745, y: 10 });
    let rows = RenderHoursArgs { row_height: 25, offset_x: 3, offset_y: 70 };
    assert_eq!(row_caption_point(0, &rows), Point { x: 3, y: 70 });
    assert_eq!(row_caption_point(23, &rows), Point { x: 3, y: 645 });
    let texts = vec!["a".to_owned(), "b".to_owned()];
    assert_eq!(
        render_weekdays(&Placed, &texts, &columns),
        vec![("a".to_owned(), -5, 10), ("b".to_owned(), 120, 10)]
    );
    assert_eq!(
        render_hours(&Placed, &texts, &rows),
        vec![("a".to_owned(), 3, 70), ("b".to_owned(), 3, 95)]
    );
    let args = RenderWeekCaptionsArgs {
        hours_arguments: rows,
        days_arguments: columns,
        dates_arguments: columns,
    };
    assert_eq!(render_week_captions(&Placed, &texts, &texts[..1], &texts, &args).len(), 5);
}

#[test]
fn test_titles_stand_inside_their_rectangles() {
    let rectangles = [
        Rectangle { at: Point { x: 100, y: 600 }, size: Point { x: 62, y: 60 }, text: "first" },
        Rectangle { at: Point { x: 162, y: 630 }, size: Point { x: 62, y: 60 }, text: "second" },
    ];
    let titles = vec!["first".to_owned(), "second".to_owned(), "third".to_owned()];
    let texts = place_event_texts(&rectangles, &titles);
    assert_eq!(texts.len(), 2);
    assert_eq!(texts[0].at, Point { x: 102, y: 602 });
    assert_eq!(texts[1].at, Point { x: 164, y: 632 });
    assert_eq!(texts[1].text, "second");
    assert_eq!(
        event_texts(&Placed, &texts),
        vec![("first".to_owned(), 102, 602), ("second".to_owned(), 164, 632)]
    );
    assert_eq!(render_rectangles(&rectangles, &Counted), 2);
}
