//! The captions of the week view: the names of the days, the hours and the
//! dates, as texts made by the caller's text factory.

use vstd::prelude::*;
use vstd::slice::slice_subrange;
use vstd::string::*;
use vstd::utf8::*;
use crate::date::Date;
use crate::render::{
    are_week_captions_drawn, render_week_captions, RenderWeekCaptionsArgs, TextRender,
};
use crate::text::{decimal_chars, digit_char, padded_decimal_text, zero_padded};

verus! {

/// Makes texts that can be drawn.
pub trait TextCreate {
    type Result;

    fn text_create(&self, s: &str) -> Self::Result;
}

/// The captions of a week: seven names of days, 24 hours and seven dates.
pub struct Week<Text> {
    pub days: Vec<Text>,
    pub hours: Vec<Text>,
    pub dates: Vec<Text>,
}

impl<Text> Week<Text> {
    /// Draws the captions: the names of the days, then the hours, then the
    /// dates. Gives what the drawing of each gave, in that order.
    pub fn render<TR>(&self, tr: &TR, args: &RenderWeekCaptionsArgs) -> (results: Vec<
        TR::Result,
    >) where TR: TextRender<Text = Text>
        requires
            self.days.len() <= i32::MAX,
            self.hours.len() <= i32::MAX,
            self.dates.len() <= i32::MAX,
        ensures
            are_week_captions_drawn(
                tr,
                self.days@,
                self.hours@,
                self.dates@,
                *args,
                results@,
            ),
    {
        render_week_captions(
            tr,
            self.days.as_slice(),
            self.hours.as_slice(),
            self.dates.as_slice(),
            args,
        )
    }
}

/// Whether `made` is what the factory makes of the text `caption`.
pub open spec fn is_text_of<TF: TextCreate>(
    text_factory: &TF,
    caption: Seq<char>,
    made: TF::Result,
) -> bool {
    exists|s: &str|
        s@ == caption && #[trigger] call_ensures(TF::text_create, (text_factory, s), made)
}

/// The caption of an hour of the day: `00:00` to `23:00`.
pub open spec fn hour_caption(hour: nat) -> Seq<char> {
    zero_padded(hour, 2) + seq![':', '0', '0']
}

/// See [`hour_caption`].
pub fn hour_text(hour: u8) -> (text: String)
    ensures
        text@ == hour_caption(hour as nat),
{
    let mut text: String = padded_decimal_text(hour as u16, 2);
    proof {
        reveal_strlit(":00");
    }
    text.append(":00");
    assert(text@ =~= hour_caption(hour as nat));
    text
}

/// The names of the days of a week that begins on Monday.
pub open spec fn weekday_names() -> Seq<Seq<char>> {
    seq![
        "Monday"@,
        "Tuesday"@,
        "Wednesday"@,
        "Thursday"@,
        "Friday"@,
        "Saturday"@,
        "Sunday"@,
    ]
}

/// The name of the day at `index` of a week that begins on Monday.
pub fn weekday_name(index: usize) -> (name: &'static str)
    requires
        index < 7,
    ensures
        name@ == weekday_names()[index as int],
{
    match index {
        0 => "Monday",
        1 => "Tuesday",
        2 => "Wednesday",
        3 => "Thursday",
        4 => "Friday",
        5 => "Saturday",
        _ => "Sunday",
    }
}

/// The caption of a date: the year in four digits or more, the month and
/// the day in two digits or more, with `-` between them.
pub open spec fn date_caption(date: Date) -> Seq<char> {
    zero_padded(date.year as nat, 4) + seq!['-'] + zero_padded(date.month as nat, 2) + seq!['-']
        + zero_padded(date.day as nat, 2)
}

/// The digits of a number below 10000, in four characters.
proof fn lemma_four_digits(number: nat)
    requires
        number <= 9999,
    ensures
        zero_padded(number, 4) == seq![
            digit_char(number / 1000),
            digit_char(number / 100 % 10),
            digit_char(number / 10 % 10),
            digit_char(number % 10),
        ],
{
    reveal_with_fuel(decimal_chars, 5);
    assert(zero_padded(number, 4) =~= seq![
        digit_char(number / 1000),
        digit_char(number / 100 % 10),
        digit_char(number / 10 % 10),
        digit_char(number % 10),
    ]);
}

/// The digits of a number below 100, in two characters.
proof fn lemma_two_digits(number: nat)
    requires
        number <= 99,
    ensures
        zero_padded(number, 2) == seq![digit_char(number / 10), digit_char(number % 10)],
{
    reveal_with_fuel(decimal_chars, 3);
    assert(zero_padded(number, 2) =~= seq![digit_char(number / 10), digit_char(number % 10)]);
}

/// A digit is an ASCII character, 48 above its value.
proof fn lemma_digit_byte(digit: nat)
    requires
        digit <= 9,
    ensures
        digit_char(digit) as u8 == 48 + digit,
        '\0' <= digit_char(digit) <= '\u{7f}',
{
}

/// The ten characters of the caption of a date with a year of four digits
/// and a month and a day of two.
proof fn lemma_date_caption_chars(date: Date)
    requires
        date.year <= 9999,
        date.month <= 99,
        date.day <= 99,
    ensures
        date_caption(date) == seq![
            digit_char((date.year / 1000) as nat),
            digit_char((date.year / 100 % 10) as nat),
            digit_char((date.year / 10 % 10) as nat),
            digit_char((date.year % 10) as nat),
            '-',
            digit_char((date.month / 10) as nat),
            digit_char((date.month % 10) as nat),
            '-',
            digit_char((date.day / 10) as nat),
            digit_char((date.day % 10) as nat),
        ],
{
    lemma_four_digits(date.year as nat);
    lemma_two_digits(date.month as nat);
    lemma_two_digits(date.day as nat);
    assert(date_caption(date) =~= seq![
        digit_char((date.year / 1000) as nat),
        digit_char((date.year / 100 % 10) as nat),
        digit_char((date.year / 10 % 10) as nat),
        digit_char((date.year % 10) as nat),
        '-',
        digit_char((date.month / 10) as nat),
        digit_char((date.month % 10) as nat),
        '-',
        digit_char((date.day / 10) as nat),
        digit_char((date.day % 10) as nat),
    ]);
}

/// The caption of a date written in bytes is the date as `YYYY-MM-DD`.
proof fn lemma_date_caption_bytes(date: Date)
    requires
        date.year <= 9999,
        date.month <= 99,
        date.day <= 99,
    ensures
        encode_utf8(date_caption(date)) == date.iso_8601_bytes(),
{
    let caption = date_caption(date);
    let bytes = date.iso_8601_bytes();
    lemma_date_caption_chars(date);
    lemma_digit_byte((date.year / 1000) as nat);
    lemma_digit_byte((date.year / 100 % 10) as nat);
    lemma_digit_byte((date.year / 10 % 10) as nat);
    lemma_digit_byte((date.year % 10) as nat);
    lemma_digit_byte((date.month / 10) as nat);
    lemma_digit_byte((date.month % 10) as nat);
    lemma_digit_byte((date.day / 10) as nat);
    lemma_digit_byte((date.day % 10) as nat);
    assert(caption.len() == 10);
    assert forall|i: int| 0 <= i < 10 implies '\0' <= #[trigger] caption[i] <= '\u{7f}'
        && caption[i] as u8 == bytes[i] by {
        if i == 0 {
        } else if i == 1 {
        } else if i == 2 {
        } else if i == 3 {
        } else if i == 4 {
        } else if i == 5 {
        } else if i == 6 {
        } else if i == 7 {
        } else if i == 8 {
        } else {
        }
    }
    assert(is_ascii_chars(caption));
    is_ascii_chars_encode_utf8(caption);
    assert(encode_utf8(caption) =~= bytes);
}

/// The caption of a date up to the year 9999 is the date as `YYYY-MM-DD`:
/// the text that [`Date::iso_8601`] gives.
pub proof fn lemma_date_caption_is_iso_8601(date: Date)
    requires
        date.is_valid(),
        date.year <= 9999,
    ensures
        encode_utf8(date_caption(date)) == date.iso_8601_bytes(),
        forall|text: &str| #[trigger]
            text.spec_bytes() == date.iso_8601_bytes() ==> text@ == date_caption(date),
{
    assert(date.month <= 12 && date.day <= 31);
    lemma_date_caption_bytes(date);
    assert forall|text: &str| #[trigger]
        text.spec_bytes() == date.iso_8601_bytes() implies text@ == date_caption(date) by {
        encode_utf8_decode_utf8(text@);
        encode_utf8_decode_utf8(date_caption(date));
    }
}

/// See [`date_caption`].
pub fn date_text(date: &Date) -> (text: String)
    ensures
        text@ == date_caption(*date),
{
    proof {
        reveal_strlit("-");
    }
    let mut text: String = padded_decimal_text(date.year, 4);
    text.append("-");
    text.append(padded_decimal_text(date.month as u16, 2).as_str());
    text.append("-");
    text.append(padded_decimal_text(date.day as u16, 2).as_str());
    assert(text@ =~= date_caption(*date));
    text
}

/// Makes the texts of the 24 hours, from the captions of [`hour_text`].
pub fn create_hours_texts<TF: TextCreate>(text_factory: &TF) -> (hours: Vec<TF::Result>)
    ensures
        hours.len() == 24,
        forall|k: int|
            0 <= k < 24 ==> is_text_of(text_factory, hour_caption(k as nat), #[trigger] hours[k]),
{
    let mut hours: Vec<TF::Result> = Vec::new();
    let mut i: u8 = 0;
    while i < 24
        invariant
            i <= 24,
            hours.len() == i,
            forall|k: int|
                0 <= k < i ==> is_text_of(
                    text_factory,
                    hour_caption(k as nat),
                    #[trigger] hours[k],
                ),
        decreases 24 - i,
    {
        let s: String = hour_text(i);
        let caption: &str = s.as_str();
        let made: TF::Result = text_factory.text_create(caption);
        assert(is_text_of(text_factory, hour_caption(i as nat), made));
        hours.push(made);
        i += 1;
    }
    hours
}

/// Makes the texts of the seven days, from the names of [`weekday_name`].
pub fn create_weekday_texts<TF: TextCreate>(text_factory: &TF) -> (days: Vec<TF::Result>)
    ensures
        days.len() == 7,
        forall|k: int|
            0 <= k < 7 ==> is_text_of(text_factory, weekday_names()[k], #[trigger] days[k]),
{
    let mut days: Vec<TF::Result> = Vec::new();
    let mut i: usize = 0;
    while i < 7
        invariant
            i <= 7,
            days.len() == i,
            forall|k: int|
                0 <= k < i ==> is_text_of(text_factory, weekday_names()[k], #[trigger] days[k]),
        decreases 7 - i,
    {
        let name: &str = weekday_name(i);
        let made: TF::Result = text_factory.text_create(name);
        assert(is_text_of(text_factory, weekday_names()[i as int], made));
        days.push(made);
        i += 1;
    }
    days
}

/// Makes the text of each of `dates`, from the captions of [`date_text`].
pub fn create_date_texts<TF: TextCreate>(text_factory: &TF, dates: &[Date]) -> (texts: Vec<
    TF::Result,
>)
    ensures
        texts.len() == dates.len(),
        forall|k: int|
            0 <= k < dates.len() ==> is_text_of(
                text_factory,
                date_caption(dates[k]),
                #[trigger] texts[k],
            ),
{
    let mut texts: Vec<TF::Result> = Vec::new();
    let mut i: usize = 0;
    while i < dates.len()
        invariant
            i <= dates.len(),
            texts.len() == i,
            forall|k: int|
                0 <= k < i ==> is_text_of(
                    text_factory,
                    date_caption(dates[k]),
                    #[trigger] texts[k],
                ),
        decreases dates.len() - i,
    {
        let text: String = date_text(&dates[i]);
        let caption: &str = text.as_str();
        let made: TF::Result = text_factory.text_create(caption);
        assert(is_text_of(text_factory, date_caption(dates[i as int]), made));
        texts.push(made);
        i += 1;
    }
    texts
}

/// Makes the text of each of `items`, the titles of events.
pub fn create_event_title_texts<TF: TextCreate>(text_factory: &TF, items: &[&str]) -> (texts: Vec<
    TF::Result,
>)
    ensures
        texts.len() == items.len(),
        forall|k: int|
            0 <= k < items.len() ==> is_text_of(text_factory, items[k]@, #[trigger] texts[k]),
{
    let mut texts: Vec<TF::Result> = Vec::new();
    let mut i: usize = 0;
    while i < items.len()
        invariant
            i <= items.len(),
            texts.len() == i,
            forall|k: int|
                0 <= k < i ==> is_text_of(text_factory, items[k]@, #[trigger] texts[k]),
        decreases items.len() - i,
    {
        let title: &str = items[i];
        let made: TF::Result = text_factory.text_create(title);
        assert(is_text_of(text_factory, items[i as int]@, made));
        texts.push(made);
        i += 1;
    }
    texts
}

/// create a structure with all of the texts for the week view, the dates
/// being the first seven of `dates`.
pub fn create_texts<TF: TextCreate>(text_factory: &TF, dates: &[Date]) -> (week: Week<TF::Result>)
    requires
        dates.len() >= 7,
    ensures
        week.days.len() == 7,
        week.hours.len() == 24,
        week.dates.len() == 7,
        forall|k: int|
            0 <= k < 7 ==> is_text_of(text_factory, weekday_names()[k], #[trigger] week.days[k]),
        forall|k: int|
            0 <= k < 24 ==> is_text_of(
                text_factory,
                hour_caption(k as nat),
                #[trigger] week.hours[k],
            ),
        forall|k: int|
            0 <= k < 7 ==> is_text_of(
                text_factory,
                date_caption(dates[k]),
                #[trigger] week.dates[k],
            ),
{
    let dates: Vec<TF::Result> = create_date_texts(text_factory, slice_subrange(dates, 0, 7));
    Week {
        days: create_weekday_texts(text_factory),
        hours: create_hours_texts(text_factory),
        dates,
    }
}

} // verus!
