//! The order of dates: by year, then by month, then by day. It is the order
//! of their day numbers.

use core::cmp::Ordering;
use vstd::prelude::*;
use vstd::std_specs::cmp::PartialOrdSpec;
use crate::date::{lemma_earlier_date, lemma_same_day_number, Date};

verus! {

impl PartialOrd for Date {
    fn partial_cmp(&self, other: &Date) -> (r: Option<Ordering>) {
        if self.year < other.year {
            Some(Ordering::Less)
        } else if self.year > other.year {
            Some(Ordering::Greater)
        } else if self.month < other.month {
            Some(Ordering::Less)
        } else if self.month > other.month {
            Some(Ordering::Greater)
        } else if self.day < other.day {
            Some(Ordering::Less)
        } else if self.day > other.day {
            Some(Ordering::Greater)
        } else {
            Some(Ordering::Equal)
        }
    }
}

impl vstd::std_specs::cmp::PartialOrdSpecImpl for Date {
    open spec fn obeys_partial_cmp_spec() -> bool {
        true
    }

    open spec fn partial_cmp_spec(&self, other: &Date) -> Option<Ordering> {
        if self.year < other.year {
            Some(Ordering::Less)
        } else if self.year > other.year {
            Some(Ordering::Greater)
        } else if self.month < other.month {
            Some(Ordering::Less)
        } else if self.month > other.month {
            Some(Ordering::Greater)
        } else if self.day < other.day {
            Some(Ordering::Less)
        } else if self.day > other.day {
            Some(Ordering::Greater)
        } else {
            Some(Ordering::Equal)
        }
    }
}

/// Dates are ordered as their day numbers are: the earlier date has the
/// smaller day number, and only a date itself has its day number.
pub proof fn lemma_order_of_dates(a: Date, b: Date)
    requires
        a.is_valid(),
        b.is_valid(),
    ensures
        a.partial_cmp_spec(&b) == Some(Ordering::Less) <==> a.day_number() < b.day_number(),
        a.partial_cmp_spec(&b) == Some(Ordering::Equal) <==> a.day_number() == b.day_number(),
        a.partial_cmp_spec(&b) == Some(Ordering::Greater) <==> a.day_number() > b.day_number(),
        a.partial_cmp_spec(&b) == Some(Ordering::Equal) <==> a == b,
{
    lemma_dates_in_order(a, b);
    lemma_dates_in_order(b, a);
}

/// A date that comes earlier by year, month and day has the smaller day
/// number, and dates with one day number are one date.
proof fn lemma_dates_in_order(a: Date, b: Date)
    requires
        a.is_valid(),
        b.is_valid(),
    ensures
        a.partial_cmp_spec(&b) == Some(Ordering::Less) ==> a.day_number() < b.day_number(),
        a.day_number() == b.day_number() ==> a == b,
{
    if a.comes_before(b) {
        lemma_earlier_date(a, b);
    }
    if a.day_number() == b.day_number() {
        lemma_same_day_number(a, b);
    }
}

} // verus!
