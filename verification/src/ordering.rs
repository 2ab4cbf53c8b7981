use vstd::prelude::*;

use core::cmp::Ordering;
use vstd::std_specs::cmp::PartialOrdSpecImpl;

use crate::calendar::Date;
use crate::game_time::GameTime;

verus! {

/// How two integers compare.
pub open spec fn compare_ints(a: int, b: int) -> Ordering {
    if a < b {
        Ordering::Less
    } else if a == b {
        Ordering::Equal
    } else {
        Ordering::Greater
    }
}

impl PartialOrd for GameTime {
    /// Times compare by when they fall in the day.
    fn partial_cmp(&self, other: &GameTime) -> (r: Option<Ordering>) {
        let a = self.to_minutes();
        let b = other.to_minutes();
        if a < b {
            Some(Ordering::Less)
        } else if a == b {
            Some(Ordering::Equal)
        } else {
            Some(Ordering::Greater)
        }
    }
}

impl PartialOrdSpecImpl for GameTime {
    open spec fn obeys_partial_cmp_spec() -> bool {
        true
    }

    open spec fn partial_cmp_spec(&self, other: &GameTime) -> Option<Ordering> {
        Some(compare_ints(self.minutes(), other.minutes()))
    }
}

impl PartialOrd for Date {
    /// Dates compare by their place in the calendar.
    fn partial_cmp(&self, other: &Date) -> (r: Option<Ordering>) {
        let a = self.day_number();
        let b = other.day_number();
        if a < b {
            Some(Ordering::Less)
        } else if a == b {
            Some(Ordering::Equal)
        } else {
            Some(Ordering::Greater)
        }
    }
}

impl PartialOrdSpecImpl for Date {
    open spec fn obeys_partial_cmp_spec() -> bool {
        true
    }

    open spec fn partial_cmp_spec(&self, other: &Date) -> Option<Ordering> {
        Some(compare_ints(self.spec_day_number(), other.spec_day_number()))
    }
}

} // verus!
