use vstd::prelude::*;

use crate::error::AppError;
use crate::text::push_char;

verus! {

/// Minutes in a day: times of day live in `0..MINUTES_PER_DAY`.
pub const MINUTES_PER_DAY: u32 = 1440;

/// A time of day, to the minute.
#[derive(Clone, Copy, Debug, Hash, PartialEq, Eq, Ord, Structural)]
pub struct GameTime {
    hour: u8,
    minute: u8,
}

impl GameTime {
    #[verifier::type_invariant]
    pub(crate) closed spec fn valid(self) -> bool {
        self.hour < 24 && self.minute < 60
    }

    /// What a time of day always is: an hour of the day and a minute of the
    /// hour.
    pub(crate) proof fn lemma_valid(self)
        requires
            self.valid(),
        ensures
            self.spec_hour() < 24,
            self.spec_minute() < 60,
    {
    }

    /// The time as minutes since midnight.
    pub closed spec fn minutes(self) -> int {
        self.hour * 60 + self.minute
    }

    /// A time of day is never before midnight.
    pub proof fn lemma_minutes_nonnegative(self)
        ensures
            0 <= self.minutes(),
    {
    }

    pub closed spec fn spec_hour(self) -> u8 {
        self.hour
    }

    pub closed spec fn spec_minute(self) -> u8 {
        self.minute
    }

    pub fn new(hour: u8, minute: u8) -> (r: Result<Self, AppError>)
        ensures
            hour < 24 && minute < 60 <==> r is Ok,
            r matches Ok(t) ==> t.spec_hour() == hour && t.spec_minute() == minute && t.minutes()
                == hour * 60 + minute,
            r matches Ok(t) ==> t == GameTime::of_minutes(hour * 60 + minute),
            r matches Err(e) ==> e == AppError::InvalidTime(hour, minute),
    {
        if hour > 23 || minute > 59 {
            return Err(AppError::InvalidTime(hour, minute));
        }
        Ok(Self { hour, minute })
    }

    pub fn hour(&self) -> (r: u8)
        ensures
            r == self.spec_hour(),
            r < 24,
    {
        proof { use_type_invariant(self); }
        self.hour
    }

    /// The time of day `minutes` minutes after midnight.
    pub closed spec fn of_minutes(minutes: int) -> GameTime {
        GameTime { hour: (minutes / 60) as u8, minute: (minutes % 60) as u8 }
    }

    /// A time of day is the time its minutes since midnight give.
    pub proof fn lemma_of_minutes_exact(self)
        requires
            self.spec_hour() < 24,
            self.spec_minute() < 60,
        ensures
            GameTime::of_minutes(self.minutes()) == self,
            0 <= self.minutes() < 1440,
    {
    }

    /// Two times of day with the same minutes since midnight are the same
    /// time: the same hour and the same minute.
    pub proof fn lemma_same_minutes(self, other: GameTime)
        requires
            self.spec_hour() < 24,
            self.spec_minute() < 60,
            other.spec_hour() < 24,
            other.spec_minute() < 60,
            self.minutes() == other.minutes(),
        ensures
            self == other,
    {
        self.lemma_of_minutes_exact();
        other.lemma_of_minutes_exact();
    }

    pub(crate) fn from_minutes(minutes: u32) -> (r: GameTime)
        requires
            minutes < MINUTES_PER_DAY,
        ensures
            r.minutes() == minutes,
            r == GameTime::of_minutes(minutes as int),
    {
        let hour = (minutes / 60) as u8;
        let minute = (minutes % 60) as u8;
        GameTime { hour, minute }
    }

    /// The time as minutes since midnight.
    pub fn to_minutes(&self) -> (r: u32)
        ensures
            r == self.minutes(),
            r < MINUTES_PER_DAY,
    {
        proof {
            use_type_invariant(self);
        }
        self.hour as u32 * 60 + self.minute as u32
    }

    /// The two times added up on the clock: an addition that passes
    /// midnight starts again from 00:00.
    pub fn plus(&self, rhs: &GameTime) -> (r: GameTime)
        ensures
            r.minutes() == (self.minutes() + rhs.minutes()) % (MINUTES_PER_DAY as int),
            r == GameTime::of_minutes((self.minutes() + rhs.minutes()) % (MINUTES_PER_DAY as int)),
    {
        let total = self.to_minutes() + rhs.to_minutes();
        GameTime::from_minutes(total % MINUTES_PER_DAY)
    }

    /// How much later in the day this time is than `rhs`; refused when `rhs`
    /// is the later one.
    pub fn minus(&self, rhs: &GameTime) -> (r: Result<GameTime, AppError>)
        ensures
            r is Ok <==> rhs.minutes() <= self.minutes(),
            r matches Ok(t) ==> t.minutes() == self.minutes() - rhs.minutes() && t
                == GameTime::of_minutes(self.minutes() - rhs.minutes()),
            r matches Err(e) ==> e == AppError::GameTimeSubtractionUnderflow(*self, *rhs),
    {
        let a = self.to_minutes();
        let b = rhs.to_minutes();
        if b > a {
            return Err(AppError::GameTimeSubtractionUnderflow(*self, *rhs));
        }
        Ok(GameTime::from_minutes(a - b))
    }

    /// Whether this time comes strictly earlier in the day than `other`.
    pub fn is_before(&self, other: &GameTime) -> (r: bool)
        ensures
            r == (self.minutes() < other.minutes()),
    {
        self.to_minutes() < other.to_minutes()
    }

    /// The time written as `HH:MM`.
    pub fn to_string(&self) -> (r: String)
        ensures
            r@ == seq![
                digit_char(self.spec_hour() as int / 10),
                digit_char(self.spec_hour() as int % 10),
                ':',
                digit_char(self.spec_minute() as int / 10),
                digit_char(self.spec_minute() as int % 10),
            ],
    {
        let hour = self.hour();
        let minute = self.minute();
        let mut text = String::new();
        push_char(&mut text, to_digit_char(hour / 10));
        push_char(&mut text, to_digit_char(hour % 10));
        push_char(&mut text, ':');
        push_char(&mut text, to_digit_char(minute / 10));
        push_char(&mut text, to_digit_char(minute % 10));
        text
    }

    pub fn minute(&self) -> (r: u8)
        ensures
            r == self.spec_minute(),
            r < 60,
    {
        proof { use_type_invariant(self); }
        self.minute
    }
}

/// The decimal digit `d`, for `d < 10`.
pub open spec fn digit_char(d: int) -> char {
    if d == 0 {
        '0'
    } else if d == 1 {
        '1'
    } else if d == 2 {
        '2'
    } else if d == 3 {
        '3'
    } else if d == 4 {
        '4'
    } else if d == 5 {
        '5'
    } else if d == 6 {
        '6'
    } else if d == 7 {
        '7'
    } else if d == 8 {
        '8'
    } else {
        '9'
    }
}

/// The value a decimal text reads as, most significant digit first, each
/// character counting as its distance from `0`.
pub open spec fn decimal_value(text: Seq<char>) -> int
    decreases text.len(),
{
    if text.len() == 0 {
        0
    } else {
        decimal_value(text.drop_last()) * 10 + (text.last() as int - '0' as int)
    }
}

/// Law of the digits: the character written for a digit below ten is the
/// decimal digit of that value, as many places after `0` as the digit is.
pub proof fn law_digit_char_reads_back(d: int)
    requires
        0 <= d < 10,
    ensures
        digit_char(d) as int == '0' as int + d,
        decimal_value(seq![digit_char(d)]) == d,
{
    let text = seq![digit_char(d)];
    assert(text.drop_last() =~= Seq::<char>::empty());
    assert(decimal_value(text.drop_last()) == 0);
    assert(text.last() == digit_char(d));
}

/// Law of the written time: the text of a time of day, `HH:MM`, reads back
/// as its hour and its minute.
pub proof fn law_time_text_reads_back(time: GameTime)
    requires
        time.spec_hour() < 24,
        time.spec_minute() < 60,
    ensures
        ({
            let text = seq![
                digit_char(time.spec_hour() as int / 10),
                digit_char(time.spec_hour() as int % 10),
                ':',
                digit_char(time.spec_minute() as int / 10),
                digit_char(time.spec_minute() as int % 10),
            ];
            &&& decimal_value(text.subrange(0, 2)) == time.spec_hour()
            &&& text[2] == ':'
            &&& decimal_value(text.subrange(3, 5)) == time.spec_minute()
        }),
{
    let h = time.spec_hour() as int;
    let m = time.spec_minute() as int;
    let text = seq![digit_char(h / 10), digit_char(h % 10), ':', digit_char(m / 10), digit_char(m % 10)];
    law_digit_char_reads_back(h / 10);
    law_digit_char_reads_back(h % 10);
    law_digit_char_reads_back(m / 10);
    law_digit_char_reads_back(m % 10);
    assert(text.subrange(0, 2).drop_last() =~= seq![digit_char(h / 10)]);
    assert(text.subrange(3, 5).drop_last() =~= seq![digit_char(m / 10)]);
    assert(seq![digit_char(h / 10)].drop_last() =~= Seq::<char>::empty());
    assert(seq![digit_char(m / 10)].drop_last() =~= Seq::<char>::empty());
}

pub(crate) fn to_digit_char(d: u8) -> (r: char)
    requires
        d < 10,
    ensures
        r == digit_char(d as int),
{
    if d == 0 {
        '0'
    } else if d == 1 {
        '1'
    } else if d == 2 {
        '2'
    } else if d == 3 {
        '3'
    } else if d == 4 {
        '4'
    } else if d == 5 {
        '5'
    } else if d == 6 {
        '6'
    } else if d == 7 {
        '7'
    } else if d == 8 {
        '8'
    } else {
        '9'
    }
}

impl vstd::std_specs::ops::AddSpecImpl for GameTime {
    open spec fn obeys_add_spec() -> bool {
        true
    }

    open spec fn add_req(self, rhs: GameTime) -> bool {
        true
    }

    open spec fn add_spec(self, rhs: GameTime) -> GameTime {
        GameTime::of_minutes((self.minutes() + rhs.minutes()) % (MINUTES_PER_DAY as int))
    }
}

impl vstd::std_specs::ops::SubSpecImpl for GameTime {
    open spec fn obeys_sub_spec() -> bool {
        true
    }

    open spec fn sub_req(self, rhs: GameTime) -> bool {
        true
    }

    open spec fn sub_spec(self, rhs: GameTime) -> Result<GameTime, AppError> {
        if rhs.minutes() <= self.minutes() {
            Ok(GameTime::of_minutes(self.minutes() - rhs.minutes()))
        } else {
            Err(AppError::GameTimeSubtractionUnderflow(self, rhs))
        }
    }
}

impl core::ops::Add for GameTime {
    type Output = GameTime;

    /// The two times added up on the clock; the addition does not take day
    /// changes into account.
    fn add(self, rhs: GameTime) -> (r: GameTime)
        ensures
            r.minutes() == (self.minutes() + rhs.minutes()) % (MINUTES_PER_DAY as int),
            r == GameTime::of_minutes((self.minutes() + rhs.minutes()) % (MINUTES_PER_DAY as int)),
    {
        self.plus(&rhs)
    }
}

impl core::ops::Sub for GameTime {
    type Output = Result<GameTime, AppError>;

    fn sub(self, rhs: GameTime) -> (r: Result<GameTime, AppError>)
        ensures
            r is Ok <==> rhs.minutes() <= self.minutes(),
            r matches Ok(t) ==> t.minutes() == self.minutes() - rhs.minutes() && t
                == GameTime::of_minutes(self.minutes() - rhs.minutes()),
            r matches Err(e) ==> e == AppError::GameTimeSubtractionUnderflow(self, rhs),
    {
        self.minus(&rhs)
    }
}

} // verus!
