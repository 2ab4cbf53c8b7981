use vstd::prelude::*;

use crate::calendar::{
    calendar_day_month_year_text, weekday_of_day_number, Date, Weekday, MAX_DAY_NUMBER,
    MIN_DAY_NUMBER,
};
use crate::configuration::DateConfiguration;
use crate::game::{Game, GameView};
use crate::leg_merge::is_bye_view;
use crate::referees::game_views;
use crate::game_day_scheduler::{contains_date, day_numbers};
use crate::game_time::GameTime;
use crate::text::append_text;

verus! {

/// The sequence increases strictly.
pub open spec fn strictly_increasing(days: Seq<int>) -> bool {
    forall|i: int, j: int| 0 <= i < j < days.len() ==> days[i] < days[j]
}

/// The runs of consecutive days of a strictly increasing list of days, each
/// as its first and last day.
pub open spec fn day_runs(days: Seq<int>) -> Seq<(int, int)>
    decreases days.len(),
{
    if days.len() == 0 {
        seq![]
    } else {
        let runs = day_runs(days.drop_last());
        if runs.len() > 0 && runs.last().1 + 1 == days.last() {
            runs.update(runs.len() - 1, (runs.last().0, days.last()))
        } else {
            runs.push((days.last(), days.last()))
        }
    }
}

/// A run of days written out: the day alone, or its first and last day as
/// `dd/mm/yyyy - dd/mm/yyyy`.
pub open spec fn run_text(run: (int, int)) -> Seq<char> {
    if run.0 == run.1 {
        calendar_day_month_year_text(run.0 as i32)
    } else {
        calendar_day_month_year_text(run.0 as i32) + " - "@ + calendar_day_month_year_text(
            run.1 as i32,
        )
    }
}

/// The texts of the runs of consecutive dates among `dates`, in calendar
/// order, a date given twice counting once.
pub open spec fn consecutive_date_texts(dates: Seq<Date>, texts: Seq<Seq<char>>) -> bool {
    exists|days: Seq<int>|
        #[trigger] strictly_increasing(days) && days.to_set() == day_numbers(dates).to_set()
            && texts == day_runs(days).map_values(|run: (int, int)| run_text(run))
}

/// Two strictly increasing lists of the same days are the same list.
proof fn lemma_increasing_unique(s1: Seq<int>, s2: Seq<int>)
    requires
        strictly_increasing(s1),
        strictly_increasing(s2),
        s1.to_set() == s2.to_set(),
    ensures
        s1 == s2,
    decreases s1.len(),
{
    if s1.len() == 0 {
        if s2.len() > 0 {
            assert(s2.to_set().contains(s2[0]));
        }
        assert(s1 =~= s2);
    } else {
        assert(s1.to_set().contains(s1[0]));
        assert(s2.len() > 0);
        assert(s2.to_set().contains(s2[0]));
        let j1 = choose|j: int| 0 <= j < s2.len() && s2[j] == s1[0];
        let j2 = choose|j: int| 0 <= j < s1.len() && s1[j] == s2[0];
        assert(s2[0] <= s2[j1]);
        assert(s1[0] <= s1[j2]);
        let a = s1[0];
        let t1 = s1.drop_first();
        let t2 = s2.drop_first();
        assert(strictly_increasing(t1));
        assert(strictly_increasing(t2));
        assert forall|x: int| t1.to_set().contains(x) <==> t2.to_set().contains(x) by {
            if t1.to_set().contains(x) {
                let k = choose|k: int| 0 <= k < t1.len() && t1[k] == x;
                assert(s1[k + 1] == x && x > a);
                assert(s1.to_set().contains(x));
                let k2 = choose|k2: int| 0 <= k2 < s2.len() && s2[k2] == x;
                assert(k2 > 0);
                assert(t2[k2 - 1] == x);
            }
            if t2.to_set().contains(x) {
                let k = choose|k: int| 0 <= k < t2.len() && t2[k] == x;
                assert(s2[k + 1] == x && x > a);
                assert(s2.to_set().contains(x));
                let k1 = choose|k1: int| 0 <= k1 < s1.len() && s1[k1] == x;
                assert(k1 > 0);
                assert(t1[k1 - 1] == x);
            }
        }
        assert(t1.to_set() =~= t2.to_set());
        lemma_increasing_unique(t1, t2);
        assert(s1 =~= seq![a] + t1);
        assert(s2 =~= seq![a] + t2);
    }
}

/// Law of the excluded-dates column: the order in which the dates are
/// given, and a date given twice, change nothing; dates that are the same
/// days give the same texts.
pub proof fn law_grouped_dates_ignore_order(
    dates1: Seq<Date>,
    texts1: Seq<Seq<char>>,
    dates2: Seq<Date>,
    texts2: Seq<Seq<char>>,
)
    requires
        consecutive_date_texts(dates1, texts1),
        consecutive_date_texts(dates2, texts2),
        day_numbers(dates1).to_set() == day_numbers(dates2).to_set(),
    ensures
        texts1 == texts2,
{
    let days1 = choose|days: Seq<int>|
        #[trigger] strictly_increasing(days) && days.to_set() == day_numbers(dates1).to_set()
            && texts1 == day_runs(days).map_values(|run: (int, int)| run_text(run));
    let days2 = choose|days: Seq<int>|
        #[trigger] strictly_increasing(days) && days.to_set() == day_numbers(dates2).to_set()
            && texts2 == day_runs(days).map_values(|run: (int, int)| run_text(run));
    lemma_increasing_unique(days1, days2);
}

/// The runs of a list of days cover exactly its days: every day from the
/// first to the last of a run is in the list, and every day of the list is
/// in a run.
proof fn lemma_day_runs_cover(days: Seq<int>)
    ensures
        forall|i: int| 0 <= i < day_runs(days).len() ==> (#[trigger] day_runs(days)[i]).0 <= day_runs(days)[i].1,
        forall|i: int, d: int|
            #![trigger day_runs(days)[i], days.contains(d)]
            0 <= i < day_runs(days).len() && day_runs(days)[i].0 <= d <= day_runs(days)[i].1
                ==> days.contains(d),
        forall|j: int|
            0 <= j < days.len() ==> exists|i: int|
                0 <= i < day_runs(days).len() && (#[trigger] day_runs(days)[i]).0 <= #[trigger] days[j]
                    <= day_runs(days)[i].1,
        strictly_increasing(days) ==> forall|i: int|
            0 <= i < day_runs(days).len() - 1 ==> #[trigger] day_runs(days)[i].1 + 1 < day_runs(days)[i + 1].0,
        strictly_increasing(days) && days.len() > 0 ==> day_runs(days).len() > 0 && day_runs(days).last().1
            == days.last(),
    decreases days.len(),
{
    if days.len() > 0 {
        let rest = days.drop_last();
        let last = days.last();
        lemma_day_runs_cover(rest);
        if strictly_increasing(days) {
            assert(strictly_increasing(rest));
            if rest.len() > 0 {
                assert(rest.last() == days[days.len() - 2]);
                assert(days[days.len() - 2] < days[days.len() - 1]);
            }
        }
        let before = day_runs(rest);
        let runs = day_runs(days);
        assert forall|x: int| rest.contains(x) implies days.contains(x) by {
            let k = choose|k: int| 0 <= k < rest.len() && rest[k] == x;
            assert(days[k] == x);
        }
        assert(days.contains(last)) by {
            assert(days[days.len() - 1] == last);
        }
        if before.len() > 0 && before.last().1 + 1 == last {
            let n = before.len() - 1;
            assert(runs == before.update(n, (before[n].0, last)));
            assert forall|i: int, d: int| #![trigger runs[i], days.contains(d)] 0 <= i < runs.len() && runs[i].0 <= d <= runs[i].1 implies days.contains(d) by {
                if i == n && d == last {
                } else if i == n {
                    assert(before[n].0 <= d <= before[n].1);
                    assert(rest.contains(d));
                } else {
                    assert(runs[i] == before[i]);
                    assert(rest.contains(d));
                }
            }
            assert forall|j: int| 0 <= j < days.len() implies exists|i: int|
                0 <= i < runs.len() && (#[trigger] runs[i]).0 <= #[trigger] days[j] <= runs[i].1 by {
                if j == days.len() - 1 {
                    assert(runs[n].0 <= days[j] <= runs[n].1);
                } else {
                    assert(rest[j] == days[j]);
                    let i = choose|i: int| 0 <= i < before.len() && (#[trigger] before[i]).0 <= rest[j] <= before[i].1;
                    assert(runs[i].0 <= days[j] <= runs[i].1);
                }
            }
        } else {
            assert(runs == before.push((last, last)));
            assert forall|i: int, d: int| #![trigger runs[i], days.contains(d)] 0 <= i < runs.len() && runs[i].0 <= d <= runs[i].1 implies days.contains(d) by {
                if i < before.len() {
                    assert(runs[i] == before[i]);
                    assert(rest.contains(d));
                }
            }
            assert forall|j: int| 0 <= j < days.len() implies exists|i: int|
                0 <= i < runs.len() && (#[trigger] runs[i]).0 <= #[trigger] days[j] <= runs[i].1 by {
                if j == days.len() - 1 {
                    assert(runs[before.len() as int].0 <= days[j] <= runs[before.len() as int].1);
                } else {
                    assert(rest[j] == days[j]);
                    let i = choose|i: int| 0 <= i < before.len() && (#[trigger] before[i]).0 <= rest[j] <= before[i].1;
                    assert(runs[i].0 <= days[j] <= runs[i].1);
                }
            }
        }
    }
}

/// The texts of runs of days.
pub open spec fn runs_texts(runs: Seq<(int, int)>) -> Seq<Seq<char>> {
    runs.map_values(|run: (int, int)| run_text(run))
}

/// Law of the excluded-dates column: each text is a run of days from a
/// first to a last, every day of it excluded, every excluded day falls in
/// one of the runs, and the runs come in calendar order with at least one
/// day that is not excluded between two of them.
pub proof fn law_grouped_dates_are_excluded_runs(dates: Seq<Date>, texts: Seq<Seq<char>>)
    requires
        consecutive_date_texts(dates, texts),
    ensures
        exists|runs: Seq<(int, int)>|
            {
                &&& texts == #[trigger] runs_texts(runs)
                &&& forall|i: int| 0 <= i < runs.len() ==> (#[trigger] runs[i]).0 <= runs[i].1
                &&& forall|i: int, d: int|
                    #![trigger runs[i], day_numbers(dates).contains(d)]
                    0 <= i < runs.len() && runs[i].0 <= d <= runs[i].1 ==> day_numbers(dates).contains(d)
                &&& forall|d: int|
                    #[trigger] day_numbers(dates).contains(d) ==> exists|i: int|
                        0 <= i < runs.len() && (#[trigger] runs[i]).0 <= d <= runs[i].1
                &&& forall|i: int| 0 <= i < runs.len() - 1 ==> #[trigger] runs[i].1 + 1 < runs[i + 1].0
            },
{
    let days = choose|days: Seq<int>|
        #[trigger] strictly_increasing(days) && days.to_set() == day_numbers(dates).to_set()
            && texts == day_runs(days).map_values(|run: (int, int)| run_text(run));
    lemma_day_runs_cover(days);
    let runs = day_runs(days);
    assert(texts == runs_texts(runs));
    assert forall|i: int, d: int|
        #![trigger runs[i], day_numbers(dates).contains(d)]
        0 <= i < runs.len() && runs[i].0 <= d <= runs[i].1 implies day_numbers(dates).contains(d) by {
        assert(days.contains(d));
        assert(days.to_set().contains(d));
        assert(day_numbers(dates).to_set().contains(d));
    }
    assert forall|d: int| #[trigger] day_numbers(dates).contains(d) implies exists|i: int|
        0 <= i < runs.len() && (#[trigger] runs[i]).0 <= d <= runs[i].1 by {
        assert(day_numbers(dates).to_set().contains(d));
        assert(days.to_set().contains(d));
        let j = choose|j: int| 0 <= j < days.len() && days[j] == d;
        assert(days[j] == d);
    }
}

/// The day numbers of the dates, in increasing order, each once.
fn sorted_day_numbers(dates: &[Date]) -> (r: Vec<i32>)
    ensures
        strictly_increasing(r@.map_values(|d: i32| d as int)),
        r@.map_values(|d: i32| d as int).to_set() == day_numbers(dates@).to_set(),
        forall|k: int| 0 <= k < r@.len() ==> MIN_DAY_NUMBER <= #[trigger] r@[k] <= MAX_DAY_NUMBER,
{
    let mut sorted: Vec<i32> = Vec::new();
    let mut i: usize = 0;
    while i < dates.len()
        invariant
            i <= dates@.len(),
            strictly_increasing(sorted@.map_values(|d: i32| d as int)),
            sorted@.map_values(|d: i32| d as int).to_set() == day_numbers(dates@.take(i as int)).to_set(),
            forall|k: int| 0 <= k < sorted@.len() ==> MIN_DAY_NUMBER <= #[trigger] sorted@[k] <= MAX_DAY_NUMBER,
        decreases dates@.len() - i,
    {
        let n = dates[i].day_number();
        let mut p: usize = 0;
        while p < sorted.len() && sorted[p] < n
            invariant
                p <= sorted@.len(),
                forall|k: int| 0 <= k < p ==> #[trigger] sorted@[k] < n,
            decreases sorted@.len() - p,
        {
            p = p + 1;
        }
        let ghost old_view = sorted@.map_values(|d: i32| d as int);
        assert(day_numbers(dates@.take(i + 1)) =~= day_numbers(dates@.take(i as int)).push(n as int));
        proof {
            day_numbers(dates@.take(i as int)).lemma_push_to_set_commute(n as int);
        }
        if p < sorted.len() && sorted[p] == n {
            proof {
                assert(old_view[p as int] == n);
                assert(old_view.to_set().contains(n as int));
                assert(day_numbers(dates@.take(i + 1)).to_set() =~= day_numbers(dates@.take(i as int)).to_set().insert(n as int));
                assert(old_view.to_set().insert(n as int) =~= old_view.to_set());
            }
        } else {
            sorted.insert(p, n);
            proof {
                let new_view = sorted@.map_values(|d: i32| d as int);
                assert(new_view =~= old_view.insert(p as int, n as int));
                assert forall|a: int, b: int| 0 <= a < b < new_view.len() implies new_view[a] < new_view[b] by {
                    if b == p as int {
                        assert(old_view[a] < n);
                    } else if a == p as int {
                        assert(old_view[b - 1] > n || old_view[b - 1] >= n) by {
                            if b - 1 > p as int {
                                assert(old_view[p as int] < old_view[b - 1]);
                            }
                        }
                        assert(old_view[p as int] != n);
                        assert(old_view[p as int] >= n);
                    }
                }
                assert(new_view.to_set() =~= old_view.to_set().insert(n as int)) by {
                    assert forall|x: int| new_view.to_set().contains(x) <==> old_view.to_set().insert(n as int).contains(x) by {
                        if new_view.to_set().contains(x) {
                            let k = choose|k: int| 0 <= k < new_view.len() && new_view[k] == x;
                            if k < p as int {
                                assert(old_view[k] == x);
                            } else if k > p as int {
                                assert(old_view[k - 1] == x);
                            }
                        }
                        if old_view.to_set().contains(x) {
                            let k = choose|k: int| 0 <= k < old_view.len() && old_view[k] == x;
                            if k < p as int {
                                assert(new_view[k] == x);
                            } else {
                                assert(new_view[k + 1] == x);
                            }
                        }
                        if x == n as int {
                            assert(new_view[p as int] == x);
                        }
                    }
                }
                assert(day_numbers(dates@.take(i + 1)).to_set() =~= day_numbers(dates@.take(i as int)).to_set().insert(n as int));
            }
        }
        i = i + 1;
    }
    assert(dates@.take(dates@.len() as int) =~= dates@);
    sorted
}

/// A run of days written out, as `run_text` says.
fn run_to_text(first: i32, last: i32) -> (r: String)
    requires
        MIN_DAY_NUMBER <= first <= MAX_DAY_NUMBER,
        MIN_DAY_NUMBER <= last <= MAX_DAY_NUMBER,
    ensures
        r@ == run_text((first as int, last as int)),
{
    let first_date = match Date::from_day_number(first) {
        Some(d) => d,
        None => {
            return String::new();
        },
    };
    let mut text = first_date.to_day_month_year();
    if first != last {
        let last_date = match Date::from_day_number(last) {
            Some(d) => d,
            None => {
                return String::new();
            },
        };
        append_text(&mut text, " - ");
        let last_text = last_date.to_day_month_year();
        append_text(&mut text, last_text.as_str());
    }
    text
}

/// The excluded dates for the sheet: runs of consecutive days collapse into
/// one entry, so a week off reads as `10/09/2026 - 13/09/2026` rather than
/// as four lines. The order of the input does not matter, and a date given
/// twice counts once.
pub fn group_consecutive_dates(dates: &[Date]) -> (r: Vec<String>)
    ensures
        consecutive_date_texts(dates@, r@.map_values(|t: String| t@)),
{
    let days = sorted_day_numbers(dates);
    let ghost s = days@.map_values(|d: i32| d as int);
    let mut groups: Vec<String> = Vec::new();
    let mut current: Option<(i32, i32)> = None;
    let ghost mut finished: Seq<(int, int)> = seq![];
    let mut k: usize = 0;
    assert(s.take(0) =~= Seq::<int>::empty());
    while k < days.len()
        invariant
            k <= days@.len(),
            s == days@.map_values(|d: i32| d as int),
            forall|j: int| 0 <= j < days@.len() ==> MIN_DAY_NUMBER <= #[trigger] days@[j] <= MAX_DAY_NUMBER,
            groups@.map_values(|t: String| t@) == finished.map_values(|run: (int, int)| run_text(run)),
            current is None <==> k == 0,
            current is None ==> finished.len() == 0,
            current matches Some(run) ==> finished.push((run.0 as int, run.1 as int)) == day_runs(s.take(k as int))
                && MIN_DAY_NUMBER <= run.0 <= MAX_DAY_NUMBER && MIN_DAY_NUMBER <= run.1 <= MAX_DAY_NUMBER,
        decreases days@.len() - k,
    {
        let day = days[k];
        assert(s.take(k + 1).drop_last() =~= s.take(k as int));
        assert(s.take(k + 1).last() == day as int);
        match current {
            Some(run) => {
                if run.1 < MAX_DAY_NUMBER && day == run.1 + 1 {
                    proof {
                        let runs = finished.push((run.0 as int, run.1 as int));
                        assert(runs.update(runs.len() - 1, (runs.last().0, day as int)) =~= finished.push((run.0 as int, day as int)));
                    }
                    current = Some((run.0, day));
                } else {
                    let text = run_to_text(run.0, run.1);
                    let ghost before = groups@.map_values(|t: String| t@);
                    groups.push(text);
                    proof {
                        assert(groups@.map_values(|t: String| t@) =~= before.push(run_text((run.0 as int, run.1 as int))));
                        let old_finished = finished;
                        finished = finished.push((run.0 as int, run.1 as int));
                        assert(finished.map_values(|r: (int, int)| run_text(r)) =~= old_finished.map_values(|r: (int, int)| run_text(r)).push(run_text((run.0 as int, run.1 as int))));
                    }
                    current = Some((day, day));
                    proof {
                        assert(day_runs(s.take(k + 1)) == finished.push((day as int, day as int)));
                    }
                }
            },
            None => {
                current = Some((day, day));
                proof {
                    assert(s.take(k as int) =~= Seq::<int>::empty());
                    assert(finished =~= Seq::<(int, int)>::empty());
                    assert(day_runs(s.take(k as int)) =~= Seq::<(int, int)>::empty());
                    assert(day_runs(s.take(k + 1)) =~= finished.push((day as int, day as int)));
                }
            },
        }
        k = k + 1;
    }
    assert(s.take(s.len() as int) =~= s);
    match current {
        Some(run) => {
            let text = run_to_text(run.0, run.1);
            let ghost before = groups@.map_values(|t: String| t@);
            groups.push(text);
            proof {
                assert(groups@.map_values(|t: String| t@) =~= before.push(run_text((run.0 as int, run.1 as int))));
                let old_finished = finished;
                finished = finished.push((run.0 as int, run.1 as int));
                assert(finished.map_values(|r: (int, int)| run_text(r)) =~= old_finished.map_values(|r: (int, int)| run_text(r)).push(run_text((run.0 as int, run.1 as int))));
            }
        },
        None => {
            assert(s =~= Seq::<int>::empty());
            assert(groups@.map_values(|t: String| t@) =~= Seq::<Seq<char>>::empty());
        },
    }
    assert(groups@.map_values(|t: String| t@) == day_runs(s).map_values(|run: (int, int)| run_text(run)));
    groups
}

/// The days of the week starting on Monday `monday` that fall on one of the
/// game weekdays, in the order the game weekdays are given, leaving out the
/// excluded dates.
pub open spec fn week_game_days(monday: int, game_days: Seq<Weekday>, excluded: Seq<Date>) -> Seq<
    int,
>
    decreases game_days.len(),
{
    if game_days.len() == 0 {
        seq![]
    } else {
        let earlier = week_game_days(monday, game_days.drop_last(), excluded);
        let candidate = monday + game_days.last().index();
        if day_numbers(excluded).contains(candidate) {
            earlier
        } else {
            earlier.push(candidate)
        }
    }
}

/// The days a game scheduled on `scheduled` may move to: with a single game
/// day a week, every game day of that week that is not excluded, the
/// scheduled day first when it is not one of them; otherwise the scheduled
/// day alone.
pub open spec fn weekly_choices(scheduled: int, dates: DateConfiguration) -> Seq<int> {
    if !dates.spec_single_game_per_week() {
        seq![scheduled]
    } else {
        let monday = scheduled - weekday_of_day_number(scheduled).index();
        let days = week_game_days(monday, dates.spec_game_days(), dates.spec_excluded_dates());
        if days.contains(scheduled) {
            days
        } else {
            seq![scheduled] + days
        }
    }
}

/// The days the organiser may pick for a game day: with a single game day
/// a week, every configured weekday of the scheduled day's week (Monday to
/// Sunday) that is not excluded, always with the scheduled day among them;
/// otherwise the scheduled day alone.
pub fn weekly_day_choices(scheduled_day: &Date, date_configuration: &DateConfiguration) -> (r: Vec<
    Date,
>)
    requires
        MIN_DAY_NUMBER + 6 <= scheduled_day.spec_day_number() <= MAX_DAY_NUMBER - 6,
    ensures
        r@.map_values(|d: Date| d.spec_day_number()) == weekly_choices(
            scheduled_day.spec_day_number(),
            *date_configuration,
        ),
{
    let mut choices: Vec<Date> = Vec::new();
    if !date_configuration.single_game_per_week() {
        choices.push(*scheduled_day);
        assert(choices@.map_values(|d: Date| d.spec_day_number()) =~= seq![scheduled_day.spec_day_number()]);
        return choices;
    }
    let n = scheduled_day.day_number();
    let monday_number = n - scheduled_day.weekday().num_days_from_monday() as i32;
    let ghost monday = monday_number as int;
    let game_days = date_configuration.game_days();
    let excluded = date_configuration.excluded_dates();
    let mut i: usize = 0;
    let mut found = false;
    assert(game_days@.take(0) =~= Seq::<Weekday>::empty());
    while i < game_days.len()
        invariant
            i <= game_days@.len(),
            MIN_DAY_NUMBER <= monday <= MAX_DAY_NUMBER - 6,
            monday == monday_number,
            choices@.map_values(|d: Date| d.spec_day_number()) == week_game_days(monday, game_days@.take(i as int), excluded@),
            found == week_game_days(monday, game_days@.take(i as int), excluded@).contains(n as int),
        decreases game_days@.len() - i,
    {
        let candidate_number = monday_number + game_days[i].num_days_from_monday() as i32;
        assert(game_days@.take(i + 1).drop_last() =~= game_days@.take(i as int));
        assert(game_days@.take(i + 1).last() == game_days@[i as int]);
        let candidate = match Date::from_day_number(candidate_number) {
            Some(d) => d,
            None => {
                return choices;
            },
        };
        let ghost before = choices@.map_values(|d: Date| d.spec_day_number());
        if !contains_date(excluded, &candidate) {
            choices.push(candidate);
            proof {
                let after = before.push(candidate_number as int);
                assert(choices@.map_values(|d: Date| d.spec_day_number()) =~= after);
                if candidate_number == n {
                    assert(after[before.len() as int] == n);
                }
                if after.contains(n as int) && candidate_number != n {
                    let j = choose|j: int| 0 <= j < after.len() && after[j] == n;
                    assert(before[j] == n);
                }
                if before.contains(n as int) {
                    let j = choose|j: int| 0 <= j < before.len() && before[j] == n;
                    assert(after[j] == n);
                }
                assert(after.contains(n as int) == (before.contains(n as int) || candidate_number == n));
            }
            if candidate_number == n {
                found = true;
            }
        }
        i = i + 1;
    }
    assert(game_days@.take(game_days@.len() as int) =~= game_days@);
    if !found {
        let ghost before = choices@.map_values(|d: Date| d.spec_day_number());
        choices.insert(0, *scheduled_day);
        assert(choices@.map_values(|d: Date| d.spec_day_number()) =~= seq![n as int] + before);
    }
    choices
}

/// Where a game starts, as one number: its day, then its time of day.
pub open spec fn start_key(game: GameView) -> int {
    game.day * 1440 + game.time
}

/// `output` is `input` ordered by start, games starting together keeping
/// their order: `output[k]` is `input[perm[k]]` for a permutation `perm`
/// along which starts never go back, and along which games starting together
/// keep their input order.
pub open spec fn is_start_sorted_by(
    input: Seq<GameView>,
    output: Seq<GameView>,
    perm: Seq<int>,
) -> bool {
    &&& output.len() == input.len()
    &&& perm.len() == input.len()
    &&& forall|k: int| 0 <= k < perm.len() ==> 0 <= #[trigger] perm[k] < input.len()
    &&& forall|k: int| 0 <= k < perm.len() ==> #[trigger] output[k] == input[perm[k]]
    &&& forall|k1: int, k2: int|
        0 <= k1 < perm.len() && 0 <= k2 < perm.len() && k1 != k2 ==> #[trigger] perm[k1]
            != #[trigger] perm[k2]
    &&& forall|k1: int, k2: int|
        0 <= k1 < k2 < perm.len() ==> start_key(#[trigger] output[k1]) < start_key(
            #[trigger] output[k2],
        ) || (start_key(output[k1]) == start_key(output[k2]) && perm[k1] < perm[k2])
}

/// `output` is `input` ordered by start, stably.
pub open spec fn is_start_sorted(input: Seq<GameView>, output: Seq<GameView>) -> bool {
    exists|perm: Seq<int>| #[trigger] is_start_sorted_by(input, output, perm)
}

/// Where the game starts, as `start_key` says.
fn game_start_key(game: &Game) -> (r: i64)
    ensures
        r == start_key(game@),
{
    let day = game.get_game_day().day_number();
    let minutes = match game.get_game_time() {
        Ok(t) => t.to_minutes(),
        Err(_) => 0,
    };
    day as i64 * 1440 + minutes as i64
}

/// The games ordered by when they start; games starting together keep their
/// order.
pub fn sort_by_start(games: Vec<Game>) -> (r: Vec<Game>)
    ensures
        is_start_sorted(game_views(games@), game_views(r@)),
{
    let ghost input = game_views(games@);
    let mut sorted: Vec<Game> = Vec::new();
    let ghost mut perm: Seq<int> = seq![];
    let mut i: usize = 0;
    while i < games.len()
        invariant
            i <= games@.len(),
            input == game_views(games@),
            is_start_sorted_by(input.take(i as int), game_views(sorted@), perm),
        decreases games@.len() - i,
    {
        let game = &games[i];
        let key = game_start_key(game);
        let mut p: usize = sorted.len();
        while p > 0 && key < game_start_key(&sorted[p - 1])
            invariant
                p <= sorted@.len(),
                forall|k: int| p <= k < sorted@.len() ==> key < start_key(#[trigger] sorted@[k]@),
            decreases p,
        {
            p = p - 1;
        }
        let ghost old_views = game_views(sorted@);
        let ghost old_perm = perm;
        sorted.insert(p, game.duplicate());
        proof {
            perm = old_perm.insert(p as int, i as int);
            let new_views = game_views(sorted@);
            assert(new_views =~= old_views.insert(p as int, input[i as int]));
            assert(input.take(i + 1) =~= input.take(i as int).push(input[i as int]));
            assert forall|k1: int, k2: int|
                0 <= k1 < k2 < perm.len() implies start_key((#[trigger] new_views[k1])) < start_key(
                (#[trigger] new_views[k2]),
            ) || (start_key(new_views[k1]) == start_key(new_views[k2]) && perm[k1] < perm[k2]) by {
                if k1 < p && k2 == p {
                    if k1 + 1 <= p - 1 {
                        assert(start_key(old_views[k1]) <= start_key(old_views[p - 1]));
                    }
                } else if k1 == p && k2 > p {
                    assert(old_perm[k2 - 1] < i);
                } else if k1 < p && k2 > p {
                    assert(old_views[k1] == new_views[k1]);
                    assert(old_views[k2 - 1] == new_views[k2]);
                } else if k1 > p {
                    assert(old_views[k1 - 1] == new_views[k1]);
                    assert(old_views[k2 - 1] == new_views[k2]);
                }
            }
            assert(is_start_sorted_by(input.take(i + 1), new_views, perm));
        }
        i = i + 1;
    }
    assert(input.take(games@.len() as int) =~= input);
    sorted
}

/// Rows left blank above each game day's block.
pub const ROWS_BEFORE_DAY_BLOCK: u32 = 2;

/// What goes on a row of the schedule sheet.
#[derive(Debug)]
pub enum SheetRow {
    /// The title of a game day: its date, and the day's number, from 1.
    Day { row: u32, date: Date, day_index: u32 },
    /// The column headings under a day's title.
    Header { row: u32 },
    /// The row that marks the break.
    Break { row: u32 },
    /// The game with index `game`, on the `slot`-th field of its row.
    Game { row: u32, slot: u32, game: usize },
    /// The team sitting out in the game with index `game`, in the bye
    /// column of its row.
    Bye { row: u32, game: usize },
}

/// What a sheet row is made of, with the date as a day number.
pub enum SheetRowView {
    Day(int, int, int),
    Header(int),
    Break(int),
    Game(int, int, int),
    Bye(int, int),
}

impl View for SheetRow {
    type V = SheetRowView;

    open spec fn view(&self) -> SheetRowView {
        match self {
            SheetRow::Day { row, date, day_index } => SheetRowView::Day(
                *row as int,
                date.spec_day_number(),
                *day_index as int,
            ),
            SheetRow::Header { row } => SheetRowView::Header(*row as int),
            SheetRow::Break { row } => SheetRowView::Break(*row as int),
            SheetRow::Game { row, slot, game } => SheetRowView::Game(
                *row as int,
                *slot as int,
                *game as int,
            ),
            SheetRow::Bye { row, game } => SheetRowView::Bye(*row as int, *game as int),
        }
    }
}

/// Where the sheet stands after some games: the last row used, the day and
/// time of the last game, how many games share that row, and the number
/// the next game day gets.
pub type SheetCursor = (int, Option<int>, Option<int>, int, int);

/// The sheet before the first game.
pub open spec fn first_cursor() -> SheetCursor {
    (0, None, None, 0, 1)
}

/// Game `k` on the current row: in the bye column when it has the bye, else
/// on the next free field.
pub open spec fn place_on_row(cursor: SheetCursor, game: GameView, k: int) -> (
    SheetCursor,
    SheetRowView,
) {
    let (row, day, time, games, index) = cursor;
    if is_bye_view(game) {
        (cursor, SheetRowView::Bye(row, k))
    } else {
        ((row, day, time, games + 1, index), SheetRowView::Game(row, games, k))
    }
}

/// What game `k` adds to the sheet. A game on a new day opens a block: two
/// blank rows, the day's title, the headings, then the game's row. A game at
/// a new time on the same day takes the next row, with the break row before
/// it when the break falls between the two times. A game at the same time
/// goes on the same row.
pub open spec fn sheet_step(
    cursor: SheetCursor,
    game: GameView,
    k: int,
    start_break: int,
    end_break: int,
) -> (SheetCursor, Seq<SheetRowView>) {
    let (row, day, time, games, index) = cursor;
    if day != Some(game.day) {
        let title = row + ROWS_BEFORE_DAY_BLOCK;
        let placed = place_on_row(
            (title + 2, Some(game.day), Some(game.time), 0, index + 1),
            game,
            k,
        );
        (placed.0, seq![SheetRowView::Day(title, game.day, index), SheetRowView::Header(title + 1), placed.1])
    } else if time != Some(game.time) {
        if time matches Some(t) && t < start_break && game.time >= end_break {
            let placed = place_on_row((row + 2, day, Some(game.time), 0, index), game, k);
            (placed.0, seq![SheetRowView::Break(row + 1), placed.1])
        } else {
            let placed = place_on_row((row + 1, day, Some(game.time), 0, index), game, k);
            (placed.0, seq![placed.1])
        }
    } else {
        let placed = place_on_row(cursor, game, k);
        (placed.0, seq![placed.1])
    }
}

/// The sheet rows of the first `n` games, one after the other.
pub open spec fn sheet_plan(games: Seq<GameView>, n: int, start_break: int, end_break: int) -> (
    SheetCursor,
    Seq<SheetRowView>,
)
    decreases n,
{
    if n <= 0 {
        (first_cursor(), seq![])
    } else {
        let before = sheet_plan(games, n - 1, start_break, end_break);
        let step = sheet_step(before.0, games[n - 1], n - 1, start_break, end_break);
        (step.0, before.1 + step.1)
    }
}

/// The game a sheet row shows, if it shows one.
pub open spec fn shown_game(row: SheetRowView) -> Option<int> {
    match row {
        SheetRowView::Game(_, _, game) => Some(game),
        SheetRowView::Bye(_, game) => Some(game),
        _ => None,
    }
}

/// The row of the sheet an entry is written on.
pub open spec fn row_number(row: SheetRowView) -> int {
    match row {
        SheetRowView::Day(row, _, _) => row,
        SheetRowView::Header(row) => row,
        SheetRowView::Break(row) => row,
        SheetRowView::Game(row, _, _) => row,
        SheetRowView::Bye(row, _) => row,
    }
}

/// The entries for fewer games come first among those for more.
proof fn lemma_plan_prefix(games: Seq<GameView>, j: int, m: int, start_break: int, end_break: int)
    requires
        0 <= j <= m,
    ensures
        sheet_plan(games, j, start_break, end_break).1.len() <= sheet_plan(games, m, start_break, end_break).1.len(),
        forall|x: int|
            0 <= x < sheet_plan(games, j, start_break, end_break).1.len() ==> #[trigger] sheet_plan(
                games,
                m,
                start_break,
                end_break,
            ).1[x] == sheet_plan(games, j, start_break, end_break).1[x],
    decreases m - j,
{
    if j < m {
        lemma_plan_prefix(games, j, m - 1, start_break, end_break);
        let before = sheet_plan(games, m - 1, start_break, end_break);
        let step = sheet_step(before.0, games[m - 1], m - 1, start_break, end_break);
        assert(sheet_plan(games, m, start_break, end_break).1 == before.1 + step.1);
    }
}

/// After the first `k` games, the sheet stands at the day and time of the
/// last of them, and its last entry shows that game on the current row.
proof fn lemma_plan_cursor(games: Seq<GameView>, k: int, start_break: int, end_break: int)
    requires
        1 <= k <= games.len(),
    ensures
        ({
            let plan = sheet_plan(games, k, start_break, end_break);
            &&& plan.0.1 == Some(games[k - 1].day)
            &&& plan.0.2 == Some(games[k - 1].time)
            &&& plan.1.len() >= 1
            &&& shown_game(plan.1.last()) == Some(k - 1)
            &&& row_number(plan.1.last()) == plan.0.0
        }),
{
    let before = sheet_plan(games, k - 1, start_break, end_break);
    let step = sheet_step(before.0, games[k - 1], k - 1, start_break, end_break);
    assert(sheet_plan(games, k, start_break, end_break).1 == before.1 + step.1);
    assert((before.1 + step.1).last() == step.1.last());
}

/// Law of the break row: when a game of the day before the break is
/// followed by one at or after its end, the sheet shows the break on the
/// row between theirs.
pub proof fn law_break_row_between(games: Seq<GameView>, start_break: int, end_break: int, k: int)
    requires
        1 <= k < games.len(),
        games[k - 1].day == games[k].day,
        games[k - 1].time < start_break,
        games[k].time >= end_break,
        games[k - 1].time != games[k].time,
    ensures
        ({
            let rows = sheet_plan(games, games.len() as int, start_break, end_break).1;
            exists|i: int|
                #![trigger rows[i]]
                1 <= i && i + 1 < rows.len() && shown_game(rows[i - 1]) == Some(k - 1) && rows[i]
                    == SheetRowView::Break(row_number(rows[i - 1]) + 1) && shown_game(rows[i + 1]) == Some(
                    k,
                ) && row_number(rows[i + 1]) == row_number(rows[i]) + 1
        }),
{
    let rows = sheet_plan(games, games.len() as int, start_break, end_break).1;
    let before = sheet_plan(games, k, start_break, end_break);
    let after = sheet_plan(games, k + 1, start_break, end_break);
    lemma_plan_cursor(games, k, start_break, end_break);
    let step = sheet_step(before.0, games[k], k, start_break, end_break);
    assert(after.1 == before.1 + step.1);
    assert(step.1.len() == 2);
    let i = before.1.len() as int;
    assert(after.1[i - 1] == before.1.last());
    assert(after.1[i] == step.1[0]);
    assert(after.1[i + 1] == step.1[1]);
    lemma_plan_prefix(games, k + 1, games.len() as int, start_break, end_break);
    assert(rows[i - 1] == after.1[i - 1]);
    assert(rows[i] == after.1[i]);
    assert(rows[i + 1] == after.1[i + 1]);
}

/// Law of the game rows: of two games one after the other on the same day,
/// the later one goes on the same row when they start at the same time, and
/// otherwise, unless the break falls between them, on the very next row,
/// right after the earlier one's entry.
pub proof fn law_next_game_row(games: Seq<GameView>, start_break: int, end_break: int, k: int)
    requires
        1 <= k < games.len(),
        games[k - 1].day == games[k].day,
        !(games[k - 1].time < start_break && games[k].time >= end_break),
    ensures
        ({
            let rows = sheet_plan(games, games.len() as int, start_break, end_break).1;
            exists|i: int|
                #![trigger rows[i]]
                1 <= i < rows.len() && shown_game(rows[i - 1]) == Some(k - 1) && shown_game(rows[i])
                    == Some(k) && row_number(rows[i]) == row_number(rows[i - 1]) + (if games[k - 1].time
                    == games[k].time {
                    0int
                } else {
                    1int
                })
        }),
{
    let rows = sheet_plan(games, games.len() as int, start_break, end_break).1;
    let before = sheet_plan(games, k, start_break, end_break);
    let after = sheet_plan(games, k + 1, start_break, end_break);
    lemma_plan_cursor(games, k, start_break, end_break);
    let step = sheet_step(before.0, games[k], k, start_break, end_break);
    assert(after.1 == before.1 + step.1);
    assert(step.1.len() == 1);
    let i = before.1.len() as int;
    assert(after.1[i - 1] == before.1.last());
    assert(after.1[i] == step.1[0]);
    lemma_plan_prefix(games, k + 1, games.len() as int, start_break, end_break);
    assert(rows[i - 1] == after.1[i - 1]);
    assert(rows[i] == after.1[i]);
}

/// The rows of the schedule sheet for games in the order they start: each
/// game day a block with its title and headings, one row per time of day
/// with one game per field, the bye in its own column, and a row for the
/// break between the games before it and those after it.
pub fn sheet_rows(games: &Vec<Game>, start_break: &GameTime, end_break: &GameTime) -> (r: Vec<
    SheetRow,
>)
    requires
        games@.len() < 0x1000_0000,
    ensures
        r@.map_values(|x: SheetRow| x@) == sheet_plan(
            game_views(games@),
            games@.len() as int,
            start_break.minutes(),
            end_break.minutes(),
        ).1,
{
    let ghost views = game_views(games@);
    let ghost sb = start_break.minutes();
    let ghost eb = end_break.minutes();
    let break_start = start_break.to_minutes();
    let break_end = end_break.to_minutes();
    let mut rows: Vec<SheetRow> = Vec::new();
    let mut row: u32 = 0;
    let mut current_day: Option<i32> = None;
    let mut current_time: Option<u32> = None;
    let mut current_games: u32 = 0;
    let mut day_index: u32 = 1;
    let mut k: usize = 0;
    while k < games.len()
        invariant
            k <= games@.len(),
            games@.len() < 0x1000_0000,
            views == game_views(games@),
            break_start == sb,
            break_end == eb,
            row <= 4 * k,
            current_games <= k,
            day_index <= k + 1,
            (row as int, match current_day {
                Some(d) => Some(d as int),
                None => None,
            }, match current_time {
                Some(t) => Some(t as int),
                None => None,
            }, current_games as int, day_index as int) == sheet_plan(views, k as int, sb, eb).0,
            rows@.map_values(|x: SheetRow| x@) == sheet_plan(views, k as int, sb, eb).1,
        decreases games@.len() - k,
    {
        let game = &games[k];
        assert(views[k as int] == game@);
        let date = *game.get_game_day();
        let day = date.day_number();
        let time = match game.get_game_time() {
            Ok(t) => t.to_minutes(),
            Err(_) => 0,
        };
        let ghost before = rows@.map_values(|x: SheetRow| x@);
        let mut added: Vec<SheetRow> = Vec::new();
        let is_new_day = match current_day {
            Some(d) => d != day,
            None => true,
        };
        if is_new_day {
            row = row + ROWS_BEFORE_DAY_BLOCK;
            added.push(SheetRow::Day { row, date, day_index });
            day_index = day_index + 1;
            current_day = Some(day);
            row = row + 1;
            added.push(SheetRow::Header { row });
            row = row + 1;
            current_games = 0;
        } else {
            let is_new_time = match current_time {
                Some(t) => t != time,
                None => true,
            };
            if is_new_time {
                let crosses_break = match current_time {
                    Some(t) => t < break_start && time >= break_end,
                    None => false,
                };
                if crosses_break {
                    row = row + 1;
                    added.push(SheetRow::Break { row });
                }
                row = row + 1;
                current_games = 0;
            }
        }
        current_time = Some(time);
        if game.is_bye_game() {
            added.push(SheetRow::Bye { row, game: k });
        } else {
            added.push(SheetRow::Game { row, slot: current_games, game: k });
            current_games = current_games + 1;
        }
        proof {
            let step = sheet_step(sheet_plan(views, k as int, sb, eb).0, views[k as int], k as int, sb, eb);
            assert(added@.map_values(|x: SheetRow| x@) =~= step.1);
        }
        let mut j: usize = 0;
        let ghost middle = rows@.map_values(|x: SheetRow| x@);
        while j < added.len()
            invariant
                j <= added@.len(),
                rows@.map_values(|x: SheetRow| x@) == middle + added@.map_values(|x: SheetRow| x@).take(j as int),
            decreases added@.len() - j,
        {
            let entry = match &added[j] {
                SheetRow::Day { row, date, day_index } => SheetRow::Day { row: *row, date: *date, day_index: *day_index },
                SheetRow::Header { row } => SheetRow::Header { row: *row },
                SheetRow::Break { row } => SheetRow::Break { row: *row },
                SheetRow::Game { row, slot, game } => SheetRow::Game { row: *row, slot: *slot, game: *game },
                SheetRow::Bye { row, game } => SheetRow::Bye { row: *row, game: *game },
            };
            let ghost old_rows = rows@;
            rows.push(entry);
            proof {
                assert(rows@ =~= old_rows.push(entry));
                assert(entry@ == added@[j as int]@);
                assert(added@.map_values(|x: SheetRow| x@).take(j + 1) =~= added@.map_values(|x: SheetRow| x@).take(j as int).push(added@[j as int]@));
                assert(rows@.map_values(|x: SheetRow| x@) =~= old_rows.map_values(|x: SheetRow| x@).push(entry@));
            }
            j = j + 1;
        }
        proof {
            assert(added@.map_values(|x: SheetRow| x@).take(added@.len() as int) =~= added@.map_values(|x: SheetRow| x@));
        }
        k = k + 1;
    }
    rows
}

} // verus!
