# organi_bandit

Season scheduling for a flag football league, verified with Verus: a double
round-robin group stage (every team plays every other team twice, one game
before the day's break and one after it, with byes for odd team counts and a
referee for every real game), followed by a single-elimination playoff of the
first eight teams. The schedule can then be laid out as a spreadsheet.

## Layout

- `src/` — the verified library. Every function carries a `requires` /
  `ensures` contract that Verus proves; the laws of the schedule (each pair
  meets twice on different days, once at home and once away, a team plays
  two games on each match day or sits it out, those two games are split by
  the break, byes rotate through the teams, the group stage's size, an
  anonymous playoff does not depend on the teams and names none of them,
  grouped excluded dates do not depend on input order) stand as public proof
  functions in `laws.rs`, `home_away.rs`, `group_size.rs`, `group_fields.rs`,
  `day_split.rs`, `single_elimination.rs`, `bracket_fields.rs` and `sheet.rs`.
  - `calendar.rs`, `game_time.rs`, `team.rs`, `game.rs`: the basic values.
  - `configuration.rs`, `season_config.rs`: what a season is configured with.
  - `game_day_scheduler.rs`, `game_time_scheduler.rs`: which day and time a
    game goes to.
  - `circle.rs`, `round_robin.rs`, `leg_merge.rs`, `double_round_robin.rs`,
    `referees.rs`, `home_away.rs`: the group stage; `group_draws.rs`: what
    it makes of the drawn seatings of its legs; `group_size.rs`: how many
    games it has; `group_fields.rs`: no more of its games at one moment than
    there are fields.
  - `single_elimination.rs`: the playoff bracket; `bracket_fields.rs`: no
    more of its games at one moment than there are fields.
  - `season.rs`: both stages together, and what the season makes of a
    scheduled group stage.
  - `sheet.rs`: the rows of the schedule sheet.
  - `team_list.rs`: cleaning up a team list.
- `tests/` — tests run against the compiled library.
- `app/` — the unverified edges: JSON team lists on disk, the payloads the
  front end sends, and writing the `.xlsx` file.

Calls into chrono, chrono-tz and rand go through small trusted wrappers in
`calendar.rs`, `game.rs` and `double_round_robin.rs`, each with a doc comment
saying what its contract assumes of the outside code.
