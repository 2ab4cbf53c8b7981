//! Season scheduling for a flag football league: a double round-robin group
//! stage followed by a single-elimination playoff, with game days, game
//! times, fields, byes and referees worked out by the library.
pub mod bracket_fields;
pub mod calendar;
pub mod circle;
pub mod double_round_robin;
pub mod configuration;
pub mod day_split;
pub mod error;
pub mod game;
pub mod game_day_scheduler;
pub mod game_time;
pub mod game_time_scheduler;
pub mod group_draws;
pub mod group_fields;
pub mod group_size;
pub mod home_away;
pub mod laws;
pub mod leg_merge;
pub mod ordering;
pub mod referees;
pub mod round_robin;
pub mod season;
pub mod season_config;
pub mod sheet;
pub mod single_elimination;
pub mod team;
pub mod team_list;
pub mod text;
