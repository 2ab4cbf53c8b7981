use vstd::prelude::*;

use crate::error::AppError;
use crate::text::{same_text, title_case, to_title_case};

verus! {

/// The name reserved for the stand-in opponent of a team that sits a round
/// out.
pub const BYE_NAME: &'static str = "Bye";

/// A team taking part in the season: its name, title-cased, and an optional
/// seed (a lower seed number is a better seed).
#[derive(Clone, Debug, Hash)]
pub struct Team {
    name: String,
    seed: Option<u32>,
}

/// What a team is made of: its name and its seed.
pub type TeamView = (Seq<char>, Option<u32>);

/// The seed a team counts with: an absent seed counts as 0.
pub open spec fn seed_or_zero(seed: Option<u32>) -> u32 {
    match seed {
        Some(s) => s,
        None => 0,
    }
}

impl View for Team {
    type V = TeamView;

    closed spec fn view(&self) -> TeamView {
        (self.name@, self.seed)
    }
}

impl PartialEq for Team {
    fn eq(&self, other: &Self) -> (r: bool) {
        self.name == other.name && self.seed == other.seed
    }
}

impl vstd::std_specs::cmp::PartialEqSpecImpl for Team {
    open spec fn obeys_eq_spec() -> bool {
        true
    }

    open spec fn eq_spec(&self, other: &Team) -> bool {
        self@ == other@
    }
}

impl Eq for Team {

}

impl Team {
    /// A team named after `name`, title-cased. The name `Bye`, in any case,
    /// is reserved and refused.
    pub fn new(name: &str, seed: Option<u32>) -> (r: Result<Team, AppError>)
        ensures
            r is Ok <==> title_case(name@) != BYE_NAME@,
            r matches Ok(team) ==> team@ == (title_case(name@), seed),
            r matches Err(e) ==> e matches AppError::InvalidTeamName(given) && given@ == name@,
    {
        let parsed_name = to_title_case(name);
        if same_text(parsed_name.as_str(), BYE_NAME) {
            return Err(AppError::InvalidTeamName(name.to_owned()));
        }
        Ok(Team { name: parsed_name, seed })
    }

    /// The stand-in opponent of a team that sits a round out.
    pub fn bye() -> (r: Team)
        ensures
            r@ == (BYE_NAME@, None::<u32>),
    {
        Team { name: BYE_NAME.to_owned(), seed: None }
    }

    /// A team made of a name and a seed taken as they are.
    pub(crate) fn from_parts(name: &str, seed: Option<u32>) -> (r: Team)
        ensures
            r@ == (name@, seed),
    {
        Team { name: name.to_owned(), seed }
    }

    pub fn is_bye(&self) -> (r: bool)
        ensures
            r == (self@.0 == BYE_NAME@),
    {
        same_text(self.name.as_str(), BYE_NAME)
    }

    pub fn get_name(&self) -> (r: &str)
        ensures
            r@ == self@.0,
    {
        self.name.as_str()
    }

    pub fn get_seed(&self) -> (r: u32)
        ensures
            r == seed_or_zero(self@.1),
    {
        match self.seed {
            Some(s) => s,
            None => 0,
        }
    }

    /// The seed as given, absent when none was.
    pub fn seed(&self) -> (r: Option<u32>)
        ensures
            r == self@.1,
    {
        self.seed
    }

    /// A copy of this team.
    pub fn duplicate(&self) -> (r: Team)
        ensures
            r@ == self@,
    {
        Team { name: self.name.clone(), seed: self.seed }
    }

    /// Whether this team and `other` are the same team: same name, same seed.
    pub fn same_team(&self, other: &Team) -> (r: bool)
        ensures
            r == (self@ == other@),
    {
        self.name == other.name && self.seed == other.seed
    }
}

} // verus!
