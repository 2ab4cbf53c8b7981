use vstd::prelude::*;

use crate::configuration::{DateConfiguration, TimeConfiguration};

verus! {

/// Everything a season is scheduled with: the times of the day, the dates,
/// and how many fields can host a game at the same time.
#[derive(Clone, Debug)]
pub struct SeasonConfig {
    time_configuration: TimeConfiguration,
    date_configuration: DateConfiguration,
    number_fields: u32,
}

impl SeasonConfig {
    pub fn new(
        time_configuration: TimeConfiguration,
        date_configuration: DateConfiguration,
        number_fields: u32,
    ) -> (r: SeasonConfig)
        ensures
            r.spec_time() == time_configuration,
            r.spec_dates() == date_configuration,
            r.spec_number_fields() == number_fields,
    {
        SeasonConfig { time_configuration, date_configuration, number_fields }
    }

    pub closed spec fn spec_time(&self) -> TimeConfiguration {
        self.time_configuration
    }

    pub closed spec fn spec_dates(&self) -> DateConfiguration {
        self.date_configuration
    }

    pub closed spec fn spec_number_fields(&self) -> u32 {
        self.number_fields
    }

    pub fn time_configuration(&self) -> (r: &TimeConfiguration)
        ensures
            *r == self.spec_time(),
    {
        &self.time_configuration
    }

    pub fn date_configuration(&self) -> (r: &DateConfiguration)
        ensures
            *r == self.spec_dates(),
    {
        &self.date_configuration
    }

    pub fn number_fields(&self) -> (r: u32)
        ensures
            r == self.spec_number_fields(),
    {
        self.number_fields
    }
}

} // verus!
