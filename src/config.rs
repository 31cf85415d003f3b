//! The work-week settings that the report measures against.

use vstd::prelude::*;

verus! {

/// Work days in a week when the configuration names none.
pub const DEFAULT_WORK_DAYS_PER_WEEK: u32 = 5;

/// Work hours in a day when the configuration names none.
pub const DEFAULT_WORK_HOURS_PER_DAY: u32 = 8;

/// All settings of the tracker.
#[derive(Clone, Copy, Debug, PartialEq, Eq, Structural)]
pub struct Config {
    pub workweek: WorkWeekConfig,
}

/// How many days make a work week and how many hours a work day.
#[derive(Clone, Copy, Debug, PartialEq, Eq, Structural)]
pub struct WorkWeekConfig {
    pub days_per_week: u32,
    pub hours_per_day: u32,
}

impl Default for Config {
    fn default() -> (r: Config)
        ensures
            r.workweek.days_per_week == DEFAULT_WORK_DAYS_PER_WEEK,
            r.workweek.hours_per_day == DEFAULT_WORK_HOURS_PER_DAY,
    {
        Config { workweek: WorkWeekConfig::default() }
    }
}

impl Default for WorkWeekConfig {
    fn default() -> (r: WorkWeekConfig)
        ensures
            r.days_per_week == DEFAULT_WORK_DAYS_PER_WEEK,
            r.hours_per_day == DEFAULT_WORK_HOURS_PER_DAY,
    {
        WorkWeekConfig {
            days_per_week: default_days_per_week(),
            hours_per_day: default_hours_per_day(),
        }
    }
}

/// The number of work days in a week when none is configured.
pub fn default_days_per_week() -> (r: u32)
    ensures
        r == DEFAULT_WORK_DAYS_PER_WEEK,
{
    DEFAULT_WORK_DAYS_PER_WEEK
}

/// The number of work hours in a day when none is configured.
pub fn default_hours_per_day() -> (r: u32)
    ensures
        r == DEFAULT_WORK_HOURS_PER_DAY,
{
    DEFAULT_WORK_HOURS_PER_DAY
}

} // verus!
