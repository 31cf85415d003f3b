use tracker::config::{default_days_per_week, default_hours_per_day, Config, WorkWeekConfig};
use tracker::paths::TrackerDirs;

#[test]
fn defaults_are_five_days_of_eight_hours() {
    assert_eq!(5, default_days_per_week());
    assert_eq!(8, default_hours_per_day());
    let config = Config::default();
    assert_eq!(WorkWeekConfig { days_per_week: 5, hours_per_day: 8 }, config.workweek);
}

#[test]
fn fixed_dirs_lie_under_the_given_path() {
    let dirs = TrackerDirs::fixed("/some/base");
    assert_eq!("/some/base/config", dirs.config_dir());
    assert_eq!("/some/base/data", dirs.data_dir());
}
