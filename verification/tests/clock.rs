use pirate_radio::clock::{clock_label_from_unix, current_year, year_from_unix_days};
use pirate_radio::site::absolute_url;

#[test]
fn label_at_epoch() {
    assert_eq!(clock_label_from_unix(0).as_str(), "00:00:00");
}

#[test]
fn label_with_padding() {
    assert_eq!(clock_label_from_unix(3661).as_str(), "01:01:01");
    assert_eq!(clock_label_from_unix(45_296).as_str(), "12:34:56");
}

#[test]
fn label_at_end_of_day() {
    assert_eq!(clock_label_from_unix(86_399).as_str(), "23:59:59");
}

#[test]
fn label_is_day_periodic() {
    // shifting by whole days leaves the label unchanged
    assert_eq!(
        clock_label_from_unix(3661).as_str(),
        clock_label_from_unix(3661 + 86_400).as_str()
    );
    assert_eq!(
        clock_label_from_unix(45_296).as_str(),
        clock_label_from_unix(45_296 + 86_400 * 1000).as_str()
    );
}

#[test]
fn year_of_epoch_day_zero() {
    assert_eq!(year_from_unix_days(0), 1970);
}

#[test]
fn year_of_2000_03_01() {
    // 2000-01-01 is epoch day 10957; +31 (Jan) +29 (leap Feb) = 11017
    assert_eq!(year_from_unix_days(11_017), 2000);
}

#[test]
fn year_around_leap_day() {
    // 1972-01-01 is epoch day 730; 1972-02-29 is day 730 + 59 = 789
    assert_eq!(year_from_unix_days(789), 1972);
    assert_eq!(year_from_unix_days(790), 1972);
    // the day before a year boundary stays in the prior year
    assert_eq!(year_from_unix_days(10_956), 1999);
    assert_eq!(year_from_unix_days(10_957), 2000);
}

#[test]
fn year_of_negative_days() {
    assert_eq!(year_from_unix_days(-1), 1969);
    // 1969-01-01 is epoch day -365
    assert_eq!(year_from_unix_days(-365), 1969);
    assert_eq!(year_from_unix_days(-366), 1968);
    // the start of year 0, far across the epoch boundary
    assert_eq!(year_from_unix_days(-719_528), 0);
    assert_eq!(year_from_unix_days(-719_529), -1);
}

#[test]
fn current_year_is_not_before_epoch() {
    assert!(current_year() >= 1970);
}

#[test]
fn absolute_url_concatenates() {
    assert_eq!(
        absolute_url("http://127.0.0.1:3000", "/software").as_str(),
        "http://127.0.0.1:3000/software"
    );
    assert_eq!(absolute_url("https://example.org", "/").as_str(), "https://example.org/");
}
