use astra_lite::image::info::seconds_to_total_time_str;

#[test]
fn total_time_in_hours_and_minutes() {
    assert_eq!(seconds_to_total_time_str(3725, false), "1 h. 2 min.");
    assert_eq!(seconds_to_total_time_str(3725, true), "1h2m");
    assert_eq!(seconds_to_total_time_str(36000, true), "10h0m");
}

#[test]
fn total_time_in_minutes_or_seconds() {
    assert_eq!(seconds_to_total_time_str(125, false), "2 min.");
    assert_eq!(seconds_to_total_time_str(125, true), "2m");
    assert_eq!(seconds_to_total_time_str(59, false), "59 sec.");
    assert_eq!(seconds_to_total_time_str(0, true), "0s");
}
