use asch::classify::{classify, Classification};
use asch::config::parse_time_of_day;
use asch::reconcile::{
    mark_traffic_text, summarize_messages, update_time_text, ReconcileError,
};
use asch::sun::TimeOfDay;

#[test]
fn classifies_traffic_model_as_fixed() {
    let model = String::from("BMW M4 Traffic");
    assert_eq!(classify(Some(&model), None), Classification::Fixed);
}

#[test]
fn classifies_reserve_team_as_auto() {
    let team = String::from("Main Reserve");
    assert_eq!(classify(None, Some(&team)), Classification::Auto);
}

#[test]
fn reserve_overrides_traffic_in_team() {
    let team = String::from("Traffic Reserve Squad");
    let model = String::from("Some Traffic Car");
    assert_eq!(classify(Some(&model), Some(&team)), Classification::Auto);
}

#[test]
fn unrelated_names_stay_unclassified() {
    let model = String::from("BMW M4");
    let team = String::from("Main");
    assert_eq!(classify(Some(&model), Some(&team)), Classification::Unclassified);
}

#[test]
fn marks_traffic_model_entry() {
    let input = "[CAR_1]\nMODEL=BMW M4 Traffic\n";
    let out = mark_traffic_text(input).unwrap();
    assert_eq!(out.num_marked, 1);
    assert_eq!(out.message.as_str(), "1 car(s) were marked as traffic-capable.");
    let text = out.new_text.unwrap();
    assert!(text.contains("AI=fixed"));
    assert!(text.contains("MODEL=BMW M4 Traffic"));
}

#[test]
fn marking_twice_changes_nothing_more() {
    let input = "[CAR_1]\nMODEL=BMW M4 Traffic\n[CAR_2]\nTEAM=Reserve drivers\n";
    let first = mark_traffic_text(input).unwrap();
    assert_eq!(first.num_marked, 2);
    let rewritten = first.new_text.unwrap();
    let second = mark_traffic_text(&rewritten).unwrap();
    assert_eq!(second.num_marked, 0);
    assert!(second.new_text.is_none());
    assert_eq!(
        second.message.as_str(),
        "No cars found that were eligible to be marked as traffic. Entry list was not modified.",
    );
}

#[test]
fn entry_with_existing_tag_is_never_touched() {
    let input = "[CAR_1]\nMODEL=BMW M4 Traffic\nAI=none-of-the-usual\n";
    let out = mark_traffic_text(input).unwrap();
    assert_eq!(out.num_marked, 0);
    assert!(out.new_text.is_none());
}

#[test]
fn non_vehicle_sections_are_ignored() {
    let input = "[SERVER]\nMODEL=Traffic Tower\n[CAR_A]\nTEAM=Reserve\n";
    let out = mark_traffic_text(input).unwrap();
    assert_eq!(out.num_marked, 1);
    let text = out.new_text.unwrap();
    assert!(text.contains("AI=auto"));
    assert!(!text.contains("[SERVER]\nMODEL=Traffic Tower\nAI"));
}

#[test]
fn unparseable_entry_list_is_reported() {
    let err = mark_traffic_text("[unclosed\n").unwrap_err();
    assert_eq!(err, ReconcileError::EntryListUnparseable);
    assert_eq!(err.message().as_str(), "Failed to parse entry list to mark traffic slots");
}

#[test]
fn close_stored_angle_leaves_config_alone() {
    // At 13:40 the computed angle is exactly 10.000 degrees; a stored value
    // two hundredths away is within the rewrite threshold.
    let input = "[SERVER]\nSUN_ANGLE=10.020\n";
    let out = update_time_text(input, &TimeOfDay::new(13, 40)).unwrap();
    assert!(out.new_text.is_none());
    assert_eq!(
        out.message.as_str(),
        "Configured time of day matches the configured time. Server config was not modified.",
    );
}

#[test]
fn threshold_is_exclusive_below_and_inclusive_at_five_hundredths() {
    let near = "[SERVER]\nSUN_ANGLE=10.049\n";
    let out = update_time_text(near, &TimeOfDay::new(13, 40)).unwrap();
    assert!(out.new_text.is_none());

    let at = "[SERVER]\nSUN_ANGLE=10.050\n";
    let out = update_time_text(at, &TimeOfDay::new(13, 40)).unwrap();
    let text = out.new_text.unwrap();
    assert!(text.contains("SUN_ANGLE=10.000"));
    assert_eq!(out.message.as_str(), "Time of day was updated in server config.");
}

#[test]
fn threshold_compares_finer_than_the_written_decimals() {
    // At 13:40 the computed angle is exactly 10.000 degrees. A stored value
    // of 10.0495 differs by 0.0495, inside the threshold, so the file stays;
    // the same holds from below at 9.9501.
    let above = "[SERVER]\nSUN_ANGLE=10.0495\n";
    let out = update_time_text(above, &TimeOfDay::new(13, 40)).unwrap();
    assert!(out.new_text.is_none());

    let below = "[SERVER]\nSUN_ANGLE=9.9501\n";
    let out = update_time_text(below, &TimeOfDay::new(13, 40)).unwrap();
    assert!(out.new_text.is_none());

    let at = "[SERVER]\nSUN_ANGLE=9.9500\n";
    let out = update_time_text(at, &TimeOfDay::new(13, 40)).unwrap();
    assert!(out.new_text.is_some());
}

#[test]
fn exponent_forms_are_read_not_rejected() {
    // 1e5 degrees folds onto 280 degrees of circle, far from every target.
    let input = "[SERVER]\nSUN_ANGLE=1e5\n";
    let out = update_time_text(input, &TimeOfDay::new(13, 40)).unwrap();
    let text = out.new_text.unwrap();
    assert!(text.contains("SUN_ANGLE=10.000"));

    // A small exponent form within the threshold leaves the file alone.
    let close = "[SERVER]\nSUN_ANGLE=1.0e1\n";
    let out = update_time_text(close, &TimeOfDay::new(13, 40)).unwrap();
    assert!(out.new_text.is_none());
}

#[test]
fn values_beyond_the_model_count_as_differing() {
    for stored in ["inf", "-inf", "NaN", "1e300", "12345678901234567890"] {
        let input = format!("[SERVER]\nSUN_ANGLE={}\n", stored);
        let out = update_time_text(&input, &TimeOfDay::new(13, 40)).unwrap();
        let text = out.new_text.unwrap();
        assert!(text.contains("SUN_ANGLE=10.000"));
        assert_eq!(out.message.as_str(), "Time of day was updated in server config.");
    }
}

#[test]
fn updated_angle_round_trips_to_a_matching_config() {
    let input = "[SERVER]\nSUN_ANGLE=-42.000\nNAME=track day\n";
    let out = update_time_text(input, &TimeOfDay::new(19, 0)).unwrap();
    let rewritten = out.new_text.unwrap();
    assert!(rewritten.contains("SUN_ANGLE=90.000"));
    assert!(rewritten.contains("NAME=track day"));
    // A second pass sees a matching angle and leaves the file alone.
    let again = update_time_text(&rewritten, &TimeOfDay::new(19, 0)).unwrap();
    assert!(again.new_text.is_none());
}

#[test]
fn missing_sun_angle_is_reported() {
    let err = update_time_text("[SERVER]\nNAME=x\n", &TimeOfDay::new(13, 0)).unwrap_err();
    assert_eq!(err, ReconcileError::SunAngleMissing);
    assert_eq!(err.message().as_str(), "Server config does not have a configured sun angle.");

    let err = update_time_text("[OTHER]\nSUN_ANGLE=1.0\n", &TimeOfDay::new(13, 0)).unwrap_err();
    assert_eq!(err, ReconcileError::SunAngleMissing);
}

#[test]
fn non_numeric_sun_angle_is_reported() {
    let err = update_time_text("[SERVER]\nSUN_ANGLE=abc\n", &TimeOfDay::new(13, 0)).unwrap_err();
    assert_eq!(err, ReconcileError::SunAngleNotNumeric);
    assert_eq!(err.message().as_str(), "Failed to parse sun angle from server config");
}

#[test]
fn unparseable_server_config_is_reported() {
    let err = update_time_text("[unclosed\n", &TimeOfDay::new(13, 0)).unwrap_err();
    assert_eq!(err, ReconcileError::ServerConfigUnparseable);
    assert_eq!(err.message().as_str(), "Failed to parse server config to update time");
}

#[test]
fn parses_both_time_forms_first_match_winning() {
    let t = parse_time_of_day("1:00 PM").unwrap();
    assert_eq!((t.hour, t.minute), (13, 0));
    let t = parse_time_of_day("13:00").unwrap();
    assert_eq!((t.hour, t.minute), (13, 0));
    let t = parse_time_of_day("12:00 AM").unwrap();
    assert_eq!((t.hour, t.minute), (0, 0));
    let t = parse_time_of_day("12:30 pm").unwrap();
    assert_eq!((t.hour, t.minute), (12, 30));
    let t = parse_time_of_day("09:05").unwrap();
    assert_eq!((t.hour, t.minute), (9, 5));
    let t = parse_time_of_day("0:00").unwrap();
    assert_eq!((t.hour, t.minute), (0, 0));
}

#[test]
fn rejects_malformed_times() {
    assert!(parse_time_of_day("25:00").is_none());
    assert!(parse_time_of_day("13:60").is_none());
    assert!(parse_time_of_day("13:00 PM").is_none());
    assert!(parse_time_of_day("0:00 AM").is_none());
    assert!(parse_time_of_day("noon").is_none());
    assert!(parse_time_of_day("").is_none());
}

#[test]
fn summarizes_path_messages() {
    let none: Vec<String> = Vec::new();
    assert_eq!(
        summarize_messages(&none).as_str(),
        "There are no configured actions to perform.",
    );
    let msgs = vec![String::from("first"), String::new(), String::from("second")];
    assert_eq!(summarize_messages(&msgs).as_str(), "first\n\nsecond");
    let one = vec![String::from("only")];
    assert_eq!(summarize_messages(&one).as_str(), "only");
}
