use labs::rule_editor::status::{saved_ago, SavedAgo};

#[test]
fn just_saved_is_said_for_twenty_seconds() {
    assert_eq!(saved_ago(0), SavedAgo::JustNow);
    assert_eq!(saved_ago(19), SavedAgo::JustNow);
    assert_eq!(saved_ago(0).to_string(), "Salvo agora mesmo");
}

#[test]
fn seconds_are_said_in_steps_of_twenty() {
    assert_eq!(saved_ago(20), SavedAgo::Seconds(20));
    assert_eq!(saved_ago(39), SavedAgo::Seconds(20));
    assert_eq!(saved_ago(40), SavedAgo::Seconds(40));
    assert_eq!(saved_ago(59), SavedAgo::Seconds(40));
    assert_eq!(saved_ago(45).to_string(), "Salvo há 40s");
}

#[test]
fn minutes_are_said_from_one_minute_on() {
    assert_eq!(saved_ago(60), SavedAgo::Minutes(1));
    assert_eq!(saved_ago(119), SavedAgo::Minutes(1));
    assert_eq!(saved_ago(7200), SavedAgo::Minutes(120));
    assert_eq!(saved_ago(60).to_string(), "Salvo há 1min");
    assert_eq!(saved_ago(6059).to_string(), "Salvo há 100min");
    assert_eq!(saved_ago(u64::MAX).to_string(), format!("Salvo há {}min", u64::MAX / 60));
}

#[test]
fn numbers_are_written_in_decimal() {
    assert_eq!(SavedAgo::Seconds(0).to_string(), "Salvo há 0s");
    assert_eq!(SavedAgo::Seconds(7).to_string(), "Salvo há 7s");
    assert_eq!(SavedAgo::Minutes(10).to_string(), "Salvo há 10min");
    assert_eq!(SavedAgo::Minutes(9876543210).to_string(), "Salvo há 9876543210min");
}
