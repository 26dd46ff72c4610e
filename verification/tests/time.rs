use labs::school::{Day, Slot, Time};

#[test]
fn time_parses_hour_and_minute() {
    assert_eq!("08:05".parse::<Time>(), Ok(Time(8, 5)));
    assert_eq!("23:59".parse::<Time>(), Ok(Time(23, 59)));
    assert_eq!("0:0".parse::<Time>(), Ok(Time(0, 0)));
    assert_eq!(Time::parse("7:30"), Some(Time(7, 30)));
}

#[test]
fn time_accepts_a_plus_sign_and_leading_zeros() {
    assert_eq!(Time::parse("+7:+5"), Some(Time(7, 5)));
    assert_eq!(Time::parse("0007:00000005"), Some(Time(7, 5)));
}

#[test]
fn time_rejects_what_is_out_of_range() {
    assert_eq!("24:00".parse::<Time>(), Err("Bad time format"));
    assert_eq!(Time::parse("12:60"), None);
    assert_eq!(Time::parse("256:00"), None);
    assert_eq!(Time::parse("99999999999999999999:00"), None);
}

#[test]
fn time_rejects_what_is_not_two_numbers() {
    for s in ["", ":", "12", "12:", ":30", "12:30:00", "12:30:", "1 2:30", "a:b", "-1:30", "+:1", "12;30", "１２:30"] {
        assert_eq!(Time::parse(s), None, "{s:?}");
    }
}

#[test]
fn time_is_written_in_two_digit_fields() {
    assert_eq!(Time(8, 5).to_string(), "08:05");
    assert_eq!(Time(23, 59).to_string(), "23:59");
    assert_eq!(Time(0, 0).to_string(), "00:00");
    assert_eq!(Time(100, 255).to_string(), "100:255");
}

#[test]
fn time_text_parses_back() {
    for h in 0..24u8 {
        for m in 0..60u8 {
            assert_eq!(Time::parse(&Time(h, m).to_string()), Some(Time(h, m)));
        }
    }
}

#[test]
fn default_time_is_midnight() {
    assert_eq!(Time::default(), Time(0, 0));
}

#[test]
fn slot_is_written_with_the_day() {
    assert_eq!(Slot { day: Day::Monday, time: Time(8, 0) }.to_string(), "Monday 08:00");
    assert_eq!(Slot { day: Day::Wednesday, time: Time(13, 45) }.to_string(), "Wednesday 13:45");
    assert_eq!(Day::Tuesday.to_string(), "Tuesday");
    assert_eq!(Day::Thursday.to_string(), "Thursday");
    assert_eq!(Day::Friday.to_string(), "Friday");
}
