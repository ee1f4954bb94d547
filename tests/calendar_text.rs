use wifi_log::calendar::{month_length, Date, TimeOfDay};

#[test]
fn dates_render_zero_padded() {
    assert_eq!(Date::new(2024, 3, 1).unwrap().to_iso(), "2024-03-01");
    assert_eq!(Date::new(987, 11, 9).unwrap().to_iso(), "0987-11-09");
    assert_eq!(Date::new(9999, 12, 31).unwrap().to_iso(), "9999-12-31");
    assert_eq!(Date::new(0, 1, 1).unwrap().to_iso(), "0000-01-01");
}

#[test]
fn times_render_zero_padded() {
    assert_eq!(TimeOfDay::new(8, 1).unwrap().to_hhmm(), "08:01");
    assert_eq!(TimeOfDay::new(0, 0).unwrap().to_hhmm(), "00:00");
    assert_eq!(TimeOfDay::new(23, 59).unwrap().to_hhmm(), "23:59");
}

#[test]
fn invalid_values_are_refused() {
    assert!(TimeOfDay::new(24, 0).is_none());
    assert!(TimeOfDay::new(12, 60).is_none());
    assert!(Date::new(2024, 0, 1).is_none());
    assert!(Date::new(2024, 13, 1).is_none());
    assert!(Date::new(2024, 4, 31).is_none());
    assert!(Date::new(2024, 1, 0).is_none());
    assert!(Date::new(10000, 1, 1).is_none());
}

#[test]
fn leap_years() {
    assert!(Date::new(2024, 2, 29).is_some());
    assert!(Date::new(2023, 2, 29).is_none());
    assert!(Date::new(1900, 2, 29).is_none());
    assert!(Date::new(2000, 2, 29).is_some());
    assert_eq!(month_length(2024, 2), 29);
    assert_eq!(month_length(2100, 2), 28);
    assert_eq!(month_length(2023, 9), 30);
    assert_eq!(month_length(2023, 12), 31);
}

#[test]
fn minutes_and_sort_key() {
    assert_eq!(TimeOfDay::new(17, 45).unwrap().minutes_since_midnight(), 1065);
    assert_eq!(TimeOfDay::new(0, 0).unwrap().minutes_since_midnight(), 0);
    assert_eq!(Date::new(2024, 3, 1).unwrap().sort_key(), 20240301);
    assert!(Date::new(2024, 1, 31).unwrap().sort_key() < Date::new(2024, 2, 1).unwrap().sort_key());
}

#[test]
fn parse_round_trips() {
    assert_eq!(Date::parse_iso("2024-03-01"), Date::new(2024, 3, 1));
    assert_eq!(Date::parse_iso("0001-01-01"), Date::new(1, 1, 1));
    assert_eq!(TimeOfDay::parse_hhmm("08:01"), TimeOfDay::new(8, 1));
    assert_eq!(TimeOfDay::parse_hhmm("23:59"), TimeOfDay::new(23, 59));
}

#[test]
fn parse_refuses_malformed_text() {
    assert_eq!(Date::parse_iso("2023-02-29"), None);
    assert_eq!(Date::parse_iso("2024-3-01"), None);
    assert_eq!(Date::parse_iso("2024-03-01 "), None);
    assert_eq!(Date::parse_iso("2024_03_01"), None);
    assert_eq!(Date::parse_iso(""), None);
    assert_eq!(TimeOfDay::parse_hhmm("24:00"), None);
    assert_eq!(TimeOfDay::parse_hhmm("08-01"), None);
    assert_eq!(TimeOfDay::parse_hhmm("0801"), None);
    assert_eq!(TimeOfDay::parse_hhmm("a8:01"), None);
}

#[test]
fn text_order_is_chronological() {
    let times = [(0, 0), (0, 59), (1, 0), (9, 59), (10, 0), (12, 30), (19, 5), (23, 59)];
    for a in times.iter() {
        for b in times.iter() {
            let ta = TimeOfDay::new(a.0, a.1).unwrap();
            let tb = TimeOfDay::new(b.0, b.1).unwrap();
            assert_eq!(
                ta.to_hhmm() < tb.to_hhmm(),
                ta.minutes_since_midnight() < tb.minutes_since_midnight()
            );
        }
    }
    let dates = [(999, 12, 31), (2023, 12, 31), (2024, 1, 15), (2024, 2, 29), (2024, 10, 1)];
    for a in dates.iter() {
        for b in dates.iter() {
            let da = Date::new(a.0, a.1, a.2).unwrap();
            let db = Date::new(b.0, b.1, b.2).unwrap();
            assert_eq!(da.to_iso() < db.to_iso(), da.sort_key() < db.sort_key());
        }
    }
}
