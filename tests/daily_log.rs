use wifi_log::calendar::{Date, TimeOfDay};
use wifi_log::daylog::{DailyLog, DailyRecord, RowError};
use wifi_log::sampler::{Action, Event, Sampler};

fn date(y: u16, m: u8, d: u8) -> Date {
    Date::new(y, m, d).unwrap()
}

fn time(h: u8, m: u8) -> TimeOfDay {
    TimeOfDay::new(h, m).unwrap()
}

fn row_text(r: &DailyRecord) -> (String, String, String) {
    (r.date.to_iso(), r.earliest.to_hhmm(), r.latest.to_hhmm())
}

/// Runs one observation through the sampler and, where it asks, the log.
fn observe(sampler: &Sampler, log: &mut DailyLog, network: Option<&str>, d: Date, t: TimeOfDay) -> bool {
    let event = Event::Observed { network: network.map(|s| s.to_string()), date: d, time: t };
    match sampler.step(event) {
        Action::Record { date, time } => {
            log.upsert(date, time);
            true
        }
        Action::Wait => false,
        _ => panic!("unexpected action"),
    }
}

#[test]
fn target_seen_morning_and_evening() {
    let sampler = Sampler::new("eduroam".to_string());
    let mut log = DailyLog::new();
    let day = date(2024, 3, 1);
    assert!(observe(&sampler, &mut log, Some("eduroam"), day, time(8, 1)));
    assert!(observe(&sampler, &mut log, Some("eduroam"), day, time(17, 45)));
    let rows = log.list();
    assert_eq!(rows.len(), 1);
    assert_eq!(
        row_text(&rows[0]),
        ("2024-03-01".to_string(), "08:01".to_string(), "17:45".to_string())
    );
}

#[test]
fn other_network_creates_no_record() {
    let sampler = Sampler::new("eduroam".to_string());
    let mut log = DailyLog::new();
    let day = date(2024, 3, 1);
    assert!(!observe(&sampler, &mut log, Some("CoffeeShop"), day, time(9, 0)));
    assert!(!observe(&sampler, &mut log, Some("Eduroam"), day, time(9, 5)));
    assert!(!observe(&sampler, &mut log, None, day, time(9, 10)));
    assert_eq!(log.len(), 0);
    assert!(log.get(day).is_none());
    assert!(log.list().is_empty());
}

#[test]
fn earlier_time_widens_earliest() {
    let mut log = DailyLog::new();
    let day = date(2024, 5, 6);
    log.upsert(day, time(9, 0));
    let r = log.upsert(day, time(8, 30));
    assert_eq!(r.earliest, time(8, 30));
    assert_eq!(r.latest, time(9, 0));
    assert_eq!(log.get(day), Some(DailyRecord { date: day, earliest: time(8, 30), latest: time(9, 0) }));
}

#[test]
fn failed_store_is_reported_and_polling_goes_on() {
    let sampler = Sampler::new("eduroam".to_string());
    match sampler.step(Event::StoreFailed { error: "disk full".to_string() }) {
        Action::ReportAndWait { error } => assert_eq!(error, "disk full"),
        _ => panic!("a failed store must be reported"),
    }
    assert!(matches!(sampler.step(Event::Woke), Action::QueryNetwork));
    assert!(matches!(sampler.step(Event::Stored), Action::Wait));
}

#[test]
fn arrival_order_does_not_matter() {
    let day = date(2023, 12, 31);
    let orders = [
        [time(12, 0), time(7, 15), time(22, 40), time(9, 59)],
        [time(22, 40), time(9, 59), time(12, 0), time(7, 15)],
        [time(7, 15), time(12, 0), time(9, 59), time(22, 40)],
    ];
    for order in orders.iter() {
        let mut log = DailyLog::new();
        for t in order.iter() {
            log.upsert(day, *t);
        }
        let r = log.get(day).unwrap();
        assert_eq!(r.earliest, time(7, 15));
        assert_eq!(r.latest, time(22, 40));
    }
}

#[test]
fn repeated_upsert_changes_nothing() {
    let mut log = DailyLog::new();
    let day = date(2024, 1, 2);
    let first = log.upsert(day, time(10, 10));
    for _ in 0..3 {
        assert_eq!(log.upsert(day, time(10, 10)), first);
    }
    log.upsert(day, time(11, 0));
    let widened = log.get(day).unwrap();
    assert_eq!(log.upsert(day, time(11, 0)), widened);
    assert_eq!(log.len(), 1);
}

#[test]
fn record_only_for_observed_dates() {
    let mut log = DailyLog::new();
    log.upsert(date(2024, 2, 28), time(8, 0));
    log.upsert(date(2024, 3, 1), time(8, 0));
    assert!(log.get(date(2024, 2, 29)).is_none());
    assert!(log.get(date(2024, 2, 28)).is_some());
    assert!(log.get(date(2024, 3, 1)).is_some());
    assert_eq!(log.len(), 2);
}

#[test]
fn list_is_newest_first_without_duplicates() {
    let mut log = DailyLog::new();
    let days = [
        date(2024, 3, 1),
        date(2023, 12, 31),
        date(2024, 3, 2),
        date(2024, 1, 15),
        date(2024, 3, 1),
        date(2023, 12, 31),
    ];
    for (i, d) in days.iter().enumerate() {
        log.upsert(*d, time(8, i as u8));
    }
    let listed: Vec<String> = log.list().iter().map(|r| r.date.to_iso()).collect();
    assert_eq!(listed, vec!["2024-03-02", "2024-03-01", "2024-01-15", "2023-12-31"]);
    let r = log.get(date(2024, 3, 1)).unwrap();
    assert_eq!((r.earliest, r.latest), (time(8, 0), time(8, 4)));
}

#[test]
fn empty_log_lists_nothing() {
    let log = DailyLog::new();
    assert_eq!(log.len(), 0);
    assert!(log.list().is_empty());
}

#[test]
fn rows_round_trip_through_text() {
    let mut log = DailyLog::new();
    log.upsert(date(2024, 3, 1), time(8, 1));
    log.upsert(date(2024, 3, 1), time(17, 45));
    log.upsert(date(2024, 2, 29), time(0, 0));
    log.upsert(date(2024, 2, 29), time(23, 59));
    let mut restored_rows = Vec::new();
    for r in log.list().iter() {
        let (d, e, l) = row_text(r);
        restored_rows.push(DailyRecord::from_row(&d, &e, &l).unwrap());
    }
    let restored = DailyLog::from_records(&restored_rows);
    assert_eq!(restored.list(), log.list());
}

#[test]
fn from_records_widens_repeated_dates() {
    let day = date(2024, 4, 4);
    let rows = vec![
        DailyRecord { date: day, earliest: time(9, 0), latest: time(10, 0) },
        DailyRecord { date: day, earliest: time(7, 30), latest: time(8, 0) },
    ];
    let log = DailyLog::from_records(&rows);
    assert_eq!(log.get(day), Some(DailyRecord { date: day, earliest: time(7, 30), latest: time(10, 0) }));
}

#[test]
fn from_row_errors() {
    assert_eq!(DailyRecord::from_row("2024-13-01", "08:00", "09:00"), Err(RowError::BadDate));
    assert_eq!(DailyRecord::from_row("2024/03/01", "08:00", "09:00"), Err(RowError::BadDate));
    assert_eq!(DailyRecord::from_row("2024-03-01", "8:00", "09:00"), Err(RowError::BadTime));
    assert_eq!(DailyRecord::from_row("2024-03-01", "08:00", "24:00"), Err(RowError::BadTime));
    assert_eq!(DailyRecord::from_row("2024-03-01", "09:00", "08:00"), Err(RowError::Reversed));
    assert_eq!(
        DailyRecord::from_row("2024-03-01", "09:00", "09:00"),
        Ok(DailyRecord { date: date(2024, 3, 1), earliest: time(9, 0), latest: time(9, 0) })
    );
}
