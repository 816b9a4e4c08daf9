use ah_delivery::calendar::{combine, day_set_from_list, get_calendar, now_stamp, parse_days, DaySet};
use ah_delivery::date::{Date, TimeOfDay};
use ah_delivery::models::{Planning, Shift};
use ah_delivery::store::ShiftStore;

fn shift(boff: &str, name: &str, date: Date, planning: Planning, note: Option<&str>) -> Shift {
    Shift {
        boff_id: boff.to_string(),
        name: name.to_string(),
        date,
        planning,
        start: TimeOfDay { hour: 15, minute: 0 },
        end: TimeOfDay { hour: 22, minute: 0 },
        info: note.map(|s| s.to_string()),
    }
}

fn mondays_only() -> DaySet {
    day_set_from_list(&vec![1u8]).expect("valid day list")
}

#[test]
fn day_list_validation() {
    assert!(day_set_from_list(&vec![1, 3, 5]).is_some());
    assert!(day_set_from_list(&Vec::new()).is_some());
    assert!(day_set_from_list(&vec![1, 1]).is_none());
    assert!(day_set_from_list(&vec![0]).is_none());
    assert!(day_set_from_list(&vec![8]).is_none());
    assert!(day_set_from_list(&vec![2, 9, 3]).is_none());
}

#[test]
fn days_config_text_is_parsed_and_validated() {
    let ds = parse_days("1, 7").expect("valid");
    assert_eq!(ds.days, vec![true, false, false, false, false, false, true]);
    assert!(parse_days("1,3,5").is_some());
    assert!(parse_days(" 2 ,\t4 ").is_some());
    assert!(parse_days("1,1").is_none());
    assert!(parse_days("0").is_none());
    assert!(parse_days("8").is_none());
    assert!(parse_days("").is_none());
    assert!(parse_days("1,,2").is_none());
    assert!(parse_days("one").is_none());
    assert!(parse_days("300").is_none());
}

#[test]
fn combine_renders_amsterdam_times_in_utc() {
    let winter = combine(&Date { year: 2025, month: 1, day: 5 }, &TimeOfDay { hour: 15, minute: 0 });
    assert_eq!(winter.as_deref(), Some("20250105T140000Z"));
    let summer = combine(&Date { year: 2025, month: 7, day: 7 }, &TimeOfDay { hour: 15, minute: 0 });
    assert_eq!(summer.as_deref(), Some("20250707T130000Z"));
}

#[test]
fn combine_reports_skipped_local_times() {
    let gap = combine(&Date { year: 2025, month: 3, day: 30 }, &TimeOfDay { hour: 2, minute: 30 });
    assert!(gap.is_none());
}

#[test]
fn now_stamp_has_timestamp_shape() {
    let s = now_stamp();
    assert!(s.len() >= 16);
    assert!(s.ends_with('Z'));
}

#[test]
fn upsert_overwrites_matching_key() {
    let mut store = ShiftStore::new();
    let d = Date { year: 2025, month: 1, day: 5 };
    store.upload_shift(shift("w1", "First Name", d, Planning::PA, None));
    let mut second = shift("w1", "Second Name", d, Planning::PA, Some("late"));
    second.start = TimeOfDay { hour: 16, minute: 0 };
    store.upload_shift(second);
    assert_eq!(store.shifts.len(), 1);
    assert_eq!(store.shifts[0].name, "Second Name");
    assert_eq!(store.shifts[0].start, TimeOfDay { hour: 16, minute: 0 });
    assert_eq!(store.shifts[0].info.as_deref(), Some("late"));
}

#[test]
fn upsert_keeps_distinct_keys_apart() {
    let mut store = ShiftStore::new();
    let d = Date { year: 2025, month: 1, day: 5 };
    store.upload_shift(shift("w1", "A", d, Planning::PA, None));
    store.upload_shift(shift("w1", "B", d, Planning::PO, None));
    store.upload_shift(shift("w2", "C", d, Planning::PA, None));
    store.upload_shift(shift("w1", "D", Date { year: 2025, month: 1, day: 6 }, Planning::PA, None));
    assert_eq!(store.shifts.len(), 4);
}

#[test]
fn uid_and_summary_are_derived_from_the_key() {
    let s = shift("w1", "One", Date { year: 2025, month: 1, day: 5 }, Planning::PA, None);
    assert_eq!(s.uid(), "2025-01-05-PA-w1");
    assert_eq!(s.code(), "ZOPA");
    let s = shift("w1", "One", Date { year: 2025, month: 1, day: 6 }, Planning::PO, None);
    assert_eq!(s.uid(), "2025-01-06-PO-w1");
    assert_eq!(s.code(), "MAPO");
}

#[test]
fn default_shift_uses_fixed_window() {
    let d = Date { year: 2025, month: 1, day: 6 };
    let s = Shift::default(d, "w1".to_string());
    assert_eq!(s.boff_id, "w1");
    assert_eq!(s.name, "");
    assert_eq!(s.date, d);
    assert!(matches!(s.planning, Planning::PA));
    assert_eq!(s.start, TimeOfDay { hour: 15, minute: 0 });
    assert_eq!(s.end, TimeOfDay { hour: 22, minute: 0 });
    assert!(s.info.is_none());
}

#[test]
fn empty_history_synthesizes_allowed_mondays() {
    let ds = mondays_only();
    let today = Date { year: 2025, month: 1, day: 1 };
    let events = get_calendar(Vec::new(), &ds, &today, &"w1".to_string()).expect("renders");
    assert_eq!(events.len(), 4);
    let uids: Vec<&str> = events.iter().map(|e| e.uid.as_str()).collect();
    assert_eq!(
        uids,
        vec!["2025-01-06-PA-w1", "2025-01-13-PA-w1", "2025-01-20-PA-w1", "2025-01-27-PA-w1"]
    );
    for e in &events {
        assert_eq!(e.summary, "MAPA");
        assert!(e.dtstart.ends_with("T140000Z"));
        assert!(e.dtend.ends_with("T210000Z"));
        assert!(e.description.is_none());
    }
}

#[test]
fn feed_blends_history_with_placeholders() {
    let ds = mondays_only();
    let today = Date { year: 2025, month: 1, day: 1 };
    let history = vec![shift(
        "w1",
        "One",
        Date { year: 2025, month: 1, day: 8 },
        Planning::PO,
        Some("bring keys"),
    )];
    let events = get_calendar(history, &ds, &today, &"w1".to_string()).expect("renders");
    assert_eq!(events.len(), 5);
    assert_eq!(events[0].uid, "2025-01-08-PO-w1");
    assert_eq!(events[0].summary, "WOPO");
    assert_eq!(events[0].description.as_deref(), Some("bring keys"));
    assert_eq!(events[1].uid, "2025-01-13-PA-w1");
    assert_eq!(events[2].uid, "2025-01-20-PA-w1");
    assert_eq!(events[3].uid, "2025-01-27-PA-w1");
    assert_eq!(events[4].uid, "2025-02-03-PA-w1");
}

#[test]
fn feed_uids_are_unique() {
    let ds = day_set_from_list(&vec![1u8, 2, 3, 4, 5, 6, 7]).unwrap();
    let today = Date { year: 2025, month: 1, day: 1 };
    let history = vec![
        shift("w1", "One", Date { year: 2025, month: 1, day: 5 }, Planning::PA, None),
        shift("w1", "One", Date { year: 2025, month: 1, day: 5 }, Planning::PO, None),
        shift("w2", "Two", Date { year: 2025, month: 1, day: 5 }, Planning::PA, None),
    ];
    let events = get_calendar(history, &ds, &today, &"w1".to_string()).expect("renders");
    assert_eq!(events.len(), 3 + 28);
    for i in 0..events.len() {
        for j in (i + 1)..events.len() {
            assert_ne!(events[i].uid, events[j].uid);
        }
    }
}

#[test]
fn rerendering_is_stable_except_for_the_stamp() {
    let ds = mondays_only();
    let today = Date { year: 2025, month: 1, day: 1 };
    let history = || {
        vec![shift("w1", "One", Date { year: 2025, month: 1, day: 8 }, Planning::PA, None)]
    };
    let first = get_calendar(history(), &ds, &today, &"w1".to_string()).expect("renders");
    let second = get_calendar(history(), &ds, &today, &"w1".to_string()).expect("renders");
    assert_eq!(first.len(), second.len());
    for (a, b) in first.iter().zip(second.iter()) {
        assert_eq!(a.uid, b.uid);
        assert_eq!(a.dtstart, b.dtstart);
        assert_eq!(a.dtend, b.dtend);
        assert_eq!(a.summary, b.summary);
        assert_eq!(a.location, b.location);
    }
}

#[test]
fn events_carry_the_fixed_location() {
    let ds = mondays_only();
    let today = Date { year: 2025, month: 1, day: 1 };
    let events = get_calendar(Vec::new(), &ds, &today, &"w1".to_string()).expect("renders");
    assert_eq!(
        events[0].location,
        "HSC Bleiswijk\\nAquamarijnweg 2\\, 2665 PB\\nBleiswijk\\, Netherlands"
    );
}
