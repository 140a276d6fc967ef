use habit_tracker::codec::{decode, encode};
use habit_tracker::day::{window_ending, Day};
use habit_tracker::db::{DbError, FileDatabase};
use habit_tracker::store::Data;

fn day(y: i64, m: u32, d: u32) -> Day {
    Day::from_ymd(y, m, d).unwrap()
}

#[test]
fn ids_are_consecutive_from_one() {
    let mut data = Data::new();
    assert_eq!(data.add_task("a"), 1);
    assert_eq!(data.add_task(""), 2);
    assert_eq!(data.add_task("c"), 3);
    assert_eq!(data.next_id, 4);
}

#[test]
fn marking_twice_keeps_one_record() {
    let mut data = Data::new();
    let id = data.add_task("water");
    let d = day(2024, 3, 10);
    data.mark_task_done(id, &d).unwrap();
    data.mark_task_done(id, &d).unwrap();
    let records: usize = data
        .completion
        .iter()
        .filter(|l| l.day == d)
        .map(|l| l.ids.iter().filter(|&&x| x == id).count())
        .sum();
    assert_eq!(records, 1);
}

#[test]
fn unknown_id_not_done_and_unmarked_false() {
    let data = Data::new();
    assert!(!data.is_task_done(42, &day(2024, 1, 1)));
    let mut data2 = Data::new();
    let id = data2.add_task("x");
    assert!(!data2.is_task_done(id, &day(2024, 1, 1)));
}

#[test]
fn not_found_leaves_log_unchanged() {
    let mut data = Data::new();
    data.add_task("only");
    data.mark_task_done(1, &day(2024, 5, 5)).unwrap();
    let before = encode(&data);
    let r = data.mark_task_done(99, &day(2024, 5, 6));
    assert!(r.is_err());
    assert_eq!(encode(&data), before);
}

#[test]
fn round_trip_identity() {
    let mut data = Data::new();
    data.add_task("Drink water");
    data.add_task("");
    data.add_task("emoji \u{1F600} and\nnewline 7 8");
    data.mark_task_done(1, &day(2024, 2, 29)).unwrap();
    data.mark_task_done(3, &day(2024, 2, 29)).unwrap();
    data.mark_task_done(1, &day(2024, 3, 1)).unwrap();
    let text = encode(&data);
    let back = decode(&text).expect("round trip must parse");
    assert_eq!(back.next_id, data.next_id);
    assert_eq!(back.tasks.len(), data.tasks.len());
    for (a, b) in back.tasks.iter().zip(data.tasks.iter()) {
        assert_eq!(a.id, b.id);
        assert_eq!(a.name, b.name);
    }
    assert_eq!(back.completion.len(), data.completion.len());
    for (a, b) in back.completion.iter().zip(data.completion.iter()) {
        assert_eq!(a.day, b.day);
        assert_eq!(a.ids, b.ids);
    }
}

#[test]
fn encoding_is_exact() {
    let mut data = Data::new();
    data.add_task("ab");
    data.mark_task_done(1, &day(2024, 3, 5)).unwrap();
    assert_eq!(encode(&data), "2\n1\n1 2 ab\n1\n2024-03-05 1 1\n");
}

#[test]
fn fresh_store_encodes_as_empty() {
    // What a first run writes into a previously missing backing file.
    let db = FileDatabase::new("habits.txt");
    assert_eq!(db.snapshot(), "1\n0\n0\n");
}

#[test]
fn decode_accepts_handwritten_text() {
    let text = "3\n2\n1 5 water\n2 4 read\n1\n2023-12-31 1 2\n";
    let data = decode(text).expect("valid text");
    assert_eq!(data.next_id, 3);
    assert_eq!(data.tasks[0].name, "water");
    assert_eq!(data.tasks[1].name, "read");
    assert!(data.is_task_done(2, &day(2023, 12, 31)));
    assert!(!data.is_task_done(1, &day(2023, 12, 31)));
}

#[test]
fn decode_rejects_damaged_text() {
    // Trailing garbage.
    assert!(decode("1\n0\n0\nx").is_none());
    // A task ID the counter does not cover.
    assert!(decode("1\n1\n7 1 a\n0\n").is_none());
    // The same day twice.
    assert!(decode("2\n1\n1 1 a\n2\n2024-01-01 1 1\n2024-01-01 1 1\n").is_none());
    // The same ID twice within one day.
    assert!(decode("2\n1\n1 1 a\n1\n2024-01-01 2 1 1\n").is_none());
    // A month outside the calendar.
    assert!(decode("1\n0\n1\n2024-13-01 0\n").is_none());
    // Not text in the format at all.
    assert!(decode("{\"next_id\":1}").is_none());
}

#[test]
fn database_guards_access_before_init() {
    let mut db = FileDatabase::new("habits.txt");
    assert_eq!(db.get_data().err(), Some(DbError::Uninitialized));
    assert_eq!(db.get_mut_data().err(), Some(DbError::Uninitialized));
    db.mark_initialized();
    assert!(db.get_data().is_ok());
    assert!(db.get_mut_data().is_ok());
}

#[test]
fn database_load_content_parses_or_reports() {
    let mut db = FileDatabase::new("habits.txt");
    assert_eq!(db.load_content("not a store"), Err(DbError::Parse));
    assert_eq!(db.get_data().err(), Some(DbError::Uninitialized));
    assert!(db.load_content("2\n1\n1 5 water\n0\n").is_ok());
    let data = db.get_data().unwrap();
    assert_eq!(data.tasks[0].name, "water");
}

#[test]
fn add_then_reload_shows_task() {
    // The add-then-list flow across a save and a reload.
    let mut db = FileDatabase::new("habits.db");
    db.mark_initialized();
    let data = db.get_mut_data().unwrap();
    assert_eq!(data.add_task("Drink water"), 1);
    let saved = db.snapshot();
    let mut db2 = FileDatabase::new("habits.db");
    db2.load_content(&saved).unwrap();
    let data2 = db2.get_data().unwrap();
    assert_eq!(data2.tasks.len(), 1);
    assert_eq!(data2.tasks[0].id, 1);
    assert_eq!(data2.tasks[0].name, "Drink water");
}

#[test]
fn mark_done_survives_reload() {
    let mut db = FileDatabase::new("habits.db");
    db.mark_initialized();
    let d = day(2024, 7, 4);
    {
        let data = db.get_mut_data().unwrap();
        data.add_task("Drink water");
        data.mark_task_done(1, &d).unwrap();
    }
    let saved = db.snapshot();
    let mut db2 = FileDatabase::new("habits.db");
    db2.load_content(&saved).unwrap();
    assert!(db2.get_data().unwrap().is_task_done(1, &d));
}

#[test]
fn today_scenario() {
    // add "Drink water"; done 1 today; today shows nothing; add "Read";
    // today shows only "Read".
    let mut data = Data::new();
    let id = data.add_task("Drink water");
    assert_eq!(id, 1);
    let now = day(2024, 6, 1);
    data.mark_task_done(id, &now).unwrap();
    assert!(data.remaining_tasks(&now).is_empty());
    let id2 = data.add_task("Read");
    assert_eq!(id2, 2);
    let remaining = data.remaining_tasks(&now);
    assert_eq!(remaining.len(), 1);
    assert_eq!(remaining[0].name, "Read");
}

#[test]
fn list_scenario() {
    // add "Drink water" (ID 1), add "Exercise" (ID 2); the listing shows
    // both in that order.
    let mut data = Data::new();
    assert_eq!(data.add_task("Drink water"), 1);
    assert_eq!(data.add_task("Exercise"), 2);
    let names: Vec<&str> = data.tasks.iter().map(|t| t.name.as_str()).collect();
    assert_eq!(names, vec!["Drink water", "Exercise"]);
}

#[test]
fn stats_scenario_three_day_window() {
    // Done only "today": the grid row is blank for the two prior days and
    // marked for today.
    let mut data = Data::new();
    let id = data.add_task("water");
    let today = day(2024, 3, 10);
    data.mark_task_done(id, &today).unwrap();
    let days = window_ending(&today, 3).unwrap();
    assert_eq!(days, vec![day(2024, 3, 8), day(2024, 3, 9), day(2024, 3, 10)]);
    let marks = data.done_marks(id, &days);
    assert_eq!(marks, vec![false, false, true]);
}

#[test]
fn window_crosses_month_and_leap_day() {
    let days = window_ending(&day(2024, 3, 1), 3).unwrap();
    assert_eq!(days, vec![day(2024, 2, 28), day(2024, 2, 29), day(2024, 3, 1)]);
}

#[test]
fn window_refuses_an_unreal_day() {
    // February 31st fits the day-key ranges but names no calendar date.
    let unreal = day(2024, 2, 31);
    assert!(window_ending(&unreal, 3).is_none());
    assert!(window_ending(&day(2024, 2, 29), 3).is_some());
}

#[test]
fn stepping_before_year_zero_gives_nothing() {
    // The day before 0000-01-01 has no day key.
    assert!(window_ending(&day(0, 1, 1), 2).is_none());
    assert!(window_ending(&day(0, 1, 2), 2).is_some());
}

#[test]
fn day_from_ymd_checks_ranges() {
    assert!(Day::from_ymd(2024, 0, 1).is_none());
    assert!(Day::from_ymd(2024, 13, 1).is_none());
    assert!(Day::from_ymd(2024, 1, 0).is_none());
    assert!(Day::from_ymd(2024, 1, 32).is_none());
    assert!(Day::from_ymd(-1, 1, 1).is_none());
    assert!(Day::from_ymd(10000, 1, 1).is_none());
    assert!(Day::from_ymd(2024, 2, 29).is_some());
}
