use habit_tracker::day::Day;
use habit_tracker::store::Data;

fn today() -> Day {
    let now = chrono::Local::now().date_naive();
    Day::from_ymd(
        chrono::Datelike::year(&now) as i64,
        chrono::Datelike::month(&now),
        chrono::Datelike::day(&now),
    )
    .unwrap()
}

#[test]
fn test_add_task() {
    let mut data = Data::new();
    data.next_id = 1; // Reset ID for testing
    let id = data.add_task("Test Task");
    assert_eq!(id, 1);
    assert_eq!(data.tasks.len(), 1);
    assert_eq!(data.tasks[0].name, "Test Task");
}

#[test]
fn test_mark_task_done() {
    let mut data = Data::new();
    let id = data.add_task("Test Task");
    let date = today();
    assert!(data.mark_task_done(id, &date).is_ok());
    assert!(data.is_task_done(id, &date));
}

#[test]
fn test_is_task_done() {
    let mut data = Data::new();
    let id = data.add_task("Test Task");
    let date = today();
    assert!(!data.is_task_done(id, &date));
    data.mark_task_done(id, &date).unwrap();
    assert!(data.is_task_done(id, &date));
}

#[test]
fn test_get_task() {
    let mut data = Data::new();
    let id = data.add_task("Test Task");
    let task = data.get_task(id);
    assert!(task.is_some());
    assert_eq!(task.unwrap().name, "Test Task");
}

#[test]
fn test_get_unexisting_task() {
    let data = Data::new();
    let task = data.get_task(999); // Non-existing ID
    assert!(task.is_none());
}

#[test]
fn test_add_completion() {
    let mut data = Data::new();
    let id = data.add_task("Test Task");
    let date = today();
    data.add_completion(id, &date);
    assert!(data.is_task_done(id, &date));
    // Check if the completion was added correctly
    let entry = data.completion.iter().find(|l| l.day == date);
    assert!(entry.is_some());
    assert!(entry.unwrap().ids.contains(&id));
}

#[test]
fn test_add_completion_multiple_times() {
    let mut data = Data::new();
    let id = data.add_task("Test Task");
    let date = today();
    data.add_completion(id, &date);
    data.add_completion(id, &date); // Add again
    // Ensure it doesn't duplicate the ID in the completion list
    let entry = data.completion.iter().find(|l| l.day == date).unwrap();
    assert_eq!(entry.ids.len(), 1);
    assert!(entry.ids.contains(&id));
}

#[test]
fn test_mark_task_done_non_existing() {
    let mut data = Data::new();
    let date = today();
    let result = data.mark_task_done(999, &date); // Non-existing ID
    assert!(result.is_err());
    assert_eq!(result.err().unwrap(), "Task with ID 999 not found.");
}

#[test]
fn test_add_task_with_multiple_calls() {
    let mut data = Data::new();
    let id1 = data.add_task("First Task");
    let id2 = data.add_task("Second Task");
    assert_eq!(id1, 1);
    assert_eq!(id2, 2);
    assert_eq!(data.tasks.len(), 2);
    assert_eq!(data.tasks[0].name, "First Task");
    assert_eq!(data.tasks[1].name, "Second Task");
}
