use rust_task_manager::{add_task, append_task, get_data_path, load_tasks, run_add, save_tasks, Task};

#[test]
fn data_path_is_fixed() {
    assert_eq!(get_data_path(), "tasks.json");
}

#[test]
fn load_missing_file_yields_empty_collection() {
    let tasks = load_tasks(None).unwrap();
    assert!(tasks.is_empty());
}

#[test]
fn add_once_on_empty_store_appends_four_duplicates() {
    // One `add` fans the append out to four workers that all receive the
    // same request, so the store ends up with four identical records, not
    // one. This test flags that known defect of the observable behaviour.
    let mut tasks: Vec<Task> = Vec::new();
    add_task(&mut tasks, "buy milk", "two liters");
    assert_eq!(tasks.len(), 4);
    for t in &tasks {
        assert_eq!(t.title, "buy milk");
        assert_eq!(t.description, "two liters");
        assert!(!t.completed);
    }
}

#[test]
fn sequential_adds_append() {
    let mut tasks: Vec<Task> = Vec::new();
    add_task(&mut tasks, "first", "");
    let len_after_first = tasks.len();
    add_task(&mut tasks, "second", "more");
    assert!(tasks.len() > len_after_first);
    assert_eq!(tasks.len(), 8);
    assert_eq!(tasks[0].title, "first");
    assert_eq!(tasks[3].title, "first");
    assert_eq!(tasks[4].title, "second");
    assert_eq!(tasks[7].description, "more");
}

#[test]
fn append_task_adds_exactly_one() {
    let mut tasks: Vec<Task> = Vec::new();
    append_task(&mut tasks, "only".to_string(), "one".to_string());
    assert_eq!(tasks.len(), 1);
    assert_eq!(tasks[0].title, "only");
    assert_eq!(tasks[0].description, "one");
    assert!(!tasks[0].completed);
}

#[test]
fn save_then_load_round_trip() {
    let mut tasks: Vec<Task> = Vec::new();
    append_task(
        &mut tasks,
        "a \"quoted\" title".to_string(),
        "line one\nline two\ttabbed\rreturned".to_string(),
    );
    append_task(&mut tasks, "".to_string(), "".to_string());
    append_task(&mut tasks, "back\\slash".to_string(), "plain".to_string());
    let text = save_tasks(&tasks);
    let loaded = load_tasks(Some(&text)).unwrap();
    assert_eq!(loaded.len(), tasks.len());
    for (a, b) in tasks.iter().zip(loaded.iter()) {
        assert_eq!(a.title, b.title);
        assert_eq!(a.description, b.description);
        assert_eq!(a.completed, b.completed);
    }
}

#[test]
fn save_has_exact_expected_text() {
    let mut tasks: Vec<Task> = Vec::new();
    append_task(&mut tasks, "a".to_string(), "b".to_string());
    assert_eq!(
        save_tasks(&tasks),
        "[{\"title\":\"a\",\"description\":\"b\",\"completed\":false}]"
    );
}

#[test]
fn save_empty_collection_is_empty_array() {
    let tasks: Vec<Task> = Vec::new();
    assert_eq!(save_tasks(&tasks), "[]");
}

#[test]
fn escapes_have_exact_expected_text() {
    let mut tasks: Vec<Task> = Vec::new();
    append_task(&mut tasks, "a\"b".to_string(), "c\nd".to_string());
    assert_eq!(
        save_tasks(&tasks),
        "[{\"title\":\"a\\\"b\",\"description\":\"c\\nd\",\"completed\":false}]"
    );
}

#[test]
fn loads_handwritten_compact_file() {
    let text = "[{\"title\":\"x\",\"description\":\"with \\t tab\",\"completed\":true},{\"title\":\"y\",\"description\":\"\",\"completed\":false}]";
    let loaded = load_tasks(Some(text)).unwrap();
    assert_eq!(loaded.len(), 2);
    assert_eq!(loaded[0].title, "x");
    assert_eq!(loaded[0].description, "with \t tab");
    assert!(loaded[0].completed);
    assert_eq!(loaded[1].title, "y");
    assert!(!loaded[1].completed);
}

#[test]
fn malformed_file_fails_loudly() {
    assert!(load_tasks(Some("")).is_err());
    assert!(load_tasks(Some("not json")).is_err());
    assert!(load_tasks(Some("{}")).is_err());
    assert!(load_tasks(Some("[{\"title\":\"a\"}]")).is_err());
    // Truncated: the closing bracket is missing.
    assert!(load_tasks(Some("[{\"title\":\"a\",\"description\":\"b\",\"completed\":false}")).is_err());
    // Trailing characters after the array.
    assert!(load_tasks(Some("[{\"title\":\"a\",\"description\":\"b\",\"completed\":false}] ")).is_err());
    // An escape code the format does not know.
    assert!(load_tasks(Some("[{\"title\":\"bad\\q\",\"description\":\"\",\"completed\":false}]")).is_err());
    // A string that never closes.
    assert!(load_tasks(Some("[{\"title\":\"open,\"description\":\"\",\"completed\":false}]")).is_err());
}

#[test]
fn run_add_on_missing_file_produces_four_records() {
    let out = run_add(None, "t", "d").unwrap();
    let loaded = load_tasks(Some(&out)).unwrap();
    assert_eq!(loaded.len(), 4);
    assert_eq!(loaded[0].title, "t");
    assert_eq!(loaded[0].description, "d");
    assert!(!loaded[0].completed);
}

#[test]
fn run_add_appends_to_existing_file() {
    let first = run_add(None, "one", "").unwrap();
    let second = run_add(Some(&first), "two", "").unwrap();
    let loaded = load_tasks(Some(&second)).unwrap();
    assert_eq!(loaded.len(), 8);
    assert_eq!(loaded[0].title, "one");
    assert_eq!(loaded[4].title, "two");
}

#[test]
fn run_add_fails_on_malformed_file() {
    assert!(run_add(Some("garbage"), "t", "d").is_err());
}
