use rust_task_manager::{append_task, save_tasks, Task};
use serde_json::Value;

#[test]
fn saved_text_is_well_formed_json() {
    let mut tasks: Vec<Task> = Vec::new();
    append_task(
        &mut tasks,
        "quote \" here".to_string(),
        "tab\there and\nnewline".to_string(),
    );
    append_task(&mut tasks, "second".to_string(), "".to_string());
    let text = save_tasks(&tasks);
    let value: Value = serde_json::from_str(&text).unwrap();
    let arr = value.as_array().unwrap();
    assert_eq!(arr.len(), 2);
    assert_eq!(arr[0].get("title").unwrap().as_str().unwrap(), "quote \" here");
    assert_eq!(
        arr[0].get("description").unwrap().as_str().unwrap(),
        "tab\there and\nnewline"
    );
    assert_eq!(arr[0].get("completed").unwrap().as_bool().unwrap(), false);
    assert_eq!(arr[1].get("title").unwrap().as_str().unwrap(), "second");
    assert_eq!(arr[1].get("description").unwrap().as_str().unwrap(), "");
}

#[test]
fn saved_empty_collection_is_an_empty_json_array() {
    let tasks: Vec<Task> = Vec::new();
    let text = save_tasks(&tasks);
    let value: Value = serde_json::from_str(&text).unwrap();
    assert_eq!(value.as_array().unwrap().len(), 0);
}
