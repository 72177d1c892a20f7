//! Whole-command scenarios over file bytes, and cross-checks of the codec
//! against serde_json.

use todo_list::codec::parse_task_list;
use todo_list::codec::serialize_task_list;
use todo_list::store::initial_content;
use todo_list::store::run_add;
use todo_list::store::run_complete;
use todo_list::store::run_list;
use todo_list::store::CompleteOutcome;
use todo_list::tasks::TaskList;
use todo_list::tasks::TodoError;

#[test]
fn first_run_creates_empty_list_file() {
    let content = initial_content();
    assert_eq!(content, b"{\"tasks\": []}".to_vec());
    let lines = run_list(&content).unwrap();
    assert_eq!(lines.len(), 0);
}

#[test]
fn list_twice_prints_the_same() {
    let mut file = initial_content();
    file = run_add(&file, b"one".to_vec()).unwrap();
    file = run_add(&file, b"two".to_vec()).unwrap();
    let first = run_list(&file).unwrap();
    let second = run_list(&file).unwrap();
    assert_eq!(first, second);
}

#[test]
fn add_then_complete_then_list() {
    let file0 = initial_content();
    let file1 = run_add(&file0, b"buy milk".to_vec()).unwrap();
    let list1 = parse_task_list(&file1).unwrap();
    assert_eq!(list1.tasks.len(), 1);
    assert_eq!(list1.tasks[0].name, b"buy milk".to_vec());
    assert!(!list1.tasks[0].completed);

    let outcome = run_complete(&file1, &b"0\n".to_vec()).unwrap();
    let file2 = match outcome {
        CompleteOutcome::Updated(bytes) => bytes,
        _ => panic!("expected an update"),
    };
    let list2 = parse_task_list(&file2).unwrap();
    assert_eq!(list2.tasks.len(), 1);
    assert!(list2.tasks[0].completed);

    let lines = run_list(&file2).unwrap();
    assert_eq!(lines.len(), 1);
    assert_eq!(lines[0], b"buy milk [done]".to_vec());
}

#[test]
fn complete_with_non_numeric_input_changes_nothing() {
    let file0 = initial_content();
    let file1 = run_add(&file0, b"buy milk".to_vec()).unwrap();
    let outcome = run_complete(&file1, &b"abc\n".to_vec()).unwrap();
    assert!(matches!(outcome, CompleteOutcome::InvalidSelection));
    let list = parse_task_list(&file1).unwrap();
    assert!(!list.tasks[0].completed);
}

#[test]
fn complete_with_large_index_is_out_of_range() {
    let file0 = initial_content();
    let file1 = run_add(&file0, b"only".to_vec()).unwrap();
    let outcome = run_complete(&file1, &b"1\n".to_vec()).unwrap();
    assert!(matches!(outcome, CompleteOutcome::OutOfRange));
}

#[test]
fn commands_report_parse_errors() {
    let broken = b"{\"tasks\": oops}".to_vec();
    assert_eq!(run_list(&broken).unwrap_err(), TodoError::Parse);
    assert_eq!(run_add(&broken, b"x".to_vec()).unwrap_err(), TodoError::Parse);
    assert_eq!(
        run_complete(&broken, &b"0".to_vec()).unwrap_err(),
        TodoError::Parse
    );
}

#[test]
fn serde_json_reads_our_output() {
    let mut list = TaskList::empty();
    list.add(b"say \"hi\"\n".to_vec());
    list.add(b"plain".to_vec());
    list.complete(1).unwrap();
    let out = serialize_task_list(&list);
    let value: serde_json::Value = serde_json::from_slice(&out).unwrap();
    let tasks = value.get("tasks").unwrap().as_array().unwrap();
    assert_eq!(tasks.len(), 2);
    assert_eq!(
        tasks[0].get("name").unwrap().as_str().unwrap(),
        "say \"hi\"\n"
    );
    assert_eq!(tasks[0].get("completed").unwrap().as_bool().unwrap(), false);
    assert_eq!(tasks[1].get("name").unwrap().as_str().unwrap(), "plain");
    assert_eq!(tasks[1].get("completed").unwrap().as_bool().unwrap(), true);
}

#[test]
fn we_read_serde_json_output() {
    let mut task = serde_json::Map::new();
    task.insert(
        "name".to_string(),
        serde_json::Value::String("write\treport".to_string()),
    );
    task.insert("completed".to_string(), serde_json::Value::Bool(true));
    let mut root = serde_json::Map::new();
    root.insert(
        "tasks".to_string(),
        serde_json::Value::Array(vec![serde_json::Value::Object(task)]),
    );
    let doc = serde_json::to_string(&serde_json::Value::Object(root)).unwrap();
    let list = parse_task_list(&doc.into_bytes()).unwrap();
    assert_eq!(list.tasks.len(), 1);
    assert_eq!(list.tasks[0].name, b"write\treport".to_vec());
    assert!(list.tasks[0].completed);
}
