//! Unit tests for the task model, the codec, index parsing and rendering.

use todo_list::codec::parse_task_list;
use todo_list::codec::serialize_task_list;
use todo_list::input::parse_index;
use todo_list::render::render_indexed_task_line;
use todo_list::render::render_task_line;
use todo_list::tasks::Task;
use todo_list::tasks::TaskList;
use todo_list::tasks::TodoError;

fn list_of(names_done: &[(&str, bool)]) -> TaskList {
    let mut list = TaskList::empty();
    for (name, done) in names_done {
        list.add(name.as_bytes().to_vec());
        if *done {
            let index = list.len() - 1;
            list.complete(index).unwrap();
        }
    }
    list
}

fn assert_lists_equal(a: &TaskList, b: &TaskList) {
    assert_eq!(a.tasks.len(), b.tasks.len());
    for k in 0..a.tasks.len() {
        assert_eq!(a.tasks[k].name, b.tasks[k].name);
        assert_eq!(a.tasks[k].completed, b.tasks[k].completed);
    }
}

#[test]
fn serialize_exact_bytes() {
    let list = list_of(&[("buy milk", false)]);
    let out = serialize_task_list(&list);
    assert_eq!(
        out,
        b"{\"tasks\":[{\"name\":\"buy milk\",\"completed\":false}]}".to_vec()
    );
}

#[test]
fn serialize_empty_exact_bytes() {
    let list = TaskList::empty();
    let out = serialize_task_list(&list);
    assert_eq!(out, b"{\"tasks\":[]}".to_vec());
}

#[test]
fn round_trip_empty() {
    let list = TaskList::empty();
    let out = serialize_task_list(&list);
    let back = parse_task_list(&out).unwrap();
    assert_eq!(back.tasks.len(), 0);
}

#[test]
fn round_trip_two_tasks() {
    let list = list_of(&[("buy milk", true), ("write report", false)]);
    let out = serialize_task_list(&list);
    let back = parse_task_list(&out).unwrap();
    assert_lists_equal(&list, &back);
}

#[test]
fn round_trip_special_characters() {
    let list = list_of(&[
        ("say \"hi\"", false),
        ("back\\slash", true),
        ("tab\there\nand newline", false),
        ("caf\u{e9} \u{2713}", true),
        ("\u{1}\u{2}\u{1f}", false),
    ]);
    let out = serialize_task_list(&list);
    let back = parse_task_list(&out).unwrap();
    assert_lists_equal(&list, &back);
}

#[test]
fn escapes_in_output() {
    let list = list_of(&[("a\"b\\c\nd", false)]);
    let out = serialize_task_list(&list);
    assert_eq!(
        out,
        b"{\"tasks\":[{\"name\":\"a\\\"b\\\\c\\u000ad\",\"completed\":false}]}".to_vec()
    );
}

#[test]
fn parse_tolerates_whitespace_and_field_order() {
    let doc = b" { \"tasks\" : [ { \"completed\" : true , \"name\" : \"x\" } ] } ".to_vec();
    let list = parse_task_list(&doc).unwrap();
    assert_eq!(list.tasks.len(), 1);
    assert_eq!(list.tasks[0].name, b"x".to_vec());
    assert!(list.tasks[0].completed);
}

#[test]
fn parse_short_escapes() {
    let doc = b"{\"tasks\":[{\"name\":\"a\\n\\t\\/\\u0041\",\"completed\":false}]}".to_vec();
    let list = parse_task_list(&doc).unwrap();
    assert_eq!(list.tasks[0].name, b"a\n\t/A".to_vec());
}

#[test]
fn parse_rejects_bad_documents() {
    for doc in [
        &b"{\"tasks\":}"[..],
        b"",
        b"{}",
        b"[]",
        b"{\"tasks\":[}",
        b"{\"tasks\":[{\"name\":\"x\"}]}",
        b"{\"tasks\":[{\"name\":\"x\",\"completed\":false}]} trailing",
        b"{\"tasks\":[{\"name\":\"\\u0080\",\"completed\":false}]}",
        b"{\"tasks\":[{\"name\":\"\x01\",\"completed\":false}]}",
    ] {
        assert!(parse_task_list(&doc.to_vec()).is_none(), "accepted: {:?}", doc);
    }
}

#[test]
fn add_appends_uncompleted_task() {
    let mut list = list_of(&[("first", true)]);
    list.add(b"second".to_vec());
    assert_eq!(list.len(), 2);
    assert_eq!(list.tasks[1].name, b"second".to_vec());
    assert!(!list.tasks[1].completed);
    assert_eq!(list.tasks[0].name, b"first".to_vec());
    assert!(list.tasks[0].completed);
}

#[test]
fn complete_touches_only_selected_task() {
    let mut list = list_of(&[("a", false), ("b", false), ("c", false)]);
    list.complete(1).unwrap();
    assert!(!list.tasks[0].completed);
    assert!(list.tasks[1].completed);
    assert!(!list.tasks[2].completed);
    assert_eq!(list.tasks[1].name, b"b".to_vec());
}

#[test]
fn complete_out_of_range_reports_and_changes_nothing() {
    let mut list = list_of(&[("a", false), ("b", true)]);
    let before = serialize_task_list(&list);
    assert_eq!(list.complete(2), Err(TodoError::IndexOutOfRange));
    assert_eq!(list.complete(100), Err(TodoError::IndexOutOfRange));
    assert_eq!(serialize_task_list(&list), before);
}

#[test]
fn parse_index_accepts_plain_numbers() {
    assert_eq!(parse_index(&b"0\n".to_vec()), Ok(0));
    assert_eq!(parse_index(&b" 42 \r\n".to_vec()), Ok(42));
    assert_eq!(parse_index(&b"7".to_vec()), Ok(7));
    assert_eq!(parse_index(&b"007".to_vec()), Ok(7));
}

#[test]
fn parse_index_rejects_bad_input() {
    assert_eq!(parse_index(&b"abc\n".to_vec()), Err(TodoError::InvalidInput));
    assert_eq!(parse_index(&b"".to_vec()), Err(TodoError::InvalidInput));
    assert_eq!(parse_index(&b"  \n".to_vec()), Err(TodoError::InvalidInput));
    assert_eq!(parse_index(&b"-1".to_vec()), Err(TodoError::InvalidInput));
    assert_eq!(parse_index(&b"1 2".to_vec()), Err(TodoError::InvalidInput));
    assert_eq!(
        parse_index(&b"999999999999999999999999999999".to_vec()),
        Err(TodoError::InvalidInput)
    );
}

#[test]
fn rendered_lines_show_name_and_status() {
    let done = Task::new(b"buy milk".to_vec());
    let line = render_task_line(&done);
    assert_eq!(line, b"buy milk [todo]".to_vec());
    let mut list = TaskList::empty();
    list.add(b"buy milk".to_vec());
    list.complete(0).unwrap();
    let line2 = render_task_line(&list.tasks[0]);
    assert_eq!(line2, b"buy milk [done]".to_vec());
    let line3 = render_indexed_task_line(12, &list.tasks[0]);
    assert_eq!(line3, b"12: buy milk [done]".to_vec());
}

#[test]
fn round_trip_empty_name() {
    let mut list = TaskList::empty();
    list.add(Vec::new());
    let out = serialize_task_list(&list);
    assert_eq!(out, b"{\"tasks\":[{\"name\":\"\",\"completed\":false}]}".to_vec());
    let back = parse_task_list(&out).unwrap();
    assert_eq!(back.tasks[0].name, Vec::<u8>::new());
}

#[test]
fn parse_accepts_uppercase_hex_escapes() {
    let doc = b"{\"tasks\":[{\"name\":\"\\u004A\\u004a\",\"completed\":true}]}".to_vec();
    let list = parse_task_list(&doc).unwrap();
    assert_eq!(list.tasks[0].name, b"JJ".to_vec());
}

#[test]
fn parse_all_short_escapes() {
    let doc = b"{\"tasks\":[{\"name\":\"\\b\\f\\r\\\"\\\\\",\"completed\":false}]}".to_vec();
    let list = parse_task_list(&doc).unwrap();
    assert_eq!(list.tasks[0].name, b"\x08\x0c\r\"\\".to_vec());
}

#[test]
fn completing_twice_keeps_the_task_done() {
    let mut list = TaskList::empty();
    list.add(b"once".to_vec());
    list.complete(0).unwrap();
    list.complete(0).unwrap();
    assert!(list.tasks[0].completed);
}
