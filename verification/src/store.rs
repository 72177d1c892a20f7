//! The pure core of each command: decode the backing file's bytes, apply
//! the requested change, and encode what must be written back.  The
//! surrounding application only moves bytes between this module, the file
//! and the console.

use vstd::prelude::*;

use crate::codec::lit_key_tasks;
use crate::codec::match_lit;
use crate::codec::parse_array;
use crate::codec::parse_task_list;
use crate::codec::ser_list;
use crate::codec::serialize_task_list;
use crate::codec::skip_ws;
use crate::codec::spec_parse;
use crate::input::parse_index;
use crate::input::parse_index_spec;
use crate::render::lines_views;
use crate::render::render_lines;
use crate::render::render_task_lines;
use crate::tasks::complete_view;
use crate::tasks::TaskList;
use crate::tasks::TaskView;
use crate::tasks::TodoError;

verus! {

/// `{"tasks": []}`: the content a freshly created backing file gets.
pub open spec fn initial_content_spec() -> Seq<u8> {
    seq![
        0x7bu8,
        0x22u8,
        0x74u8,
        0x61u8,
        0x73u8,
        0x6bu8,
        0x73u8,
        0x22u8,
        0x3au8,
        0x20u8,
        0x5bu8,
        0x5du8,
        0x7du8,
    ]
}

/// A freshly created backing file denotes the empty list.
pub proof fn lemma_initial_content_empty()
    ensures
        spec_parse(initial_content_spec()) == Some(Seq::<TaskView>::empty()),
{
    let s = initial_content_spec();
    assert(s.len() == 13);
    assert(skip_ws(s, 0) == 0);
    assert(skip_ws(s, 1) == 1);
    assert(s.subrange(1, 8) =~= lit_key_tasks());
    assert(match_lit(s, 1, lit_key_tasks()));
    assert(skip_ws(s, 8) == 8);
    assert(skip_ws(s, 10) == 10);
    assert(skip_ws(s, 9) == 10);
    assert(skip_ws(s, 11) == 11);
    assert(parse_array(s, 10) == Some((Seq::<TaskView>::empty(), 12int)));
    assert(skip_ws(s, 12) == 12);
    assert(skip_ws(s, 13) == 13);
    assert(spec_parse(s) == Some(Seq::<TaskView>::empty()));
}

/// The bytes a freshly created backing file gets.
pub fn initial_content() -> (v: Vec<u8>)
    ensures
        v@ == initial_content_spec(),
        spec_parse(v@) == Some(Seq::<TaskView>::empty()),
{
    let mut v: Vec<u8> = Vec::new();
    v.push(0x7b);
    v.push(0x22);
    v.push(0x74);
    v.push(0x61);
    v.push(0x73);
    v.push(0x6b);
    v.push(0x73);
    v.push(0x22);
    v.push(0x3a);
    v.push(0x20);
    v.push(0x5b);
    v.push(0x5d);
    v.push(0x7d);
    proof {
        assert(v@ =~= initial_content_spec());
        lemma_initial_content_empty();
    }
    v
}

/// Decodes the backing file's bytes; a file that does not hold a valid
/// task-list document is reported as `Parse`.
pub fn load_from_bytes(bytes: &Vec<u8>) -> (r: Result<TaskList, TodoError>)
    ensures
        spec_parse(bytes@) is Some ==> r is Ok && r->Ok_0@ == spec_parse(bytes@).unwrap(),
        spec_parse(bytes@) is None ==> r is Err && r->Err_0 == TodoError::Parse,
{
    match parse_task_list(bytes) {
        Some(l) => Ok(l),
        None => Err(TodoError::Parse),
    }
}

/// What `list` prints for given file content, when the content parses.
pub open spec fn list_output(file: Seq<u8>) -> Option<Seq<Seq<u8>>> {
    match spec_parse(file) {
        Some(ts) => Some(render_lines(ts)),
        None => None,
    }
}

/// One run of `list`: the file is left exactly as it was, and the output is
/// one line per task.
pub open spec fn list_step(file: Seq<u8>) -> (Seq<u8>, Option<Seq<Seq<u8>>>) {
    (file, list_output(file))
}

/// Running `list` twice in a row, with nothing in between, prints the same
/// lines both times: the first run leaves the file unchanged, so the second
/// sees the same bytes.
pub proof fn lemma_list_idempotent(file: Seq<u8>)
    ensures
        list_step(file).0 == file,
        list_step(list_step(file).0).1 == list_step(file).1,
{
}

/// The compute part of the `list` command.
pub fn run_list(file: &Vec<u8>) -> (r: Result<Vec<Vec<u8>>, TodoError>)
    ensures
        list_output(file@) is Some ==> r is Ok && lines_views(r->Ok_0@) == list_output(
            file@,
        ).unwrap(),
        list_output(file@) is None ==> r is Err && r->Err_0 == TodoError::Parse,
{
    match load_from_bytes(file) {
        Err(e) => Err(e),
        Ok(list) => Ok(render_task_lines(&list)),
    }
}

/// What `add` leaves in the file: the old list with one fresh, uncompleted
/// task at the end.
pub open spec fn add_step(file: Seq<u8>, name: Seq<u8>) -> Option<Seq<u8>> {
    match spec_parse(file) {
        Some(ts) => Some(ser_list(ts.push(TaskView { name: name, completed: false }))),
        None => None,
    }
}

/// The compute part of the `add` command: the returned bytes are the whole
/// new file content.
pub fn run_add(file: &Vec<u8>, name: Vec<u8>) -> (r: Result<Vec<u8>, TodoError>)
    ensures
        add_step(file@, name@) is Some ==> r is Ok && r->Ok_0@ == add_step(file@, name@).unwrap(),
        add_step(file@, name@) is None ==> r is Err && r->Err_0 == TodoError::Parse,
{
    match load_from_bytes(file) {
        Err(e) => Err(e),
        Ok(mut list) => {
            list.add(name);
            Ok(serialize_task_list(&list))
        },
    }
}

/// How one `complete` interaction ends.
#[derive(Debug)]
pub enum CompleteOutcome {
    /// The selected task is now done; the bytes are the whole new file
    /// content and must be written back.
    Updated(Vec<u8>),
    /// The console line named no index: do nothing, silently.
    InvalidSelection,
    /// The index names no task: report it, write nothing.
    OutOfRange,
}

/// The compute part of the `complete` command, given the file content and
/// the one console line that was read.  Only the `Updated` outcome carries
/// new file content; under every other outcome the file stays untouched.
pub fn run_complete(file: &Vec<u8>, line: &Vec<u8>) -> (r: Result<CompleteOutcome, TodoError>)
    ensures
        spec_parse(file@) is None ==> r is Err && r->Err_0 == TodoError::Parse,
        spec_parse(file@) is Some && parse_index_spec(line@) is None ==> r is Ok
            && r->Ok_0 is InvalidSelection,
        spec_parse(file@) is Some && parse_index_spec(line@) is Some && parse_index_spec(
            line@,
        ).unwrap() >= spec_parse(file@).unwrap().len() ==> r is Ok && r->Ok_0 is OutOfRange,
        spec_parse(file@) is Some && parse_index_spec(line@) is Some && parse_index_spec(
            line@,
        ).unwrap() < spec_parse(file@).unwrap().len() ==> r is Ok && r->Ok_0 is Updated
            && r->Ok_0->Updated_0@ == ser_list(
            complete_view(
                spec_parse(file@).unwrap(),
                parse_index_spec(line@).unwrap() as int,
            ),
        ),
{
    match load_from_bytes(file) {
        Err(e) => Err(e),
        Ok(mut list) => {
            match parse_index(line) {
                Err(_) => Ok(CompleteOutcome::InvalidSelection),
                Ok(index) => {
                    match list.complete(index) {
                        Err(_) => Ok(CompleteOutcome::OutOfRange),
                        Ok(()) => Ok(CompleteOutcome::Updated(serialize_task_list(&list))),
                    }
                },
            }
        },
    }
}

} // verus!
