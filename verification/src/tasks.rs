//! The task model: a single task and the ordered task list.

use vstd::prelude::*;

verus! {

/// The errors the to-do operations can report.
#[derive(Clone, Copy, Debug, PartialEq, Eq, Structural)]
pub enum TodoError {
    /// The backing file is missing, unreadable, or unwritable.
    FileAccess,
    /// The backing file's content is not a valid task-list document.
    Parse,
    /// The selected task index does not exist.
    IndexOutOfRange,
    /// The console input does not parse as an index.
    InvalidInput,
}

/// One to-do entry: a name (as UTF-8 bytes) and a completion flag.
pub struct Task {
    pub name: Vec<u8>,
    pub completed: bool,
}

/// Mathematical image of a task.
pub ghost struct TaskView {
    pub name: Seq<u8>,
    pub completed: bool,
}

impl View for Task {
    type V = TaskView;

    open spec fn view(&self) -> TaskView {
        TaskView { name: self.name@, completed: self.completed }
    }
}

impl Task {
    /// A fresh task starts uncompleted.
    pub fn new(name: Vec<u8>) -> (t: Task)
        ensures
            t@ == (TaskView { name: name@, completed: false }),
    {
        Task { name, completed: false }
    }
}

/// The views of a sequence of tasks, element by element.
pub open spec fn task_views(s: Seq<Task>) -> Seq<TaskView> {
    s.map_values(|t: Task| t@)
}

/// The list with the task at `i` marked done and nothing else changed.
pub open spec fn complete_view(ts: Seq<TaskView>, i: int) -> Seq<TaskView> {
    ts.update(i, TaskView { name: ts[i].name, completed: true })
}

/// Adding a task grows the list by exactly one; the new task is not
/// completed, and every task that was already there is untouched.
pub proof fn lemma_add_effect(ts: Seq<TaskView>, name: Seq<u8>)
    ensures
        ({
            let ts2 = ts.push(TaskView { name: name, completed: false });
            ts2.len() == ts.len() + 1 && ts2[ts.len() as int].name == name && ts2[ts.len() as int].completed
                == false && forall|k: int| 0 <= k < ts.len() ==> ts2[k] == ts[k]
        }),
{
}

/// Completing a valid index sets that task's flag and changes nothing else:
/// not its name, and no other task.
pub proof fn lemma_complete_effect(ts: Seq<TaskView>, i: int)
    requires
        0 <= i < ts.len(),
    ensures
        ({
            let ts2 = complete_view(ts, i);
            ts2.len() == ts.len() && ts2[i].completed == true && ts2[i].name == ts[i].name
                && forall|k: int| 0 <= k < ts.len() && k != i ==> ts2[k] == ts[k]
        }),
{
}

/// The full ordered list of tasks; position is the only identifier.
pub struct TaskList {
    pub tasks: Vec<Task>,
}

impl View for TaskList {
    type V = Seq<TaskView>;

    open spec fn view(&self) -> Seq<TaskView> {
        task_views(self.tasks@)
    }
}

impl TaskList {
    pub fn empty() -> (l: TaskList)
        ensures
            l@ == Seq::<TaskView>::empty(),
    {
        let l = TaskList { tasks: Vec::new() };
        proof {
            assert(l@ =~= Seq::<TaskView>::empty());
        }
        l
    }

    pub fn len(&self) -> (n: usize)
        ensures
            n == self@.len(),
    {
        self.tasks.len()
    }

    /// Appends a fresh task with `completed == false` to the end of the list.
    pub fn add(&mut self, name: Vec<u8>)
        ensures
            final(self)@ == old(self)@.push(TaskView { name: name@, completed: false }),
    {
        let ghost before = self@;
        self.tasks.push(Task { name, completed: false });
        proof {
            assert(self@ =~= before.push(self.tasks@.last()@));
        }
    }

    /// Marks the task at `index` complete; everything else is unchanged.
    /// Reports `IndexOutOfRange`, touching nothing, when `index` is too large.
    pub fn complete(&mut self, index: usize) -> (r: Result<(), TodoError>)
        ensures
            index < old(self)@.len() ==> r is Ok && final(self)@ == complete_view(
                old(self)@,
                index as int,
            ),
            index >= old(self)@.len() ==> r == Result::<(), TodoError>::Err(
                TodoError::IndexOutOfRange,
            ) && final(self)@ == old(self)@,
    {
        if index < self.tasks.len() {
            let ghost before = self@;
            let t = &mut self.tasks[index];
            t.completed = true;
            proof {
                assert(self@ =~= before.update(
                    index as int,
                    TaskView { name: before[index as int].name, completed: true },
                ));
            }
            Ok(())
        } else {
            Err(TodoError::IndexOutOfRange)
        }
    }
}

} // verus!
