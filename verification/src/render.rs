//! Rendering tasks as console lines.  A list line shows the name and the
//! completion mark; a selection line additionally starts with the task's
//! index.

use vstd::prelude::*;

use crate::codec::append_bytes;
use crate::tasks::Task;
use crate::tasks::TaskList;
use crate::tasks::TaskView;

verus! {

/// The decimal digits of `n`, most significant first.
pub open spec fn dec_repr(n: int) -> Seq<u8>
    decreases n,
{
    if n < 0 {
        Seq::empty()
    } else if n < 10 {
        seq![(0x30 + n) as u8]
    } else {
        dec_repr(n / 10) + seq![(0x30 + n % 10) as u8]
    }
}

/// ` [done]` or ` [todo]`.
pub open spec fn status_suffix(completed: bool) -> Seq<u8> {
    if completed {
        seq![0x20u8, 0x5bu8, 0x64u8, 0x6fu8, 0x6eu8, 0x65u8, 0x5du8]
    } else {
        seq![0x20u8, 0x5bu8, 0x74u8, 0x6fu8, 0x64u8, 0x6fu8, 0x5du8]
    }
}

/// One line of `list` output.
pub open spec fn render_task(t: TaskView) -> Seq<u8> {
    t.name + status_suffix(t.completed)
}

/// One line of the selection prompt: index, `: `, then the task line.
pub open spec fn render_indexed_task(i: int, t: TaskView) -> Seq<u8> {
    dec_repr(i) + seq![0x3au8, 0x20u8] + render_task(t)
}

/// All lines of `list` output, in task order.
pub open spec fn render_lines(ts: Seq<TaskView>) -> Seq<Seq<u8>> {
    ts.map_values(|t: TaskView| render_task(t))
}

/// All lines of the selection prompt, in task order.
pub open spec fn render_indexed_lines(ts: Seq<TaskView>) -> Seq<Seq<u8>> {
    Seq::new(ts.len(), |i: int| render_indexed_task(i, ts[i]))
}

/// The views of rendered lines, line by line.
pub open spec fn lines_views(lines: Seq<Vec<u8>>) -> Seq<Seq<u8>> {
    lines.map_values(|l: Vec<u8>| l@)
}

/// Appends the decimal digits of `n`.
fn push_decimal(out: &mut Vec<u8>, n: usize)
    ensures
        final(out)@ == old(out)@ + dec_repr(n as int),
    decreases n,
{
    if n < 10 {
        out.push(0x30 + (n as u8));
        proof {
            assert(out@ =~= old(out)@ + dec_repr(n as int));
        }
    } else {
        push_decimal(out, n / 10);
        out.push(0x30 + ((n % 10) as u8));
        proof {
            assert(out@ =~= old(out)@ + dec_repr(n as int));
        }
    }
}

/// Appends ` [done]` or ` [todo]`.
fn push_status(out: &mut Vec<u8>, completed: bool)
    ensures
        final(out)@ == old(out)@ + status_suffix(completed),
{
    out.push(0x20);
    out.push(0x5b);
    if completed {
        out.push(0x64);
        out.push(0x6f);
        out.push(0x6e);
        out.push(0x65);
    } else {
        out.push(0x74);
        out.push(0x6f);
        out.push(0x64);
        out.push(0x6f);
    }
    out.push(0x5d);
    proof {
        assert(out@ =~= old(out)@ + status_suffix(completed));
    }
}

/// One line of `list` output for one task.
pub fn render_task_line(t: &Task) -> (line: Vec<u8>)
    ensures
        line@ == render_task(t@),
{
    let mut line: Vec<u8> = Vec::new();
    append_bytes(&mut line, &t.name);
    push_status(&mut line, t.completed);
    proof {
        assert(line@ =~= render_task(t@));
    }
    line
}

/// One selection-prompt line for the task at `index`.
pub fn render_indexed_task_line(index: usize, t: &Task) -> (line: Vec<u8>)
    ensures
        line@ == render_indexed_task(index as int, t@),
{
    let mut line: Vec<u8> = Vec::new();
    push_decimal(&mut line, index);
    line.push(0x3a);
    line.push(0x20);
    append_bytes(&mut line, &t.name);
    push_status(&mut line, t.completed);
    proof {
        assert(line@ =~= render_indexed_task(index as int, t@));
    }
    line
}

/// The `list` output for a whole list, one line per task.
pub fn render_task_lines(list: &TaskList) -> (lines: Vec<Vec<u8>>)
    ensures
        lines_views(lines@) == render_lines(list@),
{
    let mut lines: Vec<Vec<u8>> = Vec::new();
    let mut i: usize = 0;
    proof {
        assert(lines_views(lines@) =~= render_lines(list@.take(0)));
    }
    while i < list.tasks.len()
        invariant
            i <= list.tasks.len(),
            list@.len() == list.tasks.len(),
            lines_views(lines@) == render_lines(list@.take(i as int)),
        decreases list.tasks.len() - i,
    {
        let line = render_task_line(&list.tasks[i]);
        let ghost pre = lines@;
        let ghost lv = line@;
        lines.push(line);
        proof {
            assert(list@[i as int] == list.tasks@[i as int]@);
            assert(lines_views(lines@) =~= lines_views(pre).push(lv));
            assert(list@.take(i + 1) =~= list@.take(i as int).push(list@[i as int]));
            assert(render_lines(list@.take(i as int).push(list@[i as int])) =~= render_lines(
                list@.take(i as int),
            ).push(render_task(list@[i as int])));
        }
        i = i + 1;
    }
    proof {
        assert(list@.take(list@.len() as int) =~= list@);
    }
    lines
}

/// The selection prompt for a whole list, one numbered line per task.
pub fn render_numbered_lines(list: &TaskList) -> (lines: Vec<Vec<u8>>)
    ensures
        lines_views(lines@) == render_indexed_lines(list@),
{
    let mut lines: Vec<Vec<u8>> = Vec::new();
    let mut i: usize = 0;
    proof {
        assert(lines_views(lines@) =~= render_indexed_lines(list@.take(0)));
    }
    while i < list.tasks.len()
        invariant
            i <= list.tasks.len(),
            list@.len() == list.tasks.len(),
            lines_views(lines@) == render_indexed_lines(list@.take(i as int)),
        decreases list.tasks.len() - i,
    {
        let line = render_indexed_task_line(i, &list.tasks[i]);
        let ghost pre = lines@;
        let ghost lv = line@;
        lines.push(line);
        proof {
            assert(list@[i as int] == list.tasks@[i as int]@);
            assert(lines_views(lines@) =~= lines_views(pre).push(lv));
            assert(list@.take(i + 1) =~= list@.take(i as int).push(list@[i as int]));
            assert(render_indexed_lines(list@.take(i + 1)) =~= render_indexed_lines(
                list@.take(i as int),
            ).push(render_indexed_task(i as int, list@[i as int])));
        }
        i = i + 1;
    }
    proof {
        assert(list@.take(list@.len() as int) =~= list@);
    }
    lines
}

} // verus!
