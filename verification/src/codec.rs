//! The on-disk format of the task list: a JSON document
//! `{"tasks":[{"name":...,"completed":...},...]}`, written canonically and
//! read back with tolerance for whitespace and for either field order inside
//! a task object.

use vstd::prelude::*;

use crate::tasks::TaskView;
use crate::tasks::Task;
use crate::tasks::TaskList;
use crate::tasks::task_views;

verus! {

// ---------------------------------------------------------------------------
// Byte-level helpers.
// ---------------------------------------------------------------------------

/// JSON insignificant whitespace.
pub open spec fn is_ws(b: u8) -> bool {
    b == 0x20 || b == 0x09 || b == 0x0a || b == 0x0d
}

/// The lower-case hex digit for a value below 16.
pub open spec fn hex_digit(n: u8) -> u8 {
    if n < 10 {
        (0x30 + n) as u8
    } else {
        (0x57 + n) as u8
    }
}

/// The value of one hex digit (either case), if it is one.
pub open spec fn hex_val(b: u8) -> Option<u8> {
    if 0x30 <= b && b <= 0x39 {
        Some((b - 0x30) as u8)
    } else if 0x61 <= b && b <= 0x66 {
        Some((b - 0x57) as u8)
    } else if 0x41 <= b && b <= 0x46 {
        Some((b - 0x37) as u8)
    } else {
        None
    }
}

// ---------------------------------------------------------------------------
// Serialization, as a mathematical function of the list.
// ---------------------------------------------------------------------------

/// How one name byte appears inside a JSON string: quote and backslash are
/// escaped, control bytes become `\u00XX`, everything else stands as itself.
pub open spec fn escape_byte(b: u8) -> Seq<u8> {
    if b == 0x22 {
        seq![0x5cu8, 0x22u8]
    } else if b == 0x5c {
        seq![0x5cu8, 0x5cu8]
    } else if b < 0x20 {
        seq![0x5cu8, 0x75u8, 0x30u8, 0x30u8, hex_digit(b / 16), hex_digit(b % 16)]
    } else {
        seq![b]
    }
}

/// The escaped form of a whole name.
pub open spec fn escape_bytes(s: Seq<u8>) -> Seq<u8>
    decreases s.len(),
{
    if s.len() == 0 {
        Seq::empty()
    } else {
        escape_byte(s[0]) + escape_bytes(s.skip(1))
    }
}

/// `{"name":"`
pub open spec fn lit_obj_open() -> Seq<u8> {
    seq![0x7bu8, 0x22u8, 0x6eu8, 0x61u8, 0x6du8, 0x65u8, 0x22u8, 0x3au8, 0x22u8]
}

/// `","completed":`
pub open spec fn lit_completed_sep() -> Seq<u8> {
    seq![
        0x22u8,
        0x2cu8,
        0x22u8,
        0x63u8,
        0x6fu8,
        0x6du8,
        0x70u8,
        0x6cu8,
        0x65u8,
        0x74u8,
        0x65u8,
        0x64u8,
        0x22u8,
        0x3au8,
    ]
}

/// `true`
pub open spec fn lit_true() -> Seq<u8> {
    seq![0x74u8, 0x72u8, 0x75u8, 0x65u8]
}

/// `false`
pub open spec fn lit_false() -> Seq<u8> {
    seq![0x66u8, 0x61u8, 0x6cu8, 0x73u8, 0x65u8]
}

/// `{"tasks":[`
pub open spec fn lit_list_open() -> Seq<u8> {
    seq![0x7bu8, 0x22u8, 0x74u8, 0x61u8, 0x73u8, 0x6bu8, 0x73u8, 0x22u8, 0x3au8, 0x5bu8]
}

/// One task object, canonically: `{"name":"...","completed":...}`.
pub open spec fn ser_task(t: TaskView) -> Seq<u8> {
    lit_obj_open() + escape_bytes(t.name) + lit_completed_sep() + (if t.completed {
        lit_true()
    } else {
        lit_false()
    }) + seq![0x7du8]
}

/// The task objects joined by commas.
pub open spec fn ser_tasks(ts: Seq<TaskView>) -> Seq<u8>
    decreases ts.len(),
{
    if ts.len() == 0 {
        Seq::empty()
    } else if ts.len() == 1 {
        ser_task(ts[0])
    } else {
        ser_task(ts[0]) + seq![0x2cu8] + ser_tasks(ts.skip(1))
    }
}

/// The whole document: `{"tasks":[...]}`.
pub open spec fn ser_list(ts: Seq<TaskView>) -> Seq<u8> {
    lit_list_open() + ser_tasks(ts) + seq![0x5du8, 0x7du8]
}

// ---------------------------------------------------------------------------
// Parsing, as a mathematical function of the bytes.  Whitespace between
// tokens is tolerated; inside a task object the two fields may come in
// either order.
// ---------------------------------------------------------------------------

/// `"name"`
pub open spec fn lit_key_name() -> Seq<u8> {
    seq![0x22u8, 0x6eu8, 0x61u8, 0x6du8, 0x65u8, 0x22u8]
}

/// `"completed"`
pub open spec fn lit_key_completed() -> Seq<u8> {
    seq![
        0x22u8,
        0x63u8,
        0x6fu8,
        0x6du8,
        0x70u8,
        0x6cu8,
        0x65u8,
        0x74u8,
        0x65u8,
        0x64u8,
        0x22u8,
    ]
}

/// `"tasks"`
pub open spec fn lit_key_tasks() -> Seq<u8> {
    seq![0x22u8, 0x74u8, 0x61u8, 0x73u8, 0x6bu8, 0x73u8, 0x22u8]
}

/// The first index at or after `i` that does not hold whitespace.
pub open spec fn skip_ws(s: Seq<u8>, i: int) -> int
    decreases s.len() - i,
{
    if 0 <= i && i < s.len() && is_ws(s[i]) {
        skip_ws(s, i + 1)
    } else {
        i
    }
}

pub proof fn lemma_skip_ws_bounds(s: Seq<u8>, i: int)
    requires
        0 <= i <= s.len(),
    ensures
        i <= skip_ws(s, i) <= s.len(),
        skip_ws(s, i) < s.len() ==> !is_ws(s[skip_ws(s, i)]),
    decreases s.len() - i,
{
    if i < s.len() && is_ws(s[i]) {
        lemma_skip_ws_bounds(s, i + 1);
    }
}

/// Do the bytes of `lit` stand at index `i`?
pub open spec fn match_lit(s: Seq<u8>, i: int, lit: Seq<u8>) -> bool {
    0 <= i && i + lit.len() <= s.len() && s.subrange(i, i + lit.len()) == lit
}

/// The byte a single-character escape stands for, if the character is one.
pub open spec fn unescape_char(e: u8) -> Option<u8> {
    if e == 0x22 {
        Some(0x22u8)
    } else if e == 0x5c {
        Some(0x5cu8)
    } else if e == 0x2f {
        Some(0x2fu8)
    } else if e == 0x62 {
        Some(0x08u8)
    } else if e == 0x66 {
        Some(0x0cu8)
    } else if e == 0x6e {
        Some(0x0au8)
    } else if e == 0x72 {
        Some(0x0du8)
    } else if e == 0x74 {
        Some(0x09u8)
    } else {
        None
    }
}

/// The inside of a JSON string from `i` up to its closing quote: the decoded
/// bytes and the index just past the quote.  Raw control bytes are rejected;
/// `\uXXXX` is accepted for code points up to `0x7f`.
pub open spec fn parse_string_body(s: Seq<u8>, i: int) -> Option<(Seq<u8>, int)>
    decreases s.len() - i,
{
    if i < 0 || i >= s.len() {
        None
    } else if s[i] == 0x22 {
        Some((Seq::empty(), i + 1))
    } else if s[i] == 0x5c {
        if i + 1 < s.len() {
            let e = s[i + 1];
            if e == 0x75 {
                if i + 6 <= s.len() && hex_val(s[i + 2]) is Some && hex_val(s[i + 3]) is Some
                    && hex_val(s[i + 4]) is Some && hex_val(s[i + 5]) is Some {
                    let v = hex_val(s[i + 2]).unwrap() * 4096 + hex_val(s[i + 3]).unwrap() * 256
                        + hex_val(s[i + 4]).unwrap() * 16 + hex_val(s[i + 5]).unwrap();
                    if v <= 0x7f {
                        match parse_string_body(s, i + 6) {
                            Some(r) => Some((seq![v as u8] + r.0, r.1)),
                            None => None,
                        }
                    } else {
                        None
                    }
                } else {
                    None
                }
            } else {
                match unescape_char(e) {
                    Some(b) => match parse_string_body(s, i + 2) {
                        Some(r) => Some((seq![b] + r.0, r.1)),
                        None => None,
                    },
                    None => None,
                }
            }
        } else {
            None
        }
    } else if s[i] < 0x20 {
        None
    } else {
        match parse_string_body(s, i + 1) {
            Some(r) => Some((seq![s[i]] + r.0, r.1)),
            None => None,
        }
    }
}

pub proof fn lemma_parse_string_body_bounds(s: Seq<u8>, i: int)
    requires
        parse_string_body(s, i) is Some,
    ensures
        i < parse_string_body(s, i).unwrap().1 <= s.len(),
    decreases s.len() - i,
{
    if s[i] == 0x22 {
    } else if s[i] == 0x5c {
        if s[i + 1] == 0x75 {
            lemma_parse_string_body_bounds(s, i + 6);
        } else {
            lemma_parse_string_body_bounds(s, i + 2);
        }
    } else {
        lemma_parse_string_body_bounds(s, i + 1);
    }
}

/// `true` or `false` at index `i`.
pub open spec fn parse_bool(s: Seq<u8>, i: int) -> Option<(bool, int)> {
    if match_lit(s, i, lit_true()) {
        Some((true, i + 4))
    } else if match_lit(s, i, lit_false()) {
        Some((false, i + 5))
    } else {
        None
    }
}

/// A colon, then a quoted string, with whitespace around the colon.
pub open spec fn parse_colon_string(s: Seq<u8>, i: int) -> Option<(Seq<u8>, int)> {
    let j = skip_ws(s, i);
    if 0 <= j && j < s.len() && s[j] == 0x3a {
        let k = skip_ws(s, j + 1);
        if 0 <= k && k < s.len() && s[k] == 0x22 {
            parse_string_body(s, k + 1)
        } else {
            None
        }
    } else {
        None
    }
}

pub proof fn lemma_parse_colon_string_bounds(s: Seq<u8>, i: int)
    requires
        0 <= i <= s.len(),
        parse_colon_string(s, i) is Some,
    ensures
        i < parse_colon_string(s, i).unwrap().1 <= s.len(),
{
    lemma_skip_ws_bounds(s, i);
    let j = skip_ws(s, i);
    lemma_skip_ws_bounds(s, j + 1);
    let k = skip_ws(s, j + 1);
    lemma_parse_string_body_bounds(s, k + 1);
}

/// A colon, then a boolean, with whitespace around the colon.
pub open spec fn parse_colon_bool(s: Seq<u8>, i: int) -> Option<(bool, int)> {
    let j = skip_ws(s, i);
    if 0 <= j && j < s.len() && s[j] == 0x3a {
        parse_bool(s, skip_ws(s, j + 1))
    } else {
        None
    }
}

pub proof fn lemma_parse_colon_bool_bounds(s: Seq<u8>, i: int)
    requires
        0 <= i <= s.len(),
        parse_colon_bool(s, i) is Some,
    ensures
        i < parse_colon_bool(s, i).unwrap().1 <= s.len(),
{
    lemma_skip_ws_bounds(s, i);
    let j = skip_ws(s, i);
    lemma_skip_ws_bounds(s, j + 1);
}

/// The closing brace of a task object, after optional whitespace.
pub open spec fn parse_task_close(s: Seq<u8>, i: int, t: TaskView) -> Option<(TaskView, int)> {
    let j = skip_ws(s, i);
    if 0 <= j && j < s.len() && s[j] == 0x7d {
        Some((t, j + 1))
    } else {
        None
    }
}

/// One task object at index `i`; the two fields may come in either order.
pub open spec fn parse_task(s: Seq<u8>, i: int) -> Option<(TaskView, int)> {
    if 0 <= i && i < s.len() && s[i] == 0x7b {
        let j = skip_ws(s, i + 1);
        if match_lit(s, j, lit_key_name()) {
            match parse_colon_string(s, j + 6) {
                Some(ns) => {
                    let k = skip_ws(s, ns.1);
                    if 0 <= k && k < s.len() && s[k] == 0x2c {
                        let m = skip_ws(s, k + 1);
                        if match_lit(s, m, lit_key_completed()) {
                            match parse_colon_bool(s, m + 11) {
                                Some(cb) => parse_task_close(
                                    s,
                                    cb.1,
                                    TaskView { name: ns.0, completed: cb.0 },
                                ),
                                None => None,
                            }
                        } else {
                            None
                        }
                    } else {
                        None
                    }
                }
                None => None,
            }
        } else if match_lit(s, j, lit_key_completed()) {
            match parse_colon_bool(s, j + 11) {
                Some(cb) => {
                    let k = skip_ws(s, cb.1);
                    if 0 <= k && k < s.len() && s[k] == 0x2c {
                        let m = skip_ws(s, k + 1);
                        if match_lit(s, m, lit_key_name()) {
                            match parse_colon_string(s, m + 6) {
                                Some(ns) => parse_task_close(
                                    s,
                                    ns.1,
                                    TaskView { name: ns.0, completed: cb.0 },
                                ),
                                None => None,
                            }
                        } else {
                            None
                        }
                    } else {
                        None
                    }
                }
                None => None,
            }
        } else {
            None
        }
    } else {
        None
    }
}

pub proof fn lemma_parse_task_bounds(s: Seq<u8>, i: int)
    requires
        parse_task(s, i) is Some,
    ensures
        i < parse_task(s, i).unwrap().1 <= s.len(),
{
    lemma_skip_ws_bounds(s, i + 1);
    let j = skip_ws(s, i + 1);
    if match_lit(s, j, lit_key_name()) {
        lemma_parse_colon_string_bounds(s, j + 6);
        let ns = parse_colon_string(s, j + 6).unwrap();
        lemma_skip_ws_bounds(s, ns.1);
        let k = skip_ws(s, ns.1);
        lemma_skip_ws_bounds(s, k + 1);
        let m = skip_ws(s, k + 1);
        lemma_parse_colon_bool_bounds(s, m + 11);
        let cb = parse_colon_bool(s, m + 11).unwrap();
        lemma_skip_ws_bounds(s, cb.1);
    } else {
        lemma_parse_colon_bool_bounds(s, j + 11);
        let cb = parse_colon_bool(s, j + 11).unwrap();
        lemma_skip_ws_bounds(s, cb.1);
        let k = skip_ws(s, cb.1);
        lemma_skip_ws_bounds(s, k + 1);
        let m = skip_ws(s, k + 1);
        lemma_parse_colon_string_bounds(s, m + 6);
        let ns = parse_colon_string(s, m + 6).unwrap();
        lemma_skip_ws_bounds(s, ns.1);
    }
}

/// The rest of the array after a task: either `]`, or a comma and another
/// task, repeated.
pub open spec fn parse_more(s: Seq<u8>, i: int) -> Option<(Seq<TaskView>, int)>
    decreases s.len() - i,
{
    if i < 0 || i > s.len() {
        None
    } else {
        let j = skip_ws(s, i);
        if j < s.len() && s[j] == 0x5d {
            Some((Seq::empty(), j + 1))
        } else if j < s.len() && s[j] == 0x2c {
            let k = skip_ws(s, j + 1);
            match parse_task(s, k) {
                Some(tm) => {
                    if i < tm.1 && tm.1 <= s.len() {
                        match parse_more(s, tm.1) {
                            Some(r) => Some((seq![tm.0] + r.0, r.1)),
                            None => None,
                        }
                    } else {
                        None
                    }
                }
                None => None,
            }
        } else {
            None
        }
    }
}

/// The whole `[...]` array of tasks at index `i`.
pub open spec fn parse_array(s: Seq<u8>, i: int) -> Option<(Seq<TaskView>, int)> {
    if 0 <= i && i < s.len() && s[i] == 0x5b {
        let j = skip_ws(s, i + 1);
        if j < s.len() && s[j] == 0x5d {
            Some((Seq::empty(), j + 1))
        } else {
            match parse_task(s, j) {
                Some(tm) => match parse_more(s, tm.1) {
                    Some(r) => Some((seq![tm.0] + r.0, r.1)),
                    None => None,
                },
                None => None,
            }
        }
    } else {
        None
    }
}

/// The whole document: `{"tasks":[...]}` and nothing but trailing
/// whitespace after it.
pub open spec fn spec_parse(s: Seq<u8>) -> Option<Seq<TaskView>> {
    let i = skip_ws(s, 0);
    if i < s.len() && s[i] == 0x7b {
        let j = skip_ws(s, i + 1);
        if match_lit(s, j, lit_key_tasks()) {
            let k = skip_ws(s, j + 7);
            if 0 <= k && k < s.len() && s[k] == 0x3a {
                match parse_array(s, skip_ws(s, k + 1)) {
                    Some(r) => {
                        let e = skip_ws(s, r.1);
                        if 0 <= e && e < s.len() && s[e] == 0x7d {
                            if skip_ws(s, e + 1) == s.len() {
                                Some(r.0)
                            } else {
                                None
                            }
                        } else {
                            None
                        }
                    }
                    None => None,
                }
            } else {
                None
            }
        } else {
            None
        }
    } else {
        None
    }
}

// ---------------------------------------------------------------------------
// The executable serializer.
// ---------------------------------------------------------------------------

/// Appending a byte extends the escaped image by that byte's escape.
proof fn lemma_escape_bytes_push(s: Seq<u8>, b: u8)
    ensures
        escape_bytes(s.push(b)) == escape_bytes(s) + escape_byte(b),
    decreases s.len(),
{
    if s.len() == 0 {
        assert(s.push(b)[0] == b);
        assert(s.push(b).skip(1) =~= Seq::<u8>::empty());
        assert(escape_bytes(s.push(b)) == escape_byte(b) + escape_bytes(Seq::<u8>::empty()));
        assert(escape_byte(b) + Seq::<u8>::empty() =~= escape_byte(b));
        assert(escape_bytes(s) + escape_byte(b) =~= escape_byte(b));
    } else {
        assert(s.push(b)[0] == s[0]);
        assert(s.push(b).skip(1) =~= s.skip(1).push(b));
        lemma_escape_bytes_push(s.skip(1), b);
        assert(escape_bytes(s.push(b)) == escape_byte(s[0]) + (escape_bytes(s.skip(1))
            + escape_byte(b)));
        assert(escape_byte(s[0]) + (escape_bytes(s.skip(1)) + escape_byte(b)) =~= (escape_byte(
            s[0],
        ) + escape_bytes(s.skip(1))) + escape_byte(b));
    }
}

/// A list one task longer serializes to the old image, a comma when the old
/// list was not empty, and the new task's image.
proof fn lemma_ser_tasks_push(ts: Seq<TaskView>, t: TaskView)
    ensures
        ts.len() == 0 ==> ser_tasks(ts.push(t)) == ser_task(t),
        ts.len() > 0 ==> ser_tasks(ts.push(t)) == ser_tasks(ts) + seq![0x2cu8] + ser_task(t),
    decreases ts.len(),
{
    if ts.len() == 0 {
        assert(ts.push(t)[0] == t);
    } else if ts.len() == 1 {
        assert(ts.push(t)[0] == ts[0]);
        assert(ts.push(t).skip(1) =~= seq![t]);
        assert(seq![t][0] == t);
        assert(ser_tasks(seq![t]) == ser_task(t));
        assert(ser_tasks(ts.push(t)) == ser_task(ts[0]) + seq![0x2cu8] + ser_task(t));
        assert(ser_tasks(ts) == ser_task(ts[0]));
    } else {
        assert(ts.push(t)[0] == ts[0]);
        assert(ts.push(t).skip(1) =~= ts.skip(1).push(t));
        lemma_ser_tasks_push(ts.skip(1), t);
        assert(ts.skip(1).len() > 0);
        assert(ser_tasks(ts.push(t)) == ser_task(ts[0]) + seq![0x2cu8] + (ser_tasks(ts.skip(1))
            + seq![0x2cu8] + ser_task(t)));
        assert(ser_task(ts[0]) + seq![0x2cu8] + (ser_tasks(ts.skip(1)) + seq![0x2cu8] + ser_task(
            t,
        )) =~= (ser_task(ts[0]) + seq![0x2cu8] + ser_tasks(ts.skip(1))) + seq![0x2cu8] + ser_task(
            t,
        ));
    }
}

/// Appends every byte of `lit` to `out`.
pub(crate) fn append_bytes(out: &mut Vec<u8>, lit: &Vec<u8>)
    ensures
        final(out)@ == old(out)@ + lit@,
{
    let mut k: usize = 0;
    while k < lit.len()
        invariant
            k <= lit.len(),
            out@ == old(out)@ + lit@.take(k as int),
        decreases lit.len() - k,
    {
        out.push(lit[k]);
        proof {
            assert(old(out)@ + lit@.take(k as int) + seq![lit@[k as int]] =~= old(out)@
                + lit@.take(k + 1));
        }
        k = k + 1;
    }
    proof {
        assert(lit@.take(lit@.len() as int) =~= lit@);
    }
}

/// `{"name":"` as bytes.
fn obj_open_vec() -> (v: Vec<u8>)
    ensures
        v@ == lit_obj_open(),
{
    let mut v: Vec<u8> = Vec::new();
    v.push(0x7b);
    v.push(0x22);
    v.push(0x6e);
    v.push(0x61);
    v.push(0x6d);
    v.push(0x65);
    v.push(0x22);
    v.push(0x3a);
    v.push(0x22);
    proof {
        assert(v@ =~= lit_obj_open());
    }
    v
}

/// `","completed":` as bytes.
fn completed_sep_vec() -> (v: Vec<u8>)
    ensures
        v@ == lit_completed_sep(),
{
    let mut v: Vec<u8> = Vec::new();
    v.push(0x22);
    v.push(0x2c);
    v.push(0x22);
    v.push(0x63);
    v.push(0x6f);
    v.push(0x6d);
    v.push(0x70);
    v.push(0x6c);
    v.push(0x65);
    v.push(0x74);
    v.push(0x65);
    v.push(0x64);
    v.push(0x22);
    v.push(0x3a);
    proof {
        assert(v@ =~= lit_completed_sep());
    }
    v
}

/// `true` as bytes.
fn true_vec() -> (v: Vec<u8>)
    ensures
        v@ == lit_true(),
{
    let mut v: Vec<u8> = Vec::new();
    v.push(0x74);
    v.push(0x72);
    v.push(0x75);
    v.push(0x65);
    proof {
        assert(v@ =~= lit_true());
    }
    v
}

/// `false` as bytes.
fn false_vec() -> (v: Vec<u8>)
    ensures
        v@ == lit_false(),
{
    let mut v: Vec<u8> = Vec::new();
    v.push(0x66);
    v.push(0x61);
    v.push(0x6c);
    v.push(0x73);
    v.push(0x65);
    proof {
        assert(v@ =~= lit_false());
    }
    v
}

/// `{"tasks":[` as bytes.
fn list_open_vec() -> (v: Vec<u8>)
    ensures
        v@ == lit_list_open(),
{
    let mut v: Vec<u8> = Vec::new();
    v.push(0x7b);
    v.push(0x22);
    v.push(0x74);
    v.push(0x61);
    v.push(0x73);
    v.push(0x6b);
    v.push(0x73);
    v.push(0x22);
    v.push(0x3a);
    v.push(0x5b);
    proof {
        assert(v@ =~= lit_list_open());
    }
    v
}

/// The lower-case hex digit of a value below 16.
fn hex_digit_exec(n: u8) -> (r: u8)
    requires
        n < 16,
    ensures
        r == hex_digit(n),
{
    if n < 10 {
        0x30 + n
    } else {
        0x57 + n
    }
}

/// Appends the escaped form of one name byte.
fn append_escaped_byte(out: &mut Vec<u8>, b: u8)
    ensures
        final(out)@ == old(out)@ + escape_byte(b),
{
    if b == 0x22 {
        out.push(0x5c);
        out.push(0x22);
        proof {
            assert(out@ =~= old(out)@ + escape_byte(b));
        }
    } else if b == 0x5c {
        out.push(0x5c);
        out.push(0x5c);
        proof {
            assert(out@ =~= old(out)@ + escape_byte(b));
        }
    } else if b < 0x20 {
        out.push(0x5c);
        out.push(0x75);
        out.push(0x30);
        out.push(0x30);
        out.push(hex_digit_exec(b / 16));
        out.push(hex_digit_exec(b % 16));
        proof {
            assert(out@ =~= old(out)@ + escape_byte(b));
        }
    } else {
        out.push(b);
        proof {
            assert(out@ =~= old(out)@ + escape_byte(b));
        }
    }
}

/// Appends the escaped form of a whole name.
fn append_escaped(out: &mut Vec<u8>, name: &Vec<u8>)
    ensures
        final(out)@ == old(out)@ + escape_bytes(name@),
{
    let mut k: usize = 0;
    while k < name.len()
        invariant
            k <= name.len(),
            out@ == old(out)@ + escape_bytes(name@.take(k as int)),
        decreases name.len() - k,
    {
        append_escaped_byte(out, name[k]);
        proof {
            lemma_escape_bytes_push(name@.take(k as int), name@[k as int]);
            assert(name@.take(k as int).push(name@[k as int]) =~= name@.take(k + 1));
            assert(old(out)@ + escape_bytes(name@.take(k as int)) + escape_byte(name@[k as int])
                =~= old(out)@ + escape_bytes(name@.take(k + 1)));
        }
        k = k + 1;
    }
    proof {
        assert(name@.take(name@.len() as int) =~= name@);
    }
}

/// Appends the canonical image of one task.
fn append_task(out: &mut Vec<u8>, t: &Task)
    ensures
        final(out)@ == old(out)@ + ser_task(t@),
{
    let open = obj_open_vec();
    append_bytes(out, &open);
    append_escaped(out, &t.name);
    let sep = completed_sep_vec();
    append_bytes(out, &sep);
    if t.completed {
        let w = true_vec();
        append_bytes(out, &w);
    } else {
        let w = false_vec();
        append_bytes(out, &w);
    }
    out.push(0x7d);
    proof {
        assert(out@ =~= old(out)@ + ser_task(t@));
    }
}

/// Serializes the whole list to its canonical JSON document.
pub fn serialize_task_list(list: &TaskList) -> (out: Vec<u8>)
    ensures
        out@ == ser_list(list@),
{
    let mut out: Vec<u8> = Vec::new();
    let open = list_open_vec();
    append_bytes(&mut out, &open);
    proof {
        assert(Seq::<u8>::empty() + lit_list_open() =~= lit_list_open());
        assert(list@.take(0) =~= Seq::<TaskView>::empty());
    }
    let mut i: usize = 0;
    while i < list.tasks.len()
        invariant
            i <= list.tasks.len(),
            list@.len() == list.tasks.len(),
            out@ == lit_list_open() + ser_tasks(list@.take(i as int)),
        decreases list.tasks.len() - i,
    {
        if i > 0 {
            out.push(0x2c);
        }
        let ghost mid = out@;
        append_task(&mut out, &list.tasks[i]);
        proof {
            let prefix = list@.take(i as int);
            let tv = list@[i as int];
            lemma_ser_tasks_push(prefix, tv);
            assert(prefix.push(tv) =~= list@.take(i + 1));
            if i == 0 {
                assert(out@ =~= lit_list_open() + ser_tasks(list@.take(i + 1)));
            } else {
                assert(mid =~= lit_list_open() + (ser_tasks(prefix) + seq![0x2cu8]));
                assert(out@ =~= lit_list_open() + ser_tasks(list@.take(i + 1)));
            }
        }
        i = i + 1;
    }
    out.push(0x5d);
    out.push(0x7d);
    proof {
        assert(list@.take(list@.len() as int) =~= list@);
        assert(out@ =~= ser_list(list@));
    }
    out
}

// ---------------------------------------------------------------------------
// Round trip: parsing a canonical serialization yields the original list.
// ---------------------------------------------------------------------------

/// A comma and a task image, for every task: how tasks past the first one
/// appear in the array.
pub open spec fn ser_tasks_rest(ts: Seq<TaskView>) -> Seq<u8>
    decreases ts.len(),
{
    if ts.len() == 0 {
        Seq::empty()
    } else {
        seq![0x2cu8] + ser_task(ts[0]) + ser_tasks_rest(ts.skip(1))
    }
}

proof fn lemma_ser_tasks_split(ts: Seq<TaskView>)
    requires
        ts.len() > 0,
    ensures
        ser_tasks(ts) == ser_task(ts[0]) + ser_tasks_rest(ts.skip(1)),
    decreases ts.len(),
{
    if ts.len() == 1 {
        assert(ser_tasks_rest(ts.skip(1)) =~= Seq::<u8>::empty());
        assert(ser_task(ts[0]) + Seq::<u8>::empty() =~= ser_task(ts[0]));
    } else {
        lemma_ser_tasks_split(ts.skip(1));
        assert(ts.skip(1)[0] == ts[1]);
        assert(ser_tasks(ts) == ser_task(ts[0]) + seq![0x2cu8] + (ser_task(ts[1])
            + ser_tasks_rest(ts.skip(1).skip(1))));
        assert(ser_tasks_rest(ts.skip(1)) == seq![0x2cu8] + ser_task(ts[1]) + ser_tasks_rest(
            ts.skip(1).skip(1),
        ));
        assert(ser_task(ts[0]) + seq![0x2cu8] + (ser_task(ts[1]) + ser_tasks_rest(
            ts.skip(1).skip(1),
        )) =~= ser_task(ts[0]) + (seq![0x2cu8] + ser_task(ts[1]) + ser_tasks_rest(
            ts.skip(1).skip(1),
        )));
    }
}

/// Reading an escaped name back gives the name.
proof fn lemma_parse_string_canonical(pre: Seq<u8>, name: Seq<u8>, rest: Seq<u8>)
    ensures
        parse_string_body(pre + escape_bytes(name) + seq![0x22u8] + rest, pre.len() as int)
            == Some((name, pre.len() + escape_bytes(name).len() as int + 1)),
    decreases name.len(),
{
    let s = pre + escape_bytes(name) + seq![0x22u8] + rest;
    let i = pre.len() as int;
    if name.len() == 0 {
        assert(s[i] == 0x22);
    } else {
        let b = name[0];
        let tail = name.skip(1);
        assert(escape_bytes(name) == escape_byte(b) + escape_bytes(tail));
        let pre2 = pre + escape_byte(b);
        let s2 = pre2 + escape_bytes(tail) + seq![0x22u8] + rest;
        assert(s =~= s2);
        lemma_parse_string_canonical(pre2, tail, rest);
        let i2 = pre2.len() as int;
        assert(parse_string_body(s, i2) == Some((tail, i2 + escape_bytes(tail).len() + 1)));
        assert(seq![b] + tail =~= name);
        if b == 0x22 {
            assert(s[i] == 0x5c && s[i + 1] == 0x22);
            assert(i2 == i + 2);
            assert(parse_string_body(s, i) == Some((seq![b] + tail, i2 + escape_bytes(
                tail,
            ).len() + 1)));
        } else if b == 0x5c {
            assert(s[i] == 0x5c && s[i + 1] == 0x5c);
            assert(i2 == i + 2);
            assert(parse_string_body(s, i) == Some((seq![b] + tail, i2 + escape_bytes(
                tail,
            ).len() + 1)));
        } else if b < 0x20 {
            assert(s[i] == 0x5c && s[i + 1] == 0x75 && s[i + 2] == 0x30 && s[i + 3] == 0x30 && s[i
                + 4] == hex_digit(b / 16) && s[i + 5] == hex_digit(b % 16));
            assert(i2 == i + 6);
            assert(hex_val(0x30u8) == Some(0u8));
            assert(hex_val(hex_digit(b / 16)) == Some((b / 16) as u8));
            assert(hex_val(hex_digit(b % 16)) == Some((b % 16) as u8));
            let v = 0 * 4096 + 0 * 256 + (b / 16) * 16 + (b % 16);
            assert(v == b);
            assert(parse_string_body(s, i) == Some((seq![b] + tail, i2 + escape_bytes(
                tail,
            ).len() + 1)));
        } else {
            assert(s[i] == b);
            assert(i2 == i + 1);
            assert(parse_string_body(s, i) == Some((seq![b] + tail, i2 + escape_bytes(
                tail,
            ).len() + 1)));
        }
    }
}

/// The name field of a canonical task image parses back to the name.
#[verifier::rlimit(100)]
proof fn lemma_task_name_part(pre: Seq<u8>, t: TaskView, rest: Seq<u8>)
    ensures
        ({
            let s = pre + ser_task(t) + rest;
            let i = pre.len() as int;
            let q = i + 10 + escape_bytes(t.name).len() as int;
            s[i] == 0x7b && skip_ws(s, i + 1) == i + 1 && match_lit(s, i + 1, lit_key_name())
                && parse_colon_string(s, i + 7) == Some((t.name, q))
        }),
{
    let s = pre + ser_task(t) + rest;
    let i = pre.len() as int;
    let esc = escape_bytes(t.name);
    let blit = if t.completed {
        lit_true()
    } else {
        lit_false()
    };
    assert(ser_task(t) == lit_obj_open() + esc + lit_completed_sep() + blit + seq![0x7du8]);
    assert forall|k: int| 0 <= k < 9 implies s[i + k] == lit_obj_open()[k] by {
        assert(ser_task(t)[k] == lit_obj_open()[k]);
    }
    assert(s[i] == 0x7b);
    assert(!is_ws(s[i + 1]));
    assert(skip_ws(s, i + 1) == i + 1);
    assert(s.subrange(i + 1, i + 7) =~= lit_key_name());
    assert(match_lit(s, i + 1, lit_key_name()));
    assert(s[i + 7] == 0x3a && !is_ws(s[i + 7]));
    assert(skip_ws(s, i + 7) == i + 7);
    assert(s[i + 8] == 0x22 && !is_ws(s[i + 8]));
    assert(skip_ws(s, i + 8) == i + 8);
    let pre2 = pre + lit_obj_open();
    let rest2 = lit_completed_sep().skip(1) + blit + seq![0x7du8] + rest;
    assert(s =~= pre2 + esc + seq![0x22u8] + rest2);
    lemma_parse_string_canonical(pre2, t.name, rest2);
    assert(parse_string_body(s, i + 9) == Some((t.name, i + 9 + esc.len() + 1)));
    assert(parse_colon_string(s, i + 7) == Some((t.name, i + 9 + esc.len() + 1)));
}

/// The completed field and closing brace of a canonical task image parse
/// back to the flag and the end of the image.
#[verifier::rlimit(100)]
proof fn lemma_task_completed_part(pre: Seq<u8>, t: TaskView, rest: Seq<u8>)
    ensures
        ({
            let s = pre + ser_task(t) + rest;
            let i = pre.len() as int;
            let q = i + 10 + escape_bytes(t.name).len() as int;
            let z = q + 13 + (if t.completed {
                4int
            } else {
                5int
            });
            skip_ws(s, q) == q && s[q] == 0x2c && skip_ws(s, q + 1) == q + 1 && match_lit(
                s,
                q + 1,
                lit_key_completed(),
            ) && parse_colon_bool(s, q + 12) == Some((t.completed, z)) && parse_task_close(s, z, t)
                == Some((t, i + ser_task(t).len() as int))
        }),
{
    let s = pre + ser_task(t) + rest;
    let i = pre.len() as int;
    let esc = escape_bytes(t.name);
    let blit = if t.completed {
        lit_true()
    } else {
        lit_false()
    };
    assert(ser_task(t) == lit_obj_open() + esc + lit_completed_sep() + blit + seq![0x7du8]);
    let q = i + 10 + esc.len() as int;
    assert forall|k: int| 0 <= k < 14 implies s[q - 1 + k] == lit_completed_sep()[k] by {
        assert(ser_task(t)[9 + esc.len() + k] == lit_completed_sep()[k]);
    }
    assert(s[q] == 0x2c && !is_ws(s[q]));
    assert(skip_ws(s, q) == q);
    assert(s[q + 1] == 0x22 && !is_ws(s[q + 1]));
    assert(skip_ws(s, q + 1) == q + 1);
    assert(s.subrange(q + 1, q + 12) =~= lit_key_completed());
    assert(match_lit(s, q + 1, lit_key_completed()));
    assert(s[q + 12] == 0x3a && !is_ws(s[q + 12]));
    assert(skip_ws(s, q + 12) == q + 12);
    let w = q + 13;
    assert forall|k: int| 0 <= k < blit.len() implies s[w + k] == blit[k] by {
        assert(ser_task(t)[9 + esc.len() + 14 + k] == blit[k]);
    }
    assert(!is_ws(s[w]));
    assert(skip_ws(s, w) == w);
    if t.completed {
        assert(s.subrange(w, w + 4) =~= lit_true());
        assert(match_lit(s, w, lit_true()));
        assert(parse_bool(s, w) == Some((true, w + 4)));
    } else {
        if match_lit(s, w, lit_true()) {
            assert(s.subrange(w, w + 4)[0] == s[w]);
            assert(false);
        }
        assert(s.subrange(w, w + 5) =~= lit_false());
        assert(match_lit(s, w, lit_false()));
        assert(parse_bool(s, w) == Some((false, w + 5)));
    }
    assert(parse_colon_bool(s, q + 12) == Some((t.completed, w + blit.len())));
    let z = w + blit.len() as int;
    assert(s[z] == 0x7d) by {
        assert(ser_task(t)[23 + esc.len() as int + blit.len() as int] == 0x7d);
    }
    assert(!is_ws(s[z]));
    assert(skip_ws(s, z) == z);
    assert(parse_task_close(s, z, t) == Some((t, z + 1)));
    assert(z + 1 == i + ser_task(t).len());
}

/// Reading a canonical task image back gives the task.
#[verifier::rlimit(100)]
proof fn lemma_parse_task_canonical(pre: Seq<u8>, t: TaskView, rest: Seq<u8>)
    ensures
        parse_task(pre + ser_task(t) + rest, pre.len() as int) == Some(
            (t, pre.len() + ser_task(t).len() as int),
        ),
{
    let s = pre + ser_task(t) + rest;
    let i = pre.len() as int;
    let q = i + 10 + escape_bytes(t.name).len() as int;
    let z = q + 13 + (if t.completed {
        4int
    } else {
        5int
    });
    lemma_task_name_part(pre, t, rest);
    lemma_task_completed_part(pre, t, rest);
    assert(0 <= i && i < s.len() && s[i] == 0x7b);
    let tv = TaskView { name: t.name, completed: t.completed };
    assert(tv == t);
    assert(parse_task(s, i) == Some((t, i + ser_task(t).len() as int)));
}

/// One step of reading the tail of a canonical array: a comma and one task.
#[verifier::rlimit(100)]
proof fn lemma_parse_more_step(pre: Seq<u8>, ts: Seq<TaskView>, rest: Seq<u8>, e: int)
    requires
        ts.len() > 0,
        parse_more(
            pre + ser_tasks_rest(ts) + seq![0x5du8] + rest,
            pre.len() + 1 + ser_task(ts[0]).len() as int,
        ) == Some((ts.skip(1), e)),
    ensures
        parse_more(pre + ser_tasks_rest(ts) + seq![0x5du8] + rest, pre.len() as int) == Some(
            (ts, e),
        ),
{
    let s = pre + ser_tasks_rest(ts) + seq![0x5du8] + rest;
    let i = pre.len() as int;
    let head = ts[0];
    let tail = ts.skip(1);
    assert(ser_tasks_rest(ts) == seq![0x2cu8] + ser_task(head) + ser_tasks_rest(tail));
    assert(s[i] == 0x2c);
    assert(!is_ws(s[i]));
    assert(skip_ws(s, i) == i);
    let pre2 = pre + seq![0x2cu8];
    let rest2 = ser_tasks_rest(tail) + seq![0x5du8] + rest;
    assert(s =~= pre2 + ser_task(head) + rest2);
    lemma_parse_task_canonical(pre2, head, rest2);
    let m = i + 1 + ser_task(head).len();
    assert(s[i + 1] == 0x7b) by {
        assert(ser_task(head)[0] == 0x7b);
        assert((pre2 + ser_task(head) + rest2)[i + 1] == ser_task(head)[0]);
    }
    assert(!is_ws(s[i + 1]));
    assert(skip_ws(s, i + 1) == i + 1);
    assert(parse_task(s, i + 1) == Some((head, m)));
    assert(i < m <= s.len());
    assert(seq![head] + tail =~= ts);
    assert(parse_more(s, i) == Some((ts, e)));
}

/// Reading the tail of a canonical array back gives the remaining tasks.
#[verifier::rlimit(100)]
proof fn lemma_parse_more_canonical(pre: Seq<u8>, ts: Seq<TaskView>, rest: Seq<u8>)
    ensures
        parse_more(pre + ser_tasks_rest(ts) + seq![0x5du8] + rest, pre.len() as int) == Some(
            (ts, pre.len() + ser_tasks_rest(ts).len() as int + 1),
        ),
    decreases ts.len(),
{
    let s = pre + ser_tasks_rest(ts) + seq![0x5du8] + rest;
    let i = pre.len() as int;
    if ts.len() == 0 {
        assert(s[i] == 0x5d);
        assert(!is_ws(s[i]));
        assert(skip_ws(s, i) == i);
        assert(ts =~= Seq::<TaskView>::empty());
    } else {
        let head = ts[0];
        let tail = ts.skip(1);
        assert(ser_tasks_rest(ts) == seq![0x2cu8] + ser_task(head) + ser_tasks_rest(tail));
        let pre3 = pre + seq![0x2cu8] + ser_task(head);
        assert(s =~= pre3 + ser_tasks_rest(tail) + seq![0x5du8] + rest);
        lemma_parse_more_canonical(pre3, tail, rest);
        let m = i + 1 + ser_task(head).len();
        let e = m + ser_tasks_rest(tail).len() as int + 1;
        assert(parse_more(s, m) == Some((tail, e)));
        lemma_parse_more_step(pre, ts, rest, e);
        assert(e == i + ser_tasks_rest(ts).len() + 1);
    }
}

/// The head of a canonical, non-empty array: the bracket and first task.
#[verifier::rlimit(100)]
proof fn lemma_parse_array_head(pre: Seq<u8>, ts: Seq<TaskView>, rest: Seq<u8>)
    requires
        ts.len() > 0,
    ensures
        ({
            let s = pre + seq![0x5bu8] + ser_tasks(ts) + seq![0x5du8] + rest;
            let i = pre.len() as int;
            s[i] == 0x5b && skip_ws(s, i + 1) == i + 1 && s[i + 1] == 0x7b && parse_task(s, i + 1)
                == Some((ts[0], i + 1 + ser_task(ts[0]).len() as int))
        }),
{
    let s = pre + seq![0x5bu8] + ser_tasks(ts) + seq![0x5du8] + rest;
    let i = pre.len() as int;
    assert(s[i] == 0x5b);
    let head = ts[0];
    let tail = ts.skip(1);
    lemma_ser_tasks_split(ts);
    let pre2 = pre + seq![0x5bu8];
    let rest2 = ser_tasks_rest(tail) + seq![0x5du8] + rest;
    assert(s =~= pre2 + ser_task(head) + rest2);
    lemma_parse_task_canonical(pre2, head, rest2);
    assert(s[i + 1] == 0x7b) by {
        assert(ser_task(head)[0] == 0x7b);
        assert((pre2 + ser_task(head) + rest2)[i + 1] == ser_task(head)[0]);
    }
    assert(!is_ws(s[i + 1]));
    assert(skip_ws(s, i + 1) == i + 1);
    assert(parse_task(s, i + 1) == Some((head, i + 1 + ser_task(head).len())));
}

/// Reading a canonical array back gives the tasks.
#[verifier::rlimit(100)]
proof fn lemma_parse_array_canonical(pre: Seq<u8>, ts: Seq<TaskView>, rest: Seq<u8>)
    ensures
        parse_array(pre + seq![0x5bu8] + ser_tasks(ts) + seq![0x5du8] + rest, pre.len() as int)
            == Some((ts, pre.len() + 2 + ser_tasks(ts).len() as int)),
{
    let s = pre + seq![0x5bu8] + ser_tasks(ts) + seq![0x5du8] + rest;
    let i = pre.len() as int;
    assert(s[i] == 0x5b);
    if ts.len() == 0 {
        assert(s[i + 1] == 0x5d);
        assert(!is_ws(s[i + 1]));
        assert(skip_ws(s, i + 1) == i + 1);
        assert(ts =~= Seq::<TaskView>::empty());
    } else {
        let head = ts[0];
        let tail = ts.skip(1);
        lemma_ser_tasks_split(ts);
        lemma_parse_array_head(pre, ts, rest);
        let pre3 = pre + seq![0x5bu8] + ser_task(head);
        assert(s =~= pre3 + ser_tasks_rest(tail) + seq![0x5du8] + rest);
        lemma_parse_more_canonical(pre3, tail, rest);
        let m = i + 1 + ser_task(head).len();
        let e = m + ser_tasks_rest(tail).len() as int + 1;
        assert(parse_more(s, m) == Some((tail, e)));
        assert(seq![head] + tail =~= ts);
        assert(parse_array(s, i) == Some((ts, e)));
        assert(e == i + 2 + ser_tasks(ts).len());
    }
}

/// The opening frame of a canonical document parses as expected.
#[verifier::rlimit(100)]
proof fn lemma_round_trip_prefix(ts: Seq<TaskView>)
    ensures
        ({
            let s = ser_list(ts);
            skip_ws(s, 0) == 0 && s[0] == 0x7b && skip_ws(s, 1) == 1 && match_lit(
                s,
                1,
                lit_key_tasks(),
            ) && skip_ws(s, 8) == 8 && s[8] == 0x3a && skip_ws(s, 9) == 9
        }),
{
    let s = ser_list(ts);
    assert forall|k: int| 0 <= k < 10 implies s[k] == lit_list_open()[k] by {
        assert((lit_list_open() + ser_tasks(ts) + seq![0x5du8, 0x7du8])[k] == lit_list_open()[k]);
    }
    assert(s[0] == 0x7b && !is_ws(s[0]));
    assert(skip_ws(s, 0) == 0);
    assert(s[1] == 0x22 && !is_ws(s[1]));
    assert(skip_ws(s, 1) == 1);
    assert(s.subrange(1, 8) =~= lit_key_tasks());
    assert(match_lit(s, 1, lit_key_tasks()));
    assert(s[8] == 0x3a && !is_ws(s[8]));
    assert(skip_ws(s, 8) == 8);
    assert(s[9] == 0x5b && !is_ws(s[9]));
    assert(skip_ws(s, 9) == 9);
}

/// The array and closing frame of a canonical document parse as expected.
#[verifier::rlimit(100)]
proof fn lemma_round_trip_array(ts: Seq<TaskView>)
    ensures
        ({
            let s = ser_list(ts);
            let e: int = 11 + ser_tasks(ts).len() as int;
            parse_array(s, 9) == Some((ts, e)) && s.len() == e + 1 && s[e] == 0x7d && skip_ws(s, e)
                == e && skip_ws(s, e + 1) == e + 1
        }),
{
    let s = ser_list(ts);
    let pre9 = seq![0x7bu8, 0x22u8, 0x74u8, 0x61u8, 0x73u8, 0x6bu8, 0x73u8, 0x22u8, 0x3au8];
    assert(pre9 + seq![0x5bu8] =~= lit_list_open());
    assert(seq![0x5du8] + seq![0x7du8] =~= seq![0x5du8, 0x7du8]);
    vstd::seq_lib::lemma_concat_associative(
        lit_list_open() + ser_tasks(ts),
        seq![0x5du8],
        seq![0x7du8],
    );
    assert(s == pre9 + seq![0x5bu8] + ser_tasks(ts) + seq![0x5du8] + seq![0x7du8]);
    lemma_parse_array_canonical(pre9, ts, seq![0x7du8]);
    let e: int = 11 + ser_tasks(ts).len() as int;
    assert(parse_array(s, 9) == Some((ts, e)));
    assert(s.len() == e + 1);
    assert(s[e] == 0x7d) by {
        assert((pre9 + seq![0x5bu8] + ser_tasks(ts) + seq![0x5du8] + seq![0x7du8])[e] == 0x7d);
    }
    assert(!is_ws(s[e]));
    assert(skip_ws(s, e) == e);
    assert(skip_ws(s, e + 1) == e + 1);
}

/// Round trip: any task list, serialized and parsed back, is itself.
#[verifier::rlimit(100)]
pub proof fn lemma_round_trip(ts: Seq<TaskView>)
    ensures
        spec_parse(ser_list(ts)) == Some(ts),
{
    let s = ser_list(ts);
    let e: int = 11 + ser_tasks(ts).len() as int;
    lemma_round_trip_prefix(ts);
    lemma_round_trip_array(ts);
    assert(spec_parse(s) == Some(ts));
}

// ---------------------------------------------------------------------------
// The executable parser.  Each function returns exactly what its spec
// counterpart describes.
// ---------------------------------------------------------------------------

fn is_ws_byte(b: u8) -> (r: bool)
    ensures
        r == is_ws(b),
{
    b == 0x20 || b == 0x09 || b == 0x0a || b == 0x0d
}

fn skip_ws_exec(s: &Vec<u8>, i: usize) -> (r: usize)
    requires
        i <= s.len(),
    ensures
        r == skip_ws(s@, i as int),
        i <= r <= s.len(),
{
    let mut j = i;
    while j < s.len() && is_ws_byte(s[j])
        invariant
            i <= j <= s.len(),
            skip_ws(s@, i as int) == skip_ws(s@, j as int),
        decreases s.len() - j,
    {
        j = j + 1;
    }
    j
}

/// Do the bytes of `lit` stand at index `i` of `s`?
fn match_bytes(s: &Vec<u8>, i: usize, lit: &Vec<u8>) -> (r: bool)
    requires
        i <= s.len(),
    ensures
        r == match_lit(s@, i as int, lit@),
{
    if s.len() - i < lit.len() {
        return false;
    }
    let mut k: usize = 0;
    while k < lit.len()
        invariant
            i + lit.len() <= s.len(),
            k <= lit.len(),
            forall|m: int| 0 <= m < k ==> s@[i + m] == lit@[m],
        decreases lit.len() - k,
    {
        if s[i + k] != lit[k] {
            proof {
                if match_lit(s@, i as int, lit@) {
                    assert(s@.subrange(i as int, i + lit@.len())[k as int] == s@[i + k]);
                }
            }
            return false;
        }
        k = k + 1;
    }
    proof {
        assert(s@.subrange(i as int, i + lit@.len()) =~= lit@);
    }
    true
}

/// `"name"` as bytes.
fn key_name_vec() -> (v: Vec<u8>)
    ensures
        v@ == lit_key_name(),
{
    let mut v: Vec<u8> = Vec::new();
    v.push(0x22);
    v.push(0x6e);
    v.push(0x61);
    v.push(0x6d);
    v.push(0x65);
    v.push(0x22);
    proof {
        assert(v@ =~= lit_key_name());
    }
    v
}

/// `"completed"` as bytes.
fn key_completed_vec() -> (v: Vec<u8>)
    ensures
        v@ == lit_key_completed(),
{
    let mut v: Vec<u8> = Vec::new();
    v.push(0x22);
    v.push(0x63);
    v.push(0x6f);
    v.push(0x6d);
    v.push(0x70);
    v.push(0x6c);
    v.push(0x65);
    v.push(0x74);
    v.push(0x65);
    v.push(0x64);
    v.push(0x22);
    proof {
        assert(v@ =~= lit_key_completed());
    }
    v
}

/// `"tasks"` as bytes.
fn key_tasks_vec() -> (v: Vec<u8>)
    ensures
        v@ == lit_key_tasks(),
{
    let mut v: Vec<u8> = Vec::new();
    v.push(0x22);
    v.push(0x74);
    v.push(0x61);
    v.push(0x73);
    v.push(0x6b);
    v.push(0x73);
    v.push(0x22);
    proof {
        assert(v@ =~= lit_key_tasks());
    }
    v
}

fn hex_val_exec(b: u8) -> (r: Option<u8>)
    ensures
        r == hex_val(b),
{
    if 0x30 <= b && b <= 0x39 {
        Some(b - 0x30)
    } else if 0x61 <= b && b <= 0x66 {
        Some(b - 0x57)
    } else if 0x41 <= b && b <= 0x46 {
        Some(b - 0x37)
    } else {
        None
    }
}

fn unescape_exec(e: u8) -> (r: Option<u8>)
    ensures
        r == unescape_char(e),
{
    if e == 0x22 {
        Some(0x22)
    } else if e == 0x5c {
        Some(0x5c)
    } else if e == 0x2f {
        Some(0x2f)
    } else if e == 0x62 {
        Some(0x08)
    } else if e == 0x66 {
        Some(0x0c)
    } else if e == 0x6e {
        Some(0x0a)
    } else if e == 0x72 {
        Some(0x0d)
    } else if e == 0x74 {
        Some(0x09)
    } else {
        None
    }
}

fn parse_string_body_exec(s: &Vec<u8>, i: usize) -> (r: Option<(Vec<u8>, usize)>)
    requires
        i <= s.len(),
    ensures
        r is Some <==> parse_string_body(s@, i as int) is Some,
        r is Some ==> r.unwrap().0@ == parse_string_body(s@, i as int).unwrap().0 && r.unwrap().1
            == parse_string_body(s@, i as int).unwrap().1,
{
    let ghost orig = parse_string_body(s@, i as int);
    let mut acc: Vec<u8> = Vec::new();
    let mut j = i;
    loop
        invariant
            i <= j <= s.len(),
            orig == parse_string_body(s@, i as int),
            parse_string_body(s@, j as int) is Some ==> orig is Some && orig.unwrap().0 == acc@
                + parse_string_body(s@, j as int).unwrap().0 && orig.unwrap().1
                == parse_string_body(s@, j as int).unwrap().1,
            parse_string_body(s@, j as int) is None ==> orig is None,
        decreases s.len() - j,
    {
        if j >= s.len() {
            return None;
        }
        let b = s[j];
        if b == 0x22 {
            proof {
                assert(acc@ + Seq::<u8>::empty() =~= acc@);
            }
            return Some((acc, j + 1));
        } else if b == 0x5c {
            if s.len() - j < 2 {
                return None;
            }
            let e = s[j + 1];
            if e == 0x75 {
                if s.len() - j < 6 {
                    return None;
                }
                let h1 = hex_val_exec(s[j + 2]);
                let h2 = hex_val_exec(s[j + 3]);
                let h3 = hex_val_exec(s[j + 4]);
                let h4 = hex_val_exec(s[j + 5]);
                if h1.is_none() || h2.is_none() || h3.is_none() || h4.is_none() {
                    return None;
                }
                let v: u32 = (h1.unwrap() as u32) * 4096 + (h2.unwrap() as u32) * 256 + (
                h3.unwrap() as u32) * 16 + (h4.unwrap() as u32);
                if v > 0x7f {
                    return None;
                }
                let ghost acc0 = acc@;
                acc.push(v as u8);
                proof {
                    let p2 = parse_string_body(s@, j + 6);
                    if p2 is Some {
                        assert(acc0 + (seq![(v as u8)] + p2.unwrap().0) =~= acc0.push(v as u8)
                            + p2.unwrap().0);
                    }
                }
                j = j + 6;
            } else {
                let ue = unescape_exec(e);
                match ue {
                    None => {
                        return None;
                    },
                    Some(b2) => {
                        let ghost acc0 = acc@;
                        acc.push(b2);
                        proof {
                            let p2 = parse_string_body(s@, j + 2);
                            if p2 is Some {
                                assert(acc0 + (seq![b2] + p2.unwrap().0) =~= acc0.push(b2)
                                    + p2.unwrap().0);
                            }
                        }
                        j = j + 2;
                    },
                }
            }
        } else if b < 0x20 {
            return None;
        } else {
            let ghost acc0 = acc@;
            acc.push(b);
            proof {
                let p2 = parse_string_body(s@, j + 1);
                if p2 is Some {
                    assert(acc0 + (seq![b] + p2.unwrap().0) =~= acc0.push(b) + p2.unwrap().0);
                }
            }
            j = j + 1;
        }
    }
}

fn parse_bool_exec(s: &Vec<u8>, i: usize) -> (r: Option<(bool, usize)>)
    requires
        i <= s.len(),
    ensures
        r is Some <==> parse_bool(s@, i as int) is Some,
        r is Some ==> r.unwrap().0 == parse_bool(s@, i as int).unwrap().0 && r.unwrap().1
            == parse_bool(s@, i as int).unwrap().1,
{
    let t = true_vec();
    if match_bytes(s, i, &t) {
        Some((true, i + 4))
    } else {
        let f = false_vec();
        if match_bytes(s, i, &f) {
            Some((false, i + 5))
        } else {
            None
        }
    }
}

fn parse_colon_string_exec(s: &Vec<u8>, i: usize) -> (r: Option<(Vec<u8>, usize)>)
    requires
        i <= s.len(),
    ensures
        r is Some <==> parse_colon_string(s@, i as int) is Some,
        r is Some ==> r.unwrap().0@ == parse_colon_string(s@, i as int).unwrap().0 && r.unwrap().1
            == parse_colon_string(s@, i as int).unwrap().1,
{
    let j = skip_ws_exec(s, i);
    if j < s.len() && s[j] == 0x3a {
        let k = skip_ws_exec(s, j + 1);
        if k < s.len() && s[k] == 0x22 {
            parse_string_body_exec(s, k + 1)
        } else {
            None
        }
    } else {
        None
    }
}

fn parse_colon_bool_exec(s: &Vec<u8>, i: usize) -> (r: Option<(bool, usize)>)
    requires
        i <= s.len(),
    ensures
        r is Some <==> parse_colon_bool(s@, i as int) is Some,
        r is Some ==> r.unwrap().0 == parse_colon_bool(s@, i as int).unwrap().0 && r.unwrap().1
            == parse_colon_bool(s@, i as int).unwrap().1,
{
    let j = skip_ws_exec(s, i);
    if j < s.len() && s[j] == 0x3a {
        let k = skip_ws_exec(s, j + 1);
        parse_bool_exec(s, k)
    } else {
        None
    }
}

fn parse_task_exec(s: &Vec<u8>, i: usize) -> (r: Option<(Task, usize)>)
    requires
        i <= s.len(),
    ensures
        r is Some <==> parse_task(s@, i as int) is Some,
        r is Some ==> r.unwrap().0@ == parse_task(s@, i as int).unwrap().0 && r.unwrap().1
            == parse_task(s@, i as int).unwrap().1,
        r is Some ==> i < r.unwrap().1 <= s.len(),
{
    proof {
        if parse_task(s@, i as int) is Some {
            lemma_parse_task_bounds(s@, i as int);
        }
    }
    if !(i < s.len()) {
        return None;
    }
    if s[i] != 0x7b {
        return None;
    }
    let j = skip_ws_exec(s, i + 1);
    let name_key = key_name_vec();
    let completed_key = key_completed_vec();
    if match_bytes(s, j, &name_key) {
        match parse_colon_string_exec(s, j + 6) {
            None => None,
            Some((name, p1)) => {
                proof {
                    lemma_parse_colon_string_bounds(s@, j + 6);
                }
                let k = skip_ws_exec(s, p1);
                if k < s.len() && s[k] == 0x2c {
                    let m = skip_ws_exec(s, k + 1);
                    if match_bytes(s, m, &completed_key) {
                        match parse_colon_bool_exec(s, m + 11) {
                            None => None,
                            Some((c, p2)) => {
                                proof {
                                    lemma_parse_colon_bool_bounds(s@, m + 11);
                                }
                                let e = skip_ws_exec(s, p2);
                                if e < s.len() && s[e] == 0x7d {
                                    Some((Task { name, completed: c }, e + 1))
                                } else {
                                    None
                                }
                            },
                        }
                    } else {
                        None
                    }
                } else {
                    None
                }
            },
        }
    } else if match_bytes(s, j, &completed_key) {
        match parse_colon_bool_exec(s, j + 11) {
            None => None,
            Some((c, p1)) => {
                proof {
                    lemma_parse_colon_bool_bounds(s@, j + 11);
                }
                let k = skip_ws_exec(s, p1);
                if k < s.len() && s[k] == 0x2c {
                    let m = skip_ws_exec(s, k + 1);
                    if match_bytes(s, m, &name_key) {
                        match parse_colon_string_exec(s, m + 6) {
                            None => None,
                            Some((name, p2)) => {
                                proof {
                                    lemma_parse_colon_string_bounds(s@, m + 6);
                                }
                                let e = skip_ws_exec(s, p2);
                                if e < s.len() && s[e] == 0x7d {
                                    Some((Task { name, completed: c }, e + 1))
                                } else {
                                    None
                                }
                            },
                        }
                    } else {
                        None
                    }
                } else {
                    None
                }
            },
        }
    } else {
        None
    }
}

fn parse_array_exec(s: &Vec<u8>, i: usize) -> (r: Option<(Vec<Task>, usize)>)
    requires
        i <= s.len(),
    ensures
        r is Some <==> parse_array(s@, i as int) is Some,
        r is Some ==> task_views(r.unwrap().0@) == parse_array(s@, i as int).unwrap().0
            && r.unwrap().1 == parse_array(s@, i as int).unwrap().1,
        r is Some ==> r.unwrap().1 <= s.len(),
{
    if !(i < s.len()) {
        return None;
    }
    if s[i] != 0x5b {
        return None;
    }
    let j = skip_ws_exec(s, i + 1);
    if j < s.len() && s[j] == 0x5d {
        let empty: Vec<Task> = Vec::new();
        proof {
            assert(task_views(empty@) =~= Seq::<TaskView>::empty());
            assert(task_views(empty@) + Seq::<TaskView>::empty() =~= task_views(empty@));
        }
        return Some((empty, j + 1));
    }
    match parse_task_exec(s, j) {
        None => None,
        Some((t, m)) => {
            let mut acc: Vec<Task> = Vec::new();
            let ghost tv = t@;
            acc.push(t);
            proof {
                assert(task_views(acc@) =~= seq![tv]);
                let pm = parse_more(s@, m as int);
                if pm is Some {
                    assert(seq![tv] + pm.unwrap().0 =~= task_views(acc@) + pm.unwrap().0);
                }
            }
            let mut cur = m;
            loop
                invariant
                    cur <= s.len(),
                    parse_more(s@, cur as int) is Some ==> parse_array(s@, i as int) is Some
                        && parse_array(s@, i as int).unwrap().0 == task_views(acc@) + parse_more(
                        s@,
                        cur as int,
                    ).unwrap().0 && parse_array(s@, i as int).unwrap().1 == parse_more(
                        s@,
                        cur as int,
                    ).unwrap().1,
                    parse_more(s@, cur as int) is None ==> parse_array(s@, i as int) is None,
                decreases s.len() - cur,
            {
                let j2 = skip_ws_exec(s, cur);
                if j2 < s.len() && s[j2] == 0x5d {
                    proof {
                        assert(task_views(acc@) + Seq::<TaskView>::empty() =~= task_views(acc@));
                    }
                    return Some((acc, j2 + 1));
                }
                if !(j2 < s.len()) {
                    return None;
                }
                if s[j2] != 0x2c {
                    return None;
                }
                let k2 = skip_ws_exec(s, j2 + 1);
                match parse_task_exec(s, k2) {
                    None => {
                        return None;
                    },
                    Some((t2, m2)) => {
                        let ghost acc0 = acc@;
                        let ghost t2v = t2@;
                        acc.push(t2);
                        proof {
                            assert(cur < m2 && m2 <= s.len());
                            let pm = parse_more(s@, m2 as int);
                            if pm is Some {
                                assert(task_views(acc0) + (seq![t2v] + pm.unwrap().0)
                                    =~= task_views(acc0.push(t2)) + pm.unwrap().0);
                            }
                        }
                        cur = m2;
                    },
                }
            }
        },
    }
}

/// Decodes a whole document.  Succeeds exactly when the bytes form a valid
/// task-list document, and then returns the list the document denotes.
pub fn parse_task_list(s: &Vec<u8>) -> (r: Option<TaskList>)
    ensures
        r is Some <==> spec_parse(s@) is Some,
        r is Some ==> r.unwrap()@ == spec_parse(s@).unwrap(),
{
    let i = skip_ws_exec(s, 0);
    if !(i < s.len()) {
        return None;
    }
    if s[i] != 0x7b {
        return None;
    }
    let j = skip_ws_exec(s, i + 1);
    let tk = key_tasks_vec();
    if !match_bytes(s, j, &tk) {
        return None;
    }
    let k = skip_ws_exec(s, j + 7);
    if !(k < s.len()) {
        return None;
    }
    if s[k] != 0x3a {
        return None;
    }
    let m = skip_ws_exec(s, k + 1);
    match parse_array_exec(s, m) {
        None => None,
        Some((tasks, e)) => {
            let f = skip_ws_exec(s, e);
            if f < s.len() && s[f] == 0x7d {
                let g = skip_ws_exec(s, f + 1);
                if g == s.len() {
                    return Some(TaskList { tasks });
                }
            }
            None
        },
    }
}

} // verus!
