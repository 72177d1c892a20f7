//! Reading a task index out of one line of console input: the line is
//! trimmed of ASCII whitespace and must then be a non-empty string of
//! decimal digits whose value fits in `usize`.

use vstd::prelude::*;

use crate::codec::is_ws;
use crate::tasks::TodoError;

verus! {

pub open spec fn is_digit(b: u8) -> bool {
    0x30 <= b && b <= 0x39
}

pub open spec fn all_digits(s: Seq<u8>) -> bool {
    forall|k: int| 0 <= k < s.len() ==> is_digit(s[k])
}

/// The numeric value of a digit string, most significant digit first.
pub open spec fn dec_value(s: Seq<u8>) -> int
    decreases s.len(),
{
    if s.len() == 0 {
        0
    } else {
        dec_value(s.take(s.len() - 1)) * 10 + (s.last() - 0x30)
    }
}

/// The line with leading whitespace removed.
pub open spec fn trim_front(s: Seq<u8>) -> Seq<u8>
    decreases s.len(),
{
    if s.len() > 0 && is_ws(s[0]) {
        trim_front(s.skip(1))
    } else {
        s
    }
}

/// The line with trailing whitespace removed.
pub open spec fn trim_back(s: Seq<u8>) -> Seq<u8>
    decreases s.len(),
{
    if s.len() > 0 && is_ws(s.last()) {
        trim_back(s.take(s.len() - 1))
    } else {
        s
    }
}

/// The line with whitespace removed on both sides.
pub open spec fn trimmed(s: Seq<u8>) -> Seq<u8> {
    trim_back(trim_front(s))
}

/// The index one line of console input selects, if any.
pub open spec fn parse_index_spec(line: Seq<u8>) -> Option<usize> {
    let t = trimmed(line);
    if t.len() > 0 && all_digits(t) && dec_value(t) <= usize::MAX as int {
        Some(dec_value(t) as usize)
    } else {
        None
    }
}

proof fn lemma_dec_value_nonneg(s: Seq<u8>)
    requires
        all_digits(s),
    ensures
        dec_value(s) >= 0,
    decreases s.len(),
{
    if s.len() > 0 {
        assert(all_digits(s.take(s.len() - 1)));
        lemma_dec_value_nonneg(s.take(s.len() - 1));
    }
}

/// A digit string is worth at least as much as any of its prefixes.
proof fn lemma_dec_value_monotone(s: Seq<u8>, p: int)
    requires
        all_digits(s),
        0 <= p <= s.len(),
    ensures
        dec_value(s.take(p)) <= dec_value(s),
    decreases s.len() - p,
{
    if p < s.len() {
        lemma_dec_value_monotone(s, p + 1);
        assert(s.take(p + 1).take(p) =~= s.take(p));
        assert(all_digits(s.take(p)));
        lemma_dec_value_nonneg(s.take(p));
        assert(s.take(p + 1).last() == s[p]);
        assert(dec_value(s.take(p + 1)) == dec_value(s.take(p)) * 10 + (s[p] - 0x30));
    } else {
        assert(s.take(p) =~= s);
    }
}

fn ws_byte(b: u8) -> (r: bool)
    ensures
        r == is_ws(b),
{
    b == 0x20 || b == 0x09 || b == 0x0a || b == 0x0d
}

/// Parses the selected task index out of one console line; reports
/// `InvalidInput` when the line does not denote one.
pub fn parse_index(line: &Vec<u8>) -> (r: Result<usize, TodoError>)
    ensures
        parse_index_spec(line@) is Some ==> r is Ok && r->Ok_0 == parse_index_spec(
            line@,
        ).unwrap(),
        parse_index_spec(line@) is None ==> r == Result::<usize, TodoError>::Err(
            TodoError::InvalidInput,
        ),
{
    proof {
        assert(line@.skip(0) =~= line@);
    }
    let mut start: usize = 0;
    while start < line.len() && ws_byte(line[start])
        invariant
            start <= line.len(),
            trim_front(line@) == trim_front(line@.skip(start as int)),
        decreases line.len() - start,
    {
        proof {
            assert(line@.skip(start as int).skip(1) =~= line@.skip(start + 1));
        }
        start = start + 1;
    }
    proof {
        assert(trim_front(line@) == line@.skip(start as int));
    }
    proof {
        assert(line@.subrange(start as int, line@.len() as int) =~= line@.skip(start as int));
    }
    let mut end: usize = line.len();
    while end > start && ws_byte(line[end - 1])
        invariant
            start <= end <= line.len(),
            trim_front(line@) == line@.skip(start as int),
            trim_back(line@.subrange(start as int, end as int)) == trimmed(line@),
        decreases end,
    {
        proof {
            let cur = line@.subrange(start as int, end as int);
            assert(cur.last() == line@[end - 1]);
            assert(cur.take(cur.len() - 1) =~= line@.subrange(start as int, end - 1));
        }
        end = end - 1;
    }
    proof {
        assert(line@.skip(start as int).take(end - start) =~= line@.subrange(
            start as int,
            end as int,
        ));
        assert(trimmed(line@) == line@.subrange(start as int, end as int));
    }
    let ghost t = trimmed(line@);
    if end == start {
        proof {
            assert(t.len() == 0);
        }
        return Err(TodoError::InvalidInput);
    }
    let mut acc: usize = 0;
    let mut p: usize = start;
    while p < end
        invariant
            start <= p <= end <= line.len(),
            t == trimmed(line@),
            t == line@.subrange(start as int, end as int),
            all_digits(t.take(p - start)),
            acc == dec_value(t.take(p - start)),
        decreases end - p,
    {
        let b = line[p];
        proof {
            assert(t[p - start] == line@[p as int]);
        }
        if b < 0x30 || b > 0x39 {
            proof {
                assert(!is_digit(t[p - start]));
            }
            return Err(TodoError::InvalidInput);
        }
        let d = (b - 0x30) as usize;
        let ghost q = p - start;
        proof {
            assert(t.take(q + 1).take(q) =~= t.take(q));
            assert(t.take(q + 1).last() == t[q]);
            assert(all_digits(t.take(q + 1)));
            assert(dec_value(t.take(q + 1)) == acc * 10 + d);
        }
        if acc > usize::MAX / 10 {
            proof {
                assert(acc * 10 + d > usize::MAX);
                if all_digits(t) {
                    lemma_dec_value_monotone(t, q + 1);
                }
            }
            return Err(TodoError::InvalidInput);
        }
        let acc10 = acc * 10;
        if d > usize::MAX - acc10 {
            proof {
                if all_digits(t) {
                    lemma_dec_value_monotone(t, q + 1);
                }
            }
            return Err(TodoError::InvalidInput);
        }
        acc = acc10 + d;
        p = p + 1;
    }
    proof {
        assert(t.take(end - start) =~= t);
    }
    Ok(acc)
}

} // verus!
