//! How the task list is shown: each task on one line, numbered from 1, with
//! a status mark in front of the description.

use vstd::prelude::*;
use vstd::string::StringExecFns;
use crate::task::{Task, TaskView};
use crate::text::{push_char, string_of_chars};

verus! {

/// The character of one decimal digit value.
pub open spec fn digit_char(d: int) -> char {
    if d == 0 {
        '0'
    } else if d == 1 {
        '1'
    } else if d == 2 {
        '2'
    } else if d == 3 {
        '3'
    } else if d == 4 {
        '4'
    } else if d == 5 {
        '5'
    } else if d == 6 {
        '6'
    } else if d == 7 {
        '7'
    } else if d == 8 {
        '8'
    } else {
        '9'
    }
}

/// The decimal numeral of a number, most significant digit first.
pub open spec fn dec_of(n: int) -> Seq<char>
    decreases n,
{
    if n < 10 {
        seq![digit_char(n)]
    } else {
        dec_of(n / 10).push(digit_char(n % 10))
    }
}

/// The status mark in front of a task: a check when done, a cross when not.
pub open spec fn status_char(done: bool) -> char {
    if done {
        '\u{2705}'
    } else {
        '\u{274c}'
    }
}

/// One displayed line: the 1-based position, a dot, the status mark, and the
/// description.
pub open spec fn line_of(i: int, t: TaskView) -> Seq<char> {
    dec_of(i) + ". "@ + seq![status_char(t.done), ' '] + t.description
}

/// The character of one digit.
fn digit_of(d: usize) -> (c: char)
    requires
        d < 10,
    ensures
        c == digit_char(d as int),
{
    if d == 0 {
        '0'
    } else if d == 1 {
        '1'
    } else if d == 2 {
        '2'
    } else if d == 3 {
        '3'
    } else if d == 4 {
        '4'
    } else if d == 5 {
        '5'
    } else if d == 6 {
        '6'
    } else if d == 7 {
        '7'
    } else if d == 8 {
        '8'
    } else {
        '9'
    }
}

/// Writes a number in decimal.
fn dec_string(n: usize) -> (r: String)
    ensures
        r@ == dec_of(n as int),
{
    let mut digits: Vec<char> = Vec::new();
    let mut m = n;
    proof {
        assert(dec_of(n as int) =~= dec_of(m as int) + digits@);
    }
    while m >= 10
        invariant
            dec_of(n as int) == dec_of(m as int) + digits@,
        decreases m,
    {
        let ghost old_digits = digits@;
        let d = m % 10;
        digits.insert(0, digit_of(d));
        m = m / 10;
        proof {
            assert(digits@ =~= seq![digit_char(d as int)] + old_digits);
            assert(dec_of(n as int) =~= dec_of(m as int) + digits@);
        }
    }
    let ghost old_digits = digits@;
    digits.insert(0, digit_of(m));
    proof {
        assert(digits@ =~= seq![digit_char(m as int)] + old_digits);
        assert(dec_of(m as int) =~= seq![digit_char(m as int)]);
        assert(digits@ =~= dec_of(n as int));
    }
    string_of_chars(&digits)
}

/// Writes the line under which one task is shown, at the given 1-based
/// position.
pub fn render_task_line(index: usize, t: &Task) -> (r: String)
    ensures
        r@ == line_of(index as int, t@),
{
    let mut out = dec_string(index);
    out.append(". ");
    if t.done {
        push_char(&mut out, '\u{2705}');
    } else {
        push_char(&mut out, '\u{274c}');
    }
    push_char(&mut out, ' ');
    out.append(t.description.as_str());
    proof {
        assert(out@ =~= line_of(index as int, t@));
    }
    out
}

/// Writes the lines under which the whole list is shown, in order, numbered
/// from 1.
pub fn render_task_lines(tasks: &Vec<Task>) -> (r: Vec<String>)
    ensures
        r@.len() == tasks@.len(),
        forall|m: int| 0 <= m < tasks@.len() ==> (#[trigger] r@[m])@ == line_of(
            m + 1,
            tasks@[m]@,
        ),
{
    let mut out: Vec<String> = Vec::new();
    let mut k: usize = 0;
    while k < tasks.len()
        invariant
            k <= tasks@.len(),
            out@.len() == k,
            forall|m: int| 0 <= m < k ==> (#[trigger] out@[m])@ == line_of(m + 1, tasks@[m]@),
        decreases tasks@.len() - k,
    {
        let line = render_task_line(k + 1, &tasks[k]);
        out.push(line);
        k = k + 1;
    }
    out
}

} // verus!
