//! The decisions of the interactive menu: which action a typed line asks
//! for, how a typed 1-based task number is read, and what marking a task
//! done changes.

use vstd::prelude::*;
use vstd::string::StrSliceExecFns;
use crate::task::{Task, TaskView};

verus! {

/// What one line typed at the menu prompt asks for.
#[derive(PartialEq, Eq, Structural, Clone, Copy, Debug)]
pub enum MenuChoice {
    AddTask,
    ShowTasks,
    MarkDone,
    Exit,
    Invalid,
}

/// The choice a typed menu line stands for: one of the four one-character
/// commands, and anything else invalid.
pub open spec fn choice_of(s: Seq<char>) -> MenuChoice {
    if s == seq!['1'] {
        MenuChoice::AddTask
    } else if s == seq!['2'] {
        MenuChoice::ShowTasks
    } else if s == seq!['3'] {
        MenuChoice::MarkDone
    } else if s == seq!['4'] {
        MenuChoice::Exit
    } else {
        MenuChoice::Invalid
    }
}

/// Reads a typed menu line.
pub fn parse_choice(s: &str) -> (r: MenuChoice)
    ensures
        r == choice_of(s@),
{
    if s.unicode_len() == 1 {
        let c = s.get_char(0);
        proof {
            assert(s@ =~= seq![s@[0]]);
        }
        if c == '1' {
            MenuChoice::AddTask
        } else if c == '2' {
            MenuChoice::ShowTasks
        } else if c == '3' {
            MenuChoice::MarkDone
        } else if c == '4' {
            MenuChoice::Exit
        } else {
            MenuChoice::Invalid
        }
    } else {
        MenuChoice::Invalid
    }
}

/// A decimal digit character.
pub open spec fn is_digit(c: char) -> bool {
    48 <= c as u32 && c as u32 <= 57
}

/// The value of one digit character.
pub open spec fn digit_val(c: char) -> int {
    c as u32 - 48
}

/// All characters are digits.
pub open spec fn all_digits(s: Seq<char>) -> bool {
    forall|m: int| 0 <= m < s.len() ==> is_digit(s[m])
}

/// The value of a digit string, most significant digit first.
pub open spec fn digits_val(s: Seq<char>) -> int
    decreases s.len(),
{
    if s.len() == 0 {
        0
    } else {
        digits_val(s.drop_last()) * 10 + digit_val(s.last())
    }
}

/// The number a typed task-number line stands for, if any: an optional plus
/// sign, then at least one digit, valued no higher than the machine can
/// count — exactly the lines that read as an unsigned machine integer.
pub open spec fn index_of_input(s: Seq<char>) -> Option<int> {
    let body = if s.len() > 0 && s[0] == '+' {
        s.drop_first()
    } else {
        s
    };
    if body.len() > 0 && all_digits(body) && digits_val(body) <= usize::MAX as int {
        Some(digits_val(body))
    } else {
        None
    }
}

/// A digit string's value is never negative.
proof fn lemma_digits_val_nonneg(s: Seq<char>)
    requires
        all_digits(s),
    ensures
        digits_val(s) >= 0,
    decreases s.len(),
{
    if s.len() > 0 {
        lemma_digits_val_nonneg(s.drop_last());
    }
}

/// Reading one more digit multiplies the value by ten and adds the digit.
proof fn lemma_digits_val_step(s: Seq<char>, j: int)
    requires
        0 <= j < s.len(),
    ensures
        digits_val(s.take(j + 1)) == digits_val(s.take(j)) * 10 + digit_val(s[j]),
{
    assert(s.take(j + 1).drop_last() =~= s.take(j));
    assert(s.take(j + 1).last() == s[j]);
}

/// A digit string is worth at least any of its prefixes.
proof fn lemma_digits_val_mono(s: Seq<char>, j: int)
    requires
        all_digits(s),
        0 <= j <= s.len(),
    ensures
        digits_val(s.take(j)) <= digits_val(s),
    decreases s.len() - j,
{
    if j == s.len() {
        assert(s.take(j) =~= s);
    } else {
        lemma_digits_val_step(s, j);
        lemma_digits_val_nonneg(s.take(j));
        lemma_digits_val_mono(s, j + 1);
    }
}

/// Reads a typed task number, exactly as [`index_of_input`] values it.
pub fn parse_index(s: &str) -> (r: Option<usize>)
    ensures
        match r {
            Some(u) => index_of_input(s@) == Some(u as int),
            None => index_of_input(s@) is None,
        },
{
    let n = s.unicode_len();
    let mut start: usize = 0;
    if n > 0 && s.get_char(0) == '+' {
        start = 1;
    }
    proof {
        if s@.len() > 0 && s@[0] == '+' {
            assert(s@.drop_first() =~= s@.skip(1));
        } else {
            assert(s@.skip(0) =~= s@);
        }
    }
    if start == n {
        return None;
    }
    let mut acc: usize = 0;
    let mut i = start;
    while i < n
        invariant
            start <= i <= n,
            n == s@.len(),
            start as int == if s@.len() > 0 && s@[0] == '+' {
                1int
            } else {
                0int
            },
            (if s@.len() > 0 && s@[0] == '+' {
                s@.drop_first()
            } else {
                s@
            }) == s@.skip(start as int),
            all_digits(s@.skip(start as int).take(i - start)),
            acc as int == digits_val(s@.skip(start as int).take(i - start)),
        decreases n - i,
    {
        let c = s.get_char(i);
        let u = c as u32;
        if u < 48 || u > 57 {
            proof {
                assert(s@.skip(start as int)[i - start] == s@[i as int]);
                assert(!is_digit(s@[i as int]));
                assert(!all_digits(
                    if s@.len() > 0 && s@[0] == '+' {
                        s@.drop_first()
                    } else {
                        s@
                    },
                ));
            }
            return None;
        }
        let d = (u - 48) as usize;
        let stepped = match acc.checked_mul(10) {
            Some(m) => m.checked_add(d),
            None => None,
        };
        proof {
            let body = s@.skip(start as int);
            assert(body[i - start] == s@[i as int]);
            assert(body.take(i - start + 1) =~= body.take(i - start).push(body[i - start]));
            lemma_digits_val_step(body, i - start);
        }
        match stepped {
            Some(a) => {
                acc = a;
            },
            None => {
                proof {
                    let body = s@.skip(start as int);
                    assert(digits_val(body.take(i - start + 1)) > usize::MAX as int);
                    if all_digits(body) {
                        lemma_digits_val_mono(body, i - start + 1);
                    }
                }
                return None;
            },
        }
        i = i + 1;
    }
    proof {
        let body = s@.skip(start as int);
        assert(body.take(n - start) =~= body);
        assert(body.len() > 0);
    }
    Some(acc)
}

/// The outcome of one "mark a task done" interaction.
#[derive(PartialEq, Eq, Structural, Clone, Copy, Debug)]
pub enum MarkOutcome {
    /// The typed number named a task; that task alone is now done.
    Marked,
    /// The typed line was a number, but not the 1-based position of any
    /// task; nothing changed, and the user is told so.
    InvalidIndex,
    /// The typed line was not a number at all; nothing changed, and,
    /// deliberately, nothing is reported either.
    NotANumber,
}

/// Marks the task at the typed 1-based position as done.
///
/// A position between 1 and the length sets exactly that task's flag and
/// leaves every description and every other task unchanged; 0 or a position
/// past the end changes nothing and signals an invalid index; a line that is
/// no number changes nothing and stays silent.
pub fn mark_done(tasks: &mut Vec<Task>, input: &str) -> (r: MarkOutcome)
    ensures
        match index_of_input(input@) {
            Option::None => r == MarkOutcome::NotANumber && final(tasks)@ == old(tasks)@,
            Option::Some(i) => if 1 <= i && i <= old(tasks)@.len() {
                r == MarkOutcome::Marked && final(tasks).deep_view() == old(
                    tasks,
                ).deep_view().update(
                    i - 1,
                    (TaskView {
                        description: old(tasks).deep_view()[i - 1].description,
                        done: true,
                    }),
                )
            } else {
                r == MarkOutcome::InvalidIndex && final(tasks)@ == old(tasks)@
            },
        },
{
    match parse_index(input) {
        None => MarkOutcome::NotANumber,
        Some(i) => {
            if i >= 1 && i <= tasks.len() {
                let j = i - 1;
                let mut t = tasks.remove(j);
                t.done = true;
                tasks.insert(j, t);
                proof {
                    assert(tasks@ =~= old(tasks)@.update(j as int, t));
                    assert(tasks.deep_view() =~= old(tasks).deep_view().update(
                        i as int - 1,
                        (TaskView {
                            description: old(tasks).deep_view()[i as int - 1].description,
                            done: true,
                        }),
                    ));
                }
                MarkOutcome::Marked
            } else {
                MarkOutcome::InvalidIndex
            }
        },
    }
}

} // verus!
