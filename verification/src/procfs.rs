//! The text of the proc file system: how the largest process id and one
//! line of the process table are read out of what the kernel writes.
//!
//! The files themselves are read by the caller. What is read is handed over
//! as characters, and the name of a process is handed back as a range of
//! them.

use crate::decimal::{decimal_value, is_decimal, is_digit, lemma_value_of_prefix};
use vstd::prelude::*;

verus! {

/// The value of a decimal numeral as a process id, where it fits.
pub open spec fn decimal_id(s: Seq<char>) -> Option<u32> {
    if is_decimal(s) && decimal_value(s) <= u32::MAX {
        Some(decimal_value(s) as u32)
    } else {
        None
    }
}

/// The position of the first `c` in `text`.
pub open spec fn first_position(text: Seq<char>, c: char) -> Option<int>
    decreases text.len(),
{
    if text.len() == 0 {
        None
    } else {
        match first_position(text.drop_last(), c) {
            Some(i) => Some(i),
            None => if text.last() == c {
                Some(text.len() - 1)
            } else {
                None
            },
        }
    }
}

/// The position of the last `c` in `text`.
pub open spec fn last_position(text: Seq<char>, c: char) -> Option<int>
    decreases text.len(),
{
    if text.len() == 0 {
        None
    } else if text.last() == c {
        Some(text.len() - 1)
    } else {
        last_position(text.drop_last(), c)
    }
}

/// Where the field that starts at `from` ends: at the next blank, or at the
/// end of the text.
pub open spec fn field_end(text: Seq<char>, from: int) -> int
    decreases text.len() - from,
{
    if from < 0 || from >= text.len() || text[from] == ' ' {
        from
    } else {
        field_end(text, from + 1)
    }
}

/// What `/proc/sys/kernel/pid_max` says: a decimal numeral, with or without
/// a line feed after it.
pub open spec fn pid_max(text: Seq<char>) -> Option<u32> {
    if text.len() > 0 && text.last() == '\n' {
        decimal_id(text.drop_last())
    } else {
        decimal_id(text)
    }
}

/// What is taken from one `/proc/<id>/stat`.
#[derive(Clone, Copy, Debug, PartialEq, Eq, Structural)]
pub struct StatLine {
    pub process_id: u32,
    pub parent_process_id: u32,
    /// Where the name of the program starts in the text.
    pub name_from: usize,
    /// Where it ends: the position after its last character.
    pub name_to: usize,
}

/// What `/proc/<id>/stat` says. The text has the form
/// `<id> (<name>) <state> <parent id> ...` with single blanks between the
/// fields. The name may hold blanks and parentheses of its own, so it runs
/// from the first `(` to the last `)` of the text. The state is one
/// character that is no blank. Both ids are decimal numerals.
pub open spec fn stat_line(text: Seq<char>) -> Option<StatLine> {
    match (first_position(text, '('), last_position(text, ')')) {
        (Some(open), Some(close)) => {
            if 0 < open < close && close + 4 < text.len() && text[open - 1] == ' ' && text[close
                + 1] == ' ' && text[close + 2] != ' ' && text[close + 3] == ' ' {
                match (
                    decimal_id(text.subrange(0, open - 1)),
                    decimal_id(text.subrange(close + 4, field_end(text, close + 4))),
                ) {
                    (Some(process_id), Some(parent_process_id)) => Some(
                        StatLine {
                            process_id,
                            parent_process_id,
                            name_from: (open + 1) as usize,
                            name_to: close as usize,
                        },
                    ),
                    _ => None,
                }
            } else {
                None
            }
        },
        _ => None,
    }
}

/// What is first in a part of a text is first in the whole.
proof fn lemma_first_position_stays(text: Seq<char>, c: char, k: int)
    requires
        0 <= k <= text.len(),
        first_position(text.take(k), c) is Some,
    ensures
        first_position(text, c) == first_position(text.take(k), c),
    decreases text.len() - k,
{
    if k == text.len() {
        assert(text.take(k) =~= text);
    } else {
        assert(text.take(k + 1).drop_last() =~= text.take(k));
        lemma_first_position_stays(text, c, k + 1);
    }
}

/// Reads the numeral that stands between two positions of a text.
fn parse_id(text: &Vec<char>, from: usize, to: usize) -> (id: Option<u32>)
    requires
        from <= to <= text.len(),
    ensures
        id == decimal_id(text@.subrange(from as int, to as int)),
{
    let ghost numeral = text@.subrange(from as int, to as int);
    if from == to {
        return None;
    }
    let mut value: u64 = 0;
    let mut i: usize = from;
    while i < to
        invariant
            from <= i <= to <= text.len(),
            numeral == text@.subrange(from as int, to as int),
            value == decimal_value(numeral.take(i - from)),
            value <= u32::MAX,
            forall|j: int| 0 <= j < i - from ==> is_digit(#[trigger] numeral[j]),
        decreases to - i,
    {
        let c: char = text[i];
        assert(numeral[i - from] == c);
        if !('0' <= c && c <= '9') {
            return None;
        }
        let d: u64 = (c as u32 - '0' as u32) as u64;
        proof {
            assert(numeral.take(i - from + 1).drop_last() =~= numeral.take(i - from));
            assert(numeral.take(i - from + 1).last() == c);
            lemma_value_of_prefix(numeral, i - from + 1);
        }
        value = value * 10 + d;
        if value > 4294967295 {
            return None;
        }
        i = i + 1;
    }
    assert(numeral.take(to - from) =~= numeral);
    Some(value as u32)
}

/// Reads a process id from the name of an entry of `/proc`. The entries
/// that stand for processes are those whose name is a decimal numeral.
pub fn parse_process_id(name: &Vec<char>) -> (id: Option<u32>)
    ensures
        id == decimal_id(name@),
{
    assert(name@.subrange(0, name.len() as int) =~= name@);
    parse_id(name, 0, name.len())
}

/// Reads the largest process id from the text of
/// `/proc/sys/kernel/pid_max`.
pub fn parse_pid_max(text: &Vec<char>) -> (max: Option<u32>)
    ensures
        max == pid_max(text@),
{
    let len: usize = text.len();
    if len > 0 && text[len - 1] == '\n' {
        assert(text@.subrange(0, len - 1) =~= text@.drop_last());
        parse_id(text, 0, len - 1)
    } else {
        assert(text@.subrange(0, len as int) =~= text@);
        parse_id(text, 0, len)
    }
}

/// Finds the first `c` in a text.
fn find_first(text: &Vec<char>, c: char) -> (at: Option<usize>)
    ensures
        match at {
            Some(at) => at < text.len() && first_position(text@, c) == Some(at as int),
            None => first_position(text@, c) is None,
        },
{
    let mut i: usize = 0;
    while i < text.len()
        invariant
            0 <= i <= text.len(),
            first_position(text@.take(i as int), c) is None,
        decreases text.len() - i,
    {
        proof {
            assert(text@.take(i + 1).drop_last() =~= text@.take(i as int));
        }
        if text[i] == c {
            proof {
                lemma_first_position_stays(text@, c, i + 1);
            }
            return Some(i);
        }
        i = i + 1;
    }
    assert(text@.take(text.len() as int) =~= text@);
    None
}

/// Finds the last `c` in a text.
fn find_last(text: &Vec<char>, c: char) -> (at: Option<usize>)
    ensures
        match at {
            Some(at) => at < text.len() && last_position(text@, c) == Some(at as int),
            None => last_position(text@, c) is None,
        },
{
    let mut i: usize = text.len();
    assert(text@.take(i as int) =~= text@);
    while i > 0
        invariant
            0 <= i <= text.len(),
            last_position(text@, c) == last_position(text@.take(i as int), c),
        decreases i,
    {
        proof {
            assert(text@.take(i as int).drop_last() =~= text@.take(i - 1));
        }
        if text[i - 1] == c {
            return Some(i - 1);
        }
        i = i - 1;
    }
    None
}

/// Finds the end of the field that starts at `from`.
fn find_field_end(text: &Vec<char>, from: usize) -> (to: usize)
    requires
        from <= text.len(),
    ensures
        from <= to <= text.len(),
        to == field_end(text@, from as int),
{
    let mut i: usize = from;
    while i < text.len() && text[i] != ' '
        invariant
            from <= i <= text.len(),
            field_end(text@, from as int) == field_end(text@, i as int),
        decreases text.len() - i,
    {
        i = i + 1;
    }
    i
}

/// Reads the process id, the parent's id and the place of the name from
/// the text of `/proc/<id>/stat`. Text of any other form gives `None`.
pub fn parse_stat(text: &Vec<char>) -> (line: Option<StatLine>)
    ensures
        line == stat_line(text@),
        line matches Some(line) ==> line.name_from <= line.name_to <= text.len(),
{
    let open: usize = match find_first(text, '(') {
        Some(open) => open,
        None => {
            return None;
        },
    };
    let close: usize = match find_last(text, ')') {
        Some(close) => close,
        None => {
            return None;
        },
    };
    if open == 0 || open >= close || text.len() - close <= 4 {
        return None;
    }
    if text[open - 1] != ' ' || text[close + 1] != ' ' || text[close + 2] == ' ' || text[close + 3]
        != ' ' {
        return None;
    }
    let parent_to: usize = find_field_end(text, close + 4);
    let process_id: u32 = match parse_id(text, 0, open - 1) {
        Some(process_id) => process_id,
        None => {
            return None;
        },
    };
    let parent_process_id: u32 = match parse_id(text, close + 4, parent_to) {
        Some(parent_process_id) => parent_process_id,
        None => {
            return None;
        },
    };
    Some(StatLine { process_id, parent_process_id, name_from: open + 1, name_to: close })
}

} // verus!
