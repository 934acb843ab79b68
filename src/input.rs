//! Reading what the user types: menu choices, task numbers, priorities, due
//! dates, confirmations and multi-line descriptions.
use vstd::prelude::*;

use crate::date::{parse_date, parsed_date, Date};
use crate::list::TaskError;
use crate::text::{
    chars_of, decimal, decimal_text, parse_unsigned, parse_unsigned_text, push_char_to,
    push_range, same_text, trim, trim_end, trim_end_len, trimmed,
};

verus! {

/// The entries of the main menu, numbered 1 to 13 in this order.
#[derive(Clone, Copy, Debug, PartialEq, Eq, Structural)]
pub enum MenuChoice {
    Add,
    Remove,
    View,
    Edit,
    Toggle,
    Search,
    Save,
    Load,
    Export,
    Import,
    Undo,
    Sort,
    Exit,
}

/// The menu entry numbered `n`.
pub open spec fn choice_numbered(n: nat) -> Option<MenuChoice> {
    if n == 1 {
        Some(MenuChoice::Add)
    } else if n == 2 {
        Some(MenuChoice::Remove)
    } else if n == 3 {
        Some(MenuChoice::View)
    } else if n == 4 {
        Some(MenuChoice::Edit)
    } else if n == 5 {
        Some(MenuChoice::Toggle)
    } else if n == 6 {
        Some(MenuChoice::Search)
    } else if n == 7 {
        Some(MenuChoice::Save)
    } else if n == 8 {
        Some(MenuChoice::Load)
    } else if n == 9 {
        Some(MenuChoice::Export)
    } else if n == 10 {
        Some(MenuChoice::Import)
    } else if n == 11 {
        Some(MenuChoice::Undo)
    } else if n == 12 {
        Some(MenuChoice::Sort)
    } else if n == 13 {
        Some(MenuChoice::Exit)
    } else {
        None
    }
}

/// The menu entry that `input` selects: once trimmed, it must be the number
/// of an entry written plainly in decimal.
pub open spec fn menu_choice(input: Seq<char>) -> Option<MenuChoice> {
    let t = trimmed(input);
    match parse_unsigned(t, 13) {
        Some(n) => if t == decimal(n) {
            choice_numbered(n)
        } else {
            None
        },
        None => None,
    }
}

impl MenuChoice {
    /// Whether the entry may change the tasks, and so is preceded by a
    /// snapshot for undo. A snapshot is taken even when the operation then
    /// fails or is cancelled, so an undo may give back an unchanged list.
    pub open spec fn changes_tasks(self) -> bool {
        match self {
            MenuChoice::Add | MenuChoice::Remove | MenuChoice::Edit | MenuChoice::Toggle
            | MenuChoice::Load | MenuChoice::Import | MenuChoice::Sort => true,
            _ => false,
        }
    }

    /// Whether the entry may change the tasks, and so is preceded by a
    /// snapshot for undo.
    pub fn takes_snapshot(&self) -> (r: bool)
        ensures
            r == self.changes_tasks(),
    {
        match self {
            MenuChoice::Add | MenuChoice::Remove | MenuChoice::Edit | MenuChoice::Toggle
            | MenuChoice::Load | MenuChoice::Import | MenuChoice::Sort => true,
            _ => false,
        }
    }
}

fn choice_of(n: u64) -> (r: Option<MenuChoice>)
    ensures
        r == choice_numbered(n as nat),
{
    match n {
        1 => Some(MenuChoice::Add),
        2 => Some(MenuChoice::Remove),
        3 => Some(MenuChoice::View),
        4 => Some(MenuChoice::Edit),
        5 => Some(MenuChoice::Toggle),
        6 => Some(MenuChoice::Search),
        7 => Some(MenuChoice::Save),
        8 => Some(MenuChoice::Load),
        9 => Some(MenuChoice::Export),
        10 => Some(MenuChoice::Import),
        11 => Some(MenuChoice::Undo),
        12 => Some(MenuChoice::Sort),
        13 => Some(MenuChoice::Exit),
        _ => None,
    }
}

/// The menu entry that `input` selects, if any.
pub fn parse_menu_choice(input: &str) -> (r: Option<MenuChoice>)
    ensures
        r == menu_choice(input@),
{
    let t = trim(input);
    match parse_unsigned_text(t.as_str(), 13) {
        Some(n) => {
            let plain = decimal_text(n);
            if same_text(t.as_str(), plain.as_str()) {
                choice_of(n)
            } else {
                None
            }
        },
        None => None,
    }
}

/// The 1-based task number that `input` gives, once trimmed, if it lies
/// between 1 and `len`.
pub open spec fn position_in(input: Seq<char>, len: nat) -> Option<usize> {
    match parse_unsigned(trimmed(input), usize::MAX as nat) {
        Some(n) => if 1 <= n <= len {
            Some(n as usize)
        } else {
            None
        },
        None => None,
    }
}

/// The 1-based task number that `input` gives, if it lies between 1 and
/// `len`.
pub fn parse_position(input: &str, len: usize) -> (r: Option<usize>)
    ensures
        r == position_in(input@, len as nat),
{
    let t = trim(input);
    match parse_unsigned_text(t.as_str(), usize::MAX as u64) {
        Some(n) => {
            if 1 <= n && n <= len as u64 {
                Some(n as usize)
            } else {
                None
            }
        },
        None => None,
    }
}

/// The priority that `input` gives: none when it is blank once trimmed,
/// otherwise a number from 1 to 5.
pub open spec fn priority_input(input: Seq<char>) -> Result<Option<u8>, TaskError> {
    let t = trimmed(input);
    if t.len() == 0 {
        Ok(None)
    } else {
        match parse_unsigned(t, u8::MAX as nat) {
            Some(v) => if 1 <= v <= 5 {
                Ok(Some(v as u8))
            } else {
                Err(TaskError::PriorityOutOfRange)
            },
            None => Err(TaskError::NotANumber),
        }
    }
}

/// The priority that `input` gives; blank input gives none.
pub fn parse_priority(input: &str) -> (r: Result<Option<u8>, TaskError>)
    ensures
        r == priority_input(input@),
{
    let t = trim(input);
    if t.as_str().is_empty() {
        return Ok(None);
    }
    match parse_unsigned_text(t.as_str(), 255) {
        Some(v) => {
            if 1 <= v && v <= 5 {
                Ok(Some(v as u8))
            } else {
                Err(TaskError::PriorityOutOfRange)
            }
        },
        None => Err(TaskError::NotANumber),
    }
}

/// The due date that `input` gives: none when it is blank once trimmed,
/// otherwise the date that chrono reads with `%Y-%m-%d`.
pub open spec fn due_date_input(input: Seq<char>) -> Result<Option<Date>, TaskError> {
    let t = trimmed(input);
    if t.len() == 0 {
        Ok(None)
    } else {
        match parsed_date(t) {
            Some(d) => Ok(Some(d)),
            None => Err(TaskError::MalformedDate),
        }
    }
}

/// The due date that `input` gives; blank input gives none.
pub fn parse_due_date(input: &str) -> (r: Result<Option<Date>, TaskError>)
    ensures
        r == due_date_input(input@),
        r matches Ok(Some(d)) ==> d.valid(),
{
    let t = trim(input);
    if t.as_str().is_empty() {
        return Ok(None);
    }
    match parse_date(t.as_str()) {
        Some(d) => Ok(Some(d)),
        None => Err(TaskError::MalformedDate),
    }
}

/// Whether an answer to a yes/no question is yes: once trimmed, it is `y` or
/// `Y`.
pub open spec fn is_yes(answer: Seq<char>) -> bool {
    trimmed(answer) == seq!['y'] || trimmed(answer) == seq!['Y']
}

/// Whether an answer to a yes/no question is yes.
pub fn confirms(answer: &str) -> (r: bool)
    ensures
        r == is_yes(answer@),
{
    let t = chars_of(trim(answer).as_str());
    let r = t.len() == 1 && (t[0] == 'y' || t[0] == 'Y');
    assert(r == is_yes(answer@)) by {
        if t@.len() == 1 {
            assert(t@ == seq![t@[0]]);
        }
    }
    r
}

/// A description after one more typed line: a line that is `.` once its
/// trailing whitespace is removed ends the description and leaves it as it
/// is; any other line is added, without its trailing whitespace, after a line
/// break if the description already holds text.
pub open spec fn with_line(description: Seq<char>, line: Seq<char>) -> (Seq<char>, bool) {
    let l = trim_end(line);
    if l == seq!['.'] {
        (description, true)
    } else if description.len() > 0 {
        (description + seq!['\n'] + l, false)
    } else {
        (l, false)
    }
}

/// Adds one typed line to a description being entered; returns whether the
/// line ended the description.
pub fn push_description_line(description: &mut String, line: &str) -> (r: bool)
    ensures
        (final(description)@, r) == with_line(old(description)@, line@),
{
    let cs = chars_of(line);
    let hi = trim_end_len(&cs);
    if hi == 1 && cs[0] == '.' {
        assert(cs@.subrange(0, 1) == seq!['.']);
        return true;
    }
    let ghost l = cs@.subrange(0, hi as int);
    assert(l != seq!['.']) by {
        if hi == 1 {
            assert(l[0] == cs@[0]);
        } else {
            assert(l.len() != 1);
        }
    }
    let ghost empty_before = description@.len() == 0;
    if !description.as_str().is_empty() {
        push_char_to(description, '\n');
    }
    push_range(description, &cs, 0, hi);
    assert(empty_before ==> Seq::<char>::empty() + l == l);
    false
}

} // verus!
