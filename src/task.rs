//! The task record and how one line of a listing shows it.
use vstd::prelude::*;

use crate::date::{date_text, Date};
use crate::text::{decimal, push_decimal, push_str};

verus! {

/// One to-do item.
#[derive(Clone, Debug, PartialEq, Eq)]
pub struct Task {
    pub description: String,
    pub completed: bool,
    pub priority: Option<u8>,
    pub due_date: Option<Date>,
}

/// A task as a mathematical value.
pub struct TaskModel {
    pub description: Seq<char>,
    pub completed: bool,
    pub priority: Option<u8>,
    pub due_date: Option<Date>,
}

impl View for Task {
    type V = TaskModel;

    open spec fn view(&self) -> TaskModel {
        TaskModel {
            description: self.description@,
            completed: self.completed,
            priority: self.priority,
            due_date: self.due_date,
        }
    }
}

/// Whether a priority, if there is one, lies between 1 and 5.
pub open spec fn priority_in_range(priority: Option<u8>) -> bool {
    priority matches Some(p) ==> 1 <= p <= 5
}

/// Whether a due date, if there is one, is a day of the calendar.
pub open spec fn due_date_valid(due_date: Option<Date>) -> bool {
    due_date matches Some(d) ==> d.valid()
}

impl TaskModel {
    /// The invariant of every task that a list holds.
    pub open spec fn wf(self) -> bool {
        priority_in_range(self.priority) && due_date_valid(self.due_date)
    }
}

/// Whether every task of `tasks` keeps the invariant.
pub open spec fn all_wf(tasks: Seq<TaskModel>) -> bool {
    forall|i: int| 0 <= i < tasks.len() ==> (#[trigger] tasks[i]).wf()
}

/// The colour in which a part of a listing line is shown.
#[derive(Clone, Copy, Debug, PartialEq, Eq, Structural)]
pub enum Tone {
    Normal,
    Green,
    Yellow,
    Red,
    Cyan,
}

/// One part of a listing line: its text and its colour.
#[derive(Clone, Debug, PartialEq, Eq)]
pub struct Segment {
    pub text: String,
    pub tone: Tone,
}

impl View for Segment {
    type V = (Seq<char>, Tone);

    open spec fn view(&self) -> (Seq<char>, Tone) {
        (self.text@, self.tone)
    }
}

/// The glyph that shows whether a task is done.
pub open spec fn status_text(completed: bool) -> Seq<char> {
    if completed {
        "[x]"@
    } else {
        "[ ]"@
    }
}

/// Done tasks are green, pending ones yellow.
pub open spec fn status_tone(completed: bool) -> Tone {
    if completed {
        Tone::Green
    } else {
        Tone::Yellow
    }
}

/// The annotation that shows a priority.
pub open spec fn priority_label(p: u8) -> Seq<char> {
    "(Priority: "@ + decimal(p as nat) + ")"@
}

/// Priority 1 is red, 2 and 3 are yellow, the others plain.
pub open spec fn priority_tone(p: u8) -> Tone {
    if p == 1 {
        Tone::Red
    } else if p <= 3 {
        Tone::Yellow
    } else {
        Tone::Normal
    }
}

/// The annotation that shows a due date.
pub open spec fn due_label(d: Date) -> Seq<char> {
    "(Due: "@ + d.iso_text() + ")"@
}

/// A due date is red when it has passed and the task is not done, cyan
/// otherwise.
pub open spec fn due_tone(d: Date, completed: bool, today: Date) -> Tone {
    if d.before(today) && !completed {
        Tone::Red
    } else {
        Tone::Cyan
    }
}

/// The parts of the listing line of `t` at 0-based position `idx`: the status
/// glyph, the 1-based number, the description, then the priority and the due
/// date where the task has them.
pub open spec fn segments_of(t: TaskModel, idx: nat, today: Date) -> Seq<(Seq<char>, Tone)> {
    seq![
        (status_text(t.completed), status_tone(t.completed)),
        (decimal(idx + 1) + "."@, Tone::Normal),
        (t.description, Tone::Normal),
    ] + match t.priority {
        Some(p) => seq![(priority_label(p), priority_tone(p))],
        None => Seq::empty(),
    } + match t.due_date {
        Some(d) => seq![(due_label(d), due_tone(d, t.completed, today))],
        None => Seq::empty(),
    }
}

/// The plain text of a listing line made of `segments`: their texts
/// separated by single spaces.
pub open spec fn line_of(segments: Seq<(Seq<char>, Tone)>) -> Seq<char>
    decreases segments.len(),
{
    if segments.len() == 0 {
        Seq::empty()
    } else if segments.len() == 1 {
        segments[0].0
    } else {
        line_of(segments.drop_last()) + seq![' '] + segments.last().0
    }
}

fn segment(text: String, tone: Tone) -> (r: Segment)
    ensures
        r@ == (text@, tone),
{
    Segment { text, tone }
}

impl Task {
    /// A pending task.
    pub fn new(description: String, priority: Option<u8>, due_date: Option<Date>) -> (r: Task)
        ensures
            r@ == (TaskModel { description: description@, completed: false, priority, due_date }),
    {
        Task { description, completed: false, priority, due_date }
    }

    /// A copy of the task.
    pub fn duplicate(&self) -> (r: Task)
        ensures
            r == *self,
            r@ == self@,
    {
        Task {
            description: self.description.clone(),
            completed: self.completed,
            priority: self.priority,
            due_date: self.due_date,
        }
    }

    /// Whether the task keeps the invariant of the tasks that a list holds.
    pub fn is_well_formed(&self) -> (r: bool)
        ensures
            r == self@.wf(),
    {
        let p_ok = match self.priority {
            Some(p) => 1 <= p && p <= 5,
            None => true,
        };
        let d_ok = match &self.due_date {
            Some(d) => d.is_valid(),
            None => true,
        };
        p_ok && d_ok
    }

    /// The parts of the task's listing line at 0-based position `idx`, each
    /// with its colour; `today` decides whether the due date has passed.
    pub fn display(&self, idx: usize, today: &Date) -> (r: Vec<Segment>)
        requires
            self@.wf(),
            idx < usize::MAX,
        ensures
            r@.map_values(|s: Segment| s@) == segments_of(self@, idx as nat, *today),
    {
        let mut segs: Vec<Segment> = Vec::new();
        let mut status = String::new();
        if self.completed {
            push_str(&mut status, "[x]");
            segs.push(segment(status, Tone::Green));
        } else {
            push_str(&mut status, "[ ]");
            segs.push(segment(status, Tone::Yellow));
        }
        let mut number = String::new();
        push_decimal(&mut number, idx as u64 + 1);
        push_str(&mut number, ".");
        segs.push(segment(number, Tone::Normal));
        segs.push(segment(self.description.clone(), Tone::Normal));
        let ghost head = segs@;
        match self.priority {
            Some(p) => {
                let mut label = String::new();
                push_str(&mut label, "(Priority: ");
                push_decimal(&mut label, p as u64);
                push_str(&mut label, ")");
                let tone = if p == 1 {
                    Tone::Red
                } else if p <= 3 {
                    Tone::Yellow
                } else {
                    Tone::Normal
                };
                segs.push(segment(label, tone));
            },
            None => {},
        }
        let ghost middle = segs@;
        match &self.due_date {
            Some(d) => {
                let mut label = String::new();
                push_str(&mut label, "(Due: ");
                let text = date_text(d);
                push_str(&mut label, text.as_str());
                push_str(&mut label, ")");
                let tone = if d.is_before(today) && !self.completed {
                    Tone::Red
                } else {
                    Tone::Cyan
                };
                segs.push(segment(label, tone));
            },
            None => {},
        }
        assert(segs@.map_values(|s: Segment| s@) =~= segments_of(self@, idx as nat, *today));
        segs
    }
}

/// The plain text of a listing line: the texts of `segments` separated by
/// single spaces.
pub fn line_text(segments: &Vec<Segment>) -> (r: String)
    ensures
        r@ == line_of(segments@.map_values(|s: Segment| s@)),
{
    let ghost parts = segments@.map_values(|s: Segment| s@);
    let mut out = String::new();
    let mut i: usize = 0;
    while i < segments.len()
        invariant
            i <= segments@.len(),
            parts == segments@.map_values(|s: Segment| s@),
            out@ == line_of(parts.take(i as int)),
        decreases segments@.len() - i,
    {
        assert(parts.take(i + 1).drop_last() == parts.take(i as int));
        assert(parts.take(i + 1).last() == parts[i as int]);
        assert(parts[i as int].0 == segments@[i as int].text@);
        if i > 0 {
            proof {
                reveal_strlit(" ");
            }
            push_str(&mut out, " ");
        }
        push_str(&mut out, segments[i].text.as_str());
        i += 1;
    }
    assert(parts.take(segments@.len() as int) == parts);
    out
}

} // verus!
