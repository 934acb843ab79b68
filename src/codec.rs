//! The text file format: one task per line, fields separated by `|` in the
//! order description, completed, priority, due date.
use vstd::prelude::*;

use crate::date::{date_text, parse_date, parsed_date, year_text, zero_padded, Date};
use crate::list::models;
use crate::task::{all_wf, Task, TaskModel};
use crate::text::{
    all_digits, chars_of, decimal, digit_char, digit_value, digits_value, is_digit,
    parse_unsigned, parse_unsigned_chars, push_char_to, push_decimal, push_str, string_of,
};

verus! {

/// The pieces of `s` between occurrences of `sep`, as `str::split` cuts it:
/// always at least one piece.
pub open spec fn split_on(s: Seq<char>, sep: char) -> Seq<Seq<char>>
    decreases s.len(),
{
    if s.len() == 0 {
        seq![Seq::empty()]
    } else {
        let pieces = split_on(s.drop_last(), sep);
        if s.last() == sep {
            pieces.push(Seq::empty())
        } else {
            pieces.update(pieces.len() - 1, pieces.last().push(s.last()))
        }
    }
}

proof fn lemma_split_nonempty(s: Seq<char>, sep: char)
    ensures
        split_on(s, sep).len() >= 1,
    decreases s.len(),
{
    if s.len() > 0 {
        lemma_split_nonempty(s.drop_last(), sep);
    }
}

/// The pieces of `cs` between occurrences of `sep`.
pub fn split_chars(cs: &Vec<char>, sep: char) -> (r: Vec<Vec<char>>)
    ensures
        r@.map_values(|v: Vec<char>| v@) == split_on(cs@, sep),
{
    let mut pieces: Vec<Vec<char>> = Vec::new();
    let mut current: Vec<char> = Vec::new();
    for i in 0..cs.len()
        invariant
            pieces@.map_values(|v: Vec<char>| v@).push(current@) == split_on(
                cs@.take(i as int),
                sep,
            ),
    {
        let ghost before = pieces@.map_values(|v: Vec<char>| v@).push(current@);
        assert(cs@.take(i + 1).drop_last() == cs@.take(i as int));
        let c = cs[i];
        if c == sep {
            pieces.push(current);
            current = Vec::new();
            assert(pieces@.map_values(|v: Vec<char>| v@).push(current@) == before.push(
                Seq::empty(),
            ));
        } else {
            current.push(c);
            assert(pieces@.map_values(|v: Vec<char>| v@).push(current@) == before.update(
                before.len() - 1,
                before.last().push(c),
            ));
        }
    }
    assert(cs@.take(cs@.len() as int) == cs@);
    pieces.push(current);
    pieces
}

/// The first `n` characters of `cs`.
fn take_chars(cs: &Vec<char>, n: usize) -> (r: Vec<char>)
    requires
        n <= cs@.len(),
    ensures
        r@ == cs@.take(n as int),
{
    let mut out: Vec<char> = Vec::new();
    for i in 0..n
        invariant
            n <= cs@.len(),
            out@ == cs@.take(i as int),
    {
        out.push(cs[i]);
        assert(cs@.take(i + 1) == cs@.take(i as int).push(cs@[i as int]));
    }
    out
}

// ---------------------------------------------------------------------------
// Escaping line breaks in descriptions
// ---------------------------------------------------------------------------

/// How one character of a description is written: a line break as the two
/// characters `\` and `n`, any other character as itself.
pub open spec fn escaped_char(c: char) -> Seq<char> {
    if c == '\n' {
        seq!['\\', 'n']
    } else {
        seq![c]
    }
}

/// A description as the text format writes it.
pub open spec fn escape(s: Seq<char>) -> Seq<char>
    decreases s.len(),
{
    if s.len() == 0 {
        Seq::empty()
    } else {
        escape(s.drop_last()) + escaped_char(s.last())
    }
}

/// A description as the text format reads it: each `\` followed by `n`,
/// from left to right, becomes a line break.
pub open spec fn unescape(s: Seq<char>) -> Seq<char>
    decreases s.len(),
{
    if s.len() == 0 {
        Seq::empty()
    } else if s.len() >= 2 && s[0] == '\\' && s[1] == 'n' {
        seq!['\n'] + unescape(s.skip(2))
    } else {
        seq![s[0]] + unescape(s.skip(1))
    }
}

/// Appends `s` to `out` with its line breaks escaped.
fn push_escaped(out: &mut String, s: &str)
    ensures
        final(out)@ == old(out)@ + escape(s@),
{
    let ghost start = out@;
    let cs = chars_of(s);
    for i in 0..cs.len()
        invariant
            cs@ == s@,
            out@ == start + escape(cs@.take(i as int)),
    {
        assert(cs@.take(i + 1).drop_last() == cs@.take(i as int));
        if cs[i] == '\n' {
            proof {
                reveal_strlit("\\n");
            }
            push_str(out, "\\n");
        } else {
            push_char_to(out, cs[i]);
        }
    }
    assert(cs@.take(cs@.len() as int) == cs@);
}

/// The characters of `cs` with every `\` followed by `n` turned into a line
/// break.
fn unescape_chars(cs: &Vec<char>) -> (r: String)
    ensures
        r@ == unescape(cs@),
{
    let mut out: Vec<char> = Vec::new();
    let n = cs.len();
    let mut i: usize = 0;
    assert(cs@.skip(0) == cs@);
    assert(out@ + unescape(cs@) == unescape(cs@));
    while i < n
        invariant
            i <= n == cs@.len(),
            out@ + unescape(cs@.skip(i as int)) == unescape(cs@),
        decreases n - i,
    {
        let ghost rest = cs@.skip(i as int);
        if i + 1 < n && cs[i] == '\\' && cs[i + 1] == 'n' {
            assert(rest.skip(2) == cs@.skip(i + 2));
            out.push('\n');
            assert(out@ + unescape(cs@.skip(i + 2)) == unescape(cs@));
            i += 2;
        } else {
            assert(rest.skip(1) == cs@.skip(i + 1));
            out.push(cs[i]);
            assert(out@ + unescape(cs@.skip(i + 1)) == unescape(cs@));
            i += 1;
        }
    }
    assert(cs@.skip(n as int).len() == 0);
    assert(out@ + Seq::<char>::empty() == out@);
    string_of(&out)
}

// ---------------------------------------------------------------------------
// Writing
// ---------------------------------------------------------------------------

/// The line of a task, without its line break.
pub open spec fn encode_line(t: TaskModel) -> Seq<char> {
    escape(t.description) + seq!['|'] + (if t.completed {
        seq!['1']
    } else {
        seq!['0']
    }) + seq!['|'] + match t.priority {
        Some(p) => decimal(p as nat),
        None => Seq::empty(),
    } + seq!['|'] + match t.due_date {
        Some(d) => d.iso_text(),
        None => Seq::empty(),
    }
}

/// The text of a sequence of tasks: each task's line followed by a line break.
pub open spec fn encode(tasks: Seq<TaskModel>) -> Seq<char>
    decreases tasks.len(),
{
    if tasks.len() == 0 {
        Seq::empty()
    } else {
        encode(tasks.drop_last()) + encode_line(tasks.last()) + seq!['\n']
    }
}

/// Appends the line of `t`, and a line break, to `out`.
fn push_line(out: &mut String, t: &Task)
    requires
        t@.wf(),
    ensures
        final(out)@ == old(out)@ + encode_line(t@) + seq!['\n'],
        reread(t@) == t@,
{
    proof {
        reveal_strlit("|");
        reveal_strlit("1");
        reveal_strlit("0");
        reveal_strlit("\n");
    }
    push_escaped(out, t.description.as_str());
    push_str(out, "|");
    if t.completed {
        push_str(out, "1");
    } else {
        push_str(out, "0");
    }
    push_str(out, "|");
    if let Some(p) = t.priority {
        push_decimal(out, p as u64);
    }
    push_str(out, "|");
    if let Some(d) = &t.due_date {
        let text = date_text(d);
        push_str(out, text.as_str());
    }
    push_str(out, "\n");
}

/// The text that saving `tasks` writes. Loading it back gives the same
/// tasks, and passes over no line, when no description holds `|` or `\`
/// followed by `n`.
pub fn save_tasks(tasks: &Vec<Task>) -> (r: String)
    requires
        all_wf(models(tasks@)),
    ensures
        r@ == encode(models(tasks@)),
        (forall|i: int| 0 <= i < tasks@.len() ==> text_safe(#[trigger] tasks@[i].description@))
            ==> decode_all(text_lines(r@)) == models(tasks@) && undecodable(text_lines(r@)) == 0,
{
    let mut out = String::new();
    for i in 0..tasks.len()
        invariant
            all_wf(models(tasks@)),
            out@ == encode(models(tasks@.take(i as int))),
            forall|j: int| 0 <= j < i ==> reread(#[trigger] models(tasks@)[j]) == models(tasks@)[j],
    {
        assert(models(tasks@)[i as int] == tasks@[i as int]@);
        assert(models(tasks@.take(i + 1)).drop_last() == models(tasks@.take(i as int)));
        push_line(&mut out, &tasks[i]);
    }
    assert(tasks@.take(tasks@.len() as int) == tasks@);
    let ghost m = models(tasks@);
    proof {
        if forall|i: int| 0 <= i < tasks@.len() ==> text_safe(#[trigger] tasks@[i].description@) {
            assert forall|i: int| 0 <= i < m.len() implies text_safe(#[trigger] m[i].description) by {
                assert(m[i] == tasks@[i]@);
            }
            lemma_save_load(m);
            assert(m.map_values(|t: TaskModel| reread(t)) == m);
        }
    }
    out
}

// ---------------------------------------------------------------------------
// Reading
// ---------------------------------------------------------------------------

/// A priority field: a number from 1 to 5, or none.
pub open spec fn read_priority(field: Seq<char>) -> Option<u8> {
    match parse_unsigned(field, 255) {
        Some(v) => if 1 <= v <= 5 {
            Some(v as u8)
        } else {
            None
        },
        None => None,
    }
}

/// The task that a line holds, if it has at least two fields. An empty,
/// unreadable or out-of-range priority, and an empty or unreadable due date,
/// count as absent.
pub open spec fn decode_line(line: Seq<char>) -> Option<TaskModel> {
    let f = split_on(line, '|');
    if f.len() < 2 {
        None
    } else {
        Some(
            TaskModel {
                description: unescape(f[0]),
                completed: f[1] == seq!['1'],
                priority: if f.len() > 2 && f[2].len() > 0 {
                    read_priority(f[2])
                } else {
                    None
                },
                due_date: if f.len() > 3 && f[3].len() > 0 {
                    parsed_date(f[3])
                } else {
                    None
                },
            },
        )
    }
}

/// A line without the carriage return of a `\r\n` line end.
pub open spec fn strip_cr(p: Seq<char>) -> Seq<char> {
    if p.len() > 0 && p.last() == '\r' {
        p.drop_last()
    } else {
        p
    }
}

/// The lines of `text`, as `BufRead::lines` reads them: split at line
/// breaks, a `\r` before a line break dropped, and no empty line after a
/// final line break.
pub open spec fn text_lines(text: Seq<char>) -> Seq<Seq<char>> {
    let pieces = split_on(text, '\n');
    let ended = pieces.drop_last().map_values(|p: Seq<char>| strip_cr(p));
    if pieces.last().len() == 0 {
        ended
    } else {
        ended.push(pieces.last())
    }
}

/// The tasks that `lines` hold, in order; lines that hold none are passed
/// over.
pub open spec fn decode_all(lines: Seq<Seq<char>>) -> Seq<TaskModel>
    decreases lines.len(),
{
    if lines.len() == 0 {
        Seq::empty()
    } else {
        let rest = decode_all(lines.drop_last());
        match decode_line(lines.last()) {
            Some(t) => rest.push(t),
            None => rest,
        }
    }
}

/// How many of `lines` hold no task.
pub open spec fn undecodable(lines: Seq<Seq<char>>) -> nat
    decreases lines.len(),
{
    if lines.len() == 0 {
        0
    } else {
        undecodable(lines.drop_last()) + if decode_line(lines.last()) is Some {
            0nat
        } else {
            1nat
        }
    }
}

/// The task that a line holds, if any.
fn decode_line_exec(line: &Vec<char>) -> (r: Option<Task>)
    ensures
        match decode_line(line@) {
            Some(m) => r is Some && r->0@ == m,
            None => r is None,
        },
        r matches Some(t) ==> t@.wf(),
{
    let fields = split_chars(line, '|');
    let ghost f = split_on(line@, '|');
    assert(fields@.len() == f.len());
    if fields.len() < 2 {
        return None;
    }
    assert(fields@[0]@ == f[0] && fields@[1]@ == f[1]);
    let description = unescape_chars(&fields[0]);
    let completed = fields[1].len() == 1 && fields[1][0] == '1';
    assert(completed == (f[1] == seq!['1'])) by {
        if f[1].len() == 1 && f[1][0] == '1' {
            assert(f[1] == seq!['1']);
        }
    }
    let mut priority: Option<u8> = None;
    if fields.len() > 2 && fields[2].len() > 0 {
        assert(fields@[2]@ == f[2]);
        match parse_unsigned_chars(&fields[2], 255) {
            Some(v) => {
                if 1 <= v && v <= 5 {
                    priority = Some(v as u8);
                }
            },
            None => {},
        }
    }
    let mut due_date = None;
    if fields.len() > 3 && fields[3].len() > 0 {
        assert(fields@[3]@ == f[3]);
        let text = string_of(&fields[3]);
        due_date = parse_date(text.as_str());
    }
    Some(Task { description, completed, priority, due_date })
}

/// What loading a text file gives: the tasks read, and how many lines held
/// none.
pub struct Loaded {
    pub tasks: Vec<Task>,
    pub skipped: usize,
}

/// Reads the tasks of a text file's contents, line by line, passing over the
/// lines that hold none.
pub fn load_text(text: &str) -> (r: Loaded)
    ensures
        models(r.tasks@) == decode_all(text_lines(text@)),
        r.skipped == undecodable(text_lines(text@)),
        all_wf(models(r.tasks@)),
{
    let cs = chars_of(text);
    let pieces = split_chars(&cs, '\n');
    let ghost p = split_on(text@, '\n');
    let ghost lines = text_lines(text@);
    proof {
        lemma_split_nonempty(text@, '\n');
    }
    assert(pieces@.len() == p.len());
    let last = pieces.len() - 1;
    let mut tasks: Vec<Task> = Vec::new();
    let mut skipped: usize = 0;
    let mut k: usize = 0;
    while k < pieces.len()
        invariant
            pieces@.map_values(|v: Vec<char>| v@) == p,
            p == split_on(text@, '\n'),
            lines == text_lines(text@),
            last + 1 == p.len(),
            k <= p.len(),
            k <= last ==> k <= lines.len(),
            k > last ==> lines.len() == last || lines.len() == last + 1,
            k <= last ==> models(tasks@) == decode_all(lines.take(k as int)),
            k <= last ==> skipped == undecodable(lines.take(k as int)),
            k > last ==> models(tasks@) == decode_all(lines),
            k > last ==> skipped == undecodable(lines),
            skipped <= k,
            all_wf(models(tasks@)),
        decreases p.len() - k,
    {
        let piece = &pieces[k];
        assert(piece@ == p[k as int]);
        if k == last && piece.len() == 0 {
            assert(lines.len() == last);
            assert(lines.take(k as int) == lines);
            k += 1;
            continue;
        }
        assert(k < lines.len());
        let line = if k < last && piece.len() > 0 && piece[piece.len() - 1] == '\r' {
            take_chars(piece, piece.len() - 1)
        } else {
            take_chars(piece, piece.len())
        };
        assert(line@ == lines[k as int]) by {
            assert(piece@.take(piece@.len() as int) == piece@);
            if k < last {
                assert(lines[k as int] == strip_cr(p[k as int]));
            }
        }
        assert(lines.take(k + 1).drop_last() == lines.take(k as int));
        let decoded = decode_line_exec(&line);
        let ghost before = models(tasks@);
        match decoded {
            Some(t) => {
                tasks.push(t);
                assert(models(tasks@) == before.push(t@));
            },
            None => {
                skipped += 1;
            },
        }
        if k == last {
            assert(lines.take(k + 1) == lines);
        }
        k += 1;
    }
    Loaded { tasks, skipped }
}

/// Loads a text file's contents; no contents, as for a missing file, give no
/// tasks.
pub fn load_tasks(contents: Option<&str>) -> (r: Loaded)
    ensures
        contents is None ==> r.tasks@.len() == 0 && r.skipped == 0,
        contents matches Some(text) ==> models(r.tasks@) == decode_all(text_lines(text@))
            && r.skipped == undecodable(text_lines(text@)),
        all_wf(models(r.tasks@)),
{
    match contents {
        Some(text) => load_text(text),
        None => {
            let r = Loaded { tasks: Vec::new(), skipped: 0 };
            assert(models(r.tasks@) =~= Seq::<TaskModel>::empty());
            r
        },
    }
}

// ---------------------------------------------------------------------------
// Facts about splitting, escaping and numbers
// ---------------------------------------------------------------------------

/// Whether `sep` does not occur in `s`.
pub open spec fn free_of(s: Seq<char>, sep: char) -> bool {
    forall|i: int| 0 <= i < s.len() ==> s[i] != sep
}

proof fn lemma_split_plain_tail(x: Seq<char>, y: Seq<char>, sep: char)
    requires
        free_of(y, sep),
    ensures
        split_on(x, sep).len() >= 1,
        split_on(x + y, sep) == split_on(x, sep).update(
            split_on(x, sep).len() - 1,
            split_on(x, sep).last() + y,
        ),
    decreases y.len(),
{
    lemma_split_nonempty(x, sep);
    if y.len() == 0 {
        assert(x + y == x);
        assert(split_on(x, sep).last() + y == split_on(x, sep).last());
        assert(split_on(x, sep).update(split_on(x, sep).len() - 1, split_on(x, sep).last())
            == split_on(x, sep));
    } else {
        let y0 = y.drop_last();
        lemma_split_plain_tail(x, y0, sep);
        assert((x + y).drop_last() == x + y0);
        assert((x + y).last() == y.last());
        assert(split_on(x, sep).last() + y == (split_on(x, sep).last() + y0).push(y.last()));
    }
}

proof fn lemma_split_plain(y: Seq<char>, sep: char)
    requires
        free_of(y, sep),
    ensures
        split_on(y, sep) == seq![y],
{
    lemma_split_plain_tail(Seq::empty(), y, sep);
    assert(Seq::<char>::empty() + y == y);
}

proof fn lemma_split_at_sep(a: Seq<char>, b: Seq<char>, sep: char)
    ensures
        split_on(a + seq![sep] + b, sep) == split_on(a, sep) + split_on(b, sep),
    decreases b.len(),
{
    lemma_split_nonempty(b, sep);
    if b.len() == 0 {
        assert(a + seq![sep] + b == (a + seq![sep]));
        assert((a + seq![sep]).drop_last() == a);
    } else {
        let b0 = b.drop_last();
        lemma_split_at_sep(a, b0, sep);
        lemma_split_nonempty(b0, sep);
        assert((a + seq![sep] + b).drop_last() == a + seq![sep] + b0);
        assert((a + seq![sep] + b).last() == b.last());
        let pa = split_on(a, sep);
        let pb = split_on(b0, sep);
        if b.last() != sep {
            assert((pa + pb).update((pa + pb).len() - 1, (pa + pb).last().push(b.last())) == pa
                + pb.update(pb.len() - 1, pb.last().push(b.last())));
        } else {
            assert((pa + pb).push(Seq::empty()) == pa + pb.push(Seq::empty()));
        }
    }
}

proof fn lemma_escape_add(a: Seq<char>, b: Seq<char>)
    ensures
        escape(a + b) == escape(a) + escape(b),
    decreases b.len(),
{
    if b.len() == 0 {
        assert(a + b == a);
        assert(escape(a) + escape(b) == escape(a));
    } else {
        lemma_escape_add(a, b.drop_last());
        assert((a + b).drop_last() == a + b.drop_last());
        assert((a + b).last() == b.last());
    }
}

proof fn lemma_escape_front(s: Seq<char>)
    requires
        s.len() > 0,
    ensures
        escape(s) == escaped_char(s[0]) + escape(s.skip(1)),
{
    lemma_escape_add(seq![s[0]], s.skip(1));
    assert(seq![s[0]] + s.skip(1) == s);
    assert(seq![s[0]].drop_last() == Seq::<char>::empty());
    assert(seq![s[0]].last() == s[0]);
    assert(escape(Seq::<char>::empty()) == Seq::<char>::empty());
    assert(escape(seq![s[0]]) == Seq::<char>::empty() + escaped_char(s[0]));
    assert(Seq::<char>::empty() + escaped_char(s[0]) == escaped_char(s[0]));
}

/// Whether a description comes back unchanged from the text format: it holds
/// no `|`, and no `\` followed by `n`.
pub open spec fn text_safe(s: Seq<char>) -> bool {
    &&& free_of(s, '|')
    &&& forall|i: int| 0 <= i < s.len() - 1 ==> !(s[i] == '\\' && #[trigger] s[i + 1] == 'n')
}

proof fn lemma_unescape_escape(s: Seq<char>)
    requires
        forall|i: int| 0 <= i < s.len() - 1 ==> !(s[i] == '\\' && #[trigger] s[i + 1] == 'n'),
    ensures
        unescape(escape(s)) == s,
    decreases s.len(),
{
    if s.len() == 0 {
        assert(escape(s) == Seq::<char>::empty());
    } else {
        let rest = s.skip(1);
        assert forall|i: int| 0 <= i < rest.len() - 1 implies !(rest[i] == '\\' && #[trigger] rest[i
            + 1] == 'n') by {
            assert(rest[i] == s[i + 1] && rest[i + 1] == s[i + 2]);
        }
        lemma_unescape_escape(rest);
        lemma_escape_front(s);
        let e = escape(rest);
        if s[0] == '\n' {
            assert((seq!['\\', 'n'] + e).skip(2) == e);
        } else {
            if rest.len() > 0 {
                lemma_escape_front(rest);
                assert(e[0] == escaped_char(rest[0])[0]);
                assert(s[1] == rest[0]);
            }
            assert((seq![s[0]] + e).skip(1) == e);
            if s[0] == '\\' && e.len() > 0 {
                assert(e[0] != 'n');
            }
        }
    }
}

proof fn lemma_escape_free_of(s: Seq<char>, c: char)
    requires
        c != '\\' && c != 'n',
        free_of(s, c),
    ensures
        free_of(escape(s), c),
    decreases s.len(),
{
    if s.len() > 0 {
        lemma_escape_free_of(s.drop_last(), c);
        assert(escape(s) == escape(s.drop_last()) + escaped_char(s.last()));
        assert(s.last() == s[s.len() - 1]);
    }
}

proof fn lemma_escape_no_break(s: Seq<char>)
    ensures
        free_of(escape(s), '\n'),
    decreases s.len(),
{
    if s.len() > 0 {
        lemma_escape_no_break(s.drop_last());
        assert(escape(s) == escape(s.drop_last()) + escaped_char(s.last()));
    }
}

proof fn lemma_digit_char(d: nat)
    requires
        d < 10,
    ensures
        is_digit(digit_char(d)),
        digit_value(digit_char(d)) == d,
{
}

proof fn lemma_decimal(n: nat)
    ensures
        decimal(n).len() > 0,
        all_digits(decimal(n)),
        digits_value(decimal(n)) == n,
    decreases n,
{
    if n < 10 {
        lemma_digit_char(n);
        assert(seq![digit_char(n)].drop_last() == Seq::<char>::empty());
        assert(seq![digit_char(n)].last() == digit_char(n));
        assert(digits_value(Seq::<char>::empty()) == 0);
        assert(digits_value(decimal(n)) == digits_value(Seq::<char>::empty()) * 10 + digit_value(
            digit_char(n),
        ));
    } else {
        lemma_decimal(n / 10);
        lemma_digit_char(n % 10);
        assert(decimal(n).drop_last() == decimal(n / 10));
        assert(decimal(n).last() == digit_char(n % 10));
        assert((n / 10) * 10 + n % 10 == n) by (nonlinear_arith);
        assert(digits_value(decimal(n)) == digits_value(decimal(n / 10)) * 10 + digit_value(
            digit_char(n % 10),
        ));
        assert forall|i: int| 0 <= i < decimal(n).len() implies is_digit(#[trigger] decimal(n)[i]) by {
            if i < decimal(n).len() - 1 {
                assert(decimal(n)[i] == decimal(n / 10)[i]);
            }
        }
    }
}

proof fn lemma_digits_free_of(s: Seq<char>, c: char)
    requires
        all_digits(s),
        !is_digit(c),
    ensures
        free_of(s, c),
{
}

proof fn lemma_parse_decimal(n: nat, max: nat)
    requires
        n <= max,
    ensures
        parse_unsigned(decimal(n), max) == Some(n),
{
    lemma_decimal(n);
    assert(is_digit(decimal(n)[0]));
}

/// Whether `c` may stand in a date as the text format writes it.
pub open spec fn date_char(c: char) -> bool {
    is_digit(c) || c == '-' || c == '+'
}

proof fn lemma_zero_padded(n: nat, width: nat)
    ensures
        forall|i: int| 0 <= i < zero_padded(n, width).len() ==> is_digit(
            #[trigger] zero_padded(n, width)[i],
        ),
{
    lemma_decimal(n);
    let digits = decimal(n);
    if digits.len() < width {
        let zeros = Seq::new((width - digits.len()) as nat, |i: int| '0');
        assert forall|i: int| 0 <= i < zero_padded(n, width).len() implies is_digit(
            #[trigger] zero_padded(n, width)[i],
        ) by {
            if i >= zeros.len() {
                assert(zero_padded(n, width)[i] == digits[i - zeros.len()]);
            }
        }
    }
}

proof fn lemma_iso_text(d: Date)
    ensures
        forall|i: int| 0 <= i < d.iso_text().len() ==> date_char(#[trigger] d.iso_text()[i]),
        d.iso_text().len() > 0,
{
    let y = d.year as int;
    lemma_zero_padded(d.month as nat, 2);
    lemma_zero_padded(d.day as nat, 2);
    lemma_zero_padded(y as nat, 4);
    lemma_zero_padded((-y) as nat, 4);
    let yt = year_text(y);
    assert forall|i: int| 0 <= i < yt.len() implies date_char(#[trigger] yt[i]) by {
        if !(0 <= y <= 9999) && i > 0 {
            if y > 9999 {
                assert(yt[i] == zero_padded(y as nat, 4)[i - 1]);
            } else {
                assert(yt[i] == zero_padded((-y) as nat, 4)[i - 1]);
            }
        }
    }
    let m = zero_padded(d.month as nat, 2);
    let dd = zero_padded(d.day as nat, 2);
    let t = d.iso_text();
    assert(t == yt + seq!['-'] + m + seq!['-'] + dd);
    assert forall|i: int| 0 <= i < t.len() implies date_char(#[trigger] t[i]) by {
        if i < yt.len() {
            assert(t[i] == yt[i]);
        } else if i == yt.len() {
        } else if i < yt.len() + 1 + m.len() {
            assert(t[i] == m[i - yt.len() - 1]);
        } else if i == yt.len() + 1 + m.len() {
        } else {
            assert(t[i] == dd[i - yt.len() - 2 - m.len()]);
        }
    }
}

/// The lines of `tasks`, in order, without line breaks.
pub open spec fn encoded_lines(tasks: Seq<TaskModel>) -> Seq<Seq<char>> {
    tasks.map_values(|t: TaskModel| encode_line(t))
}

/// A task as the text format gives it back: unchanged, but for its due date,
/// which is the date that chrono reads from the date's ISO text.
pub open spec fn reread(t: TaskModel) -> TaskModel {
    TaskModel {
        due_date: match t.due_date {
            Some(d) => parsed_date(d.iso_text()),
            None => None,
        },
        ..t
    }
}

proof fn lemma_free_concat(a: Seq<char>, b: Seq<char>, c: char)
    requires
        free_of(a, c),
        free_of(b, c),
    ensures
        free_of(a + b, c),
{
    assert forall|i: int| 0 <= i < (a + b).len() implies (a + b)[i] != c by {
        if i >= a.len() {
            assert((a + b)[i] == b[i - a.len()]);
        }
    }
}

proof fn lemma_line_fields(t: TaskModel)
    requires
        t.wf(),
        text_safe(t.description),
    ensures
        decode_line(encode_line(t)) == Some(reread(t)),
        free_of(encode_line(t), '\n'),
        encode_line(t).len() > 0,
        encode_line(t).last() != '\r',
{
    let e = escape(t.description);
    let f = if t.completed {
        seq!['1']
    } else {
        seq!['0']
    };
    let p = match t.priority {
        Some(p) => decimal(p as nat),
        None => Seq::<char>::empty(),
    };
    let d = match t.due_date {
        Some(d) => d.iso_text(),
        None => Seq::<char>::empty(),
    };
    assert(encode_line(t) == e + seq!['|'] + f + seq!['|'] + p + seq!['|'] + d);
    lemma_escape_free_of(t.description, '|');
    lemma_escape_no_break(t.description);
    if let Some(q) = t.priority {
        lemma_decimal(q as nat);
        lemma_digits_free_of(p, '|');
        lemma_digits_free_of(p, '\n');
        lemma_parse_decimal(q as nat, 255);
    }
    if let Some(day) = t.due_date {
        lemma_iso_text(day);
    }
    assert(free_of(d, '|') && free_of(d, '\n') && free_of(d, '\r'));
    lemma_split_plain(e, '|');
    lemma_split_plain(f, '|');
    lemma_split_plain(p, '|');
    lemma_split_plain(d, '|');
    lemma_split_at_sep(e, f, '|');
    lemma_split_at_sep(e + seq!['|'] + f, p, '|');
    lemma_split_at_sep(e + seq!['|'] + f + seq!['|'] + p, d, '|');
    let fields = split_on(encode_line(t), '|');
    assert(fields == seq![e, f, p, d]);
    lemma_unescape_escape(t.description);
    assert(f == seq!['1'] <==> t.completed);
    assert(decode_line(encode_line(t)) == Some(reread(t)));
    let line = encode_line(t);
    let nl = '\n';
    lemma_free_concat(e, seq!['|'], nl);
    lemma_free_concat(e + seq!['|'], f, nl);
    lemma_free_concat(e + seq!['|'] + f, seq!['|'], nl);
    lemma_free_concat(e + seq!['|'] + f + seq!['|'], p, nl);
    lemma_free_concat(e + seq!['|'] + f + seq!['|'] + p, seq!['|'], nl);
    lemma_free_concat(e + seq!['|'] + f + seq!['|'] + p + seq!['|'], d, nl);
    if d.len() > 0 {
        assert(line.last() == d.last());
        assert(d.last() == d[d.len() - 1]);
    }
}

proof fn lemma_split_encode(tasks: Seq<TaskModel>)
    requires
        forall|i: int| 0 <= i < tasks.len() ==> free_of(#[trigger] encode_line(tasks[i]), '\n'),
    ensures
        split_on(encode(tasks), '\n') == encoded_lines(tasks).push(Seq::empty()),
    decreases tasks.len(),
{
    if tasks.len() == 0 {
        assert(encoded_lines(tasks) == Seq::<Seq<char>>::empty());
    } else {
        let rest = tasks.drop_last();
        let line = encode_line(tasks.last());
        assert(tasks.last() == tasks[tasks.len() - 1]);
        assert forall|i: int| 0 <= i < rest.len() implies free_of(
            #[trigger] encode_line(rest[i]),
            '\n',
        ) by {
            assert(rest[i] == tasks[i]);
        }
        lemma_split_encode(rest);
        lemma_split_at_sep(encode(rest) + line, Seq::empty(), '\n');
        assert(encode(rest) + line + seq!['\n'] + Seq::<char>::empty() == encode(tasks));
        lemma_split_plain_tail(encode(rest), line, '\n');
        assert(Seq::<char>::empty() + line == line);
        assert(encoded_lines(tasks) == encoded_lines(rest).push(line));
        assert(split_on(Seq::<char>::empty(), '\n') == seq![Seq::<char>::empty()]);
        assert(encoded_lines(rest).push(Seq::empty()).update(
            encoded_lines(rest).len() as int,
            line,
        ) == encoded_lines(rest).push(line));
    }
}

proof fn lemma_decode_lines(tasks: Seq<TaskModel>)
    requires
        all_wf(tasks),
        forall|i: int| 0 <= i < tasks.len() ==> text_safe(#[trigger] tasks[i].description),
    ensures
        decode_all(encoded_lines(tasks)) == tasks.map_values(|t: TaskModel| reread(t)),
        undecodable(encoded_lines(tasks)) == 0,
    decreases tasks.len(),
{
    if tasks.len() > 0 {
        let rest = tasks.drop_last();
        assert(tasks.last() == tasks[tasks.len() - 1]);
        assert forall|i: int| 0 <= i < rest.len() implies text_safe(
            #[trigger] rest[i].description,
        ) && rest[i].wf() by {
            assert(rest[i] == tasks[i]);
        }
        lemma_decode_lines(rest);
        lemma_line_fields(tasks.last());
        assert(encoded_lines(tasks).drop_last() == encoded_lines(rest));
        assert(encoded_lines(tasks).last() == encode_line(tasks.last()));
        assert(tasks.map_values(|t: TaskModel| reread(t)) == rest.map_values(
            |t: TaskModel| reread(t),
        ).push(reread(tasks.last())));
    } else {
        assert(encoded_lines(tasks) == Seq::<Seq<char>>::empty());
        assert(tasks.map_values(|t: TaskModel| reread(t)) == Seq::<TaskModel>::empty());
    }
}

/// Saving tasks as text and loading the text back gives the same tasks in
/// the same order, with the same descriptions, completion flags and
/// priorities, and no line passed over, as long as no description holds `|`
/// or `\` followed by `n`. A due date comes back as what chrono reads from
/// the date's ISO text; a missing one stays missing.
pub proof fn lemma_save_load(tasks: Seq<TaskModel>)
    requires
        all_wf(tasks),
        forall|i: int| 0 <= i < tasks.len() ==> text_safe(#[trigger] tasks[i].description),
    ensures
        decode_all(text_lines(encode(tasks))) == tasks.map_values(|t: TaskModel| reread(t)),
        undecodable(text_lines(encode(tasks))) == 0,
{
    assert forall|i: int| 0 <= i < tasks.len() implies free_of(
        #[trigger] encode_line(tasks[i]),
        '\n',
    ) && encode_line(tasks[i]).len() > 0 && encode_line(tasks[i]).last() != '\r' by {
        lemma_line_fields(tasks[i]);
    }
    lemma_split_encode(tasks);
    let pieces = split_on(encode(tasks), '\n');
    assert(pieces.drop_last() == encoded_lines(tasks));
    assert(pieces.drop_last().map_values(|p: Seq<char>| strip_cr(p)) == encoded_lines(tasks));
    assert(text_lines(encode(tasks)) == encoded_lines(tasks));
    lemma_decode_lines(tasks);
}

} // verus!
