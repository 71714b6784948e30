//! Reading a workload: a header line, then one line for each task, and at
//! most a line that lists the speeds the processor can run at.
//!
//! A task line reads `Name: (arrival, computation, deadline, context)`, the
//! speeds line `Possible speeds: (s1, s2, ...)`.

use crate::process::{Process, ProcessView};
use crate::queue::{rank, ProcessQueue, QueueEntry};
use crate::ratio::{table_view, Ratio};
use crate::text::{
    decimal, find, find_separator, first_index, line_spans, lines_of, numeral, read_decimal,
    read_numeral, split_fields, string_of, to_chars, trim, trim_bounds,
};
use vstd::prelude::*;
use vstd::slice::slice_subrange;

verus! {

/// Why a line is no line of a workload.
#[derive(Clone, Copy, PartialEq, Eq, Structural, Debug)]
pub enum ParseErrorKind {
    /// The colon after the name, the brackets round the fields, or a
    /// separator between two of the four fields of a task is absent.
    MissingSeparator,
    /// A field is no numeral of its kind.
    NonNumericField,
    /// The cost of a context switch is above 255.
    FieldRangeOverflow,
}

/// The first line that is no line of a workload, counted from 1, and why.
#[derive(Clone, Copy, PartialEq, Eq, Structural, Debug)]
pub struct ParseError {
    pub line: usize,
    pub kind: ParseErrorKind,
}

/// The numbers that `split` read: those of a task line, or those of the
/// speeds line.
#[derive(Debug)]
pub struct Fields {
    pub args: Vec<u16>,
    pub speeds: Vec<Ratio>,
}

/// The numbers that the fields stand for, where each is a numeral.
pub open spec fn numbers_of(fields: Seq<Seq<char>>) -> Option<Seq<u16>> {
    if forall|i: int| 0 <= i < fields.len() ==> numeral(#[trigger] fields[i]) is Some {
        Some(fields.map_values(|f: Seq<char>| numeral(f)->0))
    } else {
        None
    }
}

/// The ratios that the fields stand for, where each is a decimal numeral.
pub open spec fn speeds_of(fields: Seq<Seq<char>>) -> Option<Seq<Ratio>> {
    if forall|i: int| 0 <= i < fields.len() ==> decimal(#[trigger] fields[i]) is Some {
        Some(fields.map_values(|f: Seq<char>| decimal(f)->0))
    } else {
        None
    }
}

/// Splits what stands between the brackets of a line into its fields and
/// reads each: as a decimal numeral where `fixed` says that the line lists
/// speeds, else as a numeral of sixteen bits.
pub fn split(input: &[char], fixed: bool) -> (r: Result<Fields, ParseErrorKind>)
    ensures
        match r {
            Ok(f) => if fixed {
                f.args@.len() == 0 && speeds_of(split_fields(input@)) == Some(f.speeds@)
            } else {
                f.speeds@.len() == 0 && numbers_of(split_fields(input@)) == Some(f.args@)
            },
            Err(k) => k == ParseErrorKind::NonNumericField && if fixed {
                speeds_of(split_fields(input@)) is None
            } else {
                numbers_of(split_fields(input@)) is None
            },
        },
{
    let n = input.len();
    let mut args: Vec<u16> = Vec::new();
    let mut speeds: Vec<Ratio> = Vec::new();
    let mut start: usize = 0;
    let ghost mut done: Seq<Seq<char>> = Seq::empty();
    assert(input@.skip(0) =~= input@);
    loop
        invariant
            n == input@.len(),
            0 <= start <= n,
            split_fields(input@) == done + split_fields(input@.skip(start as int)),
            fixed ==> args@.len() == 0 && speeds@.len() == done.len(),
            !fixed ==> speeds@.len() == 0 && args@.len() == done.len(),
            fixed ==> forall|i: int|
                0 <= i < done.len() ==> decimal(#[trigger] done[i]) == Some(speeds@[i]),
            !fixed ==> forall|i: int|
                0 <= i < done.len() ==> numeral(#[trigger] done[i]) == Some(args@[i]),
        decreases n - start,
    {
        let rest = slice_subrange(input, start, n);
        assert(rest@ =~= input@.skip(start as int));
        let j = find_separator(rest);
        let field = slice_subrange(rest, 0, j);
        assert(field@ =~= rest@.take(j as int));
        let ghost all = split_fields(input@);
        proof {
            if j < rest@.len() {
                assert(split_fields(rest@) == seq![rest@.take(j as int)] + split_fields(
                    rest@.skip(j + 2),
                ));
                assert(rest@.skip(j + 2) =~= input@.skip(start + j + 2));
            } else {
                assert(rest@.take(j as int) =~= rest@);
                assert(split_fields(rest@) == seq![rest@]);
            }
            assert(all[done.len() as int] == field@);
        }
        if fixed {
            match read_decimal(field) {
                Some(s) => {
                    speeds.push(s);
                },
                None => {
                    return Err(ParseErrorKind::NonNumericField);
                },
            }
        } else {
            match read_numeral(field) {
                Some(a) => {
                    args.push(a);
                },
                None => {
                    return Err(ParseErrorKind::NonNumericField);
                },
            }
        }
        proof {
            done = done.push(field@);
        }
        if j < rest.len() {
            assert(all =~= done + split_fields(input@.skip(start + j + 2)));
            start = start + j + 2;
        } else {
            proof {
                assert(all =~= done);
                if fixed {
                    assert(all.map_values(|f: Seq<char>| decimal(f)->0) =~= speeds@);
                } else {
                    assert(all.map_values(|f: Seq<char>| numeral(f)->0) =~= args@);
                }
            }
            return Ok(Fields { args: args, speeds: speeds });
        }
    }
}

/// The name that marks the line of speeds.
pub open spec fn speeds_name() -> Seq<char> {
    seq!['P', 'o', 's', 's', 'i', 'b', 'l', 'e', ' ', 's', 'p', 'e', 'e', 'd', 's']
}

/// Whether `name` is the name that marks the line of speeds.
pub fn is_speeds_name(name: &[char]) -> (b: bool)
    ensures
        b == (name@ == speeds_name()),
{
    let expected: [char; 15] = [
        'P',
        'o',
        's',
        's',
        'i',
        'b',
        'l',
        'e',
        ' ',
        's',
        'p',
        'e',
        'e',
        'd',
        's',
    ];
    assert(expected@ =~= speeds_name());
    if name.len() != 15 {
        return false;
    }
    let mut i: usize = 0;
    while i < 15
        invariant
            0 <= i <= 15,
            name@.len() == 15,
            expected@ == speeds_name(),
            forall|j: int| 0 <= j < i ==> name@[j] == expected@[j],
        decreases 15 - i,
    {
        if name[i] != expected[i] {
            return false;
        }
        i += 1;
    }
    assert(name@ =~= expected@);
    true
}

/// What a line of a workload says, as the contracts speak of it.
pub enum LineView {
    Task { process: ProcessView, arrival: u16 },
    Speeds { table: Seq<Ratio> },
}

/// What a line of a workload says: a task and when it arrives, or the speeds
/// that the processor can run at.
#[derive(Debug)]
pub enum Line {
    Task { process: Process, arrival: u16 },
    Speeds { table: Vec<Ratio> },
}

impl View for Line {
    type V = LineView;

    open spec fn view(&self) -> LineView {
        match self {
            Line::Task { process, arrival } => LineView::Task {
                process: process@,
                arrival: *arrival,
            },
            Line::Speeds { table } => LineView::Speeds { table: table@ },
        }
    }
}

/// What the line `raw` says, or why it is no line of a workload.
///
/// White space at its two ends is left out. The name is what stands before
/// the first colon; a space and an opening bracket follow the colon, and a
/// closing bracket ends the line. Between the brackets stand the fields. A
/// task line has four or more, the fourth at most 255; what follows the
/// fourth is read and not used.
pub open spec fn line_item(raw: Seq<char>) -> Result<LineView, ParseErrorKind> {
    let line = trim(raw);
    let c = first_index(line, ':');
    if !(c + 4 <= line.len() && line[c + 1] == ' ' && line[c + 2] == '(' && line.last() == ')') {
        Err(ParseErrorKind::MissingSeparator)
    } else {
        let name = line.take(c);
        let fields = split_fields(line.subrange(c + 3, line.len() - 1));
        if name == speeds_name() {
            match speeds_of(fields) {
                Some(table) => Ok(LineView::Speeds { table: table }),
                None => Err(ParseErrorKind::NonNumericField),
            }
        } else {
            match numbers_of(fields) {
                None => Err(ParseErrorKind::NonNumericField),
                Some(a) => if a.len() < 4 {
                    Err(ParseErrorKind::MissingSeparator)
                } else if a[3] > 255 {
                    Err(ParseErrorKind::FieldRangeOverflow)
                } else {
                    Ok(
                        LineView::Task {
                            process: ProcessView {
                                task_id: name,
                                computation: a[1],
                                deadline: a[2],
                                context_time: a[3] as u8,
                            },
                            arrival: a[0],
                        },
                    )
                },
            }
        }
    }
}

/// Whether `r` is what `line_item` gives.
pub open spec fn line_matches(r: Result<Line, ParseErrorKind>, raw: Seq<char>) -> bool {
    match r {
        Ok(l) => line_item(raw) == Ok::<LineView, ParseErrorKind>(l@),
        Err(k) => line_item(raw) == Err::<LineView, ParseErrorKind>(k),
    }
}

/// Reads one line of a workload.
pub fn parse_line(raw: &[char]) -> (r: Result<Line, ParseErrorKind>)
    ensures
        line_matches(r, raw@),
{
    let bounds = trim_bounds(raw);
    let line = slice_subrange(raw, bounds.start, bounds.end);
    let n = line.len();
    let c = find(line, ':');
    if n < 4 || c > n - 4 {
        return Err(ParseErrorKind::MissingSeparator);
    }
    if line[c + 1] != ' ' || line[c + 2] != '(' || line[n - 1] != ')' {
        return Err(ParseErrorKind::MissingSeparator);
    }
    let name = slice_subrange(line, 0, c);
    assert(name@ =~= line@.take(c as int));
    let body = slice_subrange(line, c + 3, n - 1);
    if is_speeds_name(name) {
        match split(body, true) {
            Ok(f) => Ok(Line::Speeds { table: f.speeds }),
            Err(k) => Err(k),
        }
    } else {
        match split(body, false) {
            Err(k) => Err(k),
            Ok(f) => {
                if f.args.len() < 4 {
                    Err(ParseErrorKind::MissingSeparator)
                } else if f.args[3] > 255 {
                    Err(ParseErrorKind::FieldRangeOverflow)
                } else {
                    Ok(
                        Line::Task {
                            process: Process {
                                task_id: string_of(name),
                                computation: f.args[1],
                                deadline: f.args[2],
                                context_time: f.args[3] as u8,
                            },
                            arrival: f.args[0],
                        },
                    )
                }
            },
        }
    }
}

/// A task of a workload and the time at which it arrives.
pub struct Arrival {
    pub process: ProcessView,
    pub time: u16,
}

/// A workload as the contracts speak of it: its tasks in the order of their
/// lines, and the speeds, where a line lists them.
pub struct WorkloadView {
    pub tasks: Seq<Arrival>,
    pub speeds: Option<Seq<Ratio>>,
}

/// A workload: the queue of its tasks by arrival time, and the speeds that
/// the processor can run at, where the text lists them.
pub struct Workload {
    pub arrival_queue: ProcessQueue,
    pub speeds: Option<Vec<Ratio>>,
}

/// The workload that the lines describe. The first line is a header and is
/// not read. Of several lines of speeds the last one counts. The error is
/// that of the first line that is no line of a workload.
pub open spec fn workload_of(lines: Seq<Seq<char>>) -> Result<WorkloadView, ParseError>
    decreases lines.len(),
{
    if lines.len() <= 1 {
        Ok(WorkloadView { tasks: Seq::empty(), speeds: None })
    } else {
        match workload_of(lines.drop_last()) {
            Err(e) => Err(e),
            Ok(w) => match line_item(lines.last()) {
                Err(k) => Err(ParseError { line: lines.len() as usize, kind: k }),
                Ok(LineView::Task { process, arrival }) => Ok(
                    WorkloadView {
                        tasks: w.tasks.push(Arrival { process: process, time: arrival }),
                        speeds: w.speeds,
                    },
                ),
                Ok(LineView::Speeds { table }) => Ok(
                    WorkloadView { tasks: w.tasks, speeds: Some(table) },
                ),
            },
        }
    }
}

/// The queue that holds the tasks by their arrival times: each task is
/// pushed in the order of the lines, under its arrival time.
pub open spec fn arrival_order(tasks: Seq<Arrival>) -> Seq<QueueEntry>
    decreases tasks.len(),
{
    if tasks.len() == 0 {
        Seq::empty()
    } else {
        let before = arrival_order(tasks.drop_last());
        let t = tasks.last();
        before.insert(
            rank(before, t.time as u32),
            QueueEntry { process: t.process, key: t.time as u32, seq: (tasks.len() - 1) as u64 },
        )
    }
}

/// Whether `r` is the workload that the text describes, or the error that it
/// holds.
pub open spec fn load_matches(r: Result<Workload, ParseError>, text: Seq<char>) -> bool {
    match r {
        Ok(w) => match workload_of(lines_of(text)) {
            Ok(v) => w.arrival_queue.wf() && w.arrival_queue@ == arrival_order(v.tasks)
                && w.arrival_queue.pushed() == v.tasks.len() && table_view(w.speeds) == v.speeds,
            Err(_) => false,
        },
        Err(e) => workload_of(lines_of(text)) == Err::<WorkloadView, ParseError>(e),
    }
}

/// Reads a workload from its text.
pub fn load_processes(contents: &str) -> (r: Result<Workload, ParseError>)
    ensures
        load_matches(r, contents@),
{
    let chars = to_chars(contents);
    let spans = line_spans(chars.as_slice());
    let ghost lines = lines_of(contents@);
    let mut queue = ProcessQueue::new();
    let mut speeds: Option<Vec<Ratio>> = None;
    let ghost mut tasks: Seq<Arrival> = Seq::empty();
    if spans.len() <= 1 {
        return Ok(Workload { arrival_queue: queue, speeds: speeds });
    }
    let mut k: usize = 1;
    assert(lines.take(1).len() == 1);
    while k < spans.len()
        invariant
            chars@ == contents@,
            lines == lines_of(contents@),
            spans@.len() == lines.len(),
            forall|i: int|
                0 <= i < spans@.len() ==> (#[trigger] spans@[i]).start <= spans@[i].end
                    <= chars@.len() && chars@.subrange(
                    spans@[i].start as int,
                    spans@[i].end as int,
                ) == lines[i],
            1 <= k <= spans@.len(),
            queue.wf(),
            queue@ == arrival_order(tasks),
            queue.pushed() == tasks.len(),
            tasks.len() <= k,
            workload_of(lines.take(k as int)) == Ok::<WorkloadView, ParseError>(
                WorkloadView { tasks: tasks, speeds: table_view(speeds) },
            ),
        decreases spans@.len() - k,
    {
        let span = spans[k];
        let raw = slice_subrange(chars.as_slice(), span.start, span.end);
        proof {
            assert(lines.take(k + 1).drop_last() =~= lines.take(k as int));
            assert(lines.take(k + 1).last() == lines[k as int]);
            assert(raw@ == lines[k as int]);
        }
        match parse_line(raw) {
            Err(kind) => {
                proof {
                    lemma_error_stays(lines, k + 1);
                }
                return Err(ParseError { line: k + 1, kind: kind });
            },
            Ok(Line::Task { process, arrival }) => {
                let ghost before = tasks;
                proof {
                    tasks = before.push(Arrival { process: process@, time: arrival });
                    assert(tasks.drop_last() =~= before);
                }
                queue.push(process, arrival as u32);
            },
            Ok(Line::Speeds { table }) => {
                speeds = Some(table);
            },
        }
        k += 1;
    }
    assert(lines.take(k as int) =~= lines);
    Ok(Workload { arrival_queue: queue, speeds: speeds })
}

/// An error in the first `k` lines is the error of the whole text.
pub proof fn lemma_error_stays(lines: Seq<Seq<char>>, k: int)
    requires
        0 <= k <= lines.len(),
        workload_of(lines.take(k)) is Err,
    ensures
        workload_of(lines) == workload_of(lines.take(k)),
    decreases lines.len() - k,
{
    if k < lines.len() {
        assert(lines.take(k + 1).drop_last() =~= lines.take(k));
        lemma_error_stays(lines, k + 1);
    } else {
        assert(lines.take(k) =~= lines);
    }
}

} // verus!
