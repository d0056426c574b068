//! The loop of the shell: what to read, run and report next.
//!
//! The program around the library reads lines, runs statements and writes text. The
//! types here decide what follows from what came back. A person retypes a failed
//! statement, so an interactive shell goes on; a script cannot, so it stops.

use vstd::prelude::*;
use vstd::string::*;

use crate::editor::{Input, InputView};
use crate::platform::signal;
use crate::platform::signal::Flag;
use crate::shell::split;
use crate::shell::table;
use crate::shell::table::{Table, TableView};
use crate::text;
use crate::text::{is_all_white, join2, join3, numeral, trim};

verus! {

/// The prompt for a new statement.
pub const PROMPT: &'static str = "flats> ";

/// The prompt while a statement is open. As wide as [`PROMPT`], so that typed text
/// stays in one column.
pub const CONTINUATION: &'static str = "  ...> ";

/// Exit code of a script whose statement failed.
pub const EXIT_STATEMENT_FAILED: i32 = 1;

/// Exit code of a run that was interrupted.
pub const EXIT_INTERRUPTED: i32 = 130;

/// The loop's own state: the text of an open statement, and the complete statements
/// that wait for the one that runs.
pub struct Repl {
    buffer: String,
    waiting: Vec<String>,
    interactive: bool,
}

/// What a [`Repl`] holds.
pub struct ReplView {
    /// The text of an open statement.
    pub buffer: Seq<char>,
    /// The statements that have not run yet, in order.
    pub waiting: Seq<Seq<char>>,
    /// Whether a person is typing.
    pub interactive: bool,
}

impl View for Repl {
    type V = ReplView;

    closed spec fn view(&self) -> ReplView {
        ReplView {
            buffer: self.buffer@,
            waiting: text::texts(self.waiting@),
            interactive: self.interactive,
        }
    }
}

/// What to do next.
pub enum Step {
    /// Read again.
    Again,
    /// Answer a meta-command.
    Meta(String),
    /// Run a statement and settle its outcome.
    Run(String),
    /// End, with a line for the error output perhaps.
    Exit {
        /// The exit code.
        code: i32,
        /// The line.
        message: Option<String>,
    },
}

/// What a [`Step`] holds.
pub enum StepView {
    /// Read again.
    Again,
    /// Answer a meta-command.
    Meta(Seq<char>),
    /// Run a statement.
    Run(Seq<char>),
    /// End.
    Exit {
        /// The exit code.
        code: i32,
        /// The line.
        message: Option<Seq<char>>,
    },
}

impl View for Step {
    type V = StepView;

    open spec fn view(&self) -> StepView {
        match self {
            Step::Again => StepView::Again,
            Step::Meta(line) => StepView::Meta(line@),
            Step::Run(statement) => StepView::Run(statement@),
            Step::Exit { code, message } => StepView::Exit {
                code: *code,
                message: match message {
                    Some(m) => Some(m@),
                    None => None,
                },
            },
        }
    }
}

/// What reading a line gave: an input, or why it failed.
pub open spec fn input_view(input: Result<Input, String>) -> Result<InputView, Seq<char>> {
    match input {
        Ok(i) => Ok(i@),
        Err(why) => Err(why@),
    }
}

impl ReplView {
    /// Whether a line is a meta-command: it starts with a dot where a statement would
    /// start.
    pub open spec fn is_meta(self, line: Seq<char>) -> bool {
        &&& text::all_white(self.buffer)
        &&& text::trimmed(line).len() > 0
        &&& text::trimmed(line)[0] == '.'
    }

    /// The loop with a line behind the open statement: the complete statements wait,
    /// and what trails the last `;` stays open.
    pub open spec fn queued(self, line: Seq<char>) -> ReplView {
        let all = self.buffer + line + "\n"@;
        ReplView {
            buffer: split::remainder(all),
            waiting: self.waiting + split::statements(all, all.len() as int),
            ..self
        }
    }

    /// What to do when nothing runs: the first waiting statement is next.
    pub open spec fn turn(self) -> StepView {
        if self.waiting.len() == 0 {
            StepView::Again
        } else {
            StepView::Run(self.waiting[0])
        }
    }

    /// The loop without the statement whose turn it is.
    pub open spec fn turned(self) -> ReplView {
        if self.waiting.len() == 0 {
            self
        } else {
            ReplView { waiting: self.waiting.drop_first(), ..self }
        }
    }

    /// The exit code that the outcome of a statement ends the loop with, if it does: a
    /// script stops at the first statement that does not come to its end.
    pub open spec fn stop_code(self, outcome: Outcome) -> Option<i32> {
        match outcome {
            Outcome::Failed if !self.interactive => Some(EXIT_STATEMENT_FAILED),
            Outcome::Canceled if !self.interactive => Some(EXIT_INTERRUPTED),
            _ => None,
        }
    }

    /// What to do about the outcome of a statement.
    pub open spec fn step_after(self, outcome: Outcome) -> StepView {
        match self.stop_code(outcome) {
            Some(code) => StepView::Exit { code, message: None },
            None => self.turn(),
        }
    }

    /// The loop behind the outcome of a statement. Whatever waited for a statement that
    /// ends the loop is abandoned with it.
    pub open spec fn next_after(self, outcome: Outcome) -> ReplView {
        match self.stop_code(outcome) {
            Some(_) => ReplView { waiting: Seq::empty(), ..self },
            None => self.turned(),
        }
    }

    /// The waiting statements that run when outcomes are settled one after the other:
    /// the first is that of the statement which they wait for.
    pub open spec fn ran(self, outcomes: Seq<Outcome>) -> Seq<Seq<char>>
        decreases outcomes.len(),
    {
        if outcomes.len() == 0 {
            Seq::empty()
        } else {
            match self.step_after(outcomes[0]) {
                StepView::Run(statement) => seq![statement] + self.next_after(outcomes[0]).ran(
                    outcomes.drop_first(),
                ),
                _ => Seq::empty(),
            }
        }
    }

    /// What to do about an input.
    pub open spec fn step(self, input: Result<InputView, Seq<char>>) -> StepView {
        match input {
            Ok(InputView::Line(line)) => if self.is_meta(line) {
                StepView::Meta(text::trimmed(line))
            } else {
                self.queued(line).turn()
            },
            Ok(InputView::Eof) => if text::all_white(self.buffer) {
                StepView::Exit { code: 0, message: None }
            } else {
                StepView::Exit {
                    code: EXIT_STATEMENT_FAILED,
                    message: Some(
                        "error: unterminated statement at end of input (missing `;`)"@,
                    ),
                }
            },
            Ok(InputView::Interrupted) => if self.interactive {
                StepView::Again
            } else {
                StepView::Exit { code: EXIT_INTERRUPTED, message: None }
            },
            Err(why) => StepView::Exit {
                code: 1,
                message: Some("error reading input: "@ + why),
            },
        }
    }

    /// The loop after an input. The open statement is what trails the last `;`, or
    /// nothing once it was abandoned.
    pub open spec fn next(self, input: Result<InputView, Seq<char>>) -> ReplView {
        match input {
            Ok(InputView::Line(line)) => if self.is_meta(line) {
                self
            } else {
                self.queued(line).turned()
            },
            Ok(InputView::Interrupted) => if self.interactive {
                ReplView { buffer: Seq::empty(), ..self }
            } else {
                self
            },
            _ => self,
        }
    }
}

impl Repl {
    /// A loop that has read nothing.
    pub fn new(interactive: bool) -> (r: Repl)
        ensures
            r@ == (ReplView { buffer: Seq::empty(), waiting: Seq::empty(), interactive }),
    {
        let r = Repl { buffer: String::new(), waiting: Vec::new(), interactive };
        proof {
            assert(r@.buffer =~= Seq::<char>::empty());
            assert(r@.waiting =~= Seq::<Seq<char>>::empty());
        }
        r
    }

    /// The prompt to show: that of a new statement, unless one is open. Both have the
    /// same width.
    pub fn prompt(&self) -> (p: &'static str)
        ensures
            p@ == if text::all_white(self@.buffer) {
                PROMPT@
            } else {
                CONTINUATION@
            },
            p@.len() == PROMPT@.len(),
    {
        proof {
            reveal_strlit("flats> ");
            reveal_strlit("  ...> ");
        }
        if is_all_white(self.buffer.as_str()) {
            PROMPT
        } else {
            CONTINUATION
        }
    }

    /// Takes what was read and says what to do. A line goes behind the open
    /// statement, with the line break that ends a comment; the first complete statement
    /// runs, the others wait for it, and the rest stays open.
    pub fn read(&mut self, input: Result<Input, String>) -> (s: Step)
        ensures
            s@ == old(self)@.step(input_view(input)),
            final(self)@ == old(self)@.next(input_view(input)),
    {
        match input {
            Ok(Input::Line(line)) => {
                if is_all_white(self.buffer.as_str()) {
                    let trimmed: String = trim(line.as_str());
                    let chars: Vec<char> = text::chars_of(trimmed.as_str());
                    if chars.len() > 0 && chars[0] == '.' {
                        return Step::Meta(trimmed);
                    }
                }
                let ghost was = self.buffer@;
                self.buffer.append(line.as_str());
                self.buffer.append("\n");
                proof {
                    assert(self.buffer@ == was + line@ + "\n"@);
                }
                let (mut statements, rest) = split::split(self.buffer.as_str());
                let ghost waited = self.waiting@;
                let ghost more = statements@;
                self.buffer = rest;
                self.waiting.append(&mut statements);
                proof {
                    assert(text::texts(self.waiting@) =~= text::texts(waited) + text::texts(more));
                    assert(self@ == old(self)@.queued(line@));
                }
                self.take_turn()
            },
            Ok(Input::Eof) => {
                if is_all_white(self.buffer.as_str()) {
                    Step::Exit { code: 0, message: None }
                } else {
                    Step::Exit {
                        code: EXIT_STATEMENT_FAILED,
                        message: Some(
                            "error: unterminated statement at end of input (missing `;`)".to_owned(),
                        ),
                    }
                }
            },
            Ok(Input::Interrupted) => {
                if !self.interactive {
                    return Step::Exit { code: EXIT_INTERRUPTED, message: None };
                }
                self.buffer = String::new();
                proof {
                    assert(self.buffer@ =~= Seq::<char>::empty());
                }
                Step::Again
            },
            Err(why) => Step::Exit {
                code: 1,
                message: Some(join2("error reading input: ", why.as_str())),
            },
        }
    }

    /// The statement whose turn it is, if one waits.
    fn take_turn(&mut self) -> (s: Step)
        ensures
            s@ == old(self)@.turn(),
            final(self)@ == old(self)@.turned(),
    {
        if self.waiting.len() == 0 {
            return Step::Again;
        }
        let statement: String = self.waiting.remove(0);
        proof {
            assert(text::texts(self.waiting@) =~= text::texts(old(self).waiting@).drop_first());
        }
        Step::Run(statement)
    }

    /// Takes the outcome of the statement that ran and says what to do: the next
    /// waiting statement runs. In a script a statement that failed or was interrupted
    /// ends the shell, and whatever followed it is abandoned with it.
    pub fn settle(&mut self, outcome: Outcome) -> (s: Step)
        ensures
            s@ == old(self)@.step_after(outcome),
            final(self)@ == old(self)@.next_after(outcome),
    {
        if !self.interactive {
            match outcome {
                Outcome::Done => {},
                Outcome::Failed => {
                    self.abandon();
                    return Step::Exit { code: EXIT_STATEMENT_FAILED, message: None };
                },
                Outcome::Canceled => {
                    self.abandon();
                    return Step::Exit { code: EXIT_INTERRUPTED, message: None };
                },
            }
        }
        self.take_turn()
    }

    fn abandon(&mut self)
        ensures
            final(self)@ == (ReplView { waiting: Seq::empty(), ..old(self)@ }),
    {
        self.waiting = Vec::new();
        proof {
            assert(self@.waiting =~= Seq::<Seq<char>>::empty());
        }
    }
}

/// In a script no statement behind one that failed or was interrupted runs, not even
/// one of the same line: when the outcome `k` is the first such, the waiting
/// statements that run are those before it, and the shell ends there.
pub proof fn law_script_stops_at_failure(repl: ReplView, outcomes: Seq<Outcome>, k: int)
    requires
        !repl.interactive,
        0 <= k < outcomes.len(),
        outcomes[k] !is Done,
        forall|i: int| 0 <= i < k ==> #[trigger] outcomes[i] is Done,
    ensures
        k <= repl.waiting.len() ==> repl.ran(outcomes) == repl.waiting.take(k),
        k > repl.waiting.len() ==> repl.ran(outcomes) == repl.waiting,
    decreases k,
{
    if k > 0 && repl.waiting.len() > 0 {
        let rest = outcomes.drop_first();
        let next = repl.next_after(outcomes[0]);
        assert(outcomes[0] is Done);
        assert forall|i: int| 0 <= i < k - 1 implies #[trigger] rest[i] is Done by {
            assert(rest[i] == outcomes[i + 1]);
        }
        law_script_stops_at_failure(next, rest, k - 1);
        if k <= repl.waiting.len() {
            assert(repl.ran(outcomes) =~= repl.waiting.take(k));
        } else {
            assert(repl.ran(outcomes) =~= repl.waiting);
        }
    } else if k == 0 {
        assert(repl.ran(outcomes) =~= repl.waiting.take(0));
    } else {
        assert(repl.ran(outcomes) =~= repl.waiting);
    }
}

/// A person's statements all run, in order and whatever comes of each; so do those of
/// a script of which none fails.
pub proof fn law_every_statement_runs(repl: ReplView, outcomes: Seq<Outcome>)
    requires
        outcomes.len() >= repl.waiting.len(),
        repl.interactive || forall|i: int|
            0 <= i < outcomes.len() ==> #[trigger] outcomes[i] is Done,
    ensures
        repl.ran(outcomes) == repl.waiting,
    decreases outcomes.len(),
{
    if repl.waiting.len() > 0 {
        let rest = outcomes.drop_first();
        let next = repl.next_after(outcomes[0]);
        if !repl.interactive {
            assert(outcomes[0] is Done);
            assert forall|i: int| 0 <= i < rest.len() implies #[trigger] rest[i] is Done by {
                assert(rest[i] == outcomes[i + 1]);
            }
        }
        law_every_statement_runs(next, rest);
        assert(repl.ran(outcomes) =~= repl.waiting);
    } else {
        assert(repl.ran(outcomes) =~= repl.waiting);
    }
}

/// A statement may span lines: while nothing ends it, what is open is everything that
/// was typed.
pub proof fn law_open_statement_is_kept(repl: ReplView, line: Seq<char>)
    requires
        !repl.is_meta(line),
        split::cut(repl.buffer + line + "\n"@, (repl.buffer + line + "\n"@).len() as int) == 0,
        !split::blank(repl.buffer + line + "\n"@),
    ensures
        repl.queued(line).waiting == repl.waiting,
        repl.waiting.len() == 0 ==> repl.step(Ok(InputView::Line(line))) is Again,
        repl.next(Ok(InputView::Line(line))).buffer == repl.buffer + line + "\n"@,
{
    let all = repl.buffer + line + "\n"@;
    let n = all.len() as int;
    lemma_no_pieces(all, n);
    reveal(Seq::filter);
    assert(split::statements(all, n) =~= Seq::<Seq<char>>::empty());
    assert(repl.queued(line).waiting =~= repl.waiting);
    assert(all.skip(0) =~= all);
}

proof fn lemma_no_pieces(s: Seq<char>, n: int)
    requires
        0 <= n <= s.len(),
        split::cut(s, n) == 0,
    ensures
        split::pieces(s, n) == Seq::<Seq<char>>::empty(),
    decreases n,
{
    if n > 0 {
        lemma_no_pieces(s, n - 1);
    }
}

/// The exit code for a failed write. A closed output is how a pager or `head` ends a
/// program: the reader got what it wanted.
pub fn exit_for(broken_pipe: bool) -> (code: i32)
    ensures
        code == if broken_pipe {
            0i32
        } else {
            1i32
        },
{
    if broken_pipe {
        0
    } else {
        1
    }
}

/// What reading a line of a script gave.
pub enum PlainRead {
    /// The end of the input.
    End,
    /// A line.
    Line(String),
    /// A signal interrupted the read.
    Interrupted,
    /// The read failed.
    Failed(String),
}

/// Turns a read into an input; none if the read is to be made again. An interrupted
/// read is an interrupt only if the flag says so.
pub fn plain_line(read: PlainRead, flag: &mut Flag) -> (r: Option<Result<Input, String>>)
    ensures
        match read {
            PlainRead::End => r == Some(Ok::<Input, String>(Input::Eof)) && *final(flag)
                == *old(flag),
            PlainRead::Line(line) => r == Some(Ok::<Input, String>(Input::Line(line)))
                && *final(flag) == *old(flag),
            PlainRead::Interrupted => {
                &&& !final(flag).pending
                &&& r == if old(flag).pending {
                    Some(Ok::<Input, String>(Input::Interrupted))
                } else {
                    None
                }
            },
            PlainRead::Failed(why) => r == Some(Err::<Input, String>(why)) && *final(flag)
                == *old(flag),
        },
{
    match read {
        PlainRead::End => Some(Ok(Input::Eof)),
        PlainRead::Line(line) => Some(Ok(Input::Line(line))),
        PlainRead::Interrupted => {
            if signal::take(flag) {
                Some(Ok(Input::Interrupted))
            } else {
                None
            }
        },
        PlainRead::Failed(why) => Some(Err(why)),
    }
}

// ---------------------------------------------------------------------------
// One statement
// ---------------------------------------------------------------------------

/// How a statement ended.
#[derive(Debug, Clone, Copy, PartialEq, Eq, Structural)]
pub enum Outcome {
    /// It ran, and its rows were written.
    Done,
    /// It was refused, or failed on the way.
    Failed,
    /// It was interrupted.
    Canceled,
}

/// The line that reports a mutation to a person.
pub fn mutation_report(interactive: bool, elapsed: &str) -> (s: String)
    ensures
        s@ == if interactive {
            "ok  ("@ + elapsed@ + ")\n"@
        } else {
            Seq::empty()
        },
{
    if interactive {
        join3("ok  (", elapsed, ")\n")
    } else {
        let s = String::new();
        proof {
            assert(s@ =~= Seq::<char>::empty());
        }
        s
    }
}

/// A statement whose rows are being written.
pub struct Running {
    table: Table,
    rows: u64,
    failure: Option<String>,
    canceled: bool,
}

/// What a [`Running`] holds.
pub struct RunningView {
    /// The table.
    pub table: TableView,
    /// How many rows came.
    pub rows: u64,
    /// Why the statement failed, if it did.
    pub failure: Option<Seq<char>>,
    /// Whether it was interrupted.
    pub canceled: bool,
}

impl View for Running {
    type V = RunningView;

    closed spec fn view(&self) -> RunningView {
        RunningView {
            table: self.table@,
            rows: self.rows,
            failure: match self.failure {
                Some(why) => Some(why@),
                None => None,
            },
            canceled: self.canceled,
        }
    }
}

/// What the end of a statement writes.
pub struct Report {
    /// To the output.
    pub out: String,
    /// To the error output, as one line.
    pub err: Option<String>,
    /// How the statement ended.
    pub outcome: Outcome,
}

impl RunningView {
    /// How the statement ended. A failure comes before an interrupt.
    pub open spec fn outcome(self) -> Outcome {
        if self.failure is Some {
            Outcome::Failed
        } else if self.canceled {
            Outcome::Canceled
        } else {
            Outcome::Done
        }
    }

    /// The number of rows and the time, for a person.
    pub open spec fn footer(self, elapsed: Seq<char>) -> Seq<char> {
        text::decimal(self.rows as nat) + " "@ + (if self.rows == 1 {
            "row"@
        } else {
            "rows"@
        }) + "  ("@ + elapsed + ")\n"@
    }

    /// What is said of an end that was not the statement's own.
    pub open spec fn complaint(self) -> Option<Seq<char>> {
        match self.failure {
            Some(why) => Some(
                "error after "@ + text::decimal(self.rows as nat) + " rows: "@ + why,
            ),
            None => if self.canceled {
                Some("canceled after "@ + text::decimal(self.rows as nat) + " rows"@)
            } else {
                None
            },
        }
    }
}

impl Running {
    /// The table is well-formed.
    pub closed spec fn wf(&self) -> bool {
        self.table.wf()
    }

    /// A statement that gives the labelled columns.
    pub fn new(labels: Vec<String>) -> (r: Running)
        ensures
            r.wf(),
            r@ == (RunningView {
                table: TableView::start(text::texts(labels@)),
                rows: 0,
                failure: None,
                canceled: false,
            }),
    {
        Running { table: Table::new(labels), rows: 0, failure: None, canceled: false }
    }

    /// How many rows came.
    pub fn rows(&self) -> (n: u64)
        ensures
            n == self@.rows,
    {
        self.rows
    }

    /// Takes the next row, or the failure that came in its place, and says whether to
    /// go on and what to write. The interrupt flag is looked at before every row.
    pub fn item(&mut self, interrupted: bool, row: Result<Vec<String>, String>) -> (r: (
        bool,
        String,
    ))
        requires
            old(self).wf(),
            old(self)@.rows < u64::MAX,
        ensures
            final(self).wf(),
            if interrupted {
                &&& !r.0 && r.1@.len() == 0
                &&& final(self)@ == (RunningView { canceled: true, ..old(self)@ })
            } else {
                match row {
                    Ok(cells) => {
                        &&& r.0
                        &&& r.1@ == old(self)@.table.pushed_text(text::texts(cells@))
                        &&& final(self)@ == (RunningView {
                            table: old(self)@.table.pushed(text::texts(cells@)),
                            rows: (old(self)@.rows + 1) as u64,
                            ..old(self)@
                        })
                    },
                    Err(why) => {
                        &&& !r.0 && r.1@.len() == 0
                        &&& final(self)@ == (RunningView { failure: Some(why@), ..old(self)@ })
                    },
                }
            },
    {
        if interrupted {
            self.canceled = true;
            return (false, String::new());
        }
        match row {
            Ok(cells) => {
                let out: String = self.table.push(cells);
                self.rows += 1;
                (true, out)
            },
            Err(why) => {
                self.failure = Some(why);
                (false, String::new())
            },
        }
    }

    /// Ends the statement: what is left of the table, then for a person the number of
    /// rows and the time, and behind that why it ended early.
    pub fn finish(self, interactive: bool, elapsed: &str) -> (r: Report)
        requires
            self.wf(),
        ensures
            r.out@ == self@.table.finished_text() + (if interactive {
                self@.footer(elapsed@)
            } else {
                Seq::empty()
            }),
            match self@.complaint() {
                Some(line) => r.err matches Some(e) && e@ == line,
                None => r.err is None,
            },
            r.outcome == self@.outcome(),
    {
        let mut run: Running = self;
        let mut out: String = run.table.finish();
        let rows: String = numeral(run.rows);
        if interactive {
            let ghost was = out@;
            out.append(rows.as_str());
            out.append(" ");
            if run.rows == 1 {
                out.append("row");
            } else {
                out.append("rows");
            }
            out.append("  (");
            out.append(elapsed);
            out.append(")\n");
            proof {
                assert(out@ =~= was + self@.footer(elapsed@));
            }
        } else {
            proof {
                assert(out@ =~= out@ + Seq::<char>::empty());
            }
        }
        match run.failure {
            Some(why) => {
                let mut line: String = join3("error after ", rows.as_str(), " rows: ");
                line.append(why.as_str());
                Report { out, err: Some(line), outcome: Outcome::Failed }
            },
            None => {
                if run.canceled {
                    Report {
                        out,
                        err: Some(join3("canceled after ", rows.as_str(), " rows")),
                        outcome: Outcome::Canceled,
                    }
                } else {
                    Report { out, err: None, outcome: Outcome::Done }
                }
            },
        }
    }
}

} // verus!
