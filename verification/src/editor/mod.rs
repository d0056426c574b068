//! A line editor with history, for the interactive shell.
//!
//! Bytes come in, keystrokes are decoded from them and applied to the line, and
//! what the terminal is to show comes out as text. Reading and writing the
//! terminal belongs to the caller, who feeds [`Keys`] with what was read.
//!
//! Width is counted in characters.

pub mod keys;
pub mod laws;
pub mod line;

pub use keys::{Decoded, Key, Keys};
pub use line::Line;

use vstd::prelude::*;
use vstd::string::*;

use crate::text;
use crate::text::{chars_of, is_white, join2, numeral, text_of};

verus! {

/// How many entries of the history are kept in its file.
pub const MAX_HISTORY: usize = 1000;

/// What came of asking for a line.
#[derive(Debug, PartialEq, Eq)]
pub enum Input {
    /// A completed line, without its newline.
    Line(String),
    /// The line was abandoned.
    Interrupted,
    /// The session ends.
    Eof,
}

/// What an [`Input`] holds.
pub enum InputView {
    /// A completed line.
    Line(Seq<char>),
    /// The line was abandoned.
    Interrupted,
    /// The session ends.
    Eof,
}

impl View for Input {
    type V = InputView;

    open spec fn view(&self) -> InputView {
        match self {
            Input::Line(s) => InputView::Line(s@),
            Input::Interrupted => InputView::Interrupted,
            Input::Eof => InputView::Eof,
        }
    }
}

// ---------------------------------------------------------------------------
// History
// ---------------------------------------------------------------------------

/// Nothing but white space.
pub open spec fn blank(line: Seq<char>) -> bool {
    forall|i: int| 0 <= i < line.len() ==> text::white(#[trigger] line[i])
}

fn is_blank_line(line: &str) -> (r: bool)
    ensures
        r == blank(line@),
{
    let chars: Vec<char> = chars_of(line);
    let mut i: usize = 0;
    while i < chars.len()
        invariant
            i <= chars@.len(),
            chars@ == line@,
            forall|k: int| 0 <= k < i ==> text::white(#[trigger] line@[k]),
        decreases chars@.len() - i,
    {
        if !is_white(chars[i]) {
            assert(!text::white(line@[i as int]));
            return false;
        }
        i += 1;
    }
    true
}

/// The history after a line was entered: blank lines and immediate repeats are
/// not recorded.
pub open spec fn remembered(history: Seq<Seq<char>>, line: Seq<char>) -> Seq<Seq<char>> {
    if blank(line) || (history.len() > 0 && history.last() == line) {
        history
    } else {
        history.push(line)
    }
}

/// The entries that the history file keeps: the newest.
pub open spec fn kept(history: Seq<Seq<char>>) -> Seq<Seq<char>> {
    if history.len() > MAX_HISTORY {
        history.skip(history.len() - MAX_HISTORY)
    } else {
        history
    }
}

/// Entries one below the other, each with a newline behind it.
pub open spec fn listed(entries: Seq<Seq<char>>, i: int) -> Seq<char>
    decreases entries.len() - i,
{
    if i < 0 || i >= entries.len() {
        Seq::empty()
    } else {
        entries[i] + seq!['\n'] + listed(entries, i + 1)
    }
}

/// The text of the history file. An empty history is a single newline.
pub open spec fn file_text(history: Seq<Seq<char>>) -> Seq<char> {
    if history.len() == 0 {
        seq!['\n']
    } else {
        listed(kept(history), 0)
    }
}

/// The index of the first newline from `i` on, or the length.
pub open spec fn newline_at(s: Seq<char>, i: int) -> int
    decreases s.len() - i,
{
    if 0 <= i < s.len() && s[i] != '\n' {
        newline_at(s, i + 1)
    } else {
        i
    }
}

/// The lines of a text from `i` on. A newline ends a line, with a carriage return
/// before it left out; the last line needs none.
pub open spec fn lines_from(s: Seq<char>, i: int) -> Seq<Seq<char>>
    decreases s.len() - i,
{
    if i < 0 || i >= s.len() {
        Seq::empty()
    } else {
        let e = newline_at(s, i);
        let line = if i < e < s.len() && s[e - 1] == '\r' {
            s.subrange(i, e - 1)
        } else {
            s.subrange(i, e)
        };
        seq![line] + if i <= e < s.len() {
            lines_from(s, e + 1)
        } else {
            Seq::empty()
        }
    }
}

proof fn lemma_newline_at(s: Seq<char>, i: int)
    requires
        0 <= i <= s.len(),
    ensures
        i <= newline_at(s, i) <= s.len(),
        forall|k: int| i <= k < newline_at(s, i) ==> #[trigger] s[k] != '\n',
        newline_at(s, i) < s.len() ==> s[newline_at(s, i)] == '\n',
    decreases s.len() - i,
{
    if i < s.len() && s[i] != '\n' {
        lemma_newline_at(s, i + 1);
    }
}

/// The lines of a text.
pub fn lines_of(s: &str) -> (v: Vec<String>)
    ensures
        text::texts(v@) == lines_from(s@, 0),
{
    let chars: Vec<char> = chars_of(s);
    let n: usize = chars.len();
    let mut v: Vec<String> = Vec::new();
    let mut i: usize = 0;
    proof {
        assert(text::texts(v@) + lines_from(s@, 0) =~= lines_from(s@, 0));
    }
    while i < n
        invariant
            i <= n,
            n == chars@.len(),
            chars@ == s@,
            text::texts(v@) + lines_from(s@, i as int) == lines_from(s@, 0),
        decreases n - i,
    {
        let mut e: usize = i;
        while e < n && chars[e] != '\n'
            invariant
                i <= e <= n,
                n == chars@.len(),
                chars@ == s@,
                newline_at(s@, i as int) == newline_at(s@, e as int),
            decreases n - e,
        {
            e += 1;
        }
        let end: usize = if e < n && e > i && chars[e - 1] == '\r' {
            e - 1
        } else {
            e
        };
        let ghost before = v@;
        v.push(text_of(chars.as_slice(), i, end));
        proof {
            assert(text::texts(v@) =~= text::texts(before).push(v@.last()@));
            assert(text::texts(before) + lines_from(s@, i as int) =~= text::texts(v@) + lines_from(
                s@,
                e + 1,
            ));
        }
        if e == n {
            proof {
                assert(lines_from(s@, e + 1) =~= Seq::<Seq<char>>::empty());
                assert(text::texts(v@) + lines_from(s@, e + 1) =~= text::texts(v@));
            }
            return v;
        }
        i = e + 1;
    }
    proof {
        assert(text::texts(v@) + lines_from(s@, i as int) =~= text::texts(v@));
    }
    v
}

/// A saved history loads as the entries that were kept, when no entry holds a
/// newline or ends in a carriage return. An empty history does not: it loads as
/// one empty entry.
pub proof fn law_history_round_trip(history: Seq<Seq<char>>)
    requires
        history.len() > 0,
        forall|i: int|
            0 <= i < history.len() ==> !(#[trigger] history[i]).contains('\n') && (
            history[i].len() > 0 ==> history[i].last() != '\r'),
    ensures
        lines_from(file_text(history), 0) == kept(history),
{
    let entries = kept(history);
    assert forall|i: int| 0 <= i < entries.len() implies !(#[trigger] entries[i]).contains('\n')
        && (entries[i].len() > 0 ==> entries[i].last() != '\r') by {
        if history.len() > MAX_HISTORY {
            assert(entries[i] == history[i + (history.len() - MAX_HISTORY)]);
        }
    }
    assert(Seq::<char>::empty() + listed(entries, 0) =~= listed(entries, 0));
    lemma_lines_of_listed(entries, 0, Seq::empty());
    assert(entries.skip(0) =~= entries);
}

/// Behind any text, the lines of listed entries are the entries.
proof fn lemma_lines_of_listed(entries: Seq<Seq<char>>, i: int, before: Seq<char>)
    requires
        0 <= i <= entries.len(),
        forall|k: int|
            0 <= k < entries.len() ==> !(#[trigger] entries[k]).contains('\n') && (
            entries[k].len() > 0 ==> entries[k].last() != '\r'),
    ensures
        lines_from(before + listed(entries, i), before.len() as int) == entries.skip(i),
    decreases entries.len() - i,
{
    let s = before + listed(entries, i);
    let at = before.len() as int;
    if i == entries.len() {
        assert(s =~= before);
        assert(entries.skip(i) =~= Seq::<Seq<char>>::empty());
    } else {
        let entry = entries[i];
        let e = at + entry.len();
        assert(s[e] == '\n');
        assert forall|k: int| at <= k < e implies #[trigger] s[k] != '\n' by {
            assert(s[k] == entry[k - at]);
            assert(entry.contains(entry[k - at]));
        }
        lemma_newline_found(s, at, e);
        assert(s.subrange(at, e) =~= entry);
        if at < e {
            assert(s[e - 1] == entry.last());
        }
        let next = before + entry + seq!['\n'];
        assert(next + listed(entries, i + 1) =~= s);
        lemma_lines_of_listed(entries, i + 1, next);
        assert(seq![entry] + entries.skip(i + 1) =~= entries.skip(i));
    }
}

proof fn lemma_newline_found(s: Seq<char>, i: int, e: int)
    requires
        0 <= i <= e < s.len(),
        s[e] == '\n',
        forall|k: int| i <= k < e ==> #[trigger] s[k] != '\n',
    ensures
        newline_at(s, i) == e,
    decreases e - i,
{
    if i < e {
        assert(s[i] != '\n');
        lemma_newline_found(s, i + 1, e);
    }
}

// ---------------------------------------------------------------------------
// One line
// ---------------------------------------------------------------------------

/// A line being read: its text, the history entry it was recalled from, and what
/// was being typed before recalling began.
pub struct Session {
    line: Line,
    browsing: Option<usize>,
    stashed: String,
}

/// What a [`Session`] holds.
pub struct SessionView {
    /// The line.
    pub line: line::LineView,
    /// The history entry shown, if any.
    pub browsing: Option<int>,
    /// The line typed before the first recall.
    pub stash: Seq<char>,
}

impl View for Session {
    type V = SessionView;

    closed spec fn view(&self) -> SessionView {
        SessionView {
            line: self.line@,
            browsing: match self.browsing {
                Some(i) => Some(i as int),
                None => None,
            },
            stash: self.stashed@,
        }
    }
}

impl SessionView {
    /// An empty line, not recalled from anywhere.
    pub open spec fn start() -> SessionView {
        SessionView {
            line: line::LineView::empty(),
            browsing: None,
            stash: Seq::empty(),
        }
    }

    /// The cursor is within the line and the recalled entry within the history.
    pub open spec fn ok(self, history: Seq<Seq<char>>) -> bool {
        &&& self.line.ok()
        &&& self.browsing matches Some(i) ==> 0 <= i < history.len()
    }

    /// The session with another line.
    pub open spec fn with_line(self, line: line::LineView) -> SessionView {
        SessionView { line, ..self }
    }

    /// An older entry recalled. The first recall stashes the line; at the oldest
    /// entry nothing changes.
    pub open spec fn older(self, history: Seq<Seq<char>>) -> SessionView {
        match self.browsing {
            None => if history.len() > 0 {
                SessionView {
                    line: line::LineView::at_end(history.last()),
                    browsing: Some(history.len() - 1),
                    stash: self.line.chars,
                }
            } else {
                self
            },
            Some(i) => if i > 0 {
                SessionView {
                    line: line::LineView::at_end(history[i - 1]),
                    browsing: Some(i - 1),
                    ..self
                }
            } else {
                self
            },
        }
    }

    /// A newer entry recalled. Past the newest the stashed line comes back.
    pub open spec fn newer(self, history: Seq<Seq<char>>) -> SessionView {
        match self.browsing {
            None => self,
            Some(i) => if i + 1 < history.len() {
                SessionView {
                    line: line::LineView::at_end(history[i + 1]),
                    browsing: Some(i + 1),
                    ..self
                }
            } else {
                SessionView {
                    line: line::LineView::at_end(self.stash),
                    browsing: None,
                    stash: Seq::empty(),
                }
            },
        }
    }

    /// What the read comes to with this key, if it ends it.
    pub open spec fn result(self, key: Key) -> Option<InputView> {
        match key {
            Key::Enter => Some(InputView::Line(self.line.chars)),
            Key::Interrupt => Some(InputView::Interrupted),
            Key::Eof => if self.line.chars.len() == 0 {
                Some(InputView::Eof)
            } else {
                None
            },
            _ => None,
        }
    }

    /// The session after a key that does not end the read.
    pub open spec fn after(self, history: Seq<Seq<char>>, key: Key) -> SessionView {
        match key {
            Key::Char(c) => self.with_line(self.line.inserted(c)),
            Key::Backspace => self.with_line(self.line.backspaced()),
            Key::Delete => self.with_line(self.line.deleted()),
            Key::Eof => self.with_line(self.line.deleted()),
            Key::Left => self.with_line(self.line.left()),
            Key::Right => self.with_line(self.line.right()),
            Key::WordLeft => self.with_line(self.line.moved(self.line.word_start())),
            Key::WordRight => self.with_line(self.line.moved(self.line.word_end())),
            Key::Home => self.with_line(self.line.moved(0)),
            Key::End => self.with_line(line::LineView::at_end(self.line.chars)),
            Key::KillToEnd => self.with_line(self.line.killed_to_end()),
            Key::KillToStart => self.with_line(self.line.killed_to_start()),
            Key::DeleteWord => self.with_line(self.line.word_deleted()),
            Key::Up => self.older(history),
            Key::Down => self.newer(history),
            _ => self,
        }
    }
}

/// What repaints the prompt and the line and places the cursor.
pub open spec fn drawn(prompt: Seq<char>, line: line::LineView) -> Seq<char> {
    let column = prompt.len() + line.cursor;
    "\r"@ + prompt + line.chars + "\x1b[K\r"@ + if column > 0 {
        "\x1b["@ + text::decimal(column as nat) + "C"@
    } else {
        Seq::empty()
    }
}

/// What the terminal is shown for a key.
pub open spec fn shown(
    prompt: Seq<char>,
    history: Seq<Seq<char>>,
    session: SessionView,
    key: Key,
) -> Seq<char> {
    match session.result(key) {
        Some(InputView::Interrupted) => "^C\n"@,
        Some(_) => "\n"@,
        None => {
            let after = drawn(prompt, session.after(history, key).line);
            if key is ClearScreen {
                "\x1b[H\x1b[2J"@ + after
            } else {
                after
            }
        },
    }
}

/// The history after a key: Enter records the line.
pub open spec fn history_after(
    history: Seq<Seq<char>>,
    session: SessionView,
    key: Key,
) -> Seq<Seq<char>> {
    if key is Enter {
        remembered(history, session.line.chars)
    } else {
        history
    }
}

/// Where reading has come to.
pub struct Progress {
    /// The history.
    pub history: Seq<Seq<char>>,
    /// The line being read.
    pub session: SessionView,
    /// The bytes not yet consumed.
    pub rest: Seq<u8>,
    /// What was shown.
    pub out: Seq<char>,
    /// What the read came to, if it is over.
    pub input: Option<InputView>,
}

/// Applies keystroke after keystroke until one ends the read, or more bytes are
/// needed.
pub open spec fn progressed(
    prompt: Seq<char>,
    history: Seq<Seq<char>>,
    session: SessionView,
    rest: Seq<u8>,
    ended: bool,
    out: Seq<char>,
) -> Progress
    decreases rest.len(),
{
    match keys::next_key(rest, ended) {
        keys::Step::End => Progress { history, session, rest, out, input: Some(InputView::Eof) },
        keys::Step::More => Progress { history, session, rest, out, input: None },
        keys::Step::Key(key, n) => {
            let next_out = out + shown(prompt, history, session, key);
            let next_history = history_after(history, session, key);
            match session.result(key) {
                Some(input) => Progress {
                    history: next_history,
                    session,
                    rest: rest.skip(n),
                    out: next_out,
                    input: Some(input),
                },
                None => if 0 < n <= rest.len() {
                    progressed(
                        prompt,
                        next_history,
                        session.after(history, key),
                        rest.skip(n),
                        ended,
                        next_out,
                    )
                } else {
                    Progress { history, session, rest, out, input: None }
                },
            }
        },
    }
}

/// Appends what repaints the prompt and the line.
fn redraw(out: &mut String, prompt: &str, line: &Line)
    requires
        line.wf(),
    ensures
        final(out)@ == old(out)@ + drawn(prompt@, line@),
{
    proof {
        line.lemma_wf();
    }
    let shown: String = join2(prompt, line.text().as_str());
    out.append("\r");
    out.append(shown.as_str());
    out.append("\x1b[K\r");
    // No column lies behind the end of what is shown, whose length fits.
    let len: usize = shown.as_str().unicode_len();
    assert(prompt@.len() + line@.cursor <= len);
    let column: usize = prompt.unicode_len() + line.column();
    if column > 0 {
        out.append("\x1b[");
        out.append(numeral(column as u64).as_str());
        out.append("C");
    }
    proof {
        assert(out@ =~= old(out)@ + drawn(prompt@, line@));
    }
}

/// Reads lines with editing and history.
pub struct Editor {
    history: Vec<String>,
}

impl View for Editor {
    type V = Seq<Seq<char>>;

    closed spec fn view(&self) -> Seq<Seq<char>> {
        text::texts(self.history@)
    }
}

impl Editor {
    /// An editor with the history of the given file text, if there is one.
    pub fn new(file: Option<&str>) -> (e: Editor)
        ensures
            e@ == match file {
                Some(s) => lines_from(s@, 0),
                None => Seq::empty(),
            },
    {
        match file {
            Some(s) => Editor { history: lines_of(s) },
            None => {
                let e = Editor { history: Vec::new() };
                proof {
                    assert(e@ =~= Seq::<Seq<char>>::empty());
                }
                e
            },
        }
    }

    /// The history entries, oldest first.
    pub fn history(&self) -> (h: &Vec<String>)
        ensures
            text::texts(h@) == self@,
    {
        &self.history
    }

    /// The text to save as the history file.
    pub fn save(&self) -> (s: String)
        ensures
            s@ == file_text(self@),
    {
        let n: usize = self.history.len();
        let mut s = String::new();
        if n == 0 {
            s.push('\n');
            proof {
                assert(s@ =~= seq!['\n']);
            }
            return s;
        }
        let start: usize = if n > MAX_HISTORY {
            n - MAX_HISTORY
        } else {
            0
        };
        let ghost entries = kept(self@);
        let mut i: usize = start;
        proof {
            assert(s@ + listed(entries, 0) =~= listed(entries, 0));
        }
        while i < n
            invariant
                start <= i <= n,
                n == self.history@.len(),
                n > 0,
                entries == kept(self@),
                start == if n > MAX_HISTORY {
                    n - MAX_HISTORY
                } else {
                    0
                },
                s@ + listed(entries, i - start) == listed(entries, 0),
            decreases n - i,
        {
            let ghost before = s@;
            assert(entries[i - start] == self.history@[i as int]@);
            s.append(self.history[i].as_str());
            s.push('\n');
            proof {
                assert(s@ + listed(entries, i - start + 1) =~= before + listed(
                    entries,
                    i - start,
                ));
            }
            i += 1;
        }
        proof {
            assert(s@ + listed(entries, n - start) =~= s@);
        }
        s
    }

    /// Records a line, unless it is blank or repeats the last entry.
    pub fn remember(&mut self, line: &str)
        ensures
            final(self)@ == remembered(old(self)@, line@),
    {
        if is_blank_line(line) {
            return;
        }
        let n: usize = self.history.len();
        if n > 0 {
            assert(self@.last() == self.history@[n - 1]@);
            if self.history[n - 1] == line.to_owned() {
                return;
            }
        }
        self.history.push(line.to_owned());
        proof {
            assert(self@ =~= old(self)@.push(line@));
        }
    }

    /// Starts reading a line: what paints the empty line goes to `out`.
    pub fn begin(&self, prompt: &str, out: &mut String) -> (s: Session)
        ensures
            s.wf(self),
            s@ == SessionView::start(),
            final(out)@ == old(out)@ + drawn(prompt@, line::LineView::empty()),
    {
        let line = Line::new();
        redraw(out, prompt, &line);
        Session { line, browsing: None, stashed: String::new() }
    }

    /// Applies one key: the session changes, what the terminal is to show goes to
    /// `out`, and the result tells whether the read is over.
    pub fn apply(&mut self, prompt: &str, session: &mut Session, key: Key, out: &mut String) -> (r:
        Option<Input>)
        requires
            old(session).wf(old(self)),
        ensures
            final(session).wf(final(self)),
            final(self)@ == history_after(old(self)@, old(session)@, key),
            final(out)@ == old(out)@ + shown(prompt@, old(self)@, old(session)@, key),
            match old(session)@.result(key) {
                Some(input) => r matches Some(i) && i@ == input && final(session)@ == old(
                    session,
                )@,
                None => r is None && final(session)@ == old(session)@.after(old(self)@, key),
            },
    {
        let ghost was = out@;
        match key {
            Key::Enter => {
                out.append("\n");
                let text: String = session.line.text();
                self.remember(text.as_str());
                proof {
                    assert(self.history@.len() == self@.len());
                    assert(old(self).history@.len() == old(self)@.len());
                }
                return Some(Input::Line(text));
            },
            Key::Interrupt => {
                out.append("^C\n");
                return Some(Input::Interrupted);
            },
            Key::Eof => {
                if session.line.is_empty() {
                    out.append("\n");
                    return Some(Input::Eof);
                }
                session.line.delete();
            },
            Key::Char(c) => session.line.insert(c),
            Key::Backspace => session.line.backspace(),
            Key::Delete => session.line.delete(),
            Key::Left => session.line.left(),
            Key::Right => session.line.right(),
            Key::WordLeft => session.line.word_left(),
            Key::WordRight => session.line.word_right(),
            Key::Home => session.line.home(),
            Key::End => session.line.end(),
            Key::KillToEnd => session.line.kill_to_end(),
            Key::KillToStart => session.line.kill_to_start(),
            Key::DeleteWord => session.line.delete_word(),
            Key::ClearScreen => {
                out.append("\x1b[H\x1b[2J");
            },
            Key::Up => {
                match session.browsing {
                    None => {
                        let n: usize = self.history.len();
                        if n > 0 {
                            assert(self@[n - 1] == self.history@[n - 1]@);
                            session.stashed = session.line.text();
                            session.browsing = Some(n - 1);
                            session.line.set(self.history[n - 1].as_str());
                        }
                    },
                    Some(i) => {
                        if i > 0 {
                            assert(self@[i - 1] == self.history@[i - 1]@);
                            session.browsing = Some(i - 1);
                            session.line.set(self.history[i - 1].as_str());
                        }
                    },
                }
            },
            Key::Down => {
                match session.browsing {
                    None => {},
                    Some(i) => {
                        if self.history.len() - i > 1 {
                            assert(self@[i + 1] == self.history@[i + 1]@);
                            session.browsing = Some(i + 1);
                            session.line.set(self.history[i + 1].as_str());
                        } else {
                            session.browsing = None;
                            session.line.set(session.stashed.as_str());
                            session.stashed = String::new();
                        }
                    },
                }
            },
            Key::Ignored => {},
        }
        redraw(out, prompt, &session.line);
        proof {
            assert(out@ =~= was + shown(prompt@, old(self)@, old(session)@, key));
        }
        None
    }

    /// Reads on: applies the keystrokes at hand until the read is over, or until
    /// more bytes are needed.
    pub fn read_line(
        &mut self,
        prompt: &str,
        keys: &mut Keys,
        session: &mut Session,
        out: &mut String,
    ) -> (r: Option<Input>)
        requires
            old(keys).wf(),
            old(session).wf(old(self)),
        ensures
            final(keys).wf(),
            final(keys)@.ended == old(keys)@.ended,
            final(session).wf(final(self)),
            ({
                let p = progressed(
                    prompt@,
                    old(self)@,
                    old(session)@,
                    old(keys)@.rest,
                    old(keys)@.ended,
                    old(out)@,
                );
                &&& final(self)@ == p.history
                &&& final(session)@ == p.session
                &&& final(keys)@.rest == p.rest
                &&& final(out)@ == p.out
                &&& match p.input {
                    Some(input) => r matches Some(i) && i@ == input,
                    None => r is None,
                }
            }),
    {
        let ghost goal = progressed(
            prompt@,
            self@,
            session@,
            keys@.rest,
            keys@.ended,
            out@,
        );
        loop
            invariant
                keys.wf(),
                keys@.ended == old(keys)@.ended,
                session.wf(self),
                goal == progressed(
                    prompt@,
                    old(self)@,
                    old(session)@,
                    old(keys)@.rest,
                    old(keys)@.ended,
                    old(out)@,
                ),
                goal == progressed(
                    prompt@,
                    self@,
                    session@,
                    keys@.rest,
                    keys@.ended,
                    out@,
                ),
            decreases keys@.rest.len(),
        {
            match keys.key() {
                Decoded::More => {
                    return None;
                },
                Decoded::End => {
                    return Some(Input::Eof);
                },
                Decoded::Key(key) => {
                    match self.apply(prompt, session, key, out) {
                        Some(input) => {
                            return Some(input);
                        },
                        None => {},
                    }
                },
            }
        }
    }
}

impl Session {
    /// The cursor is within the line and the recalled entry within the history.
    pub closed spec fn wf(&self, editor: &Editor) -> bool {
        &&& self.line.wf()
        &&& self.browsing matches Some(i) ==> i < editor.history@.len()
    }

    /// What well-formedness says of the view.
    pub proof fn lemma_wf(&self, editor: &Editor)
        requires
            self.wf(editor),
        ensures
            self@.ok(editor@),
    {
        self.line.lemma_wf();
    }
}

/// No control characters: what typing alone can put into a line.
pub open spec fn typable(line: Seq<char>) -> bool {
    forall|i: int| 0 <= i < line.len() ==> keys::typable(#[trigger] line[i])
}

/// The bytes that a terminal sends for a line and Enter.
pub open spec fn typed(line: Seq<char>) -> Seq<u8> {
    vstd::utf8::encode_utf8(line) + seq![0x0du8]
}

/// A line that was typed and ended with Enter is read as that line and goes to the
/// history. Not a byte behind the Enter is consumed.
pub proof fn law_typed_line_is_read(
    prompt: Seq<char>,
    history: Seq<Seq<char>>,
    line: Seq<char>,
    more: Seq<u8>,
    ended: bool,
    out: Seq<char>,
)
    requires
        typable(line),
    ensures
        ({
            let p = progressed(
                prompt,
                history,
                SessionView::start(),
                typed(line) + more,
                ended,
                out,
            );
            &&& p.input == Some(InputView::Line(line))
            &&& p.rest == more
            &&& p.history == remembered(history, line)
        }),
{
    lemma_typed(prompt, history, SessionView::start(), line, more, ended, out);
    assert(Seq::<char>::empty() + line =~= line);
}

/// Bytes typed ahead are kept: when two lines arrive in one burst, the first read
/// gives the first line and the second read, of the bytes that are left, gives the
/// second. None is lost and none is read twice.
pub proof fn law_typed_ahead_is_kept(
    prompt: Seq<char>,
    history: Seq<Seq<char>>,
    first: Seq<char>,
    second: Seq<char>,
    more: Seq<u8>,
    ended: bool,
    out: Seq<char>,
    later_out: Seq<char>,
)
    requires
        typable(first),
        typable(second),
    ensures
        ({
            let p = progressed(
                prompt,
                history,
                SessionView::start(),
                typed(first) + typed(second) + more,
                ended,
                out,
            );
            let q = progressed(
                prompt,
                p.history,
                SessionView::start(),
                p.rest,
                ended,
                later_out,
            );
            &&& p.input == Some(InputView::Line(first))
            &&& q.input == Some(InputView::Line(second))
            &&& q.rest == more
            &&& q.history == remembered(remembered(history, first), second)
        }),
{
    assert(typed(first) + typed(second) + more =~= typed(first) + (typed(second) + more));
    law_typed_line_is_read(prompt, history, first, typed(second) + more, ended, out);
    law_typed_line_is_read(
        prompt,
        remembered(history, first),
        second,
        more,
        ended,
        later_out,
    );
}

/// Characters typed at the end of a line, and then Enter.
proof fn lemma_typed(
    prompt: Seq<char>,
    history: Seq<Seq<char>>,
    session: SessionView,
    tail: Seq<char>,
    more: Seq<u8>,
    ended: bool,
    out: Seq<char>,
)
    requires
        typable(tail),
        session.line.cursor == session.line.chars.len(),
    ensures
        ({
            let p = progressed(prompt, history, session, typed(tail) + more, ended, out);
            &&& p.input == Some(InputView::Line(session.line.chars + tail))
            &&& p.rest == more
            &&& p.history == remembered(history, session.line.chars + tail)
        }),
    decreases tail.len(),
{
    let rest = typed(tail) + more;
    if tail.len() == 0 {
        assert(vstd::utf8::encode_utf8(tail) =~= Seq::<u8>::empty());
        assert(rest[0] == 0x0d);
        assert(rest.skip(1) =~= more);
        assert(session.line.chars + tail =~= session.line.chars);
    } else {
        let c = tail[0];
        let others = tail.drop_first();
        let e = vstd::utf8::encode_scalar(c as u32);
        assert(keys::typable(tail[0]));
        assert forall|i: int| 0 <= i < others.len() implies keys::typable(#[trigger] others[i]) by {
            assert(others[i] == tail[i + 1]);
        }
        assert(rest =~= e + (typed(others) + more));
        keys::law_characters_type_themselves(c, typed(others) + more, ended);
        vstd::utf8::char_is_scalar(c);
        assert(rest.skip(e.len() as int) =~= typed(others) + more);
        let key = Key::Char(c);
        let next = session.after(history, key);
        assert(next.line.chars =~= session.line.chars.push(c));
        assert(next.line.chars + others =~= session.line.chars + tail);
        lemma_typed(
            prompt,
            history,
            next,
            others,
            more,
            ended,
            out + shown(prompt, history, session, key),
        );
    }
}

/// Whatever is pressed, the cursor stays within the line and the recalled entry within
/// the history.
pub proof fn law_keys_keep_session_valid(history: Seq<Seq<char>>, session: SessionView, key: Key)
    requires
        session.ok(history),
    ensures
        session.after(history, key).ok(history),
{
    let c = match key {
        Key::Char(c) => c,
        _ => ' ',
    };
    line::law_edits_keep_cursor_inside(session.line, c);
}

/// Recalling an entry and coming back leaves the typed line as it was, with the
/// cursor at its end.
pub proof fn law_browsing_preserves_typed_line(history: Seq<Seq<char>>, session: SessionView)
    requires
        session.browsing is None,
        history.len() > 0,
    ensures
        session.older(history).newer(history).line.chars == session.line.chars,
        session.older(history).newer(history).browsing is None,
        session.older(history).line.chars == history.last(),
{
}

/// Down without a recall, and Up without a history, do nothing; Up at the oldest
/// entry stays there.
pub proof fn law_browsing_stops_at_the_ends(history: Seq<Seq<char>>, session: SessionView)
    ensures
        session.browsing is None ==> session.newer(history) == session,
        session.browsing is None && history.len() == 0 ==> session.older(history) == session,
        session.browsing == Some(0int) ==> session.older(history) == session,
{
}

/// Every entry of the history can be reached: after `k` recalls the line is the
/// entry `k` from the end.
pub proof fn law_up_walks_history(history: Seq<Seq<char>>, session: SessionView, k: nat)
    requires
        session.browsing is None,
        0 < k <= history.len(),
    ensures
        recalled(history, session, k).line.chars == history[history.len() - k],
        recalled(history, session, k).browsing == Some(history.len() - k),
        recalled(history, session, k).stash == session.line.chars,
    decreases k,
{
    if k > 1 {
        law_up_walks_history(history, session, (k - 1) as nat);
    } else {
        assert(recalled(history, session, 0) == session);
        assert(recalled(history, session, 1) == recalled(history, session, 0).older(history));
    }
}

/// The session after `k` recalls.
pub open spec fn recalled(history: Seq<Seq<char>>, session: SessionView, k: nat) -> SessionView
    decreases k,
{
    if k == 0 {
        session
    } else {
        recalled(history, session, (k - 1) as nat).older(history)
    }
}

/// A line is recorded once: entering it again right away changes nothing, and a
/// blank line never does.
pub proof fn law_history_has_no_repeats(history: Seq<Seq<char>>, line: Seq<char>)
    ensures
        remembered(remembered(history, line), line) == remembered(history, line),
        blank(line) ==> remembered(history, line) == history,
        !blank(line) ==> remembered(history, line).last() == line,
{
}

} // verus!
