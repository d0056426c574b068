//! The line being edited.

use vstd::prelude::*;

use crate::text;
use crate::text::{chars_of, is_white, text_of, width};

verus! {

/// The text of a line and the place of the cursor in it.
///
/// The cursor stands between characters. As a byte offset it is always on a
/// character border.
pub struct Line {
    buf: Vec<char>,
    at: usize,
}

/// What a [`Line`] holds.
pub struct LineView {
    /// The text.
    pub chars: Seq<char>,
    /// How many characters stand before the cursor.
    pub cursor: int,
}

impl View for Line {
    type V = LineView;

    closed spec fn view(&self) -> LineView {
        LineView { chars: self.buf@, cursor: self.at as int }
    }
}

/// The index behind the last character before `i` that is no white space.
pub open spec fn back_over_white(chars: Seq<char>, i: int) -> int
    decreases i,
{
    if 0 < i <= chars.len() && text::white(chars[i - 1]) {
        back_over_white(chars, i - 1)
    } else {
        i
    }
}

/// The start of the word that ends at `i`.
pub open spec fn back_over_word(chars: Seq<char>, i: int) -> int
    decreases i,
{
    if 0 < i <= chars.len() && !text::white(chars[i - 1]) {
        back_over_word(chars, i - 1)
    } else {
        i
    }
}

/// The first index from `i` on that is no white space.
pub open spec fn on_over_white(chars: Seq<char>, i: int) -> int
    decreases chars.len() - i,
{
    if 0 <= i < chars.len() && text::white(chars[i]) {
        on_over_white(chars, i + 1)
    } else {
        i
    }
}

/// The end of the word that starts at `i`.
pub open spec fn on_over_word(chars: Seq<char>, i: int) -> int
    decreases chars.len() - i,
{
    if 0 <= i < chars.len() && !text::white(chars[i]) {
        on_over_word(chars, i + 1)
    } else {
        i
    }
}

impl LineView {
    /// An empty line.
    pub open spec fn empty() -> LineView {
        LineView { chars: Seq::empty(), cursor: 0 }
    }

    /// The cursor is within the line.
    pub open spec fn ok(self) -> bool {
        0 <= self.cursor <= self.chars.len()
    }

    /// The given text with the cursor at its end.
    pub open spec fn at_end(chars: Seq<char>) -> LineView {
        LineView { chars, cursor: chars.len() as int }
    }

    /// A character typed at the cursor.
    pub open spec fn inserted(self, c: char) -> LineView {
        LineView { chars: self.chars.insert(self.cursor, c), cursor: self.cursor + 1 }
    }

    /// The character before the cursor deleted, if there is one.
    pub open spec fn backspaced(self) -> LineView {
        if self.cursor > 0 {
            LineView { chars: self.chars.remove(self.cursor - 1), cursor: self.cursor - 1 }
        } else {
            self
        }
    }

    /// The character at the cursor deleted, if there is one.
    pub open spec fn deleted(self) -> LineView {
        if self.cursor < self.chars.len() {
            LineView { chars: self.chars.remove(self.cursor), cursor: self.cursor }
        } else {
            self
        }
    }

    /// The cursor moved.
    pub open spec fn moved(self, cursor: int) -> LineView {
        LineView { cursor, ..self }
    }

    /// One character left, unless at the start.
    pub open spec fn left(self) -> LineView {
        if self.cursor > 0 {
            self.moved(self.cursor - 1)
        } else {
            self
        }
    }

    /// One character right, unless at the end.
    pub open spec fn right(self) -> LineView {
        if self.cursor < self.chars.len() {
            self.moved(self.cursor + 1)
        } else {
            self
        }
    }

    /// The start of the word at or before the cursor.
    pub open spec fn word_start(self) -> int {
        back_over_word(self.chars, back_over_white(self.chars, self.cursor))
    }

    /// The end of the word at or after the cursor.
    pub open spec fn word_end(self) -> int {
        on_over_word(self.chars, on_over_white(self.chars, self.cursor))
    }

    /// Everything from the cursor on deleted.
    pub open spec fn killed_to_end(self) -> LineView {
        LineView { chars: self.chars.take(self.cursor), ..self }
    }

    /// Everything before the cursor deleted.
    pub open spec fn killed_to_start(self) -> LineView {
        LineView { chars: self.chars.skip(self.cursor), cursor: 0 }
    }

    /// The word before the cursor deleted.
    pub open spec fn word_deleted(self) -> LineView {
        LineView {
            chars: self.chars.take(self.word_start()) + self.chars.skip(self.cursor),
            cursor: self.word_start(),
        }
    }

    /// The length of the line in bytes.
    pub open spec fn bytes(self) -> nat {
        vstd::utf8::encode_utf8(self.chars).len()
    }
}

/// The text of a line: the start of a word is before the cursor, the end after
/// it.
pub proof fn lemma_word_bounds(line: LineView)
    requires
        line.ok(),
    ensures
        0 <= line.word_start() <= line.cursor,
        line.cursor <= line.word_end() <= line.chars.len(),
{
    lemma_back_white(line.chars, line.cursor);
    lemma_back_word(line.chars, back_over_white(line.chars, line.cursor));
    lemma_on_white(line.chars, line.cursor);
    lemma_on_word(line.chars, on_over_white(line.chars, line.cursor));
}

proof fn lemma_back_white(chars: Seq<char>, i: int)
    requires
        0 <= i <= chars.len(),
    ensures
        0 <= back_over_white(chars, i) <= i,
    decreases i,
{
    if 0 < i && text::white(chars[i - 1]) {
        lemma_back_white(chars, i - 1);
    }
}

proof fn lemma_back_word(chars: Seq<char>, i: int)
    requires
        0 <= i <= chars.len(),
    ensures
        0 <= back_over_word(chars, i) <= i,
    decreases i,
{
    if 0 < i && !text::white(chars[i - 1]) {
        lemma_back_word(chars, i - 1);
    }
}

proof fn lemma_on_white(chars: Seq<char>, i: int)
    requires
        0 <= i <= chars.len(),
    ensures
        i <= on_over_white(chars, i) <= chars.len(),
    decreases chars.len() - i,
{
    if i < chars.len() && text::white(chars[i]) {
        lemma_on_white(chars, i + 1);
    }
}

proof fn lemma_on_word(chars: Seq<char>, i: int)
    requires
        0 <= i <= chars.len(),
    ensures
        i <= on_over_word(chars, i) <= chars.len(),
    decreases chars.len() - i,
{
    if i < chars.len() && !text::white(chars[i]) {
        lemma_on_word(chars, i + 1);
    }
}

impl Default for Line {
    fn default() -> (l: Line)
        ensures
            l.wf(),
            l@ == LineView::empty(),
    {
        Line::new()
    }
}

impl Line {
    /// The cursor is within the line.
    pub closed spec fn wf(&self) -> bool {
        self.at <= self.buf@.len()
    }

    /// What well-formedness says of the view.
    pub proof fn lemma_wf(&self)
        requires
            self.wf(),
        ensures
            self@.ok(),
    {
    }

    /// An empty line.
    pub fn new() -> (l: Line)
        ensures
            l.wf(),
            l@ == LineView::empty(),
    {
        let l = Line { buf: Vec::new(), at: 0 };
        proof {
            assert(l@.chars =~= Seq::<char>::empty());
        }
        l
    }

    /// The given text with the cursor at a byte offset, unless that is no
    /// character border of the text.
    pub fn with_cursor(text: &str, cursor: usize) -> (r: Option<Line>)
        ensures
            match r {
                Some(l) => l.wf() && l@.chars == text@ && text::offset(text@, l@.cursor) == cursor,
                None => forall|i: int|
                    0 <= i <= text@.len() ==> #[trigger] text::offset(text@, i) != cursor,
            },
    {
        let total: usize = text.as_bytes().len();
        let buf: Vec<char> = chars_of(text);
        proof {
            text::lemma_offset_ends(text@);
        }
        let mut pos: usize = 0;
        let mut at: usize = 0;
        while at < buf.len() && pos < cursor
            invariant
                at <= buf@.len(),
                buf@ == text@,
                pos == text::offset(text@, at as int),
                total == vstd::utf8::encode_utf8(text@).len(),
                forall|k: int| 0 <= k < at ==> #[trigger] text::offset(text@, k) < cursor,
            decreases buf@.len() - at,
        {
            proof {
                text::lemma_offset_step(text@, at as int);
                text::lemma_offset_rises(text@, 0, at + 1);
            }
            pos += width(buf[at]);
            at += 1;
        }
        if pos != cursor {
            proof {
                assert forall|i: int| 0 <= i <= text@.len() implies #[trigger] text::offset(
                    text@,
                    i,
                ) != cursor by {
                    if i >= at {
                        text::lemma_offset_rises(text@, at as int, i);
                    }
                }
            }
            return None;
        }
        Some(Line { buf, at })
    }

    /// The text.
    pub fn text(&self) -> (s: String)
        ensures
            s@ == self@.chars,
    {
        let s = text_of(self.buf.as_slice(), 0, self.buf.len());
        proof {
            assert(self.buf@.subrange(0, self.buf@.len() as int) =~= self.buf@);
        }
        s
    }

    /// Whether the line is empty.
    pub fn is_empty(&self) -> (r: bool)
        ensures
            r == (self@.chars.len() == 0),
    {
        self.buf.is_empty()
    }

    /// The byte offset of the character at index `i`.
    fn offset_of(&self, i: usize) -> (n: usize)
        requires
            self.wf(),
            i <= self.buf@.len(),
            self@.bytes() <= usize::MAX,
        ensures
            n == text::offset(self@.chars, i as int),
    {
        let mut n: usize = 0;
        let mut k: usize = 0;
        proof {
            text::lemma_offset_ends(self.buf@);
        }
        while k < i
            invariant
                k <= i <= self.buf@.len(),
                n == text::offset(self.buf@, k as int),
                vstd::utf8::encode_utf8(self.buf@).len() <= usize::MAX,
            decreases i - k,
        {
            proof {
                text::lemma_offset_step(self.buf@, k as int);
                text::lemma_offset_rises(self.buf@, 0, k + 1);
            }
            n += width(self.buf[k]);
            k += 1;
        }
        n
    }

    /// The cursor as a byte offset.
    pub fn cursor(&self) -> (n: usize)
        requires
            self.wf(),
            self@.bytes() <= usize::MAX,
        ensures
            n == text::offset(self@.chars, self@.cursor),
    {
        self.offset_of(self.at)
    }

    /// Replaces the text and parks the cursor at its end.
    pub fn set(&mut self, text: &str)
        ensures
            final(self).wf(),
            final(self)@ == LineView::at_end(text@),
    {
        self.buf = chars_of(text);
        self.at = self.buf.len();
    }

    /// Types a character at the cursor.
    pub fn insert(&mut self, c: char)
        requires
            old(self).wf(),
        ensures
            final(self).wf(),
            final(self)@ == old(self)@.inserted(c),
    {
        self.buf.insert(self.at, c);
        // The new length fits, so the next place does too.
        let len: usize = self.buf.len();
        assert(self.at < len);
        self.at += 1;
    }

    /// The byte offset of the character before the cursor.
    pub fn prev_boundary(&self) -> (r: Option<usize>)
        requires
            self.wf(),
            self@.bytes() <= usize::MAX,
        ensures
            match r {
                Some(n) => self@.cursor > 0 && n == text::offset(self@.chars, self@.cursor - 1),
                None => self@.cursor == 0,
            },
    {
        if self.at == 0 {
            None
        } else {
            Some(self.offset_of(self.at - 1))
        }
    }

    /// The byte offset behind the character at the cursor.
    pub fn next_boundary(&self) -> (r: Option<usize>)
        requires
            self.wf(),
            self@.bytes() <= usize::MAX,
        ensures
            match r {
                Some(n) => self@.cursor < self@.chars.len() && n == text::offset(
                    self@.chars,
                    self@.cursor + 1,
                ),
                None => self@.cursor == self@.chars.len(),
            },
    {
        if self.at < self.buf.len() {
            Some(self.offset_of(self.at + 1))
        } else {
            None
        }
    }

    /// Deletes the character before the cursor.
    pub fn backspace(&mut self)
        requires
            old(self).wf(),
        ensures
            final(self).wf(),
            final(self)@ == old(self)@.backspaced(),
    {
        if self.at > 0 {
            self.at -= 1;
            self.buf.remove(self.at);
        }
    }

    /// Deletes the character at the cursor.
    pub fn delete(&mut self)
        requires
            old(self).wf(),
        ensures
            final(self).wf(),
            final(self)@ == old(self)@.deleted(),
    {
        if self.at < self.buf.len() {
            self.buf.remove(self.at);
        }
    }

    /// One character left.
    pub fn left(&mut self)
        requires
            old(self).wf(),
        ensures
            final(self).wf(),
            final(self)@ == old(self)@.left(),
    {
        if self.at > 0 {
            self.at -= 1;
        }
    }

    /// One character right.
    pub fn right(&mut self)
        requires
            old(self).wf(),
        ensures
            final(self).wf(),
            final(self)@ == old(self)@.right(),
    {
        if self.at < self.buf.len() {
            self.at += 1;
        }
    }

    /// To the start of the line.
    pub fn home(&mut self)
        ensures
            final(self).wf(),
            final(self)@ == old(self)@.moved(0),
    {
        self.at = 0;
    }

    /// To the end of the line.
    pub fn end(&mut self)
        ensures
            final(self).wf(),
            final(self)@ == LineView::at_end(old(self)@.chars),
    {
        self.at = self.buf.len();
    }

    /// Deletes everything from the cursor on.
    pub fn kill_to_end(&mut self)
        requires
            old(self).wf(),
        ensures
            final(self).wf(),
            final(self)@ == old(self)@.killed_to_end(),
    {
        self.buf.truncate(self.at);
        proof {
            assert(self.buf@ =~= old(self).buf@.take(self.at as int));
        }
    }

    /// Deletes everything before the cursor.
    pub fn kill_to_start(&mut self)
        requires
            old(self).wf(),
        ensures
            final(self).wf(),
            final(self)@ == old(self)@.killed_to_start(),
    {
        let tail: Vec<char> = self.buf.split_off(self.at);
        self.buf = tail;
        proof {
            assert(self.buf@ =~= old(self).buf@.skip(old(self).at as int));
        }
        self.at = 0;
    }

    /// The byte offset of the start of the word at or before the cursor: white space
    /// is skipped first, then the word itself.
    pub fn word_start(&self) -> (n: usize)
        requires
            self.wf(),
            self@.bytes() <= usize::MAX,
        ensures
            n == text::offset(self@.chars, self@.word_start()),
    {
        let i: usize = self.word_start_index();
        self.offset_of(i)
    }

    /// The byte offset of the end of the word at or after the cursor.
    pub fn word_end(&self) -> (n: usize)
        requires
            self.wf(),
            self@.bytes() <= usize::MAX,
        ensures
            n == text::offset(self@.chars, self@.word_end()),
    {
        let i: usize = self.word_end_index();
        self.offset_of(i)
    }

    /// How many characters stand before the word at or before the cursor.
    fn word_start_index(&self) -> (i: usize)
        requires
            self.wf(),
        ensures
            i == self@.word_start(),
            i <= self@.cursor,
    {
        let mut i: usize = self.at;
        while i > 0 && is_white(self.buf[i - 1])
            invariant
                i <= self.at <= self.buf@.len(),
                back_over_white(self.buf@, self.at as int) == back_over_white(
                    self.buf@,
                    i as int,
                ),
            decreases i,
        {
            i -= 1;
        }
        let ghost mid = i as int;
        while i > 0 && !is_white(self.buf[i - 1])
            invariant
                i <= self.at <= self.buf@.len(),
                mid == back_over_white(self.buf@, self.at as int),
                back_over_word(self.buf@, mid) == back_over_word(self.buf@, i as int),
            decreases i,
        {
            i -= 1;
        }
        i
    }

    /// How many characters stand before the end of the word at or after the cursor.
    fn word_end_index(&self) -> (i: usize)
        requires
            self.wf(),
        ensures
            i == self@.word_end(),
            self@.cursor <= i <= self@.chars.len(),
    {
        let mut i: usize = self.at;
        while i < self.buf.len() && is_white(self.buf[i])
            invariant
                self.at <= i <= self.buf@.len(),
                on_over_white(self.buf@, self.at as int) == on_over_white(self.buf@, i as int),
            decreases self.buf@.len() - i,
        {
            i += 1;
        }
        let ghost mid = i as int;
        while i < self.buf.len() && !is_white(self.buf[i])
            invariant
                self.at <= i <= self.buf@.len(),
                mid == on_over_white(self.buf@, self.at as int),
                on_over_word(self.buf@, mid) == on_over_word(self.buf@, i as int),
            decreases self.buf@.len() - i,
        {
            i += 1;
        }
        i
    }

    /// One word left.
    pub fn word_left(&mut self)
        requires
            old(self).wf(),
        ensures
            final(self).wf(),
            final(self)@ == old(self)@.moved(old(self)@.word_start()),
    {
        let i: usize = self.word_start_index();
        self.at = i;
    }

    /// One word right.
    pub fn word_right(&mut self)
        requires
            old(self).wf(),
        ensures
            final(self).wf(),
            final(self)@ == old(self)@.moved(old(self)@.word_end()),
    {
        let i: usize = self.word_end_index();
        self.at = i;
    }

    /// Deletes the word before the cursor.
    pub fn delete_word(&mut self)
        requires
            old(self).wf(),
        ensures
            final(self).wf(),
            final(self)@ == old(self)@.word_deleted(),
    {
        let start: usize = self.word_start_index();
        let mut tail: Vec<char> = self.buf.split_off(self.at);
        self.buf.truncate(start);
        self.buf.append(&mut tail);
        proof {
            assert(self.buf@ =~= old(self).buf@.take(start as int) + old(self).buf@.skip(
                old(self).at as int,
            ));
        }
        self.at = start;
    }

    /// The cursor's column: the number of characters before it.
    pub fn column(&self) -> (n: usize)
        ensures
            n == self@.cursor,
    {
        self.at
    }
}

/// Every edit keeps the cursor within the line, so as a byte offset it stays on a
/// character border.
pub proof fn law_edits_keep_cursor_inside(line: LineView, c: char)
    requires
        line.ok(),
    ensures
        line.inserted(c).ok(),
        line.backspaced().ok(),
        line.deleted().ok(),
        line.left().ok(),
        line.right().ok(),
        line.moved(line.word_start()).ok(),
        line.moved(line.word_end()).ok(),
        line.killed_to_end().ok(),
        line.killed_to_start().ok(),
        line.word_deleted().ok(),
        text::offset(line.chars, line.cursor) <= line.bytes(),
{
    lemma_word_bounds(line);
    text::lemma_offset_rises(line.chars, 0, line.cursor);
}

/// Backspace takes back what was typed, and does nothing at the start of a line.
pub proof fn law_backspace_undoes_insert(line: LineView, c: char)
    requires
        line.ok(),
    ensures
        line.inserted(c).backspaced() == line,
        line.inserted(c).left().deleted() == line,
        line.cursor == 0 ==> line.backspaced() == line,
{
    assert(line.inserted(c).backspaced().chars =~= line.chars);
    assert(line.inserted(c).left().deleted().chars =~= line.chars);
}

/// Killing to the start and killing to the end cut the line at the cursor into
/// its two sides.
pub proof fn law_kills_part_the_line(line: LineView)
    requires
        line.ok(),
    ensures
        line.killed_to_end().chars + line.killed_to_start().chars == line.chars,
{
    assert(line.killed_to_end().chars + line.killed_to_start().chars =~= line.chars);
}

} // verus!
