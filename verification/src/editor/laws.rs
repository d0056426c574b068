//! What keys mean and do, apart from how they are decoded and applied.

use vstd::prelude::*;

use crate::editor;
use crate::editor::keys;
use crate::editor::keys::{Key, Step};
use crate::editor::line;
use crate::editor::line::LineView;
use crate::editor::{InputView, SessionView};
use crate::spelling;
use crate::text;

verus! {

// ---------------------------------------------------------------------------
// Decoding
// ---------------------------------------------------------------------------

/// An escape sequence as a terminal sends it: an introducer, parameters, a final byte.
pub open spec fn sequence(intro: u8, params: Seq<u8>, last: u8) -> Seq<u8> {
    seq![0x1bu8, intro] + params + seq![last]
}

/// Bytes that can be the parameters of an escape sequence.
pub open spec fn are_params(params: Seq<u8>) -> bool {
    &&& params.len() <= 16
    &&& forall|i: int| 0 <= i < params.len() ==> !(0x40 <= #[trigger] params[i] <= 0x7e)
}

proof fn lemma_params(bytes: Seq<u8>, ended: bool, params: Seq<u8>, last: u8, i: int)
    requires
        are_params(params),
        0x40 <= last <= 0x7e,
        2 <= i <= 2 + params.len(),
        bytes.len() >= 3 + params.len(),
        bytes.subrange(2, 2 + params.len() as int) == params,
        bytes[2 + params.len() as int] == last,
    ensures
        keys::params_from(bytes, ended, i) == Step::Key(
            keys::escape_key(params, last),
            3 + params.len() as int,
        ),
    decreases params.len() + 2 - i,
{
    if i < 2 + params.len() {
        assert(bytes[i] == bytes.subrange(2, 2 + params.len() as int)[i - 2]);
        assert(!(0x40 <= params[i - 2] <= 0x7e));
        lemma_params(bytes, ended, params, last, i + 1);
    } else {
        assert(bytes.subrange(2, i) =~= params);
    }
}

proof fn lemma_sequence(intro: u8, params: Seq<u8>, last: u8, more: Seq<u8>, ended: bool)
    requires
        intro == 0x5b || intro == 0x4f,
        are_params(params),
        0x40 <= last <= 0x7e,
    ensures
        keys::next_key(sequence(intro, params, last) + more, ended) == Step::Key(
            keys::escape_key(params, last),
            3 + params.len() as int,
        ),
{
    let bytes = sequence(intro, params, last) + more;
    assert(bytes[0] == 0x1b && bytes[1] == intro);
    assert(bytes.subrange(2, 2 + params.len() as int) =~= params);
    lemma_params(bytes, ended, params, last, 2);
}

/// An escape sequence is one key and is taken whole, whatever it means and whatever
/// follows it: none of its bytes reaches the line. Both introducers mean the same.
pub proof fn law_sequence_is_one_key(params: Seq<u8>, last: u8, more: Seq<u8>, ended: bool)
    requires
        are_params(params),
        0x40 <= last <= 0x7e,
    ensures
        keys::next_key(sequence(0x5b, params, last) + more, ended) matches Step::Key(k, n) && n == 3
            + params.len() && !(k is Char) && !(k is Enter) && keys::next_key(
            sequence(0x4f, params, last) + more,
            ended,
        ) == Step::Key(k, n),
{
    lemma_sequence(0x5b, params, last, more, ended);
    lemma_sequence(0x4f, params, last, more, ended);
}

/// The arrows: `A`, `B`, `C` and `D` are up, down, right and left, and with the
/// parameters of the control key, which end in `;5`, the last two go by words.
pub proof fn law_arrows(params: Seq<u8>, more: Seq<u8>, ended: bool)
    requires
        are_params(params),
    ensures
        ({
            let n = 3 + params.len() as int;
            let control = params.len() >= 2 && params[params.len() - 2] == 0x3b && params[params.len()
                - 1] == 0x35;
            let key = |last: u8| keys::next_key(sequence(0x5b, params, last) + more, ended);
            &&& key(0x41) == Step::Key(Key::Up, n)
            &&& key(0x42) == Step::Key(Key::Down, n)
            &&& key(0x43) == Step::Key(
                if control {
                    Key::WordRight
                } else {
                    Key::Right
                },
                n,
            )
            &&& key(0x44) == Step::Key(
                if control {
                    Key::WordLeft
                } else {
                    Key::Left
                },
                n,
            )
            &&& key(0x48) == Step::Key(Key::Home, n)
            &&& key(0x46) == Step::Key(Key::End, n)
        }),
{
    lemma_sequence(0x5b, params, 0x41, more, ended);
    lemma_sequence(0x5b, params, 0x42, more, ended);
    lemma_sequence(0x5b, params, 0x43, more, ended);
    lemma_sequence(0x5b, params, 0x44, more, ended);
    lemma_sequence(0x5b, params, 0x48, more, ended);
    lemma_sequence(0x5b, params, 0x46, more, ended);
}

/// Sequences that end in `~` are known by one digit: `1` and `7` are Home, `3` is Delete,
/// `4` and `8` are End. With any other parameters, and with any other final byte than
/// these and the arrows', a sequence is ignored.
pub proof fn law_numbered_keys(params: Seq<u8>, last: u8, more: Seq<u8>, ended: bool)
    requires
        are_params(params),
        0x40 <= last <= 0x7e,
    ensures
        ({
            let n = 3 + params.len() as int;
            let key = keys::next_key(sequence(0x5b, params, last) + more, ended);
            let digit = if params.len() == 1 {
                params[0] as int
            } else {
                0
            };
            &&& last == 0x7e && (digit == 0x31 || digit == 0x37) ==> key == Step::Key(Key::Home, n)
            &&& last == 0x7e && digit == 0x33 ==> key == Step::Key(Key::Delete, n)
            &&& last == 0x7e && (digit == 0x34 || digit == 0x38) ==> key == Step::Key(Key::End, n)
            &&& last == 0x7e && digit != 0x31 && digit != 0x33 && digit != 0x34 && digit != 0x37
                && digit != 0x38 ==> key == Step::Key(Key::Ignored, n)
            &&& last != 0x7e && !(0x41 <= last <= 0x44) && last != 0x46 && last != 0x48 ==> key
                == Step::Key(Key::Ignored, n)
        }),
{
    lemma_sequence(0x5b, params, last, more, ended);
}

/// The control keys: Ctrl-A and Ctrl-E are what Home and End are, Ctrl-B and Ctrl-F what
/// the arrows to the left and right are, Ctrl-N and Ctrl-P what those down and up are; and
/// the two bytes that a terminal sends for Backspace mean the same, as do those for Enter,
/// with an escape before them or without.
pub proof fn law_control_keys(more: Seq<u8>, ended: bool)
    ensures
        ({
            let key = |b: u8| keys::next_key(seq![b] + more, ended);
            let arrow = |last: u8|
                keys::next_key(sequence(0x5b, Seq::empty(), last) + more, ended);
            &&& forall|b: u8|
                b < 0x80 && b != 0x1b ==> (#[trigger] key(b) matches Step::Key(_, n) && n == 1)
            &&& (arrow(0x48) matches Step::Key(k, _) && key(0x01) == Step::Key(k, 1))
            &&& (arrow(0x46) matches Step::Key(k, _) && key(0x05) == Step::Key(k, 1))
            &&& (arrow(0x44) matches Step::Key(k, _) && key(0x02) == Step::Key(k, 1))
            &&& (arrow(0x43) matches Step::Key(k, _) && key(0x06) == Step::Key(k, 1))
            &&& (arrow(0x42) matches Step::Key(k, _) && key(0x0e) == Step::Key(k, 1))
            &&& (arrow(0x41) matches Step::Key(k, _) && key(0x10) == Step::Key(k, 1))
            &&& key(0x08) == key(0x7f)
            &&& key(0x08) == Step::Key(Key::Backspace, 1)
            &&& key(0x0a) == key(0x0d)
            &&& key(0x0d) == Step::Key(Key::Enter, 1)
            &&& keys::next_key(seq![0x1bu8, 0x0du8] + more, ended) == Step::Key(Key::Enter, 2)
            &&& keys::next_key(seq![0x1bu8, 0x0au8] + more, ended) == Step::Key(Key::Enter, 2)
            &&& key(0x03) == Step::Key(Key::Interrupt, 1)
            &&& key(0x04) == Step::Key(Key::Eof, 1)
            &&& key(0x0b) == Step::Key(Key::KillToEnd, 1)
            &&& key(0x15) == Step::Key(Key::KillToStart, 1)
            &&& key(0x17) == Step::Key(Key::DeleteWord, 1)
            &&& key(0x0c) == Step::Key(Key::ClearScreen, 1)
        }),
{
    law_arrows(Seq::empty(), more, ended);
    assert forall|b: u8| b < 0x80 && b != 0x1b implies (#[trigger] keys::next_key(
        seq![b] + more,
        ended,
    )) == Step::Key(keys::plain_key(b), 1) by {
        assert((seq![b] + more)[0] == b);
    }
    let p = seq![0x1bu8, 0x0du8] + more;
    assert(p[0] == 0x1b && p[1] == 0x0d);
    let q = seq![0x1bu8, 0x0au8] + more;
    assert(q[0] == 0x1b && q[1] == 0x0a);
}

/// A control byte that means nothing is ignored, alone; and so is a key that comes with
/// an escape, together with it.
pub proof fn law_other_keys_are_ignored(b: u8, more: Seq<u8>, ended: bool)
    ensures
        b == 0x00 || b == 0x07 || b == 0x09 || b == 0x0f || 0x11 <= b <= 0x14 || b == 0x16 || 0x18
            <= b <= 0x1a || 0x1c <= b <= 0x1f ==> keys::next_key(seq![b] + more, ended)
            == Step::Key(Key::Ignored, 1),
        b != 0x5b && b != 0x4f && b != 0x0a && b != 0x0d ==> keys::next_key(
            seq![0x1bu8, b] + more,
            ended,
        ) == Step::Key(Key::Ignored, 2),
        0x80 <= b < 0xc2 || 0xf5 <= b ==> keys::next_key(seq![b] + more, ended) == Step::Key(
            Key::Ignored,
            1,
        ),
{
    assert((seq![b] + more)[0] == b);
    let p = seq![0x1bu8, b] + more;
    assert(p[0] == 0x1b && p[1] == b);
}

/// A character that is broken off does not take the key behind it along: the bytes before
/// that key are ignored, and it is decoded next.
pub proof fn law_broken_character(first: u8, tail: Seq<u8>, next: u8, more: Seq<u8>, ended: bool)
    requires
        0xc2 <= first <= 0xf4,
        tail.len() < if first <= 0xdf {
            1int
        } else if first <= 0xef {
            2
        } else {
            3
        },
        forall|i: int| 0 <= i < tail.len() ==> 0x80 <= #[trigger] tail[i] < 0xc0,
        !(0x80 <= next < 0xc0),
    ensures
        keys::next_key(seq![first] + tail + seq![next] + more, ended) == Step::Key(
            Key::Ignored,
            1 + tail.len() as int,
        ),
{
    let bytes = seq![first] + tail + seq![next] + more;
    assert(bytes[0] == first);
    lemma_broken(bytes, ended, 1, 1 + tail.len() as int);
}

proof fn lemma_broken(bytes: Seq<u8>, ended: bool, i: int, stop: int)
    requires
        bytes.len() > stop,
        1 <= i <= stop <= keys::followers(bytes[0]),
        forall|k: int| 1 <= k < stop ==> 0x80 <= #[trigger] bytes[k] < 0xc0,
        !(0x80 <= bytes[stop] < 0xc0),
    ensures
        keys::utf8_from(bytes, ended, i) == Step::Key(Key::Ignored, stop),
    decreases stop - i,
{
    if i < stop {
        assert(0x80 <= bytes[i] < 0xc0);
        lemma_broken(bytes, ended, i + 1, stop);
    }
}

/// What is not complete yet waits for more, and is ignored when the input has ended.
pub proof fn law_cut_off_keys(params: Seq<u8>)
    requires
        are_params(params),
    ensures
        keys::next_key(seq![0x1bu8], false) is More,
        keys::next_key(seq![0x1bu8], true) == Step::Key(Key::Ignored, 1),
        keys::next_key(seq![0x1bu8, 0x5bu8] + params, false) is More,
        keys::next_key(seq![0x1bu8, 0x5bu8] + params, true) == Step::Key(
            Key::Ignored,
            2 + params.len() as int,
        ),
        keys::next_key(Seq::empty(), false) is More,
        keys::next_key(Seq::empty(), true) is End,
{
    let bytes = seq![0x1bu8, 0x5bu8] + params;
    assert forall|i: int| 0 <= i < params.len() implies #[trigger] bytes[i + 2] == params[i] by {}
    lemma_cut_params(bytes, params, 2, false);
    lemma_cut_params(bytes, params, 2, true);
}

proof fn lemma_cut_params(bytes: Seq<u8>, params: Seq<u8>, i: int, ended: bool)
    requires
        are_params(params),
        bytes.len() == 2 + params.len(),
        2 <= i <= bytes.len(),
        forall|k: int| 0 <= k < params.len() ==> #[trigger] bytes[k + 2] == params[k],
    ensures
        keys::params_from(bytes, ended, i) == keys::cut_off(ended, bytes.len() as int),
    decreases bytes.len() - i,
{
    if i < bytes.len() {
        assert(bytes[(i - 2) + 2] == params[i - 2]);
        lemma_cut_params(bytes, params, i + 1, ended);
    }
}

// ---------------------------------------------------------------------------
// Editing
// ---------------------------------------------------------------------------

/// The text before the cursor and the text behind it.
pub open spec fn sides(line: LineView) -> (Seq<char>, Seq<char>) {
    (line.chars.take(line.cursor), line.chars.skip(line.cursor))
}

/// What each edit does to the two sides of the cursor.
pub proof fn law_edits(line: LineView, c: char)
    requires
        line.ok(),
    ensures
        ({
            let (before, behind) = sides(line);
            &&& sides(line.inserted(c)) == (before.push(c), behind)
            &&& before.len() > 0 ==> sides(line.backspaced()) == (before.drop_last(), behind)
            &&& before.len() == 0 ==> line.backspaced() == line
            &&& behind.len() > 0 ==> sides(line.deleted()) == (before, behind.drop_first())
            &&& behind.len() == 0 ==> line.deleted() == line
            &&& before.len() > 0 ==> sides(line.left()) == (
                before.drop_last(),
                seq![before.last()] + behind,
            )
            &&& before.len() == 0 ==> line.left() == line
            &&& behind.len() > 0 ==> sides(line.right()) == (
                before.push(behind[0]),
                behind.drop_first(),
            )
            &&& behind.len() == 0 ==> line.right() == line
            &&& sides(line.killed_to_end()) == (before, Seq::<char>::empty())
            &&& sides(line.killed_to_start()) == (Seq::<char>::empty(), behind)
            &&& sides(LineView::at_end(line.chars)) == (line.chars, Seq::<char>::empty())
            &&& sides(line.moved(0)) == (Seq::<char>::empty(), line.chars)
        }),
{
    let (before, behind) = sides(line);
    let i = line.inserted(c);
    assert(sides(i).0 =~= before.push(c) && sides(i).1 =~= behind);
    if before.len() > 0 {
        let b = line.backspaced();
        assert(sides(b).0 =~= before.drop_last() && sides(b).1 =~= behind);
        let l = line.left();
        assert(sides(l).0 =~= before.drop_last() && sides(l).1 =~= seq![before.last()] + behind);
    }
    if behind.len() > 0 {
        let d = line.deleted();
        assert(sides(d).0 =~= before && sides(d).1 =~= behind.drop_first());
        let r = line.right();
        assert(sides(r).0 =~= before.push(behind[0]) && sides(r).1 =~= behind.drop_first());
    }
    let k = line.killed_to_end();
    assert(sides(k).0 =~= before && sides(k).1 =~= Seq::<char>::empty());
    let s = line.killed_to_start();
    assert(sides(s).0 =~= Seq::<char>::empty() && sides(s).1 =~= behind);
    let e = LineView::at_end(line.chars);
    assert(sides(e).0 =~= line.chars && sides(e).1 =~= Seq::<char>::empty());
    let h = line.moved(0);
    assert(sides(h).0 =~= Seq::<char>::empty() && sides(h).1 =~= line.chars);
}

/// The start of a word: from there to the cursor there are characters that are not white
/// space, and then white space; and before it there is white space, or nothing. It is at
/// the cursor only if there is nothing but white space before that.
pub proof fn law_word_start(line: LineView) -> (m: int)
    requires
        line.ok(),
    ensures
        ({
            let w = line.word_start();
            &&& 0 <= w <= m <= line.cursor
            &&& forall|i: int| w <= i < m ==> !text::white(#[trigger] line.chars[i])
            &&& forall|i: int| m <= i < line.cursor ==> text::white(#[trigger] line.chars[i])
            &&& w > 0 ==> text::white(line.chars[w - 1]) && w < m
            &&& w == m ==> m == 0
        }),
{
    let m = line::back_over_white(line.chars, line.cursor);
    lemma_back_white(line.chars, line.cursor);
    lemma_back_word(line.chars, m);
    m
}

proof fn lemma_back_white(chars: Seq<char>, i: int)
    requires
        0 <= i <= chars.len(),
    ensures
        ({
            let m = line::back_over_white(chars, i);
            &&& 0 <= m <= i
            &&& forall|k: int| m <= k < i ==> text::white(#[trigger] chars[k])
            &&& m > 0 ==> !text::white(chars[m - 1])
        }),
    decreases i,
{
    if i > 0 && text::white(chars[i - 1]) {
        lemma_back_white(chars, i - 1);
    }
}

proof fn lemma_back_word(chars: Seq<char>, i: int)
    requires
        0 <= i <= chars.len(),
    ensures
        ({
            let m = line::back_over_word(chars, i);
            &&& 0 <= m <= i
            &&& forall|k: int| m <= k < i ==> !text::white(#[trigger] chars[k])
            &&& m > 0 ==> text::white(chars[m - 1])
        }),
    decreases i,
{
    if i > 0 && !text::white(chars[i - 1]) {
        lemma_back_word(chars, i - 1);
    }
}

/// The end of a word, in the same way ahead of the cursor.
pub proof fn law_word_end(line: LineView) -> (m: int)
    requires
        line.ok(),
    ensures
        ({
            let w = line.word_end();
            &&& line.cursor <= m <= w <= line.chars.len()
            &&& forall|i: int| line.cursor <= i < m ==> text::white(#[trigger] line.chars[i])
            &&& forall|i: int| m <= i < w ==> !text::white(#[trigger] line.chars[i])
            &&& w < line.chars.len() ==> text::white(line.chars[w]) && m < w
            &&& w == m ==> m == line.chars.len()
        }),
{
    let m = line::on_over_white(line.chars, line.cursor);
    lemma_on_white(line.chars, line.cursor);
    lemma_on_word(line.chars, m);
    m
}

proof fn lemma_on_white(chars: Seq<char>, i: int)
    requires
        0 <= i <= chars.len(),
    ensures
        ({
            let m = line::on_over_white(chars, i);
            &&& i <= m <= chars.len()
            &&& forall|k: int| i <= k < m ==> text::white(#[trigger] chars[k])
            &&& m < chars.len() ==> !text::white(chars[m])
        }),
    decreases chars.len() - i,
{
    if i < chars.len() && text::white(chars[i]) {
        lemma_on_white(chars, i + 1);
    }
}

proof fn lemma_on_word(chars: Seq<char>, i: int)
    requires
        0 <= i <= chars.len(),
    ensures
        ({
            let m = line::on_over_word(chars, i);
            &&& i <= m <= chars.len()
            &&& forall|k: int| i <= k < m ==> !text::white(#[trigger] chars[k])
            &&& m < chars.len() ==> text::white(chars[m])
        }),
    decreases chars.len() - i,
{
    if i < chars.len() && !text::white(chars[i]) {
        lemma_on_word(chars, i + 1);
    }
}

/// The line after `n` presses of Backspace.
pub open spec fn backspaces(line: LineView, n: nat) -> LineView
    decreases n,
{
    if n == 0 {
        line
    } else {
        backspaces(line.backspaced(), (n - 1) as nat)
    }
}

/// Deleting a word is pressing Backspace up to its start.
pub proof fn law_word_is_deleted_by_backspaces(line: LineView)
    requires
        line.ok(),
    ensures
        line.word_deleted() == backspaces(line, (line.cursor - line.word_start()) as nat),
{
    let m = law_word_start(line);
    lemma_backspaces(line, (line.cursor - line.word_start()) as nat);
}

proof fn lemma_backspaces(line: LineView, n: nat)
    requires
        line.ok(),
        n <= line.cursor,
    ensures
        backspaces(line, n) == (LineView {
            chars: line.chars.take(line.cursor - n) + line.chars.skip(line.cursor),
            cursor: line.cursor - n,
        }),
    decreases n,
{
    if n == 0 {
        assert(line.chars.take(line.cursor) + line.chars.skip(line.cursor) =~= line.chars);
    } else {
        let b = line.backspaced();
        lemma_backspaces(b, (n - 1) as nat);
        assert(b.chars.take(b.cursor - (n - 1)) + b.chars.skip(b.cursor) =~= line.chars.take(
            line.cursor - n,
        ) + line.chars.skip(line.cursor));
    }
}

// ---------------------------------------------------------------------------
// Reading a line
// ---------------------------------------------------------------------------

/// What a key does to the line being read: a character is typed, the editing keys edit,
/// and the others leave the line alone.
pub proof fn law_keys_edit(history: Seq<Seq<char>>, session: SessionView, c: char)
    ensures
        ({
            let line = session.line;
            let after = |key: Key| session.after(history, key).line;
            &&& after(Key::Char(c)) == line.inserted(c)
            &&& after(Key::Backspace) == line.backspaced()
            &&& after(Key::Delete) == line.deleted()
            &&& after(Key::Left) == line.left()
            &&& after(Key::Right) == line.right()
            &&& after(Key::Home).cursor == 0 && after(Key::Home).chars == line.chars
            &&& after(Key::End).cursor == line.chars.len() && after(Key::End).chars == line.chars
            &&& after(Key::WordLeft).cursor == line.word_start() && after(Key::WordLeft).chars
                == line.chars
            &&& after(Key::WordRight).cursor == line.word_end() && after(Key::WordRight).chars
                == line.chars
            &&& after(Key::KillToEnd) == line.killed_to_end()
            &&& after(Key::KillToStart) == line.killed_to_start()
            &&& after(Key::DeleteWord) == line.word_deleted()
            &&& after(Key::ClearScreen) == line
            &&& after(Key::Ignored) == line
            &&& line.chars.len() > 0 ==> after(Key::Eof) == line.deleted()
        }),
{
}

/// Which keys end the reading, and with what: Enter with the line as it is, Ctrl-C, and
/// Ctrl-D on an empty line.
pub proof fn law_keys_that_end(session: SessionView, key: Key)
    ensures
        match session.result(key) {
            Some(InputView::Line(line)) => key == Key::Enter && line == session.line.chars,
            Some(InputView::Interrupted) => key == Key::Interrupt,
            Some(InputView::Eof) => key == Key::Eof && session.line.chars.len() == 0,
            None => key != Key::Enter && key != Key::Interrupt && !(key == Key::Eof
                && session.line.chars.len() == 0),
        },
{
}

/// Up and Down go through the history without changing it, and Up remembers what was being
/// typed.
pub proof fn law_recall(history: Seq<Seq<char>>, session: SessionView)
    requires
        session.ok(history),
    ensures
        ({
            let up = session.after(history, Key::Up);
            let down = session.after(history, Key::Down);
            &&& session.browsing is None && history.len() > 0 ==> {
                &&& up.browsing == Some(history.len() - 1)
                &&& up.line.chars == history[history.len() - 1]
                &&& up.line.cursor == up.line.chars.len()
                &&& up.stash == session.line.chars
            }
            &&& session.browsing is Some && session.browsing->0 > 0 ==> {
                &&& up.browsing == Some(session.browsing->0 - 1)
                &&& up.line.chars == history[session.browsing->0 - 1]
                &&& up.line.cursor == up.line.chars.len()
                &&& up.stash == session.stash
            }
            &&& session.browsing is Some && session.browsing->0 + 1 < history.len() ==> {
                &&& down.browsing == Some(session.browsing->0 + 1)
                &&& down.line.chars == history[session.browsing->0 + 1]
                &&& down.line.cursor == down.line.chars.len()
                &&& down.stash == session.stash
            }
            &&& session.browsing is Some && session.browsing->0 + 1 == history.len() ==> {
                &&& down.browsing is None
                &&& down.line.chars == session.stash
                &&& down.line.cursor == down.line.chars.len()
            }
        }),
{
}

/// A line is recorded unless it is blank or repeats the last entry; then nothing changes.
/// Only Enter records.
pub proof fn law_recording(history: Seq<Seq<char>>, session: SessionView, key: Key)
    ensures
        ({
            let line = session.line.chars;
            let after = editor::history_after(history, session, key);
            let blank = forall|i: int| 0 <= i < line.len() ==> text::white(#[trigger] line[i]);
            let repeats = history.len() > 0 && history[history.len() - 1] == line;
            &&& key == Key::Enter && !blank && !repeats ==> after == history.push(line)
            &&& key != Key::Enter || blank || repeats ==> after == history
        }),
{
}

/// The file keeps the last thousand entries, in order.
pub proof fn law_history_keeps_the_newest(history: Seq<Seq<char>>)
    ensures
        ({
            let kept = editor::kept(history);
            &&& kept.len() <= 1000
            &&& history.len() <= 1000 ==> kept == history
            &&& history.len() > 1000 ==> kept.len() == 1000
            &&& forall|i: int|
                0 <= i < kept.len() ==> #[trigger] kept[i] == history[history.len() - kept.len()
                    + i]
        }),
{
}

/// What is drawn: from the first column the prompt and the line, nothing behind them, and
/// then the cursor in its column, which counts the characters of the prompt and those
/// before the cursor.
pub proof fn law_drawing(prompt: Seq<char>, line: LineView) -> (digits: Seq<char>)
    requires
        line.ok(),
    ensures
        prompt.len() + line.cursor == 0 ==> editor::drawn(prompt, line) == seq!['\r'] + prompt
            + line.chars + seq!['\x1b', '[', 'K', '\r'],
        prompt.len() + line.cursor > 0 ==> {
            &&& editor::drawn(prompt, line) == seq!['\r'] + prompt + line.chars + seq![
                '\x1b',
                '[',
                'K',
                '\r',
            ] + (seq!['\x1b', '['] + digits + seq!['C'])
            &&& spelling::is_digits(digits)
            &&& spelling::reads(digits) == prompt.len() + line.cursor
        },
{
    reveal_strlit("\r");
    reveal_strlit("\x1b[K\r");
    reveal_strlit("\x1b[");
    reveal_strlit("C");
    let digits = text::decimal((prompt.len() + line.cursor) as nat);
    spelling::law_numeral_reads_back((prompt.len() + line.cursor) as nat);
    assert("\r"@ =~= seq!['\r']);
    assert("\x1b[K\r"@ =~= seq!['\x1b', '[', 'K', '\r']);
    assert("\x1b["@ =~= seq!['\x1b', '[']);
    assert("C"@ =~= seq!['C']);
    let head = seq!['\r'] + prompt + line.chars + seq!['\x1b', '[', 'K', '\r'];
    assert(head + Seq::<char>::empty() =~= head);
    digits
}

/// What is shown for a key: the line as it is behind it, on a cleared screen if that was
/// asked for; a line break when the reading ends, behind a sign if it was interrupted.
pub proof fn law_showing(
    prompt: Seq<char>,
    history: Seq<Seq<char>>,
    session: SessionView,
    key: Key,
)
    ensures
        ({
            let shown = editor::shown(prompt, history, session, key);
            let after = editor::drawn(prompt, session.after(history, key).line);
            &&& key == Key::Enter ==> shown == seq!['\n']
            &&& key == Key::Interrupt ==> shown == seq!['^', 'C', '\n']
            &&& key == Key::Eof && session.line.chars.len() == 0 ==> shown == seq!['\n']
            &&& key == Key::ClearScreen ==> shown == seq![
                '\x1b',
                '[',
                'H',
                '\x1b',
                '[',
                '2',
                'J',
            ] + after
            &&& key != Key::ClearScreen && session.result(key) is None ==> shown == after
        }),
{
    reveal_strlit("\n");
    reveal_strlit("^C\n");
    reveal_strlit("\x1b[H\x1b[2J");
    assert("\n"@ =~= seq!['\n']);
    assert("^C\n"@ =~= seq!['^', 'C', '\n']);
    assert("\x1b[H\x1b[2J"@ =~= seq!['\x1b', '[', 'H', '\x1b', '[', '2', 'J']);
}

/// Reading goes key by key: what the first key does, and then what the reading of the
/// rest comes to.
pub proof fn law_reading_goes_key_by_key(
    prompt: Seq<char>,
    history: Seq<Seq<char>>,
    session: SessionView,
    rest: Seq<u8>,
    ended: bool,
    out: Seq<char>,
)
    ensures
        ({
            let p = editor::progressed(prompt, history, session, rest, ended, out);
            match keys::next_key(rest, ended) {
                Step::End => p.input == Some(InputView::Eof) && p.rest == rest && p.out == out
                    && p.history == history,
                Step::More => p.input is None && p.rest == rest && p.out == out && p.history
                    == history && p.session == session,
                Step::Key(key, n) => {
                    let now = out + editor::shown(prompt, history, session, key);
                    let then = editor::history_after(history, session, key);
                    match session.result(key) {
                        Some(input) => p.input == Some(input) && p.rest == rest.skip(n) && p.out
                            == now && p.history == then,
                        None => p == editor::progressed(
                            prompt,
                            then,
                            session.after(history, key),
                            rest.skip(n),
                            ended,
                            now,
                        ),
                    }
                },
            }
        }),
{
    keys::law_keys_consume_bytes(rest, ended);
}

/// A file of history is read line by line: what stands before the first line break is the
/// first entry, without a carriage return at its end, and what stands behind it gives the
/// others. What is left without a line break is an entry too, as it is.
pub proof fn law_lines(a: Seq<char>, b: Seq<char>)
    requires
        !a.contains('\n'),
    ensures
        ({
            let first = if a.len() > 0 && a[a.len() - 1] == '\r' {
                a.drop_last()
            } else {
                a
            };
            editor::lines_from(a + seq!['\n'] + b, 0) == seq![first] + editor::lines_from(b, 0)
        }),
        a.len() > 0 ==> editor::lines_from(a, 0) == seq![a],
        editor::lines_from(Seq::empty(), 0).len() == 0,
{
    let s = a + seq!['\n'] + b;
    let n = a.len() as int;
    assert forall|k: int| 0 <= k < n implies #[trigger] s[k] != '\n' by {
        assert(a.contains(a[k]));
    }
    assert(s[n] == '\n');
    lemma_newline(s, 0, n);
    assert(s.skip(n + 1) =~= b);
    lemma_lines_behind(s, b, n + 1, 0);
    let first = if n > 0 && a[n - 1] == '\r' {
        assert(s.subrange(0, n - 1) =~= a.drop_last());
        a.drop_last()
    } else {
        assert(s.subrange(0, n) =~= a);
        a
    };
    assert(editor::lines_from(s, 0) =~= seq![first] + editor::lines_from(b, 0));
    if n > 0 {
        assert forall|k: int| 0 <= k < n implies #[trigger] a[k] != '\n' by {
            assert(a.contains(a[k]));
        }
        lemma_newline(a, 0, n);
        assert(a.subrange(0, n) =~= a);
        assert(editor::lines_from(a, 0) =~= seq![a]);
    }
}

proof fn lemma_newline(s: Seq<char>, i: int, e: int)
    requires
        0 <= i <= e <= s.len(),
        forall|k: int| i <= k < e ==> #[trigger] s[k] != '\n',
        e < s.len() ==> s[e] == '\n',
    ensures
        editor::newline_at(s, i) == e,
    decreases e - i,
{
    if i < e {
        assert(s[i] != '\n');
        lemma_newline(s, i + 1, e);
    }
}

/// The lines of a text do not depend on what stands before it.
proof fn lemma_lines_behind(s: Seq<char>, b: Seq<char>, at: int, i: int)
    requires
        0 <= at <= s.len(),
        s.skip(at) == b,
        0 <= i <= b.len(),
    ensures
        editor::lines_from(s, at + i) == editor::lines_from(b, i),
    decreases b.len() - i,
{
    assert(b.len() == s.len() - at);
    if i < b.len() {
        lemma_newline_behind(s, b, at, i);
        let e = editor::newline_at(b, i);
        assert(s.subrange(at + i, at + e) =~= b.subrange(i, e));
        if e > i {
            assert(s[at + e - 1] == b[e - 1]);
            assert(s.subrange(at + i, at + e - 1) =~= b.subrange(i, e - 1));
        }
        if e < b.len() {
            lemma_lines_behind(s, b, at, e + 1);
        }
    }
}

proof fn lemma_newline_behind(s: Seq<char>, b: Seq<char>, at: int, i: int)
    requires
        0 <= at <= s.len(),
        s.skip(at) == b,
        0 <= i <= b.len(),
    ensures
        editor::newline_at(s, at + i) == at + editor::newline_at(b, i),
        i <= editor::newline_at(b, i) <= b.len(),
    decreases b.len() - i,
{
    assert(b.len() == s.len() - at);
    if i < b.len() {
        assert(s[at + i] == b[i]);
        if b[i] != '\n' {
            lemma_newline_behind(s, b, at, i + 1);
        }
    }
}

/// The file of a history is its last thousand entries, each with a line break.
pub proof fn law_history_file(history: Seq<Seq<char>>, i: int)
    ensures
        history.len() > 0 ==> editor::file_text(history) == editor::listed(
            editor::kept(history),
            0,
        ),
        history.len() == 0 ==> editor::file_text(history) == seq!['\n'],
        0 <= i < history.len() ==> editor::listed(history, i) == history[i] + seq!['\n']
            + editor::listed(history, i + 1),
        editor::listed(history, history.len() as int).len() == 0,
{
}

} // verus!
