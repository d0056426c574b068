//! Key decoding, line editing and history.

use flats::editor::keys::{Decoded, Key, Keys};
use flats::editor::line::Line;
use flats::editor::{lines_of, Editor, Input};

/// Drives `read_line` over a fixed byte script, returning what it decided and what
/// it painted.
fn read(editor: &mut Editor, input: &[u8]) -> (Input, String) {
    let mut keys = Keys::new();
    keys.feed(input);
    keys.finish();
    let mut out = String::new();
    let mut session = editor.begin("> ", &mut out);
    let result = editor
        .read_line("> ", &mut keys, &mut session, &mut out)
        .expect("the input has ended");
    (result, out)
}

fn editor() -> Editor {
    Editor::new(None)
}

fn line_of(text: &str, cursor: usize) -> Line {
    Line::with_cursor(text, cursor).expect("a character boundary")
}

// -- key decoding --------------------------------------------------------

fn keys_of(bytes: &[u8]) -> Vec<Key> {
    let mut keys = Keys::new();
    keys.feed(bytes);
    keys.finish();
    let mut out = Vec::new();
    loop {
        match keys.key() {
            Decoded::Key(k) => out.push(k),
            Decoded::More => panic!("the input has ended"),
            Decoded::End => return out,
        }
    }
}

#[test]
fn arrow_keys_decode_as_movement_not_text() {
    // The bug this module exists to fix: in canonical mode these three
    // bytes end up IN the statement as `^[[A`.
    assert_eq!(
        keys_of(b"\x1b[A\x1b[B\x1b[C\x1b[D"),
        [Key::Up, Key::Down, Key::Right, Key::Left]
    );
}

#[test]
fn home_end_and_delete_decode_in_both_forms() {
    // Terminals disagree about these: xterm sends `ESC [ H`, others send
    // `ESC [ 1 ~`. Both have to work or the keys break on half of them.
    assert_eq!(keys_of(b"\x1b[H\x1b[F"), [Key::Home, Key::End]);
    assert_eq!(keys_of(b"\x1b[1~\x1b[4~"), [Key::Home, Key::End]);
    assert_eq!(keys_of(b"\x1b[3~"), [Key::Delete]);
    // SS3 form, sent when the terminal is in application cursor mode.
    assert_eq!(keys_of(b"\x1bOA"), [Key::Up]);
}

#[test]
fn ctrl_arrows_decode_as_word_movement() {
    assert_eq!(keys_of(b"\x1b[1;5C\x1b[1;5D"), [Key::WordRight, Key::WordLeft]);
}

#[test]
fn control_bytes_map_to_editing_commands() {
    assert_eq!(
        keys_of(b"\x01\x05\x03\x04\x0b\x15\x17\x0c"),
        [
            Key::Home,
            Key::End,
            Key::Interrupt,
            Key::Eof,
            Key::KillToEnd,
            Key::KillToStart,
            Key::DeleteWord,
            Key::ClearScreen,
        ]
    );
    // Both backspace encodings — terminals send 0x7f, Ctrl-H sends 0x08.
    assert_eq!(keys_of(b"\x7f\x08"), [Key::Backspace, Key::Backspace]);
    // CR, because ICRNL is off in raw mode, and NL for piped input.
    assert_eq!(keys_of(b"\r\n"), [Key::Enter, Key::Enter]);
}

#[test]
fn an_unmapped_escape_sequence_is_swallowed_whole() {
    // The point is that its BYTES do not reach the line: an unrecognized
    // F5 must not type `[15~` into a query.
    assert_eq!(keys_of(b"\x1b[15~"), [Key::Ignored]);
    assert_eq!(keys_of(b"\x1b[15~a"), [Key::Ignored, Key::Char('a')]);
}

#[test]
fn multi_byte_characters_decode_as_one_key() {
    assert_eq!(keys_of("é".as_bytes()), [Key::Char('é')]);
    assert_eq!(keys_of("日本".as_bytes()), [Key::Char('日'), Key::Char('本')]);
    assert_eq!(keys_of("aé漢".as_bytes()), [
        Key::Char('a'),
        Key::Char('é'),
        Key::Char('漢')
    ]);
}

#[test]
fn invalid_utf8_is_ignored_without_eating_the_next_key() {
    // A truncated sequence followed by a real key: the key must survive,
    // which is what `unread` is for.
    assert_eq!(keys_of(b"\xc3a"), [Key::Ignored, Key::Char('a')]);
    assert_eq!(keys_of(b"\xff"), [Key::Ignored]);
}

// -- editing operations --------------------------------------------------

#[test]
fn insertion_happens_at_the_cursor() {
    let mut line = line_of("ac", 1);
    line.insert('b');
    assert_eq!(line.text(), "abc");
    assert_eq!(line.cursor(), 2, "cursor follows the inserted character");
}

#[test]
fn movement_and_deletion_respect_char_boundaries() {
    // `é` is two bytes. Stepping by one byte would split it and panic on
    // the next slice.
    let mut line = line_of("aéb", 4);
    line.left();
    assert_eq!(line.cursor(), 3);
    line.left();
    assert_eq!(line.cursor(), 1, "one keypress crosses the whole character");
    line.right();
    assert_eq!(line.cursor(), 3);

    let mut line = line_of("aéb", 3);
    line.backspace();
    assert_eq!(line.text(), "ab");
    assert_eq!(line.cursor(), 1);
}

#[test]
fn kill_commands_cut_on_the_right_side_of_the_cursor() {
    let mut line = line_of("SELECT * FROM t", 9);
    line.kill_to_end();
    assert_eq!(line.text(), "SELECT * ");

    let mut line = line_of("SELECT * FROM t", 9);
    line.kill_to_start();
    assert_eq!(line.text(), "FROM t");
    assert_eq!(line.cursor(), 0);
}

#[test]
fn delete_word_removes_the_word_before_the_cursor() {
    let mut line = line_of("SELECT * FROM docs", 18);
    line.delete_word();
    assert_eq!(line.text(), "SELECT * FROM ");
    // Trailing whitespace is skipped before the word is found, so a
    // cursor sitting after a space still eats the word, not just the gap.
    let mut line = line_of("SELECT * FROM docs  ", 20);
    line.delete_word();
    assert_eq!(line.text(), "SELECT * FROM ");
}

#[test]
fn word_movement_stops_at_word_edges() {
    let line = line_of("SELECT * FROM docs", 18);
    assert_eq!(line.word_start(), 14);
    let line = line_of("SELECT * FROM docs", 0);
    assert_eq!(line.word_end(), 6);
}

#[test]
fn word_edges_are_byte_offsets() {
    // `é` takes two bytes.
    assert_eq!(line_of("é x", 4).word_start(), 3);
    assert_eq!(line_of("é x", 3).word_start(), 0);
    assert_eq!(line_of("é x", 0).word_end(), 2);
    assert_eq!(line_of("é x", 2).word_end(), 4);
}

#[test]
fn escape_and_then_enter_is_enter() {
    assert_eq!(keys_of(b"\x1b\r\x1b\n"), [Key::Enter, Key::Enter]);
    let (input, _) = read(&mut editor(), b"ab\x1b\r");
    assert_eq!(input, Input::Line("ab".to_string()));
    // Any other key is ignored together with the escape.
    let (input, _) = read(&mut editor(), b"a\x1bxb\r");
    assert_eq!(input, Input::Line("ab".to_string()));
}

#[test]
fn lines_typed_ahead_are_read_one_after_the_other() {
    let mut ed = editor();
    let mut keys = Keys::new();
    keys.feed("SELECT 'é€😀';\rsecond\rthi".as_bytes());
    let mut out = String::new();

    let mut session = ed.begin("> ", &mut out);
    let first = ed.read_line("> ", &mut keys, &mut session, &mut out);
    assert_eq!(first, Some(Input::Line("SELECT 'é€😀';".to_string())));

    let mut session = ed.begin("> ", &mut out);
    let second = ed.read_line("> ", &mut keys, &mut session, &mut out);
    assert_eq!(second, Some(Input::Line("second".to_string())));

    let mut session = ed.begin("> ", &mut out);
    assert_eq!(ed.read_line("> ", &mut keys, &mut session, &mut out), None);
    keys.feed(b"rd\r");
    let third = ed.read_line("> ", &mut keys, &mut session, &mut out);
    assert_eq!(third, Some(Input::Line("third".to_string())));
    assert_eq!(ed.history(), &["SELECT 'é€😀';", "second", "third"]);
}

#[test]
fn the_column_is_counted_in_characters_not_bytes() {
    // Cursor placement uses this; counting bytes would put the cursor two
    // columns off for every accented character typed.
    assert_eq!(line_of("aé", 3).column(), 2);
}

// -- reading a line ------------------------------------------------------

#[test]
fn a_typed_line_comes_back_without_its_terminator() {
    let (input, _) = read(&mut editor(), b"SELECT 1;\r");
    assert_eq!(input, Input::Line("SELECT 1;".to_string()));
}

#[test]
fn editing_keys_change_the_line_that_is_returned() {
    // Mistype `SELEK`, backspace over the `K`, finish the word — the
    // returned text is the EDITED text, which is the whole point.
    let (input, _) = read(&mut editor(), b"SELEK\x7fCT\r");
    assert_eq!(input, Input::Line("SELECT".to_string()));

    // Left-arrow then insert.
    let (input, _) = read(&mut editor(), b"ac\x1b[Db\r");
    assert_eq!(input, Input::Line("abc".to_string()));

    // Home, then insert at the front.
    let (input, _) = read(&mut editor(), b"b\x01a\r");
    assert_eq!(input, Input::Line("ab".to_string()));
}

#[test]
fn ctrl_c_abandons_the_line_and_ctrl_d_ends_the_session() {
    let (input, painted) = read(&mut editor(), b"SELECT\x03");
    assert_eq!(input, Input::Interrupted, "the line is abandoned");
    assert!(painted.contains("^C"), "and the cancel is visible");

    // Ctrl-D on an EMPTY line is EOF ...
    assert_eq!(read(&mut editor(), b"\x04").0, Input::Eof);
    // ... but mid-line it deletes forward instead.
    let (input, _) = read(&mut editor(), b"ab\x01\x04\r");
    assert_eq!(input, Input::Line("b".to_string()));
}

#[test]
fn an_unterminated_line_at_end_of_input_is_not_submitted() {
    // Nothing confirmed it. Submitting half a statement because the pipe
    // closed would run something the user never pressed Enter on.
    assert_eq!(read(&mut editor(), b"SELECT 1").0, Input::Eof);
}

// -- history -------------------------------------------------------------

#[test]
fn up_recalls_the_previous_line_and_down_returns() {
    let mut editor = editor();
    read(&mut editor, b"first;\r");
    read(&mut editor, b"second;\r");

    // One Up lands on the most recent entry.
    assert_eq!(
        read(&mut editor, b"\x1b[A\r").0,
        Input::Line("second;".to_string())
    );
    // Two Ups reach the older one.
    assert_eq!(
        read(&mut editor, b"\x1b[A\x1b[A\r").0,
        Input::Line("first;".to_string())
    );
    // Up then Down comes back to where it started.
    assert_eq!(
        read(&mut editor, b"\x1b[A\x1b[B\r").0,
        Input::Line(String::new())
    );
}

#[test]
fn a_recalled_line_can_be_edited_before_running() {
    let mut editor = editor();
    read(&mut editor, b"SELECT 1;\r");
    // Recall, then backspace over `;` and append.
    let (input, _) = read(&mut editor, b"\x1b[A\x7f, 2;\r");
    assert_eq!(input, Input::Line("SELECT 1, 2;".to_string()));
}

#[test]
fn history_navigation_preserves_the_line_being_typed() {
    let mut editor = editor();
    read(&mut editor, b"old;\r");
    // Type something, look at history, come back: the draft is still there.
    let (input, _) = read(&mut editor, b"draft\x1b[A\x1b[B\r");
    assert_eq!(input, Input::Line("draft".to_string()));
}

#[test]
fn blank_lines_and_repeats_are_not_recorded() {
    let mut editor = editor();
    read(&mut editor, b"\r");
    read(&mut editor, b"   \r");
    assert!(editor.history().is_empty(), "blank lines stay out of history");

    read(&mut editor, b"SELECT 1;\r");
    read(&mut editor, b"SELECT 1;\r");
    assert_eq!(editor.history(), &["SELECT 1;"], "a repeat is not re-recorded");
}

#[test]
fn down_at_the_bottom_of_history_does_nothing() {
    // Regression guard for the index arithmetic: pressing Down without
    // having pressed Up must not underflow or resurrect an entry.
    let mut editor = editor();
    read(&mut editor, b"first;\r");
    let (input, _) = read(&mut editor, b"\x1b[B\x1b[Bnew\r");
    assert_eq!(input, Input::Line("new".to_string()));
}

#[test]
fn up_at_the_top_of_history_stays_put() {
    let mut editor = editor();
    read(&mut editor, b"only;\r");
    // Five Ups with one entry: still that entry, no panic.
    let (input, _) = read(&mut editor, b"\x1b[A\x1b[A\x1b[A\x1b[A\x1b[A\r");
    assert_eq!(input, Input::Line("only;".to_string()));
}

#[test]
fn up_with_empty_history_leaves_the_line_alone() {
    let (input, _) = read(&mut editor(), b"ab\x1b[A\r");
    assert_eq!(input, Input::Line("ab".to_string()));
}

// -- beyond the scripts above ---------------------------------------------------

#[test]
fn keys_may_arrive_in_pieces() {
    // A sequence that is cut between two reads waits for the rest of it.
    let mut keys = Keys::new();
    keys.feed(b"\x1b[");
    assert_eq!(keys.key(), Decoded::More);
    keys.feed(b"A");
    assert_eq!(keys.key(), Decoded::Key(Key::Up));
    assert_eq!(keys.key(), Decoded::More);
    keys.feed("é".as_bytes().split_at(1).0);
    assert_eq!(keys.key(), Decoded::More);
    keys.feed("é".as_bytes().split_at(1).1);
    assert_eq!(keys.key(), Decoded::Key(Key::Char('é')));
    keys.finish();
    assert_eq!(keys.key(), Decoded::End);
}

#[test]
fn a_line_may_be_read_in_pieces() {
    let mut editor = editor();
    let mut keys = Keys::new();
    let mut out = String::new();
    let mut session = editor.begin("> ", &mut out);
    keys.feed(b"SEL");
    assert_eq!(
        editor.read_line("> ", &mut keys, &mut session, &mut out),
        None
    );
    keys.feed(b"ECT\r");
    assert_eq!(
        editor.read_line("> ", &mut keys, &mut session, &mut out),
        Some(Input::Line("SELECT".to_string()))
    );
}

#[test]
fn the_line_is_painted_with_the_cursor_in_its_column() {
    let (_, painted) = read(&mut editor(), b"a\r");
    assert_eq!(painted, "\r> \x1b[K\r\x1b[2C\r> a\x1b[K\r\x1b[3C\n");
}

#[test]
fn history_survives_saving() {
    let mut first = editor();
    read(&mut first, b"one;\r");
    read(&mut first, b"two;\r");
    let file = first.save();
    assert_eq!(file, "one;\ntwo;\n");
    let second = Editor::new(Some(&file));
    assert_eq!(second.history(), first.history());
}

#[test]
fn only_the_newest_entries_are_saved() {
    let mut editor = editor();
    for i in 0..1005 {
        editor.remember(&format!("{i};"));
    }
    let saved = Editor::new(Some(&editor.save()));
    assert_eq!(saved.history().len(), 1000);
    assert_eq!(saved.history()[0], "5;");
    assert_eq!(saved.history()[999], "1004;");
}

#[test]
fn a_history_file_is_read_line_by_line() {
    assert_eq!(lines_of("a\r\n\nb"), ["a", "", "b"]);
    assert_eq!(lines_of(""), Vec::<String>::new());
}

#[test]
fn a_cursor_inside_a_character_is_refused() {
    assert!(Line::with_cursor("é", 1).is_none());
    assert!(Line::with_cursor("é", 3).is_none());
    assert_eq!(Line::with_cursor("é", 2).unwrap().cursor(), 2);
}

#[test]
fn backspace_undoes_an_insertion() {
    let mut line = line_of("ab", 1);
    line.insert('é');
    line.backspace();
    assert_eq!((line.text(), line.cursor()), ("ab".to_string(), 1));
    line.backspace();
    line.backspace();
    assert_eq!((line.text(), line.cursor()), ("b".to_string(), 0));
    line.delete();
    line.delete();
    assert_eq!((line.text(), line.cursor()), (String::new(), 0));
}

#[test]
fn home_end_and_words_move_the_cursor() {
    let mut line = line_of("one two", 7);
    line.word_left();
    assert_eq!(line.cursor(), 4);
    line.home();
    assert_eq!(line.cursor(), 0);
    line.word_right();
    assert_eq!(line.cursor(), 3);
    line.end();
    assert_eq!(line.cursor(), 7);
    line.set("x");
    assert_eq!(line.cursor(), 1);
}
