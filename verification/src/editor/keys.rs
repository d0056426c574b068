//! Keystrokes, decoded from the bytes that a terminal sends.
//!
//! A lone escape waits for the next byte. Pressing Escape and then Enter behaves
//! like Enter.

use vstd::prelude::*;

use crate::text;
use crate::text::{chars_of, text_of_bytes};

verus! {

/// How many parameter bytes of an escape sequence are read before it is given up.
pub const MAX_PARAMS: usize = 16;

/// One keystroke.
#[derive(Debug, Clone, Copy, PartialEq, Eq, Structural)]
pub enum Key {
    /// A character.
    Char(char),
    /// Enter.
    Enter,
    /// Delete the character before the cursor.
    Backspace,
    /// Delete the character at the cursor.
    Delete,
    /// One character left.
    Left,
    /// One character right.
    Right,
    /// One word left.
    WordLeft,
    /// One word right.
    WordRight,
    /// Start of the line.
    Home,
    /// End of the line.
    End,
    /// Older history entry.
    Up,
    /// Newer history entry.
    Down,
    /// Ctrl-C.
    Interrupt,
    /// Ctrl-D.
    Eof,
    /// Ctrl-K.
    KillToEnd,
    /// Ctrl-U.
    KillToStart,
    /// Ctrl-W.
    DeleteWord,
    /// Ctrl-L.
    ClearScreen,
    /// Known and ignored.
    Ignored,
}

/// What decoding the bytes at hand gives.
#[derive(Debug, Clone, Copy, PartialEq, Eq, Structural)]
pub enum Decoded {
    /// A keystroke.
    Key(Key),
    /// The bytes so far are the beginning of a keystroke.
    More,
    /// The input has ended.
    End,
}

/// A decoded keystroke and the number of bytes that it took; or more bytes are
/// needed; or there are none left.
pub enum Step {
    /// A keystroke and its bytes.
    Key(Key, int),
    /// More bytes are needed.
    More,
    /// There are none left.
    End,
}

/// What running out of bytes after `n` means: the keystroke is ignored at the end
/// of input, and waits for more otherwise.
pub open spec fn cut_off(ended: bool, n: int) -> Step {
    if ended {
        Step::Key(Key::Ignored, n)
    } else {
        Step::More
    }
}

/// The key of a control byte or a printable ASCII byte.
pub open spec fn plain_key(b: u8) -> Key {
    if b == 0x01 {
        Key::Home
    } else if b == 0x02 {
        Key::Left
    } else if b == 0x03 {
        Key::Interrupt
    } else if b == 0x04 {
        Key::Eof
    } else if b == 0x05 {
        Key::End
    } else if b == 0x06 {
        Key::Right
    } else if b == 0x08 || b == 0x7f {
        Key::Backspace
    } else if b == 0x0a || b == 0x0d {
        Key::Enter
    } else if b == 0x0b {
        Key::KillToEnd
    } else if b == 0x0c {
        Key::ClearScreen
    } else if b == 0x0e {
        Key::Down
    } else if b == 0x10 {
        Key::Up
    } else if b == 0x15 {
        Key::KillToStart
    } else if b == 0x17 {
        Key::DeleteWord
    } else if b < 0x20 {
        Key::Ignored
    } else {
        Key::Char(b as char)
    }
}

/// The key of an escape sequence with the given parameter bytes and final byte.
pub open spec fn escape_key(params: Seq<u8>, last: u8) -> Key {
    let ctrl = params.len() >= 2 && params[params.len() - 2] == 0x3b && params.last() == 0x35;
    if last == 0x43 {
        if ctrl {
            Key::WordRight
        } else {
            Key::Right
        }
    } else if last == 0x44 {
        if ctrl {
            Key::WordLeft
        } else {
            Key::Left
        }
    } else if last == 0x41 {
        Key::Up
    } else if last == 0x42 {
        Key::Down
    } else if last == 0x48 {
        Key::Home
    } else if last == 0x46 {
        Key::End
    } else if last == 0x7e && params.len() == 1 {
        if params[0] == 0x31 || params[0] == 0x37 {
            Key::Home
        } else if params[0] == 0x33 {
            Key::Delete
        } else if params[0] == 0x34 || params[0] == 0x38 {
            Key::End
        } else {
            Key::Ignored
        }
    } else {
        Key::Ignored
    }
}

/// Reads an escape sequence whose parameter bytes go from index 2 to before `i`.
pub open spec fn params_from(bytes: Seq<u8>, ended: bool, i: int) -> Step
    decreases bytes.len() - i,
{
    if i < 2 || i >= bytes.len() {
        cut_off(ended, bytes.len() as int)
    } else if 0x40 <= bytes[i] <= 0x7e {
        Step::Key(escape_key(bytes.subrange(2, i), bytes[i]), i + 1)
    } else if i + 1 - 2 > MAX_PARAMS {
        Step::Key(Key::Ignored, i + 1)
    } else {
        params_from(bytes, ended, i + 1)
    }
}

/// Reads what starts with an escape: the escape alone before Enter goes unnoticed,
/// and any other key but the start of a sequence is ignored with it.
pub open spec fn escape_step(bytes: Seq<u8>, ended: bool) -> Step {
    if bytes.len() < 2 {
        cut_off(ended, bytes.len() as int)
    } else if bytes[1] == 0x0a || bytes[1] == 0x0d {
        Step::Key(Key::Enter, 2)
    } else if bytes[1] != 0x5b && bytes[1] != 0x4f {
        Step::Key(Key::Ignored, 2)
    } else {
        params_from(bytes, ended, 2)
    }
}

/// How many bytes follow the given first byte of a character.
pub open spec fn followers(first: u8) -> int {
    if 0xc2 <= first <= 0xdf {
        1
    } else if 0xe0 <= first <= 0xef {
        2
    } else if 0xf0 <= first <= 0xf4 {
        3
    } else {
        0
    }
}

/// Reads a character of several bytes, from its byte `i` on. A byte that does not
/// belong to it is left for the next keystroke.
pub open spec fn utf8_from(bytes: Seq<u8>, ended: bool, i: int) -> Step
    decreases followers(bytes[0]) + 1 - i,
{
    let n = followers(bytes[0]);
    if i < 1 || i > n {
        let all = bytes.take(n + 1);
        if vstd::utf8::valid_utf8(all) {
            Step::Key(Key::Char(vstd::utf8::decode_utf8(all)[0]), n + 1)
        } else {
            Step::Key(Key::Ignored, n + 1)
        }
    } else if i >= bytes.len() {
        cut_off(ended, bytes.len() as int)
    } else if 0x80 <= bytes[i] < 0xc0 {
        utf8_from(bytes, ended, i + 1)
    } else {
        Step::Key(Key::Ignored, i)
    }
}

/// The next keystroke of a run of bytes.
pub open spec fn next_key(bytes: Seq<u8>, ended: bool) -> Step {
    if bytes.len() == 0 {
        if ended {
            Step::End
        } else {
            Step::More
        }
    } else if bytes[0] == 0x1b {
        escape_step(bytes, ended)
    } else if bytes[0] < 0x80 {
        Step::Key(plain_key(bytes[0]), 1)
    } else if followers(bytes[0]) == 0 {
        Step::Key(Key::Ignored, 1)
    } else {
        utf8_from(bytes, ended, 1)
    }
}

/// The bytes read and not yet consumed, from which keystrokes are decoded.
///
/// Lives as long as the session: a paste can hold several lines at once.
pub struct Keys {
    bytes: Vec<u8>,
    pos: usize,
    ended: bool,
}

/// What [`Keys`] holds.
pub struct KeysView {
    /// The bytes not yet consumed.
    pub rest: Seq<u8>,
    /// No more bytes will come.
    pub ended: bool,
}

impl View for Keys {
    type V = KeysView;

    closed spec fn view(&self) -> KeysView {
        KeysView { rest: self.bytes@.skip(self.pos as int), ended: self.ended }
    }
}

/// One byte, or why there is none.
#[derive(Clone, Copy)]
enum Next {
    Byte(u8),
    More,
    End,
}

impl Keys {
    /// The position is within the bytes.
    pub closed spec fn wf(&self) -> bool {
        self.pos <= self.bytes@.len()
    }

    /// No bytes yet.
    pub fn new() -> (k: Keys)
        ensures
            k.wf(),
            k@ == (KeysView { rest: Seq::empty(), ended: false }),
    {
        let k = Keys { bytes: Vec::new(), pos: 0, ended: false };
        proof {
            assert(k@.rest =~= Seq::<u8>::empty());
        }
        k
    }

    /// Adds bytes that were read.
    pub fn feed(&mut self, bytes: &[u8])
        requires
            old(self).wf(),
        ensures
            final(self).wf(),
            final(self)@ == (KeysView { rest: old(self)@.rest + bytes@, ..old(self)@ }),
    {
        let mut all: Vec<u8> = Vec::new();
        let ghost rest = self@.rest;
        let mut i: usize = self.pos;
        while i < self.bytes.len()
            invariant
                self.pos <= i <= self.bytes@.len(),
                all@ == self.bytes@.subrange(self.pos as int, i as int),
            decreases self.bytes@.len() - i,
        {
            all.push(self.bytes[i]);
            proof {
                assert(self.bytes@.subrange(self.pos as int, i + 1) =~= self.bytes@.subrange(
                    self.pos as int,
                    i as int,
                ).push(self.bytes@[i as int]));
            }
            i += 1;
        }
        proof {
            assert(all@ =~= rest);
        }
        crate::codec::put_bytes(&mut all, bytes);
        self.bytes = all;
        self.pos = 0;
        proof {
            assert(self@.rest =~= rest + bytes@);
        }
    }

    /// Notes that no more bytes will come.
    pub fn finish(&mut self)
        requires
            old(self).wf(),
        ensures
            final(self).wf(),
            final(self)@ == (KeysView { ended: true, ..old(self)@ }),
    {
        self.ended = true;
    }

    /// The next byte.
    fn byte(&mut self) -> (r: Next)
        requires
            old(self).wf(),
        ensures
            final(self).wf(),
            final(self).bytes == old(self).bytes,
            final(self).ended == old(self).ended,
            match r {
                Next::Byte(b) => {
                    &&& old(self).pos < old(self).bytes@.len()
                    &&& b == old(self).bytes@[old(self).pos as int]
                    &&& final(self).pos == old(self).pos + 1
                },
                Next::More => {
                    &&& old(self).pos == old(self).bytes@.len()
                    &&& !old(self).ended
                    &&& final(self).pos == old(self).pos
                },
                Next::End => {
                    &&& old(self).pos == old(self).bytes@.len()
                    &&& old(self).ended
                    &&& final(self).pos == old(self).pos
                },
            },
    {
        if self.pos < self.bytes.len() {
            let b: u8 = self.bytes[self.pos];
            self.pos += 1;
            Next::Byte(b)
        } else if self.ended {
            Next::End
        } else {
            Next::More
        }
    }

    /// Gives the last byte back.
    fn unread(&mut self)
        requires
            old(self).wf(),
            old(self).pos > 0,
        ensures
            final(self).wf(),
            final(self).bytes == old(self).bytes,
            final(self).ended == old(self).ended,
            final(self).pos == old(self).pos - 1,
    {
        self.pos -= 1;
    }

    /// Decodes the next keystroke. Bytes are consumed only with a keystroke that
    /// they complete.
    pub fn key(&mut self) -> (r: Decoded)
        requires
            old(self).wf(),
        ensures
            final(self).wf(),
            final(self)@.ended == old(self)@.ended,
            match next_key(old(self)@.rest, old(self)@.ended) {
                Step::Key(k, n) => {
                    &&& r == Decoded::Key(k)
                    &&& 0 < n <= old(self)@.rest.len()
                    &&& final(self)@.rest == old(self)@.rest.skip(n)
                },
                Step::More => r == Decoded::More && final(self)@.rest == old(self)@.rest,
                Step::End => r == Decoded::End && final(self)@.rest == old(self)@.rest,
            },
    {
        let start: usize = self.pos;
        let ghost rest = self@.rest;
        let b: u8 = match self.byte() {
            Next::Byte(b) => b,
            Next::More => {
                return Decoded::More;
            },
            Next::End => {
                return Decoded::End;
            },
        };
        assert(b == rest[0]);
        let r: Option<Key> = if b == 0x1b {
            self.escape(start)
        } else if b < 0x80 {
            Some(plain(b))
        } else {
            self.utf8(start, b)
        };
        match r {
            Some(k) => {
                proof {
                    assert(self@.rest =~= rest.skip(self.pos - start));
                }
                Decoded::Key(k)
            },
            None => {
                self.pos = start;
                proof {
                    law_keys_consume_bytes(rest, self.ended);
                }
                Decoded::More
            },
        }
    }

    /// Finishes a character of several bytes that starts at `start` with
    /// `first`; nothing if more bytes are needed.
    fn utf8(&mut self, start: usize, first: u8) -> (r: Option<Key>)
        requires
            old(self).wf(),
            old(self).pos == start + 1,
            first == old(self).bytes@[start as int],
            first >= 0x80,
        ensures
            final(self).wf(),
            final(self).bytes == old(self).bytes,
            final(self).ended == old(self).ended,
            final(self).pos > start,
            ({
                let rest = old(self).bytes@.skip(start as int);
                match next_key(rest, old(self).ended) {
                    Step::Key(k, n) => r == Some(k) && final(self).pos == start + n,
                    _ => r is None,
                }
            }),
    {
        let ghost rest = self.bytes@.skip(start as int);
        assert(rest[0] == first);
        let extra: usize = if 0xc2 <= first && first <= 0xdf {
            1
        } else if 0xe0 <= first && first <= 0xef {
            2
        } else if 0xf0 <= first && first <= 0xf4 {
            3
        } else {
            return Some(Key::Ignored);
        };
        let mut all: Vec<u8> = Vec::new();
        all.push(first);
        let mut i: usize = 1;
        proof {
            assert(all@ =~= rest.take(1));
        }
        while i <= extra
            invariant
                self.wf(),
                self.bytes == old(self).bytes,
                self.ended == old(self).ended,
                start < self.bytes@.len(),
                rest == self.bytes@.skip(start as int),
                rest[0] == first,
                first >= 0x80,
                extra == followers(first),
                1 <= extra <= 3,
                1 <= i <= extra + 1,
                self.pos == start + i,
                all@ == rest.take(i as int),
                next_key(rest, self.ended) == utf8_from(rest, self.ended, i as int),
            decreases extra + 1 - i,
        {
            match self.byte() {
                Next::Byte(b) => {
                    assert(b == rest[i as int]);
                    if 0x80 <= b && b < 0xc0 {
                        all.push(b);
                        proof {
                            assert(rest.take(i + 1) =~= rest.take(i as int).push(b));
                        }
                    } else {
                        self.unread();
                        return Some(Key::Ignored);
                    }
                },
                Next::More => {
                    return None;
                },
                Next::End => {
                    return Some(Key::Ignored);
                },
            }
            i += 1;
        }
        match text_of_bytes(all) {
            Ok(s) => {
                let chars: Vec<char> = chars_of(s.as_str());
                Some(Key::Char(chars[0]))
            },
            Err(_) => Some(Key::Ignored),
        }
    }

    /// Finishes what starts with an escape at `start`; nothing if more bytes are
    /// needed.
    fn escape(&mut self, start: usize) -> (r: Option<Key>)
        requires
            old(self).wf(),
            old(self).pos == start + 1,
            old(self).bytes@[start as int] == 0x1b,
        ensures
            final(self).wf(),
            final(self).bytes == old(self).bytes,
            final(self).ended == old(self).ended,
            final(self).pos > start,
            ({
                let rest = old(self).bytes@.skip(start as int);
                match next_key(rest, old(self).ended) {
                    Step::Key(k, n) => r == Some(k) && final(self).pos == start + n,
                    _ => r is None,
                }
            }),
    {
        let ghost rest = self.bytes@.skip(start as int);
        assert(rest[0] == 0x1b);
        let intro: u8 = match self.byte() {
            Next::Byte(b) => b,
            Next::More => {
                return None;
            },
            Next::End => {
                return Some(Key::Ignored);
            },
        };
        assert(intro == rest[1]);
        if intro == 0x0a || intro == 0x0d {
            return Some(Key::Enter);
        }
        if intro != 0x5b && intro != 0x4f {
            return Some(Key::Ignored);
        }
        let mut params: Vec<u8> = Vec::new();
        proof {
            assert(params@ =~= rest.subrange(2, 2));
        }
        loop
            invariant
                self.wf(),
                self.bytes == old(self).bytes,
                self.ended == old(self).ended,
                rest == self.bytes@.skip(start as int),
                self.pos == start + 2 + params@.len(),
                start + 2 <= self.bytes@.len(),
                params@.len() <= MAX_PARAMS,
                params@ == rest.subrange(2, 2 + params@.len() as int),
                next_key(rest, self.ended) == params_from(
                    rest,
                    self.ended,
                    2 + params@.len() as int,
                ),
            decreases self.bytes@.len() - self.pos,
        {
            match self.byte() {
                Next::Byte(b) => {
                    let ghost i = 2 + params@.len() as int;
                    assert(b == rest[i]);
                    if 0x40 <= b && b <= 0x7e {
                        return Some(sequence(&params, b));
                    }
                    params.push(b);
                    proof {
                        assert(rest.subrange(2, i + 1) =~= rest.subrange(2, i).push(b));
                    }
                    if params.len() > MAX_PARAMS {
                        return Some(Key::Ignored);
                    }
                },
                Next::More => {
                    return None;
                },
                Next::End => {
                    return Some(Key::Ignored);
                },
            }
        }
    }
}

fn plain(b: u8) -> (k: Key)
    requires
        b < 0x80,
        b != 0x1b,
    ensures
        k == plain_key(b),
{
    if b == 0x01 {
        Key::Home
    } else if b == 0x02 {
        Key::Left
    } else if b == 0x03 {
        Key::Interrupt
    } else if b == 0x04 {
        Key::Eof
    } else if b == 0x05 {
        Key::End
    } else if b == 0x06 {
        Key::Right
    } else if b == 0x08 || b == 0x7f {
        Key::Backspace
    } else if b == 0x0a || b == 0x0d {
        Key::Enter
    } else if b == 0x0b {
        Key::KillToEnd
    } else if b == 0x0c {
        Key::ClearScreen
    } else if b == 0x0e {
        Key::Down
    } else if b == 0x10 {
        Key::Up
    } else if b == 0x15 {
        Key::KillToStart
    } else if b == 0x17 {
        Key::DeleteWord
    } else if b < 0x20 {
        Key::Ignored
    } else {
        Key::Char(b as char)
    }
}

fn sequence(params: &Vec<u8>, last: u8) -> (k: Key)
    ensures
        k == escape_key(params@, last),
{
    let n: usize = params.len();
    let ctrl: bool = n >= 2 && params[n - 2] == 0x3b && params[n - 1] == 0x35;
    if last == 0x43 {
        if ctrl {
            Key::WordRight
        } else {
            Key::Right
        }
    } else if last == 0x44 {
        if ctrl {
            Key::WordLeft
        } else {
            Key::Left
        }
    } else if last == 0x41 {
        Key::Up
    } else if last == 0x42 {
        Key::Down
    } else if last == 0x48 {
        Key::Home
    } else if last == 0x46 {
        Key::End
    } else if last == 0x7e && n == 1 {
        if params[0] == 0x31 || params[0] == 0x37 {
            Key::Home
        } else if params[0] == 0x33 {
            Key::Delete
        } else if params[0] == 0x34 || params[0] == 0x38 {
            Key::End
        } else {
            Key::Ignored
        }
    } else {
        Key::Ignored
    }
}

/// How the bytes are cut into reads does not matter: a keystroke that was decoded
/// stays the same whatever follows, and so do the bytes that it took.
pub proof fn law_decoding_ignores_chunking(bytes: Seq<u8>, more: Seq<u8>, ended: bool)
    ensures
        next_key(bytes, false) matches Step::Key(k, n) ==> next_key(bytes + more, ended)
            == Step::Key(k, n),
{
    let all = bytes + more;
    if bytes.len() > 0 {
        assert(all[0] == bytes[0]);
        if bytes[0] == 0x1b {
            if bytes.len() >= 2 {
                assert(all[1] == bytes[1]);
                lemma_params_chunk(bytes, more, ended, 2);
            }
        } else if bytes[0] >= 0x80 {
            lemma_utf8_chunk(bytes, more, ended, 1);
        }
    }
}

proof fn lemma_params_chunk(bytes: Seq<u8>, more: Seq<u8>, ended: bool, i: int)
    requires
        2 <= i <= bytes.len(),
    ensures
        params_from(bytes, false, i) matches Step::Key(k, n) ==> params_from(
            bytes + more,
            ended,
            i,
        ) == Step::Key(k, n),
    decreases bytes.len() - i,
{
    let all = bytes + more;
    if i < bytes.len() {
        assert(all[i] == bytes[i]);
        assert(all.subrange(2, i) =~= bytes.subrange(2, i));
        lemma_params_chunk(bytes, more, ended, i + 1);
    }
}

proof fn lemma_utf8_chunk(bytes: Seq<u8>, more: Seq<u8>, ended: bool, i: int)
    requires
        bytes.len() > 0,
        1 <= i <= followers(bytes[0]) + 1,
        i <= bytes.len(),
    ensures
        utf8_from(bytes, false, i) matches Step::Key(k, n) ==> utf8_from(bytes + more, ended, i)
            == Step::Key(k, n),
    decreases followers(bytes[0]) + 1 - i,
{
    let all = bytes + more;
    assert(all[0] == bytes[0]);
    let n = followers(bytes[0]);
    if i > n {
        assert(all.take(n + 1) =~= bytes.take(n + 1));
    } else if i < bytes.len() {
        assert(all[i] == bytes[i]);
        lemma_utf8_chunk(bytes, more, ended, i + 1);
    }
}

/// A character that a line can hold: no control character.
pub open spec fn typable(c: char) -> bool {
    c as u32 >= 0x20 && c as u32 != 0x7f
}

/// The bytes of a character are the keystroke that types it, whatever follows.
pub proof fn law_characters_type_themselves(c: char, more: Seq<u8>, ended: bool)
    requires
        typable(c),
    ensures
        next_key(vstd::utf8::encode_scalar(c as u32) + more, ended) == Step::Key(
            Key::Char(c),
            text::width_of(c) as int,
        ),
{
    let s = c as u32;
    let e = vstd::utf8::encode_scalar(s);
    let one = seq![c];
    vstd::utf8::char_is_scalar(c);
    assert(vstd::utf8::encode_utf8(one) =~= e) by {
        assert(one.drop_first() =~= Seq::<char>::empty());
        assert(vstd::utf8::encode_utf8(Seq::<char>::empty()) =~= Seq::<u8>::empty());
    }
    vstd::utf8::encode_utf8_valid_utf8(one);
    vstd::utf8::encode_utf8_decode_utf8(one);
    let bytes = e + more;
    assert(forall|i: int| 0 <= i < e.len() ==> bytes[i] == e[i]);
    if s < 0x80 {
        assert(s & 0x7f == s) by (bit_vector)
            requires
                s < 0x80,
        ;
        assert(bytes[0] == s);
    } else {
        if s < 0x800 {
            assert(0xc2u8 <= 0xc0u8 | (((s >> 6) & 0x1f) as u8) <= 0xdfu8) by (bit_vector)
                requires
                    0x80 <= s < 0x800,
            ;
        } else if s < 0x10000 {
            assert(0xe0u8 <= 0xe0u8 | (((s >> 12) & 0x0f) as u8) <= 0xefu8) by (bit_vector)
                requires
                    0x800 <= s < 0x10000,
            ;
        } else {
            assert(0xf0u8 <= 0xf0u8 | (((s >> 18) & 0x7) as u8) <= 0xf4u8) by (bit_vector)
                requires
                    0x10000 <= s <= 0x10ffff,
            ;
        }
        let n = followers(bytes[0]);
        assert(vstd::utf8::valid_first_scalar(e));
        assert(e.len() == n + 1);
        assert(bytes.take(n + 1) =~= e);
        lemma_utf8_whole(bytes, ended, 1);
    }
}

proof fn lemma_utf8_whole(bytes: Seq<u8>, ended: bool, i: int)
    requires
        1 <= i <= followers(bytes[0]) + 1 <= bytes.len(),
        forall|k: int| 1 <= k <= followers(bytes[0]) ==> 0x80 <= #[trigger] bytes[k] < 0xc0,
        vstd::utf8::valid_utf8(bytes.take(followers(bytes[0]) + 1)),
    ensures
        utf8_from(bytes, ended, i) == Step::Key(
            Key::Char(vstd::utf8::decode_utf8(bytes.take(followers(bytes[0]) + 1))[0]),
            followers(bytes[0]) + 1,
        ),
    decreases followers(bytes[0]) + 1 - i,
{
    if i <= followers(bytes[0]) {
        lemma_utf8_whole(bytes, ended, i + 1);
    }
}

/// Every keystroke takes at least one byte and no more than there are, so
/// decoding comes to an end.
pub proof fn law_keys_consume_bytes(bytes: Seq<u8>, ended: bool)
    ensures
        next_key(bytes, ended) matches Step::Key(_, n) ==> 0 < n <= bytes.len(),
        next_key(bytes, true) !is More,
        next_key(bytes, ended) is End ==> bytes.len() == 0,
{
    if bytes.len() > 0 {
        if bytes[0] == 0x1b {
            if bytes.len() >= 2 {
                lemma_params_len(bytes, ended, 2);
                lemma_params_len(bytes, true, 2);
            }
        } else if followers(bytes[0]) > 0 {
            lemma_utf8_len(bytes, ended, 1);
            lemma_utf8_len(bytes, true, 1);
        }
    }
}

proof fn lemma_params_len(bytes: Seq<u8>, ended: bool, i: int)
    requires
        2 <= i <= bytes.len(),
    ensures
        params_from(bytes, ended, i) matches Step::Key(_, n) ==> 0 < n <= bytes.len(),
        params_from(bytes, true, i) !is More,
        params_from(bytes, ended, i) !is End,
    decreases bytes.len() - i,
{
    if i < bytes.len() {
        lemma_params_len(bytes, ended, i + 1);
    }
}

proof fn lemma_utf8_len(bytes: Seq<u8>, ended: bool, i: int)
    requires
        bytes.len() > 0,
        1 <= i <= followers(bytes[0]) + 1,
        i <= bytes.len(),
    ensures
        utf8_from(bytes, ended, i) matches Step::Key(_, n) ==> 0 < n <= bytes.len(),
        utf8_from(bytes, true, i) !is More,
        utf8_from(bytes, ended, i) !is End,
    decreases followers(bytes[0]) + 1 - i,
{
    if i <= followers(bytes[0]) && i < bytes.len() {
        lemma_utf8_len(bytes, ended, i + 1);
    }
}

} // verus!
