//! Splitting typed input into statements.
//!
//! A `;` ends a statement unless it stands in a string or in a comment. Those are
//! the only two constructs that the splitter knows, and the only two in which the
//! lexer reads a `;` as anything else than a token.

use vstd::prelude::*;
use vstd::string::*;

use crate::lexer;
use crate::lexer::TokenView;
use crate::text;
use crate::text::{chars_of, is_white, skip_white, text_of};

verus! {

/// What a place in the input stands in.
#[derive(Debug, Clone, Copy, PartialEq, Eq, Structural)]
pub enum Mode {
    /// Statement text.
    Plain,
    /// A `'..'` string. A doubled quote in it ends the string and starts it again at
    /// once, which comes to the same.
    Quoted,
    /// A `--` comment, up to the end of the line.
    Comment,
}

/// What the place in front of index `i` stands in.
pub open spec fn mode_at(s: Seq<char>, i: int) -> Mode
    decreases i,
{
    if i <= 0 {
        Mode::Plain
    } else {
        let c = s[i - 1];
        match mode_at(s, i - 1) {
            Mode::Comment => if c == '\n' {
                Mode::Plain
            } else {
                Mode::Comment
            },
            Mode::Quoted => if c == '\'' {
                Mode::Plain
            } else {
                Mode::Quoted
            },
            Mode::Plain => if c == '\'' {
                Mode::Quoted
            } else if c == '-' && i < s.len() && s[i] == '-' {
                Mode::Comment
            } else {
                Mode::Plain
            },
        }
    }
}

/// Whether the character at `i` ends a statement.
pub open spec fn ends(s: Seq<char>, i: int) -> bool {
    0 <= i < s.len() && s[i] == ';' && mode_at(s, i) is Plain
}

/// The index behind the last end of a statement before `n`, or 0.
pub open spec fn cut(s: Seq<char>, n: int) -> int
    decreases n,
{
    if n <= 0 {
        0
    } else if ends(s, n - 1) {
        n
    } else {
        cut(s, n - 1)
    }
}

/// Every piece that ends before `n`, with its end.
pub open spec fn pieces(s: Seq<char>, n: int) -> Seq<Seq<char>>
    decreases n,
{
    if n <= 0 {
        Seq::empty()
    } else if ends(s, n - 1) {
        pieces(s, n - 1).push(s.subrange(cut(s, n - 1), n))
    } else {
        pieces(s, n - 1)
    }
}

/// The index behind the end of the line that `i` is in, or the length.
pub open spec fn line_end(s: Seq<char>, i: int) -> int
    decreases s.len() - i,
{
    if i < 0 || i >= s.len() {
        s.len() as int
    } else if s[i] == '\n' {
        i + 1
    } else {
        line_end(s, i + 1)
    }
}

proof fn lemma_line_end(s: Seq<char>, i: int)
    requires
        0 <= i <= s.len(),
    ensures
        i <= line_end(s, i) <= s.len(),
        i < s.len() ==> i < line_end(s, i),
    decreases s.len() - i,
{
    if i < s.len() && s[i] != '\n' {
        lemma_line_end(s, i + 1);
    }
}

/// From index `i` on there is nothing but white space, comments, and at the very end
/// perhaps a `;`.
pub open spec fn blank_from(s: Seq<char>, i: int) -> bool
    decreases s.len() - i,
    via blank_from_decreases
{
    if i < 0 || i >= s.len() {
        true
    } else if text::white(s[i]) {
        blank_from(s, i + 1)
    } else if s[i] == ';' {
        text::all_white(s.skip(i + 1))
    } else if s[i] == '-' && i + 1 < s.len() && s[i + 1] == '-' {
        blank_from(s, line_end(s, i + 2))
    } else {
        false
    }
}

#[via_fn]
proof fn blank_from_decreases(s: Seq<char>, i: int) {
    if 0 <= i && i + 1 < s.len() {
        lemma_line_end(s, i + 2);
    }
}

/// No statement text: nothing but white space and comments, or an empty statement.
pub open spec fn blank(s: Seq<char>) -> bool {
    blank_from(s, 0)
}

/// The statements that end before `n`: the pieces that are not blank.
pub open spec fn statements(s: Seq<char>, n: int) -> Seq<Seq<char>> {
    pieces(s, n).filter(|p: Seq<char>| !blank(p))
}

/// What is left behind the last statement.
pub open spec fn remainder(s: Seq<char>) -> Seq<char> {
    let tail = s.skip(cut(s, s.len() as int));
    if blank(tail) {
        Seq::empty()
    } else {
        tail
    }
}

/// Whether a text holds no statement text.
pub fn is_blank(s: &str) -> (r: bool)
    ensures
        r == blank(s@),
{
    let chars: Vec<char> = chars_of(s);
    let len: usize = chars.len();
    let mut i: usize = 0;
    while i < len
        invariant
            i <= len,
            len == chars@.len(),
            chars@ == s@,
            blank(s@) == blank_from(s@, i as int),
        decreases len - i,
    {
        let c: char = chars[i];
        if is_white(c) {
            i += 1;
        } else if c == ';' {
            let rest: usize = skip_white(chars.as_slice(), i + 1);
            proof {
                let tail = s@.skip(i + 1);
                if rest == len {
                    assert forall|k: int| 0 <= k < tail.len() implies text::white(
                        #[trigger] tail[k],
                    ) by {
                        assert(text::white(chars@[i + 1 + k]));
                    }
                } else {
                    assert(!text::white(tail[rest - i - 1]));
                }
            }
            return rest == len;
        } else if c == '-' && i + 1 < len && chars[i + 1] == '-' {
            let mut k: usize = i + 2;
            while k < len && chars[k] != '\n'
                invariant
                    i + 2 <= k <= len,
                    len == chars@.len(),
                    chars@ == s@,
                    line_end(s@, i + 2) == line_end(s@, k as int),
                decreases len - k,
            {
                k += 1;
            }
            if k < len {
                k += 1;
            }
            proof {
                assert(k == line_end(s@, i + 2));
            }
            i = k;
        } else {
            return false;
        }
    }
    true
}

proof fn lemma_cut(s: Seq<char>, n: int)
    requires
        0 <= n <= s.len(),
    ensures
        0 <= cut(s, n) <= n,
        cut(s, n) > 0 ==> ends(s, cut(s, n) - 1),
        mode_at(s, cut(s, n)) is Plain,
        forall|i: int| cut(s, n) <= i < n ==> !ends(s, i),
    decreases n,
{
    if n > 0 && !ends(s, n - 1) {
        lemma_cut(s, n - 1);
    }
}

/// Splits input into complete statements, each with its `;`, and the unfinished
/// rest. Blank statements are dropped, and so is a blank rest.
pub fn split(input: &str) -> (r: (Vec<String>, String))
    ensures
        text::texts(r.0@) == statements(input@, input@.len() as int),
        r.1@ == remainder(input@),
{
    let chars: Vec<char> = chars_of(input);
    let len: usize = chars.len();
    let mut found: Vec<String> = Vec::new();
    let mut mode: Mode = Mode::Plain;
    let mut start: usize = 0;
    let mut i: usize = 0;
    proof {
        reveal(Seq::filter);
        assert(text::texts(found@) =~= statements(input@, 0));
    }
    while i < len
        invariant
            i <= len,
            len == chars@.len(),
            chars@ == input@,
            mode == mode_at(input@, i as int),
            start == cut(input@, i as int),
            start <= i,
            text::texts(found@) == statements(input@, i as int),
        decreases len - i,
    {
        let c: char = chars[i];
        let ghost before = text::texts(found@);
        proof {
            lemma_cut(input@, i as int);
        }
        match mode {
            Mode::Comment => {
                if c == '\n' {
                    mode = Mode::Plain;
                }
            },
            Mode::Quoted => {
                if c == '\'' {
                    mode = Mode::Plain;
                }
            },
            Mode::Plain => {
                if c == '\'' {
                    mode = Mode::Quoted;
                } else if c == '-' && i + 1 < len && chars[i + 1] == '-' {
                    mode = Mode::Comment;
                } else if c == ';' {
                    let piece: String = text_of(chars.as_slice(), start, i + 1);
                    let ghost all = pieces(input@, i as int);
                    proof {
                        lemma_filter_push(all, piece@);
                        assert(pieces(input@, i + 1) == all.push(piece@));
                    }
                    if !is_blank(piece.as_str()) {
                        found.push(piece);
                        proof {
                            assert(text::texts(found@) =~= before.push(piece@));
                        }
                    }
                    start = i + 1;
                }
            },
        }
        i += 1;
    }
    let rest: String = text_of(chars.as_slice(), start, len);
    proof {
        assert(rest@ =~= input@.skip(start as int));
    }
    if is_blank(rest.as_str()) {
        (found, String::new())
    } else {
        (found, rest)
    }
}

proof fn lemma_filter_push(all: Seq<Seq<char>>, piece: Seq<char>)
    ensures
        all.push(piece).filter(|p: Seq<char>| !blank(p)) == if blank(piece) {
            all.filter(|p: Seq<char>| !blank(p))
        } else {
            all.filter(|p: Seq<char>| !blank(p)).push(piece)
        },
{
    reveal(Seq::filter);
    assert(all.push(piece).drop_last() =~= all);
}

/// Nothing is lost: the pieces, one behind the other, and the text behind the last
/// one are the input.
pub proof fn law_pieces_cover_input(s: Seq<char>, n: int)
    requires
        0 <= n <= s.len(),
    ensures
        pieces(s, n).flatten() == s.take(cut(s, n)),
        pieces(s, n).flatten() + s.skip(cut(s, n)) == s,
    decreases n,
{
    lemma_cut(s, n);
    if n == 0 {
        assert(pieces(s, n).flatten() =~= Seq::<char>::empty());
        assert(s.take(0) =~= Seq::<char>::empty());
    } else {
        law_pieces_cover_input(s, n - 1);
        if ends(s, n - 1) {
            lemma_cut(s, n - 1);
            let all = pieces(s, n - 1);
            let piece = s.subrange(cut(s, n - 1), n);
            all.lemma_flatten_push(piece);
            assert(s.take(n) =~= s.take(cut(s, n - 1)) + piece);
        }
    }
    assert(s.take(cut(s, n)) + s.skip(cut(s, n)) =~= s);
}

/// Every piece ends in a `;`, and holds no earlier end of a statement.
pub proof fn law_pieces_end_once(s: Seq<char>, n: int, k: int)
    requires
        0 <= n <= s.len(),
        0 <= k < pieces(s, n).len(),
    ensures
        pieces(s, n)[k].len() > 0,
        pieces(s, n)[k].last() == ';',
        forall|i: int| 0 <= i < pieces(s, n)[k].len() - 1 ==> !ends(pieces(s, n)[k], i),
    decreases n,
{
    if ends(s, n - 1) && k == pieces(s, n).len() - 1 {
        let from = cut(s, n - 1);
        lemma_cut(s, n - 1);
        let piece = s.subrange(from, n);
        assert forall|i: int| 0 <= i < piece.len() - 1 implies !ends(piece, i) by {
            lemma_mode_shift(s, from, n, i);
            assert(!ends(s, from + i));
        }
    } else {
        law_pieces_end_once(s, n - 1, k);
    }
}

/// What a place stands in does not depend on what was in front of the piece.
proof fn lemma_mode_shift(s: Seq<char>, from: int, to: int, i: int)
    requires
        0 <= from <= to <= s.len(),
        mode_at(s, from) is Plain,
        0 <= i < to - from || (i == to - from && to == s.len()),
    ensures
        mode_at(s.subrange(from, to), i) == mode_at(s, from + i),
    decreases i,
{
    if i > 0 {
        lemma_mode_shift(s, from, to, i - 1);
        let piece = s.subrange(from, to);
        assert(piece[i - 1] == s[from + i - 1]);
        if i < piece.len() {
            assert(piece[i] == s[from + i]);
        }
    }
}

/// What a place stands in depends on the input up to it alone, the character at the
/// place included.
proof fn lemma_mode_prefix(a: Seq<char>, b: Seq<char>, i: int)
    requires
        0 <= i < a.len(),
    ensures
        mode_at(a + b, i) == mode_at(a, i),
    decreases i,
{
    if i > 0 {
        lemma_mode_prefix(a, b, i - 1);
    }
}

proof fn lemma_pieces_prefix(a: Seq<char>, b: Seq<char>, n: int)
    requires
        0 <= n <= a.len(),
    ensures
        cut(a + b, n) == cut(a, n),
        pieces(a + b, n) == pieces(a, n),
    decreases n,
{
    if n > 0 {
        lemma_pieces_prefix(a, b, n - 1);
        lemma_mode_prefix(a, b, n - 1);
        lemma_cut(a, n - 1);
        assert((a + b).subrange(cut(a, n - 1), n) =~= a.subrange(cut(a, n - 1), n));
    }
}

proof fn lemma_pieces_behind(s: Seq<char>, from: int, n: int)
    requires
        0 <= from <= n <= s.len(),
        from == cut(s, from),
        mode_at(s, from) is Plain,
    ensures
        cut(s, n) == from + cut(s.skip(from), n - from),
        pieces(s, n) == pieces(s, from) + pieces(s.skip(from), n - from),
    decreases n - from,
{
    let tail = s.skip(from);
    if n == from {
        assert(pieces(s, from) + pieces(tail, 0) =~= pieces(s, from));
    } else {
        lemma_pieces_behind(s, from, n - 1);
        assert(tail =~= s.subrange(from, s.len() as int));
        lemma_mode_shift(s, from, s.len() as int, n - 1 - from);
        assert(tail[n - 1 - from] == s[n - 1]);
        lemma_cut(tail, n - 1 - from);
        if ends(s, n - 1) {
            assert(tail.subrange(cut(tail, n - 1 - from), n - from) =~= s.subrange(
                cut(s, n - 1),
                n,
            ));
            assert(pieces(s, from) + pieces(tail, n - 1 - from).push(
                s.subrange(cut(s, n - 1), n),
            ) =~= (pieces(s, from) + pieces(tail, n - 1 - from)).push(
                s.subrange(cut(s, n - 1), n),
            ));
        }
    }
}

/// Input may come in parts: the statements of the first part, and those of its
/// remainder with the next part behind it, are the statements of the whole. A string
/// or comment that is open at the end of a part goes on in the next.
pub proof fn law_split_by_parts(a: Seq<char>, b: Seq<char>)
    requires
        remainder(a).len() > 0,
    ensures
        ({
            let whole = a + b;
            let rest = remainder(a) + b;
            &&& statements(whole, whole.len() as int) == statements(a, a.len() as int)
                + statements(rest, rest.len() as int)
            &&& remainder(whole) == remainder(rest)
        }),
{
    let whole = a + b;
    let at = cut(a, a.len() as int);
    lemma_cut(a, a.len() as int);
    let rest = remainder(a) + b;
    assert(at < a.len()) by {
        if at == a.len() {
            assert(a.skip(at) =~= Seq::<char>::empty());
        }
    }
    assert(rest =~= whole.skip(at));
    lemma_pieces_prefix(a, b, at);
    lemma_pieces_prefix(a, b, a.len() as int);
    lemma_mode_prefix(a, b, at);
    lemma_pieces_same_up_to_cut(a, a.len() as int);
    lemma_cut_of_cut(a, a.len() as int);
    lemma_pieces_behind(whole, at, whole.len() as int);
    lemma_filter_concat(pieces(whole, at), pieces(rest, rest.len() as int));
    lemma_cut(rest, rest.len() as int);
    assert(whole.skip(cut(whole, whole.len() as int)) =~= rest.skip(
        cut(rest, rest.len() as int),
    ));
}

proof fn lemma_pieces_same_up_to_cut(s: Seq<char>, n: int)
    requires
        0 <= n <= s.len(),
    ensures
        pieces(s, cut(s, n)) == pieces(s, n),
    decreases n,
{
    if n > 0 && !ends(s, n - 1) {
        lemma_pieces_same_up_to_cut(s, n - 1);
    }
}

proof fn lemma_cut_of_cut(s: Seq<char>, n: int)
    requires
        0 <= n <= s.len(),
    ensures
        cut(s, cut(s, n)) == cut(s, n),
    decreases n,
{
    if n > 0 && !ends(s, n - 1) {
        lemma_cut_of_cut(s, n - 1);
    }
}

proof fn lemma_filter_concat(a: Seq<Seq<char>>, b: Seq<Seq<char>>)
    ensures
        (a + b).filter(|p: Seq<char>| !blank(p)) == a.filter(|p: Seq<char>| !blank(p)) + b.filter(
            |p: Seq<char>| !blank(p),
        ),
    decreases b.len(),
{
    if b.len() == 0 {
        reveal(Seq::filter);
        assert(a + b =~= a);
        assert(a.filter(|p: Seq<char>| !blank(p)) + b.filter(|p: Seq<char>| !blank(p)) =~= a.filter(
            |p: Seq<char>| !blank(p),
        ));
    } else {
        let c = b.drop_last();
        lemma_filter_concat(a, c);
        assert(a + b =~= (a + c).push(b.last()));
        assert(b =~= c.push(b.last()));
        lemma_filter_push(a + c, b.last());
        lemma_filter_push(c, b.last());
        assert((a + b).filter(|p: Seq<char>| !blank(p)) =~= a.filter(|p: Seq<char>| !blank(p))
            + b.filter(|p: Seq<char>| !blank(p)));
    }
}

// ---------------------------------------------------------------------------
// Splitter and lexer
// ---------------------------------------------------------------------------

/// A comment stays one up to the end of its line.
proof fn lemma_comment_modes(s: Seq<char>, from: int, to: int)
    requires
        0 <= from <= to <= s.len(),
        mode_at(s, from) is Comment,
        forall|k: int| from <= k < to ==> #[trigger] s[k] != '\n',
    ensures
        forall|k: int| from <= k <= to ==> #[trigger] mode_at(s, k) is Comment,
    decreases to - from,
{
    if from < to {
        assert(s[from] != '\n');
        assert(mode_at(s, from + 1) is Comment);
        lemma_comment_modes(s, from + 1, to);
    }
}

/// What the lexer skips ends no statement.
proof fn lemma_trivia_modes(s: Seq<char>, at: int)
    requires
        0 <= at <= s.len(),
        mode_at(s, at) is Plain,
    ensures
        forall|i: int| at <= i < lexer::skip_trivia(s, at) ==> !#[trigger] ends(s, i),
        lexer::skip_trivia(s, at) < s.len() ==> mode_at(s, lexer::skip_trivia(s, at)) is Plain,
    decreases s.len() - at,
{
    if at < s.len() {
        if text::white(s[at]) {
            assert(mode_at(s, at + 1) is Plain);
            lemma_trivia_modes(s, at + 1);
        } else if lexer::comment_at(s, at) {
            let e = lexer::line_break(s, at + 2);
            lexer::lemma_line_break(s, at + 2);
            assert(mode_at(s, at + 1) is Comment);
            assert(mode_at(s, at + 2) is Comment);
            lemma_comment_modes(s, at + 2, e);
            assert(lexer::skip_trivia(s, at) == lexer::skip_trivia(s, e));
            if e < s.len() {
                assert(lexer::skip_trivia(s, e) == lexer::skip_trivia(s, e + 1));
                assert(mode_at(s, e) is Comment);
                assert(mode_at(s, e + 1) is Plain);
                lemma_trivia_modes(s, e + 1);
            } else {
                assert(lexer::skip_trivia(s, e) == e);
            }
            assert forall|i: int| at <= i < lexer::skip_trivia(s, at) implies !#[trigger] ends(
                s,
                i,
            ) by {
                if i >= at + 2 && i <= e {
                    assert(mode_at(s, i) is Comment);
                }
            }
        }
    }
}

proof fn lemma_string_modes(s: Seq<char>, i: int, read: Seq<char>)
    requires
        0 <= i <= s.len(),
        mode_at(s, i) is Quoted,
    ensures
        lexer::string_from(s, i, read) matches Some((_, end)) ==> i < end <= s.len() && mode_at(
            s,
            end,
        ) is Plain && (forall|k: int| i <= k < end ==> !#[trigger] ends(s, k)),
    decreases s.len() - i,
{
    if i < s.len() {
        if s[i] != '\'' {
            assert(mode_at(s, i + 1) is Quoted);
            lemma_string_modes(s, i + 1, read.push(s[i]));
        } else {
            assert(mode_at(s, i + 1) is Plain);
            if i + 1 < s.len() && s[i + 1] == '\'' {
                assert(mode_at(s, i + 2) is Quoted);
                assert(!ends(s, i + 1));
                lemma_string_modes(s, i + 2, read.push('\''));
            }
        }
    }
}

proof fn lemma_name_modes(s: Seq<char>, i: int)
    requires
        0 <= i <= s.len(),
        mode_at(s, i) is Plain,
    ensures
        i <= lexer::name_end(s, i) <= s.len(),
        mode_at(s, lexer::name_end(s, i)) is Plain,
        forall|k: int| i <= k < lexer::name_end(s, i) ==> !#[trigger] ends(s, k),
    decreases s.len() - i,
{
    if i < s.len() && lexer::in_name(s[i]) {
        assert(mode_at(s, i + 1) is Plain);
        lemma_name_modes(s, i + 1);
    }
}

proof fn lemma_digits_modes(s: Seq<char>, i: int)
    requires
        0 <= i <= s.len(),
        mode_at(s, i) is Plain,
    ensures
        i <= lexer::digits_end(s, i) <= s.len(),
        mode_at(s, lexer::digits_end(s, i)) is Plain,
        forall|k: int| i <= k < lexer::digits_end(s, i) ==> !#[trigger] ends(s, k),
    decreases s.len() - i,
{
    if i < s.len() && lexer::digit(s[i]) {
        assert(mode_at(s, i + 1) is Plain);
        lemma_digits_modes(s, i + 1);
    }
}

/// A token is statement text from end to end, and ends a statement exactly if it is
/// a `;`.
proof fn lemma_token_modes(s: Seq<char>, start: int)
    requires
        0 <= start < s.len(),
        mode_at(s, start) is Plain,
        !lexer::comment_at(s, start),
    ensures
        lexer::token_at(s, start) matches Ok((token, end)) ==> mode_at(s, end) is Plain && (
        token is Semicolon ==> end == start + 1) && (forall|i: int|
            start <= i < end ==> (#[trigger] ends(s, i) <==> token is Semicolon && i == start)),
{
    let c = s[start];
    if lexer::punctuation(c) is Some {
        assert(mode_at(s, start + 1) is Plain);
    } else if c == '\'' {
        assert(mode_at(s, start + 1) is Quoted);
        lemma_string_modes(s, start + 1, Seq::empty());
    } else if lexer::begins_name(c) {
        lemma_name_modes(s, start);
    } else if lexer::digit(c) {
        lemma_digits_modes(s, start);
        let d = lexer::digits_end(s, start);
        if d + 1 < s.len() && s[d] == '.' && lexer::digit(s[d + 1]) {
            assert(mode_at(s, d + 1) is Plain);
            lemma_digits_modes(s, d + 1);
        }
    }
}

/// Whether the `;` at `i` is a token.
pub open spec fn is_semicolon(tokens: Seq<(TokenView, int, int)>, i: int) -> bool {
    exists|k: int|
        0 <= k < tokens.len() && #[trigger] tokens[k] == (TokenView::Semicolon, i, i + 1)
}

proof fn lemma_agree(s: Seq<char>, at: int)
    requires
        0 <= at <= s.len(),
        mode_at(s, at) is Plain,
    ensures
        lexer::tokens_from(s, at, Seq::empty()) matches Ok(tokens) ==> (forall|i: int|
            at <= i < s.len() ==> (#[trigger] ends(s, i) <==> is_semicolon(tokens, i))) && (
        forall|k: int| 0 <= k < tokens.len() ==> at <= (#[trigger] tokens[k]).1),
    decreases s.len() - at,
{
    let start = lexer::skip_trivia(s, at);
    lexer::lemma_skip_trivia(s, at);
    lexer::lemma_progress(s, start);
    lemma_trivia_modes(s, at);
    match lexer::token_at(s, start) {
        Err(_) => {},
        Ok((token, end)) => {
            let here = (token, start, end);
            let one = Seq::empty().push(here);
            if start < s.len() {
                lemma_token_modes(s, start);
                lemma_agree(s, end);
                lexer::lemma_tokens_split(s, end, one);
                if let Ok(rest) = lexer::tokens_from(s, end, Seq::empty()) {
                    let all = one + rest;
                    assert forall|i: int| at <= i < s.len() implies (#[trigger] ends(s, i)
                        <==> is_semicolon(all, i)) by {
                        if is_semicolon(rest, i) {
                            let k = choose|k: int|
                                0 <= k < rest.len() && #[trigger] rest[k] == (
                                    TokenView::Semicolon,
                                    i,
                                    i + 1,
                                );
                            assert(all[k + 1] == rest[k]);
                        }
                        if is_semicolon(all, i) {
                            let k = choose|k: int|
                                0 <= k < all.len() && #[trigger] all[k] == (
                                    TokenView::Semicolon,
                                    i,
                                    i + 1,
                                );
                            if k > 0 {
                                assert(all[k] == rest[k - 1]);
                                assert(end <= rest[k - 1].1);
                            }
                        }
                        assert(all[0] == here);
                    }
                    assert forall|k: int| 0 <= k < all.len() implies at <= (
                    #[trigger] all[k]).1 by {
                        if k > 0 {
                            assert(all[k] == rest[k - 1]);
                        }
                    }
                }
            } else {
                assert(one[0] == here);
            }
        },
    }
}

/// The splitter never disagrees with the lexer: in a text that scans, a statement
/// ends exactly where a `;` is a token.
pub proof fn law_splitter_agrees_with_lexer(s: Seq<char>, i: int)
    requires
        0 <= i < s.len(),
    ensures
        lexer::tokens_from(s, 0, Seq::empty()) matches Ok(tokens) ==> (ends(s, i)
            <==> is_semicolon(tokens, i)),
{
    lemma_agree(s, 0);
}

} // verus!
