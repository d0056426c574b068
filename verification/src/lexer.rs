//! The V-SQL lexer: turns source text into tokens with their byte spans.
//!
//! Type names are identifiers, not keywords, so that a column can be named
//! `vector`. A minus sign is a token of its own; number literals are unsigned. Two
//! dashes start a comment that ends with the line. A float literal is carried as its
//! text.

use vstd::prelude::*;
use vstd::string::*;

use crate::text;
use crate::text::{
    chars_of, is_white, join3, lowered, numeral, quoted_char, quoted_str, same_text, text_of,
    width,
};

verus! {

/// A lexical token.
#[derive(Debug, Clone, PartialEq)]
pub enum Token {
    /// `CREATE`
    Create,
    /// `COLLECTION`
    Collection,
    /// `WITH`
    With,
    /// `SELECT`
    Select,
    /// `FROM`
    From,
    /// `INSERT`
    Insert,
    /// `INTO`
    Into,
    /// `VALUES`
    Values,
    /// An identifier or type name, in its source spelling.
    Ident(String),
    /// An integer literal that fits in `i64`.
    IntLit(i64),
    /// A float literal: its source text. Two are equal if they are spelled alike.
    FloatLit(String),
    /// A string literal, without its quotes and with `''` read as one quote.
    StrLit(String),
    /// `(`
    LParen,
    /// `)`
    RParen,
    /// `[`
    LBracket,
    /// `]`
    RBracket,
    /// `,`
    Comma,
    /// `;`
    Semicolon,
    /// `=`
    Eq,
    /// `-`
    Minus,
    /// End of input.
    Eof,
}

/// What a [`Token`] holds.
pub enum TokenView {
    /// `CREATE`
    Create,
    /// `COLLECTION`
    Collection,
    /// `WITH`
    With,
    /// `SELECT`
    Select,
    /// `FROM`
    From,
    /// `INSERT`
    Insert,
    /// `INTO`
    Into,
    /// `VALUES`
    Values,
    /// An identifier.
    Ident(Seq<char>),
    /// An integer literal.
    IntLit(i64),
    /// A float literal.
    FloatLit(Seq<char>),
    /// A string literal.
    StrLit(Seq<char>),
    /// `(`
    LParen,
    /// `)`
    RParen,
    /// `[`
    LBracket,
    /// `]`
    RBracket,
    /// `,`
    Comma,
    /// `;`
    Semicolon,
    /// `=`
    Eq,
    /// `-`
    Minus,
    /// End of input.
    Eof,
}

impl View for Token {
    type V = TokenView;

    open spec fn view(&self) -> TokenView {
        match self {
            Token::Create => TokenView::Create,
            Token::Collection => TokenView::Collection,
            Token::With => TokenView::With,
            Token::Select => TokenView::Select,
            Token::From => TokenView::From,
            Token::Insert => TokenView::Insert,
            Token::Into => TokenView::Into,
            Token::Values => TokenView::Values,
            Token::Ident(s) => TokenView::Ident(s@),
            Token::IntLit(n) => TokenView::IntLit(*n),
            Token::FloatLit(s) => TokenView::FloatLit(s@),
            Token::StrLit(s) => TokenView::StrLit(s@),
            Token::LParen => TokenView::LParen,
            Token::RParen => TokenView::RParen,
            Token::LBracket => TokenView::LBracket,
            Token::RBracket => TokenView::RBracket,
            Token::Comma => TokenView::Comma,
            Token::Semicolon => TokenView::Semicolon,
            Token::Eq => TokenView::Eq,
            Token::Minus => TokenView::Minus,
            Token::Eof => TokenView::Eof,
        }
    }
}

/// A byte range of the source, from `start` to before `end`.
#[derive(Debug, Clone, Copy, PartialEq, Eq, Structural)]
pub struct Span {
    /// First byte of the token.
    pub start: usize,
    /// One past its last byte.
    pub end: usize,
}

impl Span {
    /// The piece of `src` that the span covers, unless an end of it is no
    /// character border of `src`.
    pub fn slice(&self, src: &str) -> (r: Option<String>)
        ensures
            match r {
                Some(s) => exists|i: int, j: int|
                    0 <= i <= j <= src@.len() && #[trigger] text::offset(src@, i) == self.start
                        && #[trigger] text::offset(src@, j) == self.end && s@ == src@.subrange(
                        i,
                        j,
                    ),
                None => forall|i: int, j: int|
                    0 <= i <= j <= src@.len() ==> !(#[trigger] text::offset(src@, i) == self.start
                        && #[trigger] text::offset(src@, j) == self.end),
            },
    {
        let total: usize = src.as_bytes().len();
        let chars: Vec<char> = chars_of(src);
        proof {
            text::lemma_offset_ends(src@);
        }
        let mut at: usize = 0;
        let mut i: usize = 0;
        while i < chars.len() && at < self.start
            invariant
                i <= chars@.len(),
                chars@ == src@,
                at == text::offset(src@, i as int),
                total == vstd::utf8::encode_utf8(src@).len(),
                forall|k: int| 0 <= k < i ==> #[trigger] text::offset(src@, k) < self.start,
            decreases chars@.len() - i,
        {
            proof {
                text::lemma_offset_step(src@, i as int);
                text::lemma_offset_rises(src@, 0, i + 1);
            }
            at += width(chars[i]);
            i += 1;
        }
        let ghost from = i as int;
        proof {
            assert forall|k: int| 0 <= k <= src@.len() && #[trigger] text::offset(src@, k)
                == self.start implies k == from && at == self.start by {
                if k < from {
                    assert(text::offset(src@, k) < self.start);
                } else {
                    text::lemma_offset_rises(src@, from, k);
                }
            }
        }
        if at != self.start {
            return None;
        }
        let start: usize = i;
        while i < chars.len() && at < self.end
            invariant
                start <= i <= chars@.len(),
                from == start,
                chars@ == src@,
                at == text::offset(src@, i as int),
                total == vstd::utf8::encode_utf8(src@).len(),
                forall|k: int| start <= k < i ==> #[trigger] text::offset(src@, k) < self.end,
            decreases chars@.len() - i,
        {
            proof {
                text::lemma_offset_step(src@, i as int);
                text::lemma_offset_rises(src@, 0, i + 1);
            }
            at += width(chars[i]);
            i += 1;
        }
        if at != self.end {
            proof {
                assert forall|a: int, j: int| 0 <= a <= j <= src@.len() implies !(
                #[trigger] text::offset(src@, a) == self.start && #[trigger] text::offset(src@, j)
                    == self.end) by {
                    if text::offset(src@, a) == self.start && text::offset(src@, j) == self.end {
                        assert(a == from);
                        if j < i {
                            assert(text::offset(src@, j) < self.end);
                        } else {
                            text::lemma_offset_rises(src@, i as int, j);
                        }
                    }
                }
            }
            return None;
        }
        proof {
            assert(text::offset(src@, from) == self.start);
            assert(text::offset(src@, i as int) == self.end);
        }
        Some(text_of(chars.as_slice(), start, i))
    }
}

/// A token with the span that it was scanned from.
#[derive(Debug, Clone, PartialEq)]
pub struct SpannedToken {
    /// The token.
    pub token: Token,
    /// Its place in the source.
    pub span: Span,
}

/// What went wrong, and where.
#[derive(Debug, Clone, PartialEq)]
pub struct LexError {
    /// What went wrong.
    pub kind: LexErrorKind,
    /// The byte offset in the source.
    pub pos: usize,
}

/// The kinds of [`LexError`].
#[derive(Debug, Clone, PartialEq)]
pub enum LexErrorKind {
    /// A character that no token begins with.
    UnexpectedChar(char),
    /// A string literal without a closing quote.
    UnterminatedString,
    /// An integer literal that does not fit in `i64`, with its text.
    InvalidNumber(String),
}

/// What a [`LexErrorKind`] holds.
pub enum KindView {
    /// A character that no token begins with.
    UnexpectedChar(char),
    /// A string literal without a closing quote.
    UnterminatedString,
    /// An integer literal that does not fit.
    InvalidNumber(Seq<char>),
}

impl View for LexErrorKind {
    type V = KindView;

    open spec fn view(&self) -> KindView {
        match self {
            LexErrorKind::UnexpectedChar(c) => KindView::UnexpectedChar(*c),
            LexErrorKind::UnterminatedString => KindView::UnterminatedString,
            LexErrorKind::InvalidNumber(s) => KindView::InvalidNumber(s@),
        }
    }
}

/// Line and column, both from 1, behind the first `n` characters.
pub open spec fn position(chars: Seq<char>, n: nat) -> (nat, nat)
    decreases n,
{
    if n == 0 {
        (1, 1)
    } else {
        let (line, col) = position(chars, (n - 1) as nat);
        if chars[n - 1] == '\n' {
            (line + 1, 1)
        } else {
            (line, col + 1)
        }
    }
}

/// How many of the first `n` characters start before byte `pos`.
pub open spec fn starts_before(chars: Seq<char>, n: nat, pos: int) -> nat
    decreases n,
{
    if n == 0 {
        0
    } else if text::offset(chars, n - 1) < pos {
        n
    } else {
        starts_before(chars, (n - 1) as nat, pos)
    }
}

impl LexError {
    /// Line and column of the error, both from 1. Columns count characters.
    pub fn line_col(&self, src: &str) -> (r: (usize, usize))
        requires
            src@.len() < usize::MAX,
        ensures
            (r.0 as nat, r.1 as nat) == position(
                src@,
                starts_before(src@, src@.len(), self.pos as int),
            ),
    {
        let total: usize = src.as_bytes().len();
        let chars: Vec<char> = chars_of(src);
        let mut line: usize = 1;
        let mut col: usize = 1;
        let mut at: usize = 0;
        let mut i: usize = 0;
        proof {
            text::lemma_offset_ends(src@);
        }
        while i < chars.len() && at < self.pos
            invariant
                i <= chars@.len(),
                chars@ == src@,
                src@.len() < usize::MAX,
                at == text::offset(src@, i as int),
                total == vstd::utf8::encode_utf8(src@).len(),
                (line as nat, col as nat) == position(src@, i as nat),
                line <= i + 1,
                col <= i + 1,
                i > 0 ==> text::offset(src@, i - 1) < self.pos,
            decreases chars@.len() - i,
        {
            proof {
                text::lemma_offset_step(src@, i as int);
                text::lemma_offset_rises(src@, 0, i + 1);
            }
            if chars[i] == '\n' {
                line += 1;
                col = 1;
            } else {
                col += 1;
            }
            at += width(chars[i]);
            i += 1;
        }
        proof {
            lemma_starts_before(src@, src@.len(), self.pos as int, i as nat);
        }
        (line, col)
    }

    /// The text shown to the user.
    pub open spec fn message(self) -> Seq<char> {
        match self.kind {
            LexErrorKind::UnexpectedChar(c) => "unexpected character "@ + text::debug_char(c)
                + " at byte "@ + text::decimal(self.pos as nat),
            LexErrorKind::UnterminatedString => "unterminated string literal"@ + " at byte "@
                + text::decimal(self.pos as nat),
            LexErrorKind::InvalidNumber(s) => "invalid number literal "@ + text::debug_text(s@)
                + " at byte "@ + text::decimal(self.pos as nat),
        }
    }

    /// The text shown to the user.
    pub fn to_text(&self) -> (s: String)
        ensures
            s@ == self.message(),
    {
        let mut s = match &self.kind {
            LexErrorKind::UnexpectedChar(c) => join3(
                "unexpected character ",
                quoted_char(*c).as_str(),
                " at byte ",
            ),
            LexErrorKind::UnterminatedString => text::join2(
                "unterminated string literal",
                " at byte ",
            ),
            LexErrorKind::InvalidNumber(t) => join3(
                "invalid number literal ",
                quoted_str(t.as_str()).as_str(),
                " at byte ",
            ),
        };
        s.append(numeral(self.pos as u64).as_str());
        s
    }
}

proof fn lemma_starts_before(chars: Seq<char>, n: nat, pos: int, i: nat)
    requires
        i <= n <= chars.len(),
        i < n ==> text::offset(chars, i as int) >= pos,
        i > 0 ==> text::offset(chars, i - 1) < pos,
    ensures
        starts_before(chars, n, pos) == i,
    decreases n,
{
    if n > i {
        text::lemma_offset_rises(chars, i as int, n - 1);
        lemma_starts_before(chars, (n - 1) as nat, pos, i);
    }
}

// ---------------------------------------------------------------------------
// What a scan finds
// ---------------------------------------------------------------------------

/// A letter or underscore.
pub open spec fn begins_name(c: char) -> bool {
    'a' <= c <= 'z' || 'A' <= c <= 'Z' || c == '_'
}

/// A decimal digit.
pub open spec fn digit(c: char) -> bool {
    '0' <= c <= '9'
}

/// A character inside a name.
pub open spec fn in_name(c: char) -> bool {
    begins_name(c) || digit(c)
}

/// Whether a comment starts at `i`: two dashes.
pub open spec fn comment_at(chars: Seq<char>, i: int) -> bool {
    0 <= i && i + 1 < chars.len() && chars[i] == '-' && chars[i + 1] == '-'
}

/// Where the line of `i` ends: at its line break, or at the end of input.
pub open spec fn line_break(chars: Seq<char>, i: int) -> int
    decreases chars.len() - i,
{
    if 0 <= i < chars.len() && chars[i] != '\n' {
        line_break(chars, i + 1)
    } else {
        i
    }
}

/// The first index from `i` on that is neither white space nor in a comment.
pub open spec fn skip_trivia(chars: Seq<char>, i: int) -> int
    decreases chars.len() - i,
{
    if i < 0 || i >= chars.len() {
        i
    } else if text::white(chars[i]) {
        skip_trivia(chars, i + 1)
    } else if comment_at(chars, i) && i < line_break(chars, i + 2) <= chars.len() {
        skip_trivia(chars, line_break(chars, i + 2))
    } else {
        i
    }
}

/// The first index from `i` on that is in no name.
pub open spec fn name_end(chars: Seq<char>, i: int) -> int
    decreases chars.len() - i,
{
    if 0 <= i < chars.len() && in_name(chars[i]) {
        name_end(chars, i + 1)
    } else {
        i
    }
}

/// The first index from `i` on that is no digit.
pub open spec fn digits_end(chars: Seq<char>, i: int) -> int
    decreases chars.len() - i,
{
    if 0 <= i < chars.len() && digit(chars[i]) {
        digits_end(chars, i + 1)
    } else {
        i
    }
}

/// The number that a run of digits stands for.
pub open spec fn digits_value(digits: Seq<char>) -> nat
    decreases digits.len(),
{
    if digits.len() == 0 {
        0
    } else {
        digits_value(digits.drop_last()) * 10 + (digits.last() as nat - '0' as nat) as nat
    }
}

/// The text of a string literal and the index behind its closing quote, reading
/// from `i` with `read` read already; none if there is no closing quote.
pub open spec fn string_from(chars: Seq<char>, i: int, read: Seq<char>) -> Option<(Seq<char>, int)>
    decreases chars.len() - i,
{
    if i < 0 || i >= chars.len() {
        None
    } else if chars[i] != '\'' {
        string_from(chars, i + 1, read.push(chars[i]))
    } else if i + 1 < chars.len() && chars[i + 1] == '\'' {
        string_from(chars, i + 2, read.push('\''))
    } else {
        Some((read, i + 1))
    }
}

/// The reserved words, in any case; everything else is an identifier.
pub open spec fn word(spelling: Seq<char>) -> TokenView {
    let w = text::lower_text(spelling);
    if w == "create"@ {
        TokenView::Create
    } else if w == "collection"@ {
        TokenView::Collection
    } else if w == "with"@ {
        TokenView::With
    } else if w == "select"@ {
        TokenView::Select
    } else if w == "from"@ {
        TokenView::From
    } else if w == "insert"@ {
        TokenView::Insert
    } else if w == "into"@ {
        TokenView::Into
    } else if w == "values"@ {
        TokenView::Values
    } else {
        TokenView::Ident(spelling)
    }
}

/// The token of one punctuation character.
pub open spec fn punctuation(c: char) -> Option<TokenView> {
    if c == '(' {
        Some(TokenView::LParen)
    } else if c == ')' {
        Some(TokenView::RParen)
    } else if c == '[' {
        Some(TokenView::LBracket)
    } else if c == ']' {
        Some(TokenView::RBracket)
    } else if c == ',' {
        Some(TokenView::Comma)
    } else if c == ';' {
        Some(TokenView::Semicolon)
    } else if c == '=' {
        Some(TokenView::Eq)
    } else if c == '-' {
        Some(TokenView::Minus)
    } else {
        None
    }
}

/// The number literal that starts at `i`: a run of digits is an integer, unless a
/// dot and another digit follow. The result is the token and the index behind
/// it.
pub open spec fn number_at(chars: Seq<char>, i: int) -> Result<(TokenView, int), KindView> {
    let d = digits_end(chars, i);
    if d + 1 < chars.len() && chars[d] == '.' && digit(chars[d + 1]) {
        let e = digits_end(chars, d + 1);
        Ok((TokenView::FloatLit(chars.subrange(i, e)), e))
    } else if digits_value(chars.subrange(i, d)) <= i64::MAX {
        Ok((TokenView::IntLit(digits_value(chars.subrange(i, d)) as i64), d))
    } else {
        Err(KindView::InvalidNumber(chars.subrange(i, d)))
    }
}

/// The token that starts at `i`, where neither white space nor a comment is, and
/// the index behind it.
pub open spec fn token_at(chars: Seq<char>, i: int) -> Result<(TokenView, int), KindView> {
    if i >= chars.len() {
        Ok((TokenView::Eof, i))
    } else if punctuation(chars[i]) is Some {
        Ok((punctuation(chars[i])->0, i + 1))
    } else if chars[i] == '\'' {
        match string_from(chars, i + 1, Seq::empty()) {
            Some((read, end)) => Ok((TokenView::StrLit(read), end)),
            None => Err(KindView::UnterminatedString),
        }
    } else if begins_name(chars[i]) {
        let e = name_end(chars, i);
        Ok((word(chars.subrange(i, e)), e))
    } else if digit(chars[i]) {
        number_at(chars, i)
    } else {
        Err(KindView::UnexpectedChar(chars[i]))
    }
}

/// The tokens from `i` on, behind those read already: each with its start and
/// end as character indices, the last of them the end of input. The first fault
/// ends it.
pub open spec fn tokens_from(
    chars: Seq<char>,
    i: int,
    read: Seq<(TokenView, int, int)>,
) -> Result<Seq<(TokenView, int, int)>, (KindView, int)>
    decreases chars.len() - i,
{
    let start = skip_trivia(chars, i);
    match token_at(chars, start) {
        Err(kind) => Err((kind, start)),
        Ok((token, end)) => if token is Eof || !(i < end <= chars.len()) {
            Ok(read.push((token, start, end)))
        } else {
            tokens_from(chars, end, read.push((token, start, end)))
        },
    }
}

// ---------------------------------------------------------------------------
// The scanner
// ---------------------------------------------------------------------------

/// A cursor over a source text that yields tokens.
pub struct Lexer<'a> {
    src: &'a str,
    chars: Vec<char>,
    at: usize,
    pos: usize,
}

/// What a [`Lexer`] holds.
pub struct LexerView {
    /// The source.
    pub chars: Seq<char>,
    /// The index of the next character.
    pub at: int,
}

impl<'a> View for Lexer<'a> {
    type V = LexerView;

    closed spec fn view(&self) -> LexerView {
        LexerView { chars: self.src@, at: self.at as int }
    }
}

fn starts_name(c: char) -> (r: bool)
    ensures
        r == begins_name(c),
{
    ('a' <= c && c <= 'z') || ('A' <= c && c <= 'Z') || c == '_'
}

fn is_digit(c: char) -> (r: bool)
    ensures
        r == digit(c),
{
    '0' <= c && c <= '9'
}

/// The keyword of the given spelling in any case, if it is one.
pub fn keyword(spelling: &str) -> (r: Option<Token>)
    ensures
        match r {
            Some(t) => t@ == word(spelling@) && word(spelling@) !is Ident,
            None => word(spelling@) == TokenView::Ident(spelling@),
        },
{
    let w: String = lowered(spelling);
    if same_text(w.as_str(), "create") {
        Some(Token::Create)
    } else if same_text(w.as_str(), "collection") {
        Some(Token::Collection)
    } else if same_text(w.as_str(), "with") {
        Some(Token::With)
    } else if same_text(w.as_str(), "select") {
        Some(Token::Select)
    } else if same_text(w.as_str(), "from") {
        Some(Token::From)
    } else if same_text(w.as_str(), "insert") {
        Some(Token::Insert)
    } else if same_text(w.as_str(), "into") {
        Some(Token::Into)
    } else if same_text(w.as_str(), "values") {
        Some(Token::Values)
    } else {
        None
    }
}

fn punctuation_of(c: char) -> (r: Option<Token>)
    ensures
        match r {
            Some(t) => punctuation(c) == Some(t@),
            None => punctuation(c) is None,
        },
{
    if c == '(' {
        Some(Token::LParen)
    } else if c == ')' {
        Some(Token::RParen)
    } else if c == '[' {
        Some(Token::LBracket)
    } else if c == ']' {
        Some(Token::RBracket)
    } else if c == ',' {
        Some(Token::Comma)
    } else if c == ';' {
        Some(Token::Semicolon)
    } else if c == '=' {
        Some(Token::Eq)
    } else if c == '-' {
        Some(Token::Minus)
    } else {
        None
    }
}

fn end_of_digits(chars: &Vec<char>, from: usize) -> (end: usize)
    requires
        from <= chars@.len(),
    ensures
        from <= end <= chars@.len(),
        end == digits_end(chars@, from as int),
        forall|k: int| from <= k < end ==> digit(#[trigger] chars@[k]),
{
    let mut i: usize = from;
    while i < chars.len() && is_digit(chars[i])
        invariant
            from <= i <= chars@.len(),
            digits_end(chars@, from as int) == digits_end(chars@, i as int),
            forall|k: int| from <= k < i ==> digit(#[trigger] chars@[k]),
        decreases chars@.len() - i,
    {
        i += 1;
    }
    i
}

/// The value of a run of digits, unless it does not fit in `i64`.
fn value_of_digits(chars: &Vec<char>, from: usize, end: usize) -> (r: Option<i64>)
    requires
        from <= end <= chars@.len(),
        forall|k: int| from <= k < end ==> digit(#[trigger] chars@[k]),
    ensures
        match r {
            Some(n) => n == digits_value(chars@.subrange(from as int, end as int)),
            None => digits_value(chars@.subrange(from as int, end as int)) > i64::MAX,
        },
{
    let ghost run = chars@.subrange(from as int, end as int);
    let mut n: i64 = 0;
    let mut i: usize = from;
    while i < end
        invariant
            from <= i <= end <= chars@.len(),
            run == chars@.subrange(from as int, end as int),
            forall|k: int| from <= k < end ==> digit(#[trigger] chars@[k]),
            n >= 0,
            n == digits_value(run.take(i - from)),
        decreases end - i,
    {
        let d: i64 = (chars[i] as u32 - '0' as u32) as i64;
        proof {
            let here = run.take(i - from + 1);
            assert(here.drop_last() =~= run.take(i - from));
            assert(here.last() == chars@[i as int]);
            lemma_value_rises(run, i - from + 1);
        }
        if n > 922337203685477580 || (n == 922337203685477580 && d > 7) {
            return None;
        }
        n = n * 10 + d;
        i += 1;
    }
    proof {
        assert(run.take(run.len() as int) =~= run);
    }
    Some(n)
}

proof fn lemma_value_rises(run: Seq<char>, i: int)
    requires
        0 <= i <= run.len(),
    ensures
        digits_value(run.take(i)) <= digits_value(run),
    decreases run.len() - i,
{
    if i < run.len() {
        lemma_value_rises(run, i + 1);
        assert(run.take(i + 1).drop_last() =~= run.take(i));
    } else {
        assert(run.take(i) =~= run);
    }
}

impl<'a> Lexer<'a> {
    /// The cursor stands at a character of the source, and its byte offset is
    /// known.
    pub closed spec fn wf(&self) -> bool {
        &&& self.chars@ == self.src@
        &&& self.at <= self.chars@.len()
        &&& self.pos == text::offset(self.src@, self.at as int)
        &&& vstd::utf8::encode_utf8(self.src@).len() <= usize::MAX
    }

    /// A lexer at the start of `src`.
    pub fn new(src: &'a str) -> (l: Lexer<'a>)
        ensures
            l.wf(),
            l@ == (LexerView { chars: src@, at: 0 }),
    {
        // Asking for the length shows that it fits.
        let _len: usize = src.as_bytes().len();
        proof {
            text::lemma_offset_ends(src@);
        }
        Lexer { src, chars: chars_of(src), at: 0, pos: 0 }
    }

    /// Moves the cursor forward to the character at `to`.
    fn advance(&mut self, to: usize)
        requires
            old(self).wf(),
            old(self).at <= to <= old(self).chars@.len(),
        ensures
            final(self).wf(),
            final(self)@ == (LexerView { at: to as int, ..old(self)@ }),
            final(self).chars@ == old(self).chars@,
    {
        while self.at < to
            invariant
                self.wf(),
                self.src == old(self).src,
                self.chars@ == old(self).chars@,
                self.at <= to <= self.chars@.len(),
            decreases to - self.at,
        {
            proof {
                text::lemma_offset_step(self.src@, self.at as int);
                text::lemma_offset_rises(self.src@, 0, self.at + 1);
            }
            self.pos += width(self.chars[self.at]);
            self.at += 1;
        }
    }

    fn skip_trivia(&mut self)
        requires
            old(self).wf(),
        ensures
            final(self).wf(),
            final(self)@ == (LexerView {
                at: skip_trivia(old(self)@.chars, old(self)@.at),
                ..old(self)@
            }),
            final(self).at <= final(self).chars@.len(),
    {
        let n: usize = self.chars.len();
        let mut i: usize = self.at;
        while i < n && (is_white(self.chars[i]) || (self.chars[i] == '-' && n - i > 1
            && self.chars[i + 1] == '-'))
            invariant
                self.wf(),
                self@ == old(self)@,
                n == self.chars@.len(),
                self.at <= i <= n,
                skip_trivia(self.src@, self.at as int) == skip_trivia(self.src@, i as int),
            decreases n - i,
        {
            if is_white(self.chars[i]) {
                i += 1;
            } else {
                let mut k: usize = i + 2;
                while k < n && self.chars[k] != '\n'
                    invariant
                        self.wf(),
                        n == self.chars@.len(),
                        i + 2 <= k <= n,
                        line_break(self.src@, i + 2) == line_break(self.src@, k as int),
                    decreases n - k,
                {
                    k += 1;
                }
                i = k;
            }
        }
        self.advance(i);
    }

    /// The token at the cursor and the index behind it.
    fn scan(&self) -> (r: Result<(Token, usize), LexErrorKind>)
        requires
            self.wf(),
        ensures
            match r {
                Ok((t, end)) => token_at(self@.chars, self@.at) == Ok::<
                    (TokenView, int),
                    KindView,
                >((t@, end as int)) && self.at <= end <= self.chars@.len() && (end == self.at
                    ==> t is Eof),
                Err(k) => token_at(self@.chars, self@.at) == Err::<(TokenView, int), KindView>(k@),
            },
    {
        let start: usize = self.at;
        if start >= self.chars.len() {
            return Ok((Token::Eof, start));
        }
        let c: char = self.chars[start];
        if let Some(t) = punctuation_of(c) {
            return Ok((t, start + 1));
        }
        if c == '\'' {
            return self.scan_string(start);
        }
        if starts_name(c) {
            return Ok(self.scan_ident(start));
        }
        if is_digit(c) {
            return self.scan_number(start);
        }
        Err(LexErrorKind::UnexpectedChar(c))
    }

    fn scan_ident(&self, start: usize) -> (r: (Token, usize))
        requires
            self.wf(),
            start < self.chars@.len(),
            begins_name(self.src@[start as int]),
        ensures
            start < r.1 <= self.chars@.len(),
            r.1 == name_end(self.src@, start as int),
            r.0@ == word(self.src@.subrange(start as int, r.1 as int)),
    {
        let mut i: usize = start;
        while i < self.chars.len() && (starts_name(self.chars[i]) || is_digit(self.chars[i]))
            invariant
                self.wf(),
                start <= i <= self.chars@.len(),
                start < self.chars@.len(),
                begins_name(self.src@[start as int]),
                name_end(self.src@, start as int) == name_end(self.src@, i as int),
            ensures
                start < i <= self.chars@.len(),
                i == name_end(self.src@, start as int),
            decreases self.chars@.len() - i,
        {
            i += 1;
        }
        let spelling: String = text_of(self.chars.as_slice(), start, i);
        match keyword(spelling.as_str()) {
            Some(t) => (t, i),
            None => (Token::Ident(spelling), i),
        }
    }

    fn scan_number(&self, start: usize) -> (r: Result<(Token, usize), LexErrorKind>)
        requires
            self.wf(),
            start < self.chars@.len(),
            digit(self.src@[start as int]),
        ensures
            match r {
                Ok((t, end)) => number_at(self.src@, start as int) == Ok::<
                    (TokenView, int),
                    KindView,
                >((t@, end as int)) && start < end <= self.chars@.len(),
                Err(k) => number_at(self.src@, start as int) == Err::<(TokenView, int), KindView>(
                    k@,
                ),
            },
    {
        proof {
            lemma_digits_end(self.src@, start + 1);
        }
        let d: usize = end_of_digits(&self.chars, start);
        if d < self.chars.len() && self.chars[d] == '.' && self.chars.len() - d > 1 && is_digit(
            self.chars[d + 1],
        ) {
            let e: usize = end_of_digits(&self.chars, d + 1);
            return Ok((Token::FloatLit(text_of(self.chars.as_slice(), start, e)), e));
        }
        match value_of_digits(&self.chars, start, d) {
            Some(n) => Ok((Token::IntLit(n), d)),
            None => Err(
                LexErrorKind::InvalidNumber(text_of(self.chars.as_slice(), start, d)),
            ),
        }
    }

    fn scan_string(&self, start: usize) -> (r: Result<(Token, usize), LexErrorKind>)
        requires
            self.wf(),
            start < self.chars@.len(),
        ensures
            match r {
                Ok((t, end)) => {
                    &&& t matches Token::StrLit(s) && string_from(
                        self.src@,
                        start + 1,
                        Seq::empty(),
                    ) == Some((s@, end as int))
                    &&& start < end <= self.chars@.len()
                },
                Err(k) => k is UnterminatedString && string_from(
                    self.src@,
                    start + 1,
                    Seq::empty(),
                ) is None,
            },
    {
        let n: usize = self.chars.len();
        let mut read = String::new();
        let mut i: usize = start + 1;
        while i < n
            invariant
                self.wf(),
                n == self.chars@.len(),
                start < i <= n,
                string_from(self.src@, start + 1, Seq::empty()) == string_from(
                    self.src@,
                    i as int,
                    read@,
                ),
            decreases n - i,
        {
            let c: char = self.chars[i];
            if c != '\'' {
                read.push(c);
                i += 1;
            } else if n - i > 1 && self.chars[i + 1] == '\'' {
                read.push('\'');
                i += 2;
            } else {
                return Ok((Token::StrLit(read), i + 1));
            }
        }
        Err(LexErrorKind::UnterminatedString)
    }

    /// Scans the next token. At the end of input it is [`Token::Eof`], with an
    /// empty span, however often it is asked for. After an error the cursor
    /// stands where the fault is.
    pub fn next_token(&mut self) -> (r: Result<SpannedToken, LexError>)
        requires
            old(self).wf(),
        ensures
            final(self).wf(),
            ({
                let chars = old(self)@.chars;
                let start = skip_trivia(chars, old(self)@.at);
                match token_at(chars, start) {
                    Ok((token, end)) => {
                        &&& r matches Ok(t) && t.token@ == token && t.span.start == text::offset(
                            chars,
                            start,
                        ) && t.span.end == text::offset(chars, end)
                        &&& final(self)@ == (LexerView { chars, at: end })
                        &&& start <= end <= chars.len()
                    },
                    Err(kind) => {
                        &&& r matches Err(e) && e.kind@ == kind && e.pos == text::offset(
                            chars,
                            start,
                        )
                        &&& final(self)@ == (LexerView { chars, at: start })
                    },
                }
            }),
    {
        self.skip_trivia();
        let start: usize = self.pos;
        match self.scan() {
            Ok((token, end)) => {
                self.advance(end);
                Ok(SpannedToken { token, span: Span { start, end: self.pos } })
            },
            Err(kind) => Err(LexError { kind, pos: start }),
        }
    }

    /// Scans everything from the cursor on, up to and with the end of input. The
    /// first fault is the error.
    pub fn tokenize(self) -> (r: Result<Vec<SpannedToken>, LexError>)
        requires
            self.wf(),
        ensures
            match tokens_from(self@.chars, self@.at, Seq::empty()) {
                Ok(tokens) => r matches Ok(v) && v@.len() == tokens.len() && (forall|k: int|
                    0 <= k < tokens.len() ==> matches_token(
                        self@.chars,
                        #[trigger] v@[k],
                        tokens[k],
                    )),
                Err((kind, at)) => r matches Err(e) && e.kind@ == kind && e.pos == text::offset(
                    self@.chars,
                    at,
                ),
            },
    {
        let ghost chars = self@.chars;
        let ghost mut read: Seq<(TokenView, int, int)> = Seq::empty();
        let mut lexer = self;
        let mut out: Vec<SpannedToken> = Vec::new();
        loop
            invariant
                lexer.wf(),
                chars == self@.chars,
                lexer@.chars == chars,
                0 <= lexer@.at <= chars.len(),
                out@.len() == read.len(),
                forall|k: int|
                    0 <= k < read.len() ==> matches_token(chars, #[trigger] out@[k], read[k]),
                tokens_from(chars, self@.at, Seq::empty()) == tokens_from(
                    chars,
                    lexer@.at,
                    read,
                ),
            decreases chars.len() - lexer@.at,
        {
            let ghost at = lexer@.at;
            let ghost before = out@;
            proof {
                lemma_skip_trivia(chars, at);
                lemma_progress(chars, skip_trivia(chars, at));
            }
            match lexer.next_token() {
                Err(e) => {
                    return Err(e);
                },
                Ok(t) => {
                    let done: bool = match t.token {
                        Token::Eof => true,
                        _ => false,
                    };
                    proof {
                        read = read.push((t.token@, skip_trivia(chars, at), lexer@.at));
                    }
                    out.push(t);
                    proof {
                        assert forall|k: int| 0 <= k < read.len() implies matches_token(
                            chars,
                            #[trigger] out@[k],
                            read[k],
                        ) by {
                            if k < before.len() {
                                assert(out@[k] == before[k]);
                            }
                        }
                    }
                    if done {
                        return Ok(out);
                    }
                },
            }
        }
    }
}

/// The scanned token is the given one, at the byte span of its characters.
pub open spec fn matches_token(
    chars: Seq<char>,
    t: SpannedToken,
    expected: (TokenView, int, int),
) -> bool {
    &&& t.token@ == expected.0
    &&& t.span.start == text::offset(chars, expected.1)
    &&& t.span.end == text::offset(chars, expected.2)
}

/// A line ends at a line break or at the end of input, and not before.
pub proof fn lemma_line_break(chars: Seq<char>, i: int)
    requires
        0 <= i <= chars.len(),
    ensures
        i <= line_break(chars, i) <= chars.len(),
        forall|k: int| i <= k < line_break(chars, i) ==> #[trigger] chars[k] != '\n',
        line_break(chars, i) < chars.len() ==> chars[line_break(chars, i)] == '\n',
    decreases chars.len() - i,
{
    if i < chars.len() && chars[i] != '\n' {
        lemma_line_break(chars, i + 1);
    }
}

/// Skipping stays inside the source and stops where a token can start.
pub proof fn lemma_skip_trivia(chars: Seq<char>, i: int)
    requires
        0 <= i <= chars.len(),
    ensures
        i <= skip_trivia(chars, i) <= chars.len(),
        skip_trivia(chars, i) < chars.len() ==> !text::white(chars[skip_trivia(chars, i)])
            && !comment_at(chars, skip_trivia(chars, i)),
    decreases chars.len() - i,
{
    if i < chars.len() {
        if text::white(chars[i]) {
            lemma_skip_trivia(chars, i + 1);
        } else if comment_at(chars, i) {
            lemma_line_break(chars, i + 2);
            lemma_skip_trivia(chars, line_break(chars, i + 2));
        }
    }
}

proof fn lemma_name_end(chars: Seq<char>, i: int)
    requires
        0 <= i <= chars.len(),
    ensures
        i <= name_end(chars, i) <= chars.len(),
    decreases chars.len() - i,
{
    if i < chars.len() && in_name(chars[i]) {
        lemma_name_end(chars, i + 1);
    }
}

proof fn lemma_digits_end(chars: Seq<char>, i: int)
    requires
        0 <= i <= chars.len(),
    ensures
        i <= digits_end(chars, i) <= chars.len(),
    decreases chars.len() - i,
{
    if i < chars.len() && digit(chars[i]) {
        lemma_digits_end(chars, i + 1);
    }
}

proof fn lemma_string_end(chars: Seq<char>, i: int, read: Seq<char>)
    requires
        0 <= i <= chars.len(),
    ensures
        string_from(chars, i, read) matches Some((_, end)) ==> i < end <= chars.len(),
    decreases chars.len() - i,
{
    if i < chars.len() {
        if chars[i] != '\'' {
            lemma_string_end(chars, i + 1, read.push(chars[i]));
        } else if i + 1 < chars.len() && chars[i + 1] == '\'' {
            lemma_string_end(chars, i + 2, read.push('\''));
        }
    }
}

/// Every token but the end of input takes at least one character.
pub proof fn lemma_progress(chars: Seq<char>, i: int)
    requires
        0 <= i <= chars.len(),
    ensures
        token_at(chars, i) matches Ok((token, end)) ==> i <= end <= chars.len() && (token is Eof
            <==> i == chars.len()) && (end == i <==> token is Eof),
    decreases chars.len() - i,
{
    if i < chars.len() {
        lemma_name_end(chars, i + 1);
        lemma_digits_end(chars, i + 1);
        lemma_string_end(chars, i + 1, Seq::empty());
        if digit(chars[i]) {
            let d = digits_end(chars, i);
            if d + 1 < chars.len() && chars[d] == '.' && digit(chars[d + 1]) {
                lemma_digits_end(chars, d + 1);
            }
        }
    }
}

/// The end of input comes again and again, with an empty span at the end.
pub proof fn law_eof_repeats(chars: Seq<char>)
    ensures
        skip_trivia(chars, chars.len() as int) == chars.len(),
        token_at(chars, chars.len() as int) == Ok::<(TokenView, int), KindView>(
            (TokenView::Eof, chars.len() as int),
        ),
        text::offset(chars, chars.len() as int) == vstd::utf8::encode_utf8(chars).len(),
{
    text::lemma_offset_ends(chars);
}

/// What holds of the tokens of a source: there is at least one, the last and only
/// the last is the end of input, spans stand one behind the other, and only white
/// space and comments lie between them.
pub open spec fn well_spaced(chars: Seq<char>, from: int, tokens: Seq<(TokenView, int, int)>) -> bool {
    &&& tokens.len() > 0
    &&& tokens.last().0 is Eof
    &&& tokens.last().1 == chars.len()
    &&& tokens.last().2 == chars.len()
    &&& forall|k: int|
        0 <= k < tokens.len() ==> {
            let t = #[trigger] tokens[k];
            &&& from <= t.1 <= t.2 <= chars.len()
            &&& (t.0 is Eof <==> k == tokens.len() - 1)
            &&& (t.1 < t.2 <==> k < tokens.len() - 1)
        }
    &&& forall|k: int|
        0 <= k < tokens.len() ==> (#[trigger] tokens[k]).1 == skip_trivia(
            chars,
            if k == 0 {
                from
            } else {
                tokens[k - 1].2
            },
        )
    &&& forall|j: int, k: int|
        0 <= j < k < tokens.len() ==> (#[trigger] tokens[j]).2 <= (#[trigger] tokens[k]).1
}

/// A source that scans gives tokens that end in the end of input and nowhere
/// else, that stand in source order without overlap, and that leave out nothing
/// but white space and comments.
pub proof fn law_tokens_cover_source(chars: Seq<char>, i: int)
    requires
        0 <= i <= chars.len(),
    ensures
        tokens_from(chars, i, Seq::empty()) matches Ok(tokens) ==> well_spaced(chars, i, tokens),
{
    lemma_tokens_split(chars, i, Seq::empty());
    lemma_cover(chars, i);
}

/// Reading on behind tokens read already gives those and then the rest.
pub proof fn lemma_tokens_split(chars: Seq<char>, i: int, read: Seq<(TokenView, int, int)>)
    requires
        0 <= i <= chars.len(),
    ensures
        match tokens_from(chars, i, Seq::empty()) {
            Ok(rest) => tokens_from(chars, i, read) == Ok::<
                Seq<(TokenView, int, int)>,
                (KindView, int),
            >(read + rest),
            Err(e) => tokens_from(chars, i, read) == Err::<
                Seq<(TokenView, int, int)>,
                (KindView, int),
            >(e),
        },
    decreases chars.len() - i,
{
    let start = skip_trivia(chars, i);
    lemma_skip_trivia(chars, i);
    lemma_progress(chars, start);
    match token_at(chars, start) {
        Err(_) => {},
        Ok((token, end)) => {
            let one = Seq::empty().push((token, start, end));
            if token is Eof || !(i < end <= chars.len()) {
                assert(read.push((token, start, end)) =~= read + one);
            } else {
                lemma_tokens_split(chars, end, one);
                lemma_tokens_split(chars, end, read.push((token, start, end)));
                match tokens_from(chars, end, Seq::empty()) {
                    Ok(rest) => {
                        assert(read.push((token, start, end)) + rest =~= read + (one + rest));
                    },
                    Err(_) => {},
                }
            }
        },
    }
}

proof fn lemma_cover(chars: Seq<char>, i: int)
    requires
        0 <= i <= chars.len(),
    ensures
        tokens_from(chars, i, Seq::empty()) matches Ok(tokens) ==> well_spaced(chars, i, tokens),
    decreases chars.len() - i,
{
    let start = skip_trivia(chars, i);
    lemma_skip_trivia(chars, i);
    lemma_progress(chars, start);
    match token_at(chars, start) {
        Err(_) => {},
        Ok((token, end)) => {
            let here = (token, start, end);
            let one = Seq::empty().push(here);
            if token is Eof {
                assert(well_spaced(chars, i, one));
            } else {
                lemma_tokens_split(chars, end, one);
                lemma_cover(chars, end);
                if let Ok(rest) = tokens_from(chars, end, Seq::empty()) {
                    let all = one + rest;
                    assert(all.last() == rest.last());
                    assert forall|k: int| 0 <= k < all.len() implies {
                        let t = #[trigger] all[k];
                        &&& i <= t.1 <= t.2 <= chars.len()
                        &&& (t.0 is Eof <==> k == all.len() - 1)
                        &&& (t.1 < t.2 <==> k < all.len() - 1)
                    } by {
                        if k > 0 {
                            assert(all[k] == rest[k - 1]);
                        }
                    }
                    assert forall|k: int| 0 <= k < all.len() implies (#[trigger] all[k]).1
                        == skip_trivia(
                        chars,
                        if k == 0 {
                            i
                        } else {
                            all[k - 1].2
                        },
                    ) by {
                        if k > 0 {
                            assert(all[k] == rest[k - 1]);
                            if k > 1 {
                                assert(all[k - 1] == rest[k - 2]);
                            }
                        }
                    }
                    assert forall|j: int, k: int| 0 <= j < k < all.len() implies (
                    #[trigger] all[j]).2 <= (#[trigger] all[k]).1 by {
                        assert(all[k] == rest[k - 1]);
                        if j > 0 {
                            assert(all[j] == rest[j - 1]);
                        }
                    }
                    assert(well_spaced(chars, i, all));
                }
            }
        },
    }
}

/// The bytes under a token's span are the encoding of the characters that it was
/// scanned from.
pub proof fn law_span_indexes_source(chars: Seq<char>, start: int, end: int)
    requires
        0 <= start <= end <= chars.len(),
    ensures
        vstd::utf8::encode_utf8(chars).subrange(
            text::offset(chars, start) as int,
            text::offset(chars, end) as int,
        ) == vstd::utf8::encode_utf8(chars.subrange(start, end)),
{
    text::lemma_offset_slice(chars, start, end);
}

/// Keywords do not depend on case.
pub proof fn law_keywords_ignore_case(a: Seq<char>, b: Seq<char>)
    requires
        text::lower_text(a) == text::lower_text(b),
        word(a) !is Ident,
    ensures
        word(a) == word(b),
{
}

} // verus!
