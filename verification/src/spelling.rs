//! What tokens look like in a source: the lexical grammar, stated token by token, and
//! that the lexer keeps to it.

use vstd::arithmetic::power::pow;
use vstd::prelude::*;

use crate::lexer;
use crate::lexer::{KindView, TokenView};
use crate::text;

verus! {

/// A letter of the Latin alphabet.
pub open spec fn letter(c: char) -> bool {
    'a' <= c <= 'z' || 'A' <= c <= 'Z'
}

/// A decimal digit.
pub open spec fn decimal_digit(c: char) -> bool {
    '0' <= c <= '9'
}

/// A character that a name can go on with.
pub open spec fn name_part(c: char) -> bool {
    letter(c) || decimal_digit(c) || c == '_'
}

/// A name: letters, digits and underscores, the first no digit.
pub open spec fn is_name(s: Seq<char>) -> bool {
    &&& s.len() > 0
    &&& !decimal_digit(s[0])
    &&& forall|i: int| 0 <= i < s.len() ==> name_part(#[trigger] s[i])
}

/// One or more digits.
pub open spec fn is_digits(s: Seq<char>) -> bool {
    &&& s.len() > 0
    &&& forall|i: int| 0 <= i < s.len() ==> decimal_digit(#[trigger] s[i])
}

/// The number that digits stand for in the decimal system.
pub open spec fn reads(s: Seq<char>) -> int
    decreases s.len(),
{
    if s.len() == 0 {
        0
    } else {
        (s[0] as u32 - '0' as u32) * pow(10, (s.len() - 1) as nat) + reads(s.drop_first())
    }
}

/// The same word but for the case of its letters: `word` is in lower case.
pub open spec fn is_word(s: Seq<char>, word: Seq<char>) -> bool {
    &&& s.len() == word.len()
    &&& forall|i: int|
        0 <= i < s.len() ==> (#[trigger] s[i] == word[i] || 'A' <= s[i] <= 'Z' && s[i] as u32 + 32
            == word[i] as u32)
}

/// A reserved word.
pub open spec fn is_reserved(s: Seq<char>) -> bool {
    ||| is_word(s, "create"@)
    ||| is_word(s, "collection"@)
    ||| is_word(s, "with"@)
    ||| is_word(s, "select"@)
    ||| is_word(s, "from"@)
    ||| is_word(s, "insert"@)
    ||| is_word(s, "into"@)
    ||| is_word(s, "values"@)
}

/// A text with every quote in it doubled.
pub open spec fn quoted(s: Seq<char>) -> Seq<char>
    decreases s.len(),
{
    if s.len() == 0 {
        Seq::empty()
    } else if s[0] == '\'' {
        seq!['\'', '\''] + quoted(s.drop_first())
    } else {
        seq![s[0]] + quoted(s.drop_first())
    }
}

/// The characters are a spelling of the token.
pub open spec fn spells(s: Seq<char>, token: TokenView) -> bool {
    match token {
        TokenView::Create => is_word(s, "create"@),
        TokenView::Collection => is_word(s, "collection"@),
        TokenView::With => is_word(s, "with"@),
        TokenView::Select => is_word(s, "select"@),
        TokenView::From => is_word(s, "from"@),
        TokenView::Insert => is_word(s, "insert"@),
        TokenView::Into => is_word(s, "into"@),
        TokenView::Values => is_word(s, "values"@),
        TokenView::Ident(name) => name == s && is_name(s) && !is_reserved(s),
        TokenView::IntLit(n) => is_digits(s) && n == reads(s),
        TokenView::FloatLit(literal) => {
            &&& literal == s
            &&& exists|dot: int|
                {
                    &&& 0 < dot < s.len() - 1
                    &&& s[dot] == '.'
                    &&& is_digits(#[trigger] s.take(dot))
                    &&& is_digits(s.skip(dot + 1))
                }
        },
        TokenView::StrLit(content) => s == seq!['\''] + quoted(content) + seq!['\''],
        TokenView::LParen => s == seq!['('],
        TokenView::RParen => s == seq![')'],
        TokenView::LBracket => s == seq!['['],
        TokenView::RBracket => s == seq![']'],
        TokenView::Comma => s == seq![','],
        TokenView::Semicolon => s == seq![';'],
        TokenView::Eq => s == seq!['='],
        TokenView::Minus => s == seq!['-'],
        TokenView::Eof => s.len() == 0,
    }
}

/// The token goes no further: what follows it could not be part of it.
pub open spec fn stops(token: TokenView, rest: Seq<char>) -> bool {
    match token {
        TokenView::IntLit(_) => rest.len() > 0 ==> {
            &&& !decimal_digit(rest[0])
            &&& rest[0] == '.' && rest.len() > 1 ==> !decimal_digit(rest[1])
        },
        TokenView::FloatLit(_) => rest.len() > 0 ==> !decimal_digit(rest[0]),
        TokenView::StrLit(_) => rest.len() > 0 ==> rest[0] != '\'',
        TokenView::Eof => rest.len() == 0,
        TokenView::LParen
        | TokenView::RParen
        | TokenView::LBracket
        | TokenView::RBracket
        | TokenView::Comma
        | TokenView::Semicolon
        | TokenView::Eq => true,
        TokenView::Minus => rest.len() > 0 ==> rest[0] != '-',
        _ => rest.len() > 0 ==> !name_part(rest[0]),
    }
}

/// A character that a token can begin with.
pub open spec fn begins_token(c: char) -> bool {
    ||| name_part(c)
    ||| c == '\''
    ||| c == '('
    ||| c == ')'
    ||| c == '['
    ||| c == ']'
    ||| c == ','
    ||| c == ';'
    ||| c == '='
    ||| c == '-'
}

/// The fault at `pos` is a true one.
pub open spec fn is_fault(chars: Seq<char>, kind: KindView, pos: int) -> bool {
    &&& 0 <= pos < chars.len()
    &&& match kind {
        KindView::UnexpectedChar(c) => {
            chars[pos] == c && !begins_token(c) && !text::white(c)
        },
        KindView::UnterminatedString => {
            &&& chars[pos] == '\''
            &&& forall|end: int, content: Seq<char>|
                pos < end <= chars.len() && #[trigger] spells(
                    chars.subrange(pos, end),
                    TokenView::StrLit(content),
                ) ==> end < chars.len() && chars[end] == '\''
        },
        KindView::InvalidNumber(digits) => {
            &&& is_digits(digits)
            &&& reads(digits) > i64::MAX
            &&& pos + digits.len() <= chars.len()
            &&& digits == chars.subrange(pos, pos + digits.len())
            &&& pos + digits.len() < chars.len() ==> !decimal_digit(chars[pos + digits.len()])
        },
    }
}

// ---------------------------------------------------------------------------
// Numbers
// ---------------------------------------------------------------------------

proof fn lemma_reads_push(s: Seq<char>, c: char)
    ensures
        reads(s.push(c)) == reads(s) * 10 + (c as u32 - '0' as u32),
    decreases s.len(),
{
    let all = s.push(c);
    if s.len() == 0 {
        assert(all.drop_first() =~= Seq::<char>::empty());
        vstd::arithmetic::power::lemma_pow0(10);
        assert(reads(Seq::<char>::empty()) == 0);
    } else {
        let rest = s.drop_first();
        assert(all.drop_first() =~= rest.push(c));
        lemma_reads_push(rest, c);
        let d = s[0] as u32 - '0' as u32;
        let p = pow(10, (s.len() - 1) as nat);
        vstd::arithmetic::power::lemma_pow_adds(10, (s.len() - 1) as nat, 1);
        vstd::arithmetic::power::lemma_pow1(10);
        assert(pow(10, s.len() as nat) == p * 10);
        assert(d * (p * 10) + (reads(rest) * 10) == (d * p + reads(rest)) * 10) by (nonlinear_arith);
        assert(all[0] == s[0]);
    }
}

/// The lexer reads digits in the decimal system.
pub proof fn law_digits_are_decimal(s: Seq<char>)
    requires
        forall|i: int| 0 <= i < s.len() ==> decimal_digit(#[trigger] s[i]),
    ensures
        lexer::digits_value(s) == reads(s),
    decreases s.len(),
{
    if s.len() > 0 {
        let before = s.drop_last();
        assert forall|i: int| 0 <= i < before.len() implies decimal_digit(#[trigger] before[i]) by {
            assert(before[i] == s[i]);
        }
        law_digits_are_decimal(before);
        assert(s =~= before.push(s.last()));
        assert(decimal_digit(s[s.len() - 1]));
        lemma_reads_push(before, s.last());
    }
}

/// A numeral reads as its number, without a zero in front of it.
pub proof fn law_numeral_reads_back(n: nat)
    ensures
        is_digits(text::decimal(n)),
        reads(text::decimal(n)) == n,
        text::decimal(n).len() > 1 ==> text::decimal(n)[0] != '0',
    decreases n,
{
    if n < 10 {
        let s = text::decimal(n);
        assert(s =~= Seq::<char>::empty().push(text::digit_char(n)));
        lemma_reads_push(Seq::empty(), text::digit_char(n));
        assert(reads(Seq::<char>::empty()) == 0);
    } else {
        let before = text::decimal(n / 10);
        law_numeral_reads_back(n / 10);
        let c = text::digit_char(n % 10);
        assert(text::decimal(n) =~= before.push(c));
        lemma_reads_push(before, c);
        assert forall|i: int| 0 <= i < text::decimal(n).len() implies decimal_digit(
            #[trigger] text::decimal(n)[i],
        ) by {
            if i < before.len() {
                assert(decimal_digit(before[i]));
            }
        }
        assert(text::decimal(n)[0] == before[0]);
        if before.len() == 1 {
            assert(before =~= Seq::<char>::empty().push(before[0]));
            lemma_reads_push(Seq::empty(), before[0]);
            assert(reads(Seq::<char>::empty()) == 0);
        }
    }
}

/// A negative number has a minus sign and the numeral of its size.
pub proof fn law_signed_numeral(n: int)
    ensures
        n >= 0 ==> text::signed_decimal(n) == text::decimal(n as nat),
        n < 0 ==> text::signed_decimal(n) == seq!['-'] + text::decimal((-n) as nat),
{
    reveal_strlit("-");
    assert("-"@ =~= seq!['-']);
}

// ---------------------------------------------------------------------------
// Tokens
// ---------------------------------------------------------------------------

proof fn lemma_word(s: Seq<char>, word: Seq<char>)
    requires
        forall|i: int| 0 <= i < word.len() ==> 'a' <= #[trigger] word[i] <= 'z',
    ensures
        text::lower_text(s) == word <==> is_word(s, word),
{
    let low = text::lower_text(s);
    if is_word(s, word) {
        assert forall|i: int| 0 <= i < low.len() implies low[i] == word[i] by {
            let c = s[i];
            if c != word[i] {
                assert(c as u32 + 32 == word[i] as u32);
            } else {
                assert('a' <= word[i] <= 'z');
            }
        }
        assert(low =~= word);
    }
    if low == word {
        assert forall|i: int| 0 <= i < s.len() implies (#[trigger] s[i] == word[i] || 'A' <= s[i]
            <= 'Z' && s[i] as u32 + 32 == word[i] as u32) by {
            assert(low[i] == word[i]);
        }
    }
}

proof fn lemma_words(s: Seq<char>)
    ensures
        spells(s, lexer::word(s)) || !is_name(s),
        lexer::word(s) is Ident <==> !is_reserved(s),
{
    reveal_strlit("create");
    reveal_strlit("collection");
    reveal_strlit("with");
    reveal_strlit("select");
    reveal_strlit("from");
    reveal_strlit("insert");
    reveal_strlit("into");
    reveal_strlit("values");
    lemma_word(s, "create"@);
    lemma_word(s, "collection"@);
    lemma_word(s, "with"@);
    lemma_word(s, "select"@);
    lemma_word(s, "from"@);
    lemma_word(s, "insert"@);
    lemma_word(s, "into"@);
    lemma_word(s, "values"@);
}

proof fn lemma_name_run(chars: Seq<char>, i: int)
    requires
        0 <= i <= chars.len(),
    ensures
        i <= lexer::name_end(chars, i) <= chars.len(),
        forall|k: int| i <= k < lexer::name_end(chars, i) ==> name_part(#[trigger] chars[k]),
        lexer::name_end(chars, i) < chars.len() ==> !name_part(chars[lexer::name_end(chars, i)]),
    decreases chars.len() - i,
{
    if i < chars.len() && lexer::in_name(chars[i]) {
        lemma_name_run(chars, i + 1);
    }
}

proof fn lemma_digit_run(chars: Seq<char>, i: int)
    requires
        0 <= i <= chars.len(),
    ensures
        i <= lexer::digits_end(chars, i) <= chars.len(),
        forall|k: int| i <= k < lexer::digits_end(chars, i) ==> decimal_digit(#[trigger] chars[k]),
        lexer::digits_end(chars, i) < chars.len() ==> !decimal_digit(
            chars[lexer::digits_end(chars, i)],
        ),
    decreases chars.len() - i,
{
    if i < chars.len() && lexer::digit(chars[i]) {
        lemma_digit_run(chars, i + 1);
    }
}

proof fn lemma_quoted_concat(a: Seq<char>, b: Seq<char>)
    ensures
        quoted(a + b) == quoted(a) + quoted(b),
    decreases a.len(),
{
    if a.len() == 0 {
        assert(a + b =~= b);
        assert(quoted(a) + quoted(b) =~= quoted(b));
    } else {
        lemma_quoted_concat(a.drop_first(), b);
        assert((a + b).drop_first() =~= a.drop_first() + b);
        assert((a + b)[0] == a[0]);
        assert(quoted(a + b) =~= quoted(a) + quoted(b));
    }
}

proof fn lemma_quoted_push(s: Seq<char>, c: char)
    ensures
        quoted(s.push(c)) == quoted(s) + if c == '\'' {
            seq!['\'', '\'']
        } else {
            seq![c]
        },
{
    assert(s.push(c) =~= s + seq![c]);
    lemma_quoted_concat(s, seq![c]);
    assert(seq![c].drop_first() =~= Seq::<char>::empty());
    assert(quoted(Seq::<char>::empty()) =~= Seq::<char>::empty());
    assert(quoted(seq![c]) =~= if c == '\'' {
        seq!['\'', '\'']
    } else {
        seq![c]
    });
}

/// Reading a string literal that starts at `start`, with what is behind its quote read
/// up to `i`.
proof fn lemma_string(chars: Seq<char>, start: int, i: int, read: Seq<char>)
    requires
        0 <= start < i <= chars.len(),
        chars[start] == '\'',
        chars.subrange(start + 1, i) == quoted(read),
    ensures
        match lexer::string_from(chars, i, read) {
            Some((content, end)) => {
                &&& i < end <= chars.len()
                &&& spells(chars.subrange(start, end), TokenView::StrLit(content))
                &&& end < chars.len() ==> chars[end] != '\''
            },
            None => true,
        },
    decreases chars.len() - i,
{
    if i < chars.len() {
        lemma_quoted_push(read, chars[i]);
        if chars[i] != '\'' {
            assert(chars.subrange(start + 1, i + 1) =~= quoted(read.push(chars[i])));
            lemma_string(chars, start, i + 1, read.push(chars[i]));
        } else if i + 1 < chars.len() && chars[i + 1] == '\'' {
            assert(chars.subrange(start + 1, i + 2) =~= quoted(read.push('\'')));
            lemma_string(chars, start, i + 2, read.push('\''));
        } else {
            assert(chars.subrange(start, i + 1) =~= seq!['\''] + quoted(read) + seq!['\'']);
        }
    }
}

/// Where a literal with the given content is written behind what was read, the reading
/// finds its end, unless a quote follows.
proof fn lemma_string_found(chars: Seq<char>, i: int, read: Seq<char>, content: Seq<char>)
    requires
        0 <= i,
        i + quoted(content).len() < chars.len(),
        chars.subrange(i, i + quoted(content).len() + 1) == quoted(content) + seq!['\''],
        i + quoted(content).len() + 1 < chars.len() ==> chars[i + quoted(content).len() + 1]
            != '\'',
    ensures
        lexer::string_from(chars, i, read) is Some,
    decreases content.len(),
{
    let q = quoted(content);
    let s = chars.subrange(i, i + q.len() + 1);
    if content.len() == 0 {
        assert(s[0] == '\'');
        assert(chars[i] == '\'');
    } else {
        let rest = content.drop_first();
        let r = quoted(rest);
        if content[0] == '\'' {
            assert(q.len() == r.len() + 2);
            assert(s[0] == '\'' && s[1] == '\'');
            assert(chars[i] == s[0] && chars[i + 1] == s[1]);
            assert(chars.subrange(i + 2, i + 2 + r.len() + 1) =~= r + seq!['\'']) by {
                assert forall|k: int| 0 <= k < r.len() + 1 implies chars[i + 2 + k] == (r + seq![
                    '\'',
                ])[k] by {
                    assert(s[k + 2] == (q + seq!['\''])[k + 2]);
                }
            }
            lemma_string_found(chars, i + 2, read.push('\''), rest);
        } else {
            assert(q.len() == r.len() + 1);
            assert(s[0] == content[0]);
            assert(chars[i] == s[0]);
            assert(chars.subrange(i + 1, i + 1 + r.len() + 1) =~= r + seq!['\'']) by {
                assert forall|k: int| 0 <= k < r.len() + 1 implies chars[i + 1 + k] == (r + seq![
                    '\'',
                ])[k] by {
                    assert(s[k + 1] == (q + seq!['\''])[k + 1]);
                }
            }
            lemma_string_found(chars, i + 1, read.push(chars[i]), rest);
        }
    }
}

proof fn lemma_unterminated(chars: Seq<char>, pos: int)
    requires
        0 <= pos < chars.len(),
        chars[pos] == '\'',
        lexer::string_from(chars, pos + 1, Seq::empty()) is None,
    ensures
        is_fault(chars, KindView::UnterminatedString, pos),
{
    assert forall|end: int, content: Seq<char>|
        pos < end <= chars.len() && #[trigger] spells(
            chars.subrange(pos, end),
            TokenView::StrLit(content),
        ) implies end < chars.len() && chars[end] == '\'' by {
        let q = quoted(content);
        let s = chars.subrange(pos, end);
        assert(s == seq!['\''] + q + seq!['\'']);
        assert(end == pos + q.len() + 2);
        if end == chars.len() || chars[end] != '\'' {
            assert(chars.subrange(pos + 1, pos + 1 + q.len() + 1) =~= q + seq!['\'']) by {
                assert forall|k: int| 0 <= k < q.len() + 1 implies chars[pos + 1 + k] == (q + seq![
                    '\'',
                ])[k] by {
                    assert(s[k + 1] == (seq!['\''] + q + seq!['\''])[k + 1]);
                }
            }
            lemma_string_found(chars, pos + 1, Seq::empty(), content);
        }
    }
}

/// The token at a place is spelled by the characters that it takes, and takes as many as
/// it can; a fault is a true one.
pub proof fn law_token_is_spelled(chars: Seq<char>, i: int)
    requires
        0 <= i <= chars.len(),
        i < chars.len() ==> !text::white(chars[i]),
        i + 1 < chars.len() ==> chars[i] != '-' || chars[i + 1] != '-',
    ensures
        match lexer::token_at(chars, i) {
            Ok((token, end)) => {
                &&& i <= end <= chars.len()
                &&& spells(chars.subrange(i, end), token)
                &&& stops(token, chars.skip(end))
            },
            Err(kind) => is_fault(chars, kind, i),
        },
{
    if i < chars.len() {
        let c = chars[i];
        if lexer::punctuation(c) is Some {
            assert(chars.subrange(i, i + 1) =~= seq![c]);
        } else if c == '\'' {
            assert(chars.subrange(i + 1, i + 1) =~= quoted(Seq::<char>::empty()));
            lemma_string(chars, i, i + 1, Seq::empty());
            if lexer::string_from(chars, i + 1, Seq::empty()) is None {
                lemma_unterminated(chars, i);
            }
        } else if lexer::begins_name(c) {
            lemma_name_run(chars, i);
            let e = lexer::name_end(chars, i);
            assert(e > i) by {
                lemma_name_run(chars, i + 1);
            }
            let s = chars.subrange(i, e);
            assert(is_name(s));
            lemma_words(s);
        } else if lexer::digit(c) {
            lemma_digit_run(chars, i);
            let d = lexer::digits_end(chars, i);
            assert(d > i) by {
                lemma_digit_run(chars, i + 1);
            }
            let s = chars.subrange(i, d);
            law_digits_are_decimal(s);
            if d + 1 < chars.len() && chars[d] == '.' && lexer::digit(chars[d + 1]) {
                lemma_digit_run(chars, d + 1);
                let e = lexer::digits_end(chars, d + 1);
                assert(e > d + 1) by {
                    lemma_digit_run(chars, d + 2);
                }
                let all = chars.subrange(i, e);
                assert(all.take(d - i) =~= s);
                assert(is_digits(all.take(d - i)));
                assert(is_digits(all.skip(d - i + 1)));
            } else {
                assert(is_digits(s));
                if reads(s) > i64::MAX {
                    assert(s =~= chars.subrange(i, i + s.len()));
                }
            }
        }
    } else {
        assert(chars.subrange(i, i).len() == 0);
    }
}

/// A comment that starts at `dash`, between `from` and `to`, goes on at `k`: there is no
/// line break from its two dashes up to there.
pub open spec fn comments(chars: Seq<char>, dash: int, from: int, to: int, k: int) -> bool {
    &&& from <= dash <= k
    &&& dash + 1 < to
    &&& chars[dash] == '-'
    &&& chars[dash + 1] == '-'
    &&& forall|j: int| dash <= j <= k ==> #[trigger] chars[j] != '\n'
}

/// What lies between two tokens: characters that are white space or in a comment, which
/// goes from two dashes to the end of their line.
pub open spec fn is_gap(chars: Seq<char>, from: int, to: int) -> bool {
    forall|k: int|
        from <= k < to ==> text::white(#[trigger] chars[k]) || exists|dash: int| #[trigger]
            comments(chars, dash, from, to, k)
}

/// Whether the place is in a comment that starts between `from` and it.
pub open spec fn in_comment(chars: Seq<char>, from: int, at: int) -> bool {
    exists|dash: int| #[trigger] comments(chars, dash, from, at, at - 1)
}

/// What is skipped is a gap.
pub proof fn lemma_gap(chars: Seq<char>, i: int)
    requires
        0 <= i <= chars.len(),
    ensures
        i <= lexer::skip_trivia(chars, i) <= chars.len(),
        is_gap(chars, i, lexer::skip_trivia(chars, i)),
    decreases chars.len() - i,
{
    let end = lexer::skip_trivia(chars, i);
    if i < chars.len() {
        let white = text::white(chars[i]);
        let next = if white {
            i + 1
        } else if lexer::comment_at(chars, i) {
            lexer::lemma_line_break(chars, i + 2);
            lexer::line_break(chars, i + 2)
        } else {
            i
        };
        if next > i {
            lemma_gap(chars, next);
            assert forall|k: int| i <= k < end implies text::white(#[trigger] chars[k]) || exists|
                dash: int,
            | #[trigger] comments(chars, dash, i, end, k) by {
                if k < next {
                    if !white {
                        assert(comments(chars, i, i, end, k));
                    }
                } else if !text::white(chars[k]) {
                    let dash = choose|dash: int| #[trigger] comments(chars, dash, next, end, k);
                    assert(comments(chars, dash, i, end, k));
                }
            }
        }
    }
}

/// Skipping does not end in a comment.
pub proof fn lemma_out_of_comment(chars: Seq<char>, i: int)
    requires
        0 <= i <= chars.len(),
    ensures
        lexer::skip_trivia(chars, i) < chars.len() ==> !in_comment(
            chars,
            i,
            lexer::skip_trivia(chars, i),
        ),
    decreases chars.len() - i,
{
    let end = lexer::skip_trivia(chars, i);
    lexer::lemma_skip_trivia(chars, i);
    if i < chars.len() && end < chars.len() {
        let white = text::white(chars[i]);
        let next = if white {
            i + 1
        } else if lexer::comment_at(chars, i) {
            lexer::lemma_line_break(chars, i + 2);
            lexer::line_break(chars, i + 2)
        } else {
            i
        };
        if next > i {
            lemma_out_of_comment(chars, next);
            if !white {
                lemma_gap_passes_break(chars, next);
            }
        }
        if in_comment(chars, i, end) {
            let dash = choose|dash: int| #[trigger] comments(chars, dash, i, end, end - 1);
            if dash >= next {
                assert(comments(chars, dash, next, end, end - 1));
            } else {
                assert(!white);
                assert(chars[next] == '\n');
            }
        }
    }
}

/// A gap up to a place where something else stands is skipped.
pub proof fn lemma_gap_is_skipped(chars: Seq<char>, i: int, to: int)
    requires
        0 <= i <= to <= chars.len(),
        is_gap(chars, i, to),
        to < chars.len() ==> !text::white(chars[to]) && chars[to] != '-' && !in_comment(
            chars,
            i,
            to,
        ),
    ensures
        lexer::skip_trivia(chars, i) == to,
    decreases to - i,
{
    if i == to {
        lemma_skip_stays(chars, to);
    } else if text::white(chars[i]) {
        lemma_gap_from(chars, i, i + 1, to);
        lemma_gap_is_skipped(chars, i + 1, to);
        lemma_skip_white(chars, i);
    } else {
        let b = lemma_comment_in_gap(chars, i, to);
        lemma_skip_comment(chars, i);
        if b < to {
            lemma_gap_from(chars, i, b, to);
            lemma_gap_is_skipped(chars, b, to);
        } else {
            lemma_skip_stays(chars, to);
        }
    }
}

proof fn lemma_skip_stays(chars: Seq<char>, i: int)
    requires
        0 <= i <= chars.len(),
        i < chars.len() ==> !text::white(chars[i]) && chars[i] != '-',
    ensures
        lexer::skip_trivia(chars, i) == i,
{
}

proof fn lemma_skip_white(chars: Seq<char>, i: int)
    requires
        0 <= i < chars.len(),
        text::white(chars[i]),
    ensures
        lexer::skip_trivia(chars, i) == lexer::skip_trivia(chars, i + 1),
{
}

proof fn lemma_skip_comment(chars: Seq<char>, i: int)
    requires
        0 <= i,
        i + 1 < chars.len(),
        chars[i] == '-',
        chars[i + 1] == '-',
    ensures
        lexer::skip_trivia(chars, i) == lexer::skip_trivia(
            chars,
            lexer::line_break(chars, i + 2),
        ),
{
    lexer::lemma_line_break(chars, i + 2);
}

/// What is no white space in a gap starts a comment, which ends with its line, or with the
/// gap at the end of the text.
proof fn lemma_comment_in_gap(chars: Seq<char>, i: int, to: int) -> (b: int)
    requires
        0 <= i < to <= chars.len(),
        is_gap(chars, i, to),
        !text::white(chars[i]),
        to < chars.len() ==> !in_comment(chars, i, to),
    ensures
        b == lexer::line_break(chars, i + 2),
        i + 1 < chars.len(),
        chars[i] == '-',
        chars[i + 1] == '-',
        i < b <= to,
        b < to ==> chars[b] == '\n',
        b == to ==> to == chars.len(),
{
    let dash = choose|dash: int| #[trigger] comments(chars, dash, i, to, i);
    assert(comments(chars, dash, i, to, i));
    lexer::lemma_line_break(chars, i + 2);
    let b = lexer::line_break(chars, i + 2);
    if b >= to && to < chars.len() {
        assert(comments(chars, i, i, to, to - 1));
    }
    b
}

/// A gap is one also from a later place on, if no comment before reaches that far.
proof fn lemma_gap_from(chars: Seq<char>, i: int, m: int, to: int)
    requires
        0 <= i < m <= to <= chars.len(),
        is_gap(chars, i, to),
        m == i + 1 && text::white(chars[i]) || m < to && chars[m] == '\n',
        to < chars.len() ==> !in_comment(chars, i, to),
    ensures
        is_gap(chars, m, to),
        to < chars.len() ==> !in_comment(chars, m, to),
{
    assert forall|k: int| m <= k < to implies text::white(#[trigger] chars[k]) || exists|dash: int|
     #[trigger] comments(chars, dash, m, to, k) by {
        if !text::white(chars[k]) {
            let dash = choose|dash: int| #[trigger] comments(chars, dash, i, to, k);
            if dash < m {
                if chars[m] == '\n' && m < to && m <= k {
                    assert(false);
                } else {
                    assert(dash == i);
                    assert(chars[i] == '-');
                    assert(false);
                }
            }
            assert(comments(chars, dash, m, to, k));
        }
    }
    if to < chars.len() && in_comment(chars, m, to) {
        let dash = choose|dash: int| #[trigger] comments(chars, dash, m, to, to - 1);
        assert(comments(chars, dash, i, to, to - 1));
    }
}

proof fn lemma_gap_passes_break(chars: Seq<char>, i: int)
    requires
        0 <= i <= chars.len(),
    ensures
        i < chars.len() && chars[i] == '\n' ==> lexer::skip_trivia(chars, i) > i,
{
    if i < chars.len() && chars[i] == '\n' {
        lexer::lemma_skip_trivia(chars, i + 1);
    }
}

/// The tokens of a source are spelled by it: each by the characters of its span, of which
/// it takes as many as it can, with nothing but white space and comments before it; none
/// is in a comment. If the source does not scan, the reported fault is a true one.
pub proof fn law_tokens_are_spelled(chars: Seq<char>, from: int)
    requires
        0 <= from <= chars.len(),
    ensures
        match lexer::tokens_from(chars, from, Seq::empty()) {
            Ok(tokens) => forall|k: int|
                0 <= k < tokens.len() ==> {
                    let (token, start, end) = #[trigger] tokens[k];
                    &&& 0 <= start <= end <= chars.len()
                    &&& spells(chars.subrange(start, end), token)
                    &&& stops(token, chars.skip(end))
                    &&& is_gap(
                        chars,
                        if k == 0 {
                            from
                        } else {
                            tokens[k - 1].2
                        },
                        start,
                    )
                    &&& start < chars.len() ==> !in_comment(
                        chars,
                        if k == 0 {
                            from
                        } else {
                            tokens[k - 1].2
                        },
                        start,
                    )
                },
            Err((kind, pos)) => is_fault(chars, kind, pos),
        },
    decreases chars.len() - from,
{
    let start = lexer::skip_trivia(chars, from);
    lemma_gap(chars, from);
    lemma_out_of_comment(chars, from);
    lexer::lemma_skip_trivia(chars, from);
    lexer::lemma_progress(chars, start);
    law_token_is_spelled(chars, start);
    match lexer::token_at(chars, start) {
        Err(_) => {},
        Ok((token, end)) => {
            let one = Seq::empty().push((token, start, end));
            if !(token is Eof) {
                law_tokens_are_spelled(chars, end);
                lexer::lemma_tokens_split(chars, end, one);
                if let Ok(rest) = lexer::tokens_from(chars, end, Seq::empty()) {
                    let all = one + rest;
                    assert forall|k: int| 0 <= k < all.len() implies {
                        let (token, start, end) = #[trigger] all[k];
                        &&& 0 <= start <= end <= chars.len()
                        &&& spells(chars.subrange(start, end), token)
                        &&& stops(token, chars.skip(end))
                        &&& is_gap(
                            chars,
                            if k == 0 {
                                from
                            } else {
                                all[k - 1].2
                            },
                            start,
                        )
                        &&& start < chars.len() ==> !in_comment(
                            chars,
                            if k == 0 {
                                from
                            } else {
                                all[k - 1].2
                            },
                            start,
                        )
                    } by {
                        if k > 0 {
                            assert(all[k] == rest[k - 1]);
                            if k > 1 {
                                assert(all[k - 1] == rest[k - 2]);
                            }
                        }
                    }
                }
            }
        },
    }
}

/// White space is what Unicode calls so: no character of a token is any, and the blanks
/// and line breaks of ASCII are.
pub proof fn law_white_space(c: char)
    ensures
        begins_token(c) || c == '.' ==> !text::white(c),
        c == ' ' || c == '\n' || c == '\r' || c == '\t' ==> text::white(c),
        ({
            let u = c as u32;
            text::white(c) <==> {
                ||| 9 <= u <= 13
                ||| u == 32
                ||| u == 0x85
                ||| u == 0xa0
                ||| u == 0x1680
                ||| 0x2000 <= u <= 0x200a
                ||| u == 0x2028
                ||| u == 0x2029
                ||| u == 0x202f
                ||| u == 0x205f
                ||| u == 0x3000
            }
        }),
{
}

// ---------------------------------------------------------------------------
// Positions
// ---------------------------------------------------------------------------

/// The line of a place is one more than the line breaks before it, and its column counts
/// from the last of them.
pub proof fn law_position(chars: Seq<char>, n: nat)
    requires
        n <= chars.len(),
    ensures
        ({
            let (line, col) = lexer::position(chars, n);
            let start = n - col + 1;
            &&& line == 1 + chars.take(n as int).filter(|c: char| c == '\n').len()
            &&& 0 <= start <= n
            &&& start == 0 || chars[start - 1] == '\n'
            &&& forall|k: int| start <= k < n ==> #[trigger] chars[k] != '\n'
        }),
    decreases n,
{
    let breaks = |c: char| c == '\n';
    reveal(Seq::filter);
    if n > 0 {
        law_position(chars, (n - 1) as nat);
        let now = chars.take(n as int);
        assert(now.drop_last() =~= chars.take(n - 1));
        assert(now.last() == chars[n - 1]);
    }
}

/// The characters that start before a byte are all before it, and the next one is not.
pub proof fn law_starts_before(chars: Seq<char>, n: nat, pos: int)
    requires
        n <= chars.len(),
    ensures
        ({
            let k = lexer::starts_before(chars, n, pos);
            &&& k <= n
            &&& forall|i: int| 0 <= i < k ==> #[trigger] text::offset(chars, i) < pos
            &&& forall|i: int| k <= i < n ==> #[trigger] text::offset(chars, i) >= pos
        }),
    decreases n,
{
    if n > 0 {
        if text::offset(chars, n - 1) < pos {
            assert forall|i: int| 0 <= i < n implies #[trigger] text::offset(chars, i) < pos by {
                text::lemma_offset_rises(chars, i, n - 1);
            }
        } else {
            law_starts_before(chars, (n - 1) as nat, pos);
        }
    }
}

} // verus!
