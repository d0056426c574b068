//! What the shell's texts come to: where statements end, how tables line up, and what its
//! commands answer.

use vstd::prelude::*;

use crate::editor::InputView;
use crate::engine::catalog;
use crate::lexer;
use crate::metadata::common::{ColumnDefView, ConfigView, SchemaView};
use crate::query::RegValue;
use crate::shell::meta;
use crate::shell::meta::ListedView;
use crate::shell::repl::{Outcome, ReplView, RunningView, StepView};
use crate::shell::split;
use crate::shell::split::Mode;
use crate::shell::table;
use crate::shell::table::TableView;
use crate::spelling;
use crate::text;

verus! {

// ---------------------------------------------------------------------------
// Statements
// ---------------------------------------------------------------------------

/// Two dashes at a place.
pub open spec fn dashes(s: Seq<char>, i: int) -> bool {
    i + 1 < s.len() && s[i] == '-' && s[i + 1] == '-'
}

/// Neither a quote nor two dashes at a place.
pub open spec fn ordinary(s: Seq<char>, i: int) -> bool {
    s[i] != '\'' && !dashes(s, i)
}

/// What a place stands in: at the start, in statement text. That goes on while there is
/// no quote and no comment. A quote starts a string, which goes to the next quote; two
/// dashes start a comment, which goes to the end of the line.
pub proof fn law_strings_and_comments(s: Seq<char>, a: int, b: int)
    requires
        0 <= a <= b <= s.len(),
        split::mode_at(s, a) is Plain,
    ensures
        split::mode_at(s, 0) is Plain,
        (forall|k: int| a <= k < b ==> #[trigger] ordinary(s, k)) ==> split::mode_at(s, b) is Plain,
        a < b && s[a] == '\'' && (forall|k: int| a < k < b ==> #[trigger] s[k] != '\'') ==> {
            &&& split::mode_at(s, b) is Quoted
            &&& b < s.len() && s[b] == '\'' ==> split::mode_at(s, b + 1) is Plain
        },
        a < b && dashes(s, a) && (forall|k: int| a <= k < b ==> #[trigger] s[k] != '\n') ==> {
            &&& split::mode_at(s, b) is Comment
            &&& b < s.len() && s[b] == '\n' ==> split::mode_at(s, b + 1) is Plain
        },
    decreases b - a,
{
    if a < b {
        law_strings_and_comments(s, a, b - 1);
        if forall|k: int| a <= k < b ==> #[trigger] ordinary(s, k) {
            assert(ordinary(s, b - 1));
        }
        if a < b - 1 {
            let _ = s[b - 1];
        }
    }
}

/// A statement ends at a `;` in statement text, and nowhere else.
pub proof fn law_statement_ends(s: Seq<char>, i: int)
    ensures
        split::ends(s, i) <==> 0 <= i < s.len() && s[i] == ';' && split::mode_at(s, i) is Plain,
{
}

proof fn lemma_same_line(s: Seq<char>, i: int)
    requires
        0 <= i <= s.len(),
    ensures
        ({
            let b = lexer::line_break(s, i);
            &&& i <= b <= s.len()
            &&& split::line_end(s, i) == if b < s.len() {
                b + 1
            } else {
                b
            }
            &&& b < s.len() ==> s[b] == '\n'
        }),
    decreases s.len() - i,
{
    if i < s.len() && s[i] != '\n' {
        lemma_same_line(s, i + 1);
    }
}

proof fn lemma_blank(s: Seq<char>, i: int)
    requires
        0 <= i <= s.len(),
    ensures
        ({
            let k = lexer::skip_trivia(s, i);
            &&& i <= k <= s.len()
            &&& split::blank_from(s, i) <==> k == s.len() || s[k] == ';' && text::all_white(
                s.skip(k + 1),
            )
        }),
    decreases s.len() - i,
{
    lexer::lemma_skip_trivia(s, i);
    if i < s.len() {
        if text::white(s[i]) {
            lemma_blank(s, i + 1);
            assert(lexer::skip_trivia(s, i) == lexer::skip_trivia(s, i + 1));
            assert(split::blank_from(s, i) == split::blank_from(s, i + 1));
        } else if lexer::comment_at(s, i) {
            let b = lexer::line_break(s, i + 2);
            lexer::lemma_line_break(s, i + 2);
            lemma_same_line(s, i + 2);
            if b < s.len() {
                assert(text::white(s[b]));
                lemma_blank(s, b + 1);
                assert(lexer::skip_trivia(s, b) == lexer::skip_trivia(s, b + 1));
                assert(split::line_end(s, i + 2) == b + 1);
                assert(split::blank_from(s, i) == split::blank_from(s, b + 1));
            } else {
                assert(split::line_end(s, i + 2) == b);
                assert(split::blank_from(s, s.len() as int));
                assert(lexer::skip_trivia(s, b) == b);
            }
            assert(lexer::skip_trivia(s, i) == lexer::skip_trivia(s, b));
        } else {
            assert(lexer::skip_trivia(s, i) == i);
        }
    }
}

/// A text is blank exactly if it has no token, or none but a `;` with nothing but white
/// space behind it: all before is white space and comments.
pub proof fn law_blank_has_no_token(s: Seq<char>)
    ensures
        split::blank(s) <==> exists|k: int|
            {
                &&& 0 <= k <= s.len()
                &&& #[trigger] spelling::is_gap(s, 0, k)
                &&& k == s.len() || s[k] == ';' && !spelling::in_comment(s, 0, k)
                    && text::all_white(s.skip(k + 1))
            },
{
    lemma_blank(s, 0);
    let start = lexer::skip_trivia(s, 0);
    spelling::lemma_gap(s, 0);
    spelling::lemma_out_of_comment(s, 0);
    lexer::lemma_skip_trivia(s, 0);
    if split::blank(s) {
        assert(spelling::is_gap(s, 0, start));
    }
    if exists|k: int|
        {
            &&& 0 <= k <= s.len()
            &&& #[trigger] spelling::is_gap(s, 0, k)
            &&& k == s.len() || s[k] == ';' && !spelling::in_comment(s, 0, k)
                && text::all_white(s.skip(k + 1))
        } {
        let k = choose|k: int|
            {
                &&& 0 <= k <= s.len()
                &&& #[trigger] spelling::is_gap(s, 0, k)
                &&& k == s.len() || s[k] == ';' && !spelling::in_comment(s, 0, k)
                    && text::all_white(s.skip(k + 1))
            };
        spelling::lemma_gap_is_skipped(s, 0, k);
    }
}

/// The statements of a text are its pieces that are not blank, in order; what is left
/// behind the last piece stays, unless it is blank.
pub proof fn law_only_blank_pieces_are_dropped(s: Seq<char>, n: int, p: Seq<char>)
    requires
        0 <= n <= s.len(),
    ensures
        split::statements(s, n).contains(p) <==> split::pieces(s, n).contains(p) && !split::blank(
            p,
        ),
        split::remainder(s) == s.skip(split::cut(s, s.len() as int)) || split::remainder(s).len()
            == 0 && split::blank(s.skip(split::cut(s, s.len() as int))),
        split::remainder(s).len() > 0 ==> !split::blank(split::remainder(s)),
{
    let wanted = |p: Seq<char>| !split::blank(p);
    if split::statements(s, n).contains(p) {
        let i = choose|i: int|
            0 <= i < split::statements(s, n).len() && split::statements(s, n)[i] == p;
        split::pieces(s, n).lemma_filter_pred(wanted, i);
        assert(split::pieces(s, n).contains(split::pieces(s, n).filter(wanted)[i])) by {
            lemma_filter_from(split::pieces(s, n), wanted, i);
        }
    }
    if split::pieces(s, n).contains(p) && !split::blank(p) {
        let i = choose|i: int| 0 <= i < split::pieces(s, n).len() && split::pieces(s, n)[i] == p;
        assert(wanted(split::pieces(s, n)[i]));
        split::pieces(s, n).lemma_filter_contains_rev(wanted, p);
    }
}

/// Statements come in the order of the text: those of a longer part of it begin with those
/// of a shorter one.
pub proof fn law_statements_in_order(s: Seq<char>, m: int, n: int)
    requires
        0 <= m <= n <= s.len(),
    ensures
        split::statements(s, m).len() <= split::statements(s, n).len(),
        split::statements(s, n).take(split::statements(s, m).len() as int) == split::statements(
            s,
            m,
        ),
    decreases n - m,
{
    let few = split::statements(s, m);
    if m == n {
        assert(few.take(few.len() as int) =~= few);
    } else {
        law_statements_in_order(s, m, n - 1);
        let before = split::pieces(s, n - 1);
        let some = split::statements(s, n - 1);
        let all = split::statements(s, n);
        reveal(Seq::filter);
        if split::ends(s, n - 1) {
            let piece = s.subrange(split::cut(s, n - 1), n);
            assert(split::pieces(s, n) == before.push(piece));
            assert(before.push(piece).drop_last() =~= before);
            assert(all == some || all == some.push(piece));
        }
        assert(all.take(few.len() as int) =~= some.take(few.len() as int));
    }
}

proof fn lemma_filter_from(all: Seq<Seq<char>>, wanted: spec_fn(Seq<char>) -> bool, i: int)
    requires
        0 <= i < all.filter(wanted).len(),
    ensures
        all.contains(all.filter(wanted)[i]),
    decreases all.len(),
{
    reveal(Seq::filter);
    let before = all.drop_last();
    if all.len() > 0 {
        if i < before.filter(wanted).len() {
            lemma_filter_from(before, wanted, i);
            let j = choose|j: int| 0 <= j < before.len() && before[j] == before.filter(wanted)[i];
            assert(all[j] == before[j]);
        } else {
            assert(all[all.len() - 1] == all.filter(wanted)[i]);
        }
    }
}

// ---------------------------------------------------------------------------
// Tables
// ---------------------------------------------------------------------------

/// The greater of two lengths.
pub open spec fn wider(a: int, b: int) -> int {
    if a >= b {
        a
    } else {
        b
    }
}

/// Where cell `k` of a line starts: every cell before it takes the width of its column, or
/// its own if that is greater, and two more.
pub open spec fn cell_start(cells: Seq<Seq<char>>, widths: Seq<usize>, k: int) -> int
    decreases k,
{
    if k <= 0 {
        0
    } else {
        cell_start(cells, widths, k - 1) + wider(
            if k - 1 < widths.len() {
                widths[k - 1] as int
            } else {
                0
            },
            cells[k - 1].len() as int,
        ) + 2
    }
}

/// Cells line up: each stands where the columns before it end, and all else in a line is
/// blank. The line ends with its last cell.
pub proof fn law_columns_line_up(cells: Seq<Seq<char>>, widths: Seq<usize>, k: int)
    requires
        0 <= k < cells.len(),
    ensures
        ({
            let line = table::padded(cells, widths, 0);
            let at = cell_start(cells, widths, k);
            let end = at + cells[k].len();
            &&& 0 <= at <= end <= line.len()
            &&& line.subrange(at, end) == cells[k]
            &&& k + 1 < cells.len() ==> {
                let next = cell_start(cells, widths, k + 1);
                &&& end + 2 <= next <= line.len()
                &&& forall|i: int| end <= i < next ==> #[trigger] line[i] == ' '
            }
            &&& k + 1 == cells.len() ==> end == line.len()
        }),
{
    lemma_padded(cells, widths, k);
    let line = table::padded(cells, widths, 0);
    let at = cell_start(cells, widths, k);
    let rest = table::padded(cells, widths, k);
    reveal_strlit("  ");
    let gutter = if k > 0 {
        2int
    } else {
        0
    };
    assert(rest.subrange(gutter, gutter + cells[k].len()) =~= cells[k]);
    assert forall|i: int| 0 <= i < rest.len() implies line[at - gutter + i] == #[trigger] rest[i] by {
        assert(line.skip(at - gutter)[i] == rest[i]);
    }
    assert(line.subrange(at, at + cells[k].len()) =~= cells[k]) by {
        assert forall|i: int| 0 <= i < cells[k].len() implies line[at + i] == cells[k][i] by {
            assert(rest[gutter + i] == rest.subrange(gutter, gutter + cells[k].len())[i]);
        }
    }
    if k + 1 < cells.len() {
        lemma_padded(cells, widths, k + 1);
        let next = cell_start(cells, widths, k + 1);
        let later = table::padded(cells, widths, k + 1);
        assert forall|i: int| at + cells[k].len() <= i < next implies #[trigger] line[i] == ' ' by {
            if i < next - 2 {
                assert(rest[i - at + gutter] == ' ');
            } else {
                assert(line.skip(next - 2)[i - (next - 2)] == later[i - (next - 2)]);
            }
        }
    } else {
        assert(table::padded(cells, widths, k + 1) =~= Seq::<char>::empty());
    }
}

proof fn lemma_padded(cells: Seq<Seq<char>>, widths: Seq<usize>, k: int)
    requires
        0 <= k < cells.len(),
    ensures
        ({
            let line = table::padded(cells, widths, 0);
            let from = cell_start(cells, widths, k) - if k > 0 {
                2int
            } else {
                0
            };
            &&& 0 <= from <= line.len()
            &&& line.skip(from) == table::padded(cells, widths, k)
            &&& table::padded(cells, widths, k).len() >= cells[k].len() + if k > 0 {
                2int
            } else {
                0
            }
        }),
    decreases k,
{
    reveal_strlit("  ");
    let line = table::padded(cells, widths, 0);
    if k == 0 {
        assert(line.skip(0) =~= line);
    } else {
        lemma_padded(cells, widths, k - 1);
        let before = table::padded(cells, widths, k - 1);
        let now = table::padded(cells, widths, k);
        let from = cell_start(cells, widths, k - 1) - if k - 1 > 0 {
            2int
        } else {
            0
        };
        let gutter = if k - 1 > 0 {
            2int
        } else {
            0
        };
        let taken = gutter + wider(
            if k - 1 < widths.len() {
                widths[k - 1] as int
            } else {
                0
            },
            cells[k - 1].len() as int,
        );
        assert(before.len() == taken + now.len());
        assert(before.skip(taken) =~= now);
        assert(line.skip(from + taken) =~= line.skip(from).skip(taken));
    }
}

/// Columns are as wide as they need to be and no wider: every label, and every cell of a
/// measured row, fits its column, and one of them fills it.
pub proof fn law_columns_fit(
    labels: Seq<Seq<char>>,
    rows: Seq<Seq<Seq<char>>>,
    n: nat,
    c: int,
)
    requires
        n <= rows.len(),
        0 <= c < labels.len(),
        labels[c].len() <= usize::MAX,
        forall|r: int|
            0 <= r < n && c < (#[trigger] rows[r]).len() ==> rows[r][c].len() <= usize::MAX,
    ensures
        ({
            let widths = table::fitted(labels, rows, n);
            &&& widths.len() == labels.len()
            &&& labels[c].len() <= widths[c]
            &&& forall|r: int|
                0 <= r < n && c < (#[trigger] rows[r]).len() ==> rows[r][c].len() <= widths[c]
            &&& labels[c].len() == widths[c] || exists|r: int|
                0 <= r < n && c < (#[trigger] rows[r]).len() && rows[r][c].len() == widths[c]
        }),
    decreases n,
{
    if n > 0 {
        law_columns_fit(labels, rows, (n - 1) as nat, c);
        let before = table::fitted(labels, rows, (n - 1) as nat);
        let last = rows[n - 1];
        if !(c < last.len() && last[c].len() > before[c]) && labels[c].len() != before[c] {
            let r = choose|r: int|
                0 <= r < n - 1 && c < (#[trigger] rows[r]).len() && rows[r][c].len() == before[c];
            assert(rows[r][c].len() == table::fitted(labels, rows, n)[c]);
        }
    }
}

/// How many rows are measured: all, up to 256.
pub proof fn law_sample(rows: Seq<Seq<Seq<char>>>)
    ensures
        table::measured(rows) <= 256,
        table::measured(rows) <= rows.len(),
        table::measured(rows) == 256 || table::measured(rows) == rows.len(),
{
}

/// A line is its cells and a line break; lines are drawn row by row, the first row first.
pub proof fn law_lines(rows: Seq<Seq<Seq<char>>>, widths: Seq<usize>, n: nat)
    requires
        0 < n <= rows.len(),
    ensures
        table::lines(rows, widths, n) == table::padded(rows[0], widths, 0) + seq!['\n']
            + table::lines(rows.drop_first(), widths, (n - 1) as nat),
        table::lines(rows, widths, 0).len() == 0,
    decreases n,
{
    let rest = rows.drop_first();
    let first = table::padded(rows[0], widths, 0) + seq!['\n'];
    assert(table::line(rows[0], widths) =~= first);
    if n == 1 {
        assert(table::lines(rows, widths, 0) =~= Seq::<char>::empty());
        assert(table::lines(rest, widths, 0) =~= Seq::<char>::empty());
        assert(table::lines(rows, widths, 1) =~= first + table::lines(rest, widths, 0));
    } else {
        law_lines(rows, widths, (n - 1) as nat);
        assert(rows[n - 1] == rest[n - 2]);
        assert(table::lines(rows, widths, n) =~= first + table::lines(
            rest,
            widths,
            (n - 1) as nat,
        ));
    }
}

/// The rule under the header is made of dashes, as many as each column is wide.
pub proof fn law_rule(widths: Seq<usize>, c: int)
    requires
        0 <= c < widths.len(),
    ensures
        table::rule(widths).len() == widths.len(),
        table::rule(widths)[c].len() == widths[c],
        forall|i: int| 0 <= i < widths[c] ==> #[trigger] table::rule(widths)[c][i] == '-',
{
}

/// A cell shows its value: an integer its numeral, a string itself, a float the digits it
/// is given, and the others a short mark with their size.
pub proof fn law_cells(value: RegValue, digits: Seq<char>) -> (number: Seq<char>)
    ensures
        ({
            let cell = table::cell(value, digits);
            match value {
                RegValue::Int(i) => {
                    &&& spelling::is_digits(number)
                    &&& i >= 0 ==> cell == number && spelling::reads(number) == i
                    &&& i < 0 ==> cell == seq!['-'] + number && spelling::reads(number) == -i
                },
                RegValue::Real(_) => cell == digits,
                RegValue::Str(s) => cell == s@,
                RegValue::Vector(v) => {
                    &&& cell == "<vector dim="@ + number + seq!['>']
                    &&& spelling::is_digits(number) && spelling::reads(number) == v@.len()
                },
                RegValue::Bitmap(b) => {
                    &&& cell == "<bitmap "@ + number + " rows>"@
                    &&& spelling::is_digits(number) && spelling::reads(number) == b@.len()
                },
                RegValue::Record(_) => cell == "<record>"@,
                RegValue::Unset => cell == "<unset>"@,
            }
        }),
{
    reveal_strlit(">");
    assert(">"@ =~= seq!['>']);
    let n: nat = match value {
        RegValue::Int(i) => if i < 0 {
            (-i) as nat
        } else {
            i as nat
        },
        RegValue::Vector(v) => v@.len(),
        RegValue::Bitmap(b) => b@.len(),
        _ => 0,
    };
    spelling::law_numeral_reads_back(n);
    if let RegValue::Int(i) = value {
        spelling::law_signed_numeral(i as int);
    }
    text::decimal(n)
}

/// A table starts with columns as wide as their labels, and holds rows back until the
/// sample is full or the result ends.
pub proof fn law_rows_are_held_back(t: TableView, cells: Seq<Seq<char>>)
    requires
        !t.committed,
    ensures
        t.pending.len() + 1 < 256 ==> {
            &&& t.pushed_text(cells).len() == 0
            &&& t.pushed(cells).pending == t.pending.push(cells)
            &&& !t.pushed(cells).committed
        },
        t.pending.len() + 1 >= 256 ==> t.pushed(cells).committed && t.pushed(cells).pending.len()
            == 0,
        t.pushed(cells).labels == t.labels,
{
}

// ---------------------------------------------------------------------------
// The dialogue
// ---------------------------------------------------------------------------

/// A text without the white space at its ends: it is a part of the text, nothing but white
/// space is before and behind it, and it neither begins nor ends with any.
pub proof fn law_trimmed(s: Seq<char>) -> (ends: (int, int))
    ensures
        ({
            let (a, b) = ends;
            let t = text::trimmed(s);
            &&& 0 <= a <= b <= s.len()
            &&& t == s.subrange(a, b)
            &&& forall|i: int| 0 <= i < a ==> text::white(#[trigger] s[i])
            &&& forall|i: int| b <= i < s.len() ==> text::white(#[trigger] s[i])
            &&& t.len() > 0 ==> !text::white(t[0]) && !text::white(t[t.len() - 1])
        }),
{
    lemma_word_start(s, 0);
    lemma_trim_end(s, s.len() as int);
    let a = text::word_start(s, 0);
    let b = text::trim_end(s, s.len() as int);
    if a < b {
        (a, b)
    } else {
        assert forall|i: int| 0 <= i < s.len() implies text::white(#[trigger] s[i]) by {
            if i >= a {
                assert(i >= b);
            }
        }
        assert(s.subrange(0, 0) =~= Seq::<char>::empty());
        (0, 0)
    }
}

proof fn lemma_word_start(s: Seq<char>, i: int)
    requires
        0 <= i <= s.len(),
    ensures
        ({
            let k = text::word_start(s, i);
            &&& i <= k <= s.len()
            &&& forall|j: int| i <= j < k ==> text::white(#[trigger] s[j])
            &&& k < s.len() ==> !text::white(s[k])
        }),
    decreases s.len() - i,
{
    if i < s.len() && text::white(s[i]) {
        lemma_word_start(s, i + 1);
    }
}

proof fn lemma_word_end(s: Seq<char>, i: int)
    requires
        0 <= i <= s.len(),
    ensures
        ({
            let k = text::word_end(s, i);
            &&& i <= k <= s.len()
            &&& forall|j: int| i <= j < k ==> !text::white(#[trigger] s[j])
            &&& k < s.len() ==> text::white(s[k])
        }),
    decreases s.len() - i,
{
    if i < s.len() && !text::white(s[i]) {
        lemma_word_end(s, i + 1);
    }
}

proof fn lemma_trim_end(s: Seq<char>, n: int)
    requires
        0 <= n <= s.len(),
    ensures
        ({
            let k = text::trim_end(s, n);
            &&& 0 <= k <= n
            &&& forall|j: int| k <= j < n ==> text::white(#[trigger] s[j])
            &&& k > 0 ==> !text::white(s[k - 1])
        }),
    decreases n,
{
    if n > 0 && text::white(s[n - 1]) {
        lemma_trim_end(s, n - 1);
    }
}

/// The next word from a place on: a run of characters that are not white space, as long as
/// it can be, with nothing but white space before it; and none if there is nothing else.
pub proof fn law_next_word(s: Seq<char>, i: int) -> (start: int)
    requires
        0 <= i <= s.len(),
    ensures
        i <= start <= s.len(),
        forall|k: int| i <= k < start ==> text::white(#[trigger] s[k]),
        match meta::word_at(s, i) {
            None => start == s.len(),
            Some((word, end)) => {
                &&& start < end <= s.len()
                &&& word == s.subrange(start, end)
                &&& forall|k: int| start <= k < end ==> !text::white(#[trigger] s[k])
                &&& end < s.len() ==> text::white(s[end])
            },
        },
{
    lemma_word_start(s, i);
    let start = text::word_start(s, i);
    lemma_word_end(s, start);
    if start < s.len() {
        lemma_word_end(s, start + 1);
        assert(text::word_end(s, start) == text::word_end(s, start + 1));
    }
    start
}

/// The command of a line is its first word, and the argument its second.
pub proof fn law_command_and_argument(s: Seq<char>)
    ensures
        match meta::word_at(s, 0) {
            None => meta::command(s) == seq!['.'] && meta::argument(s) is None,
            Some((first, end)) => meta::command(s) == first && match meta::word_at(s, end) {
                None => meta::argument(s) is None,
                Some((second, _)) => meta::argument(s) == Some(second),
            },
        },
{
    reveal_strlit(".");
    assert("."@ =~= seq!['.']);
}

/// A line is a command exactly if no statement is open and the first character of it that
/// is not white space is a dot.
pub proof fn law_commands_start_with_a_dot(repl: ReplView, line: Seq<char>)
    ensures
        repl.is_meta(line) <==> text::all_white(repl.buffer) && exists|i: int|
            {
                &&& 0 <= i < line.len()
                &&& #[trigger] line[i] == '.'
                &&& forall|k: int| 0 <= k < i ==> text::white(#[trigger] line[k])
            },
{
    let (a, b) = law_trimmed(line);
    let t = text::trimmed(line);
    if repl.is_meta(line) {
        assert(line[a] == '.');
    }
    if exists|i: int|
        {
            &&& 0 <= i < line.len()
            &&& #[trigger] line[i] == '.'
            &&& forall|k: int| 0 <= k < i ==> text::white(#[trigger] line[k])
        } {
        let i = choose|i: int|
            {
                &&& 0 <= i < line.len()
                &&& #[trigger] line[i] == '.'
                &&& forall|k: int| 0 <= k < i ==> text::white(#[trigger] line[k])
            };
        assert(!text::white('.'));
        assert(!text::white(line[i]));
        assert(a <= i < b);
        assert(t[0] == line[a]);
        if a < i {
            assert(text::white(line[a]));
        }
    }
}

/// A line goes behind the open statement with a line break, and the complete statements
/// wait behind those that wait already.
pub proof fn law_lines_are_gathered(repl: ReplView, line: Seq<char>)
    ensures
        ({
            let all = repl.buffer + line + seq!['\n'];
            let next = repl.queued(line);
            &&& next.buffer == split::remainder(all)
            &&& next.waiting == repl.waiting + split::statements(all, all.len() as int)
            &&& next.interactive == repl.interactive
        }),
{
    reveal_strlit("\n");
    assert("\n"@ =~= seq!['\n']);
}

/// The report of a result: its number of rows, and the word for one or more of them.
pub proof fn law_footer(run: RunningView, elapsed: Seq<char>) -> (digits: Seq<char>)
    ensures
        spelling::is_digits(digits),
        spelling::reads(digits) == run.rows,
        run.footer(elapsed) == digits + " "@ + (if run.rows == 1 {
            "row"@
        } else {
            "rows"@
        }) + "  ("@ + elapsed + ")\n"@,
        match run.complaint() {
            None => run.failure is None && !run.canceled,
            Some(complaint) => match run.failure {
                Some(why) => complaint == "error after "@ + digits + " rows: "@ + why,
                None => run.canceled && complaint == "canceled after "@ + digits + " rows"@,
            },
        },
{
    spelling::law_numeral_reads_back(run.rows as nat);
    text::decimal(run.rows as nat)
}

// ---------------------------------------------------------------------------
// Listings
// ---------------------------------------------------------------------------

/// The names of collections are listed one on a line, in order.
pub proof fn law_names(registry: Seq<ConfigView>, n: nat)
    requires
        0 < n <= registry.len(),
    ensures
        meta::names(registry, n) == registry[0].name + seq!['\n'] + meta::names(
            registry.drop_first(),
            (n - 1) as nat,
        ),
        meta::names(registry, 0).len() == 0,
    decreases n,
{
    reveal_strlit("\n");
    let rest = registry.drop_first();
    let first = registry[0].name + seq!['\n'];
    assert("\n"@ =~= seq!['\n']);
    if n == 1 {
        assert(meta::names(registry, 0) =~= Seq::<char>::empty());
        assert(meta::names(rest, 0) =~= Seq::<char>::empty());
        assert(meta::names(registry, 1) =~= first + meta::names(rest, 0));
    } else {
        law_names(registry, (n - 1) as nat);
        assert(registry[n - 1] == rest[n - 2]);
        assert(meta::names(registry, n) =~= first + meta::names(rest, (n - 1) as nat));
    }
}

/// How columns are listed: a scalar under its name, with `INT`, `FLOAT` or `TEXT` for its
/// type; the vector with its dimension.
pub proof fn law_column_types(def: ColumnDefView, schema: SchemaView) -> (digits: Seq<char>)
    ensures
        ({
            let scalar = meta::scalar_listed(def);
            let vector = meta::vector_listed(schema);
            &&& scalar.name == def.name && scalar.ordinal == def.ordinal
            &&& scalar.ty == if def.ty is Int {
                seq!['I', 'N', 'T']
            } else if def.ty is Float {
                seq!['F', 'L', 'O', 'A', 'T']
            } else {
                seq!['T', 'E', 'X', 'T']
            }
            &&& vector.name == schema.vector.name && vector.ordinal == schema.vector.ordinal
            &&& vector.ty == "VECTOR("@ + digits + seq![')']
            &&& spelling::is_digits(digits)
            &&& spelling::reads(digits) == schema.vector.dim.spec_get()
        }),
{
    reveal_strlit("INT");
    reveal_strlit("FLOAT");
    reveal_strlit("TEXT");
    reveal_strlit(")");
    assert("INT"@ =~= seq!['I', 'N', 'T']);
    assert("FLOAT"@ =~= seq!['F', 'L', 'O', 'A', 'T']);
    assert("TEXT"@ =~= seq!['T', 'E', 'X', 'T']);
    assert(")"@ =~= seq![')']);
    spelling::law_numeral_reads_back(schema.vector.dim.spec_get() as nat);
    text::decimal(schema.vector.dim.spec_get() as nat)
}

/// Columns are listed one on a line, in order: two blanks, the name, blanks up to the
/// width, two more, the type.
pub proof fn law_column_lines(columns: Seq<ListedView>, width: nat, n: nat) -> (pad: Seq<char>)
    requires
        0 < n <= columns.len(),
    ensures
        meta::column_lines(columns, width, n) == seq![' ', ' '] + columns[0].name + pad + seq![
            ' ',
            ' ',
        ] + columns[0].ty + seq!['\n'] + meta::column_lines(
            columns.drop_first(),
            width,
            (n - 1) as nat,
        ),
        pad.len() == if columns[0].name.len() < width {
            width - columns[0].name.len()
        } else {
            0
        },
        forall|i: int| 0 <= i < pad.len() ==> #[trigger] pad[i] == ' ',
    decreases n,
{
    reveal_strlit("  ");
    reveal_strlit("\n");
    assert("  "@ =~= seq![' ', ' ']);
    assert("\n"@ =~= seq!['\n']);
    let rest = columns.drop_first();
    let c = columns[0];
    let pad = text::repeated(' ', width - c.name.len());
    let first = seq![' ', ' '] + c.name + pad + seq![' ', ' '] + c.ty + seq!['\n'];
    if n == 1 {
        assert(meta::column_lines(columns, width, 0) =~= Seq::<char>::empty());
        assert(meta::column_lines(rest, width, 0) =~= Seq::<char>::empty());
        assert(meta::column_lines(columns, width, 1) =~= first + meta::column_lines(
            rest,
            width,
            0,
        ));
    } else {
        let again = law_column_lines(columns, width, (n - 1) as nat);
        assert(again =~= pad);
        assert(columns[n - 1] == rest[n - 2]);
        assert(meta::column_lines(columns, width, n) =~= first + meta::column_lines(
            rest,
            width,
            (n - 1) as nat,
        ));
    }
    pad
}

/// The width of a listing is the length of its longest name, in bytes.
pub proof fn law_longest_name(columns: Seq<ListedView>, n: nat)
    requires
        n <= columns.len(),
    ensures
        forall|i: int|
            0 <= i < n ==> vstd::utf8::encode_utf8((#[trigger] columns[i]).name).len()
                <= meta::longest(columns, n),
        n > 0 ==> exists|i: int|
            0 <= i < n && vstd::utf8::encode_utf8((#[trigger] columns[i]).name).len()
                == meta::longest(columns, n),
    decreases n,
{
    if n > 0 {
        law_longest_name(columns, (n - 1) as nat);
        let last = columns[n - 1];
        if vstd::utf8::encode_utf8(last.name).len() <= meta::longest(columns, (n - 1) as nat) {
            if n > 1 {
                let i = choose|i: int|
                    0 <= i < n - 1 && vstd::utf8::encode_utf8((#[trigger] columns[i]).name).len()
                        == meta::longest(columns, (n - 1) as nat);
                assert(vstd::utf8::encode_utf8(columns[i].name).len() == meta::longest(columns, n));
            }
        }
    }
}

/// A collection is listed with its name and its capacity, and then its columns.
pub proof fn law_schema_listing(c: ConfigView) -> (digits: Seq<char>)
    ensures
        ({
            let columns = meta::columns_listed(c.schema);
            &&& meta::schema_text(c) == c.name + "   (capacity "@ + digits + ")\n"@
                + meta::column_lines(columns, meta::longest(columns, columns.len()), columns.len())
            &&& spelling::is_digits(digits)
            &&& spelling::reads(digits) == c.capacity
        }),
{
    spelling::law_numeral_reads_back(c.capacity as nat);
    text::decimal(c.capacity as nat)
}

/// Listings are separated by an empty line: that of the first collection comes first, and
/// those of the others behind it.
pub proof fn law_listings(registry: Seq<ConfigView>, n: nat)
    requires
        0 < n <= registry.len(),
    ensures
        meta::schemas(registry, None, 1) == meta::schema_text(registry[0]),
        n > 1 ==> meta::schemas(registry, None, n) == meta::schema_text(registry[0]) + seq!['\n']
            + meta::schemas(registry.drop_first(), None, (n - 1) as nat),
    decreases n,
{
    reveal_strlit("\n");
    assert("\n"@ =~= seq!['\n']);
    let rest = registry.drop_first();
    let none: Option<Seq<char>> = None;
    assert(!meta::shown(registry, none, 0));
    assert(meta::schemas(registry, none, 0) =~= Seq::<char>::empty());
    assert(meta::schemas(registry, none, 1) =~= meta::schema_text(registry[0]));
    if n > 1 {
        law_listings(registry, (n - 1) as nat);
        assert(registry[n - 1] == rest[n - 2]);
        assert(meta::shown(registry, none, (n - 1) as nat)) by {
            let _ = registry[0];
        }
        if n == 2 {
            assert(!meta::shown(rest, none, 0));
            assert(meta::schemas(rest, none, 0) =~= Seq::<char>::empty());
            assert(meta::schemas(rest, none, 1) =~= meta::schema_text(rest[0]));
        } else {
            assert(meta::shown(rest, none, (n - 2) as nat)) by {
                let _ = rest[0];
            }
        }
        assert(meta::schemas(registry, none, n) =~= meta::schema_text(registry[0]) + seq!['\n']
            + meta::schemas(rest, none, (n - 1) as nat));
    }
}

/// With a name only the collections of that name are listed: one of another name adds
/// nothing.
pub proof fn law_named_listing(registry: Seq<ConfigView>, name: Seq<char>, i: int)
    requires
        0 <= i < registry.len(),
        registry[i].name == name,
        forall|k: int| 0 <= k < registry.len() && k != i ==> (#[trigger] registry[k]).name != name,
    ensures
        meta::schemas(registry, Some(name), registry.len()) == meta::schema_text(registry[i]),
        meta::shown(registry, Some(name), registry.len()),
{
    lemma_named(registry, name, i, registry.len());
    let _ = registry[i];
}

proof fn lemma_named(registry: Seq<ConfigView>, name: Seq<char>, i: int, n: nat)
    requires
        0 <= i < registry.len(),
        n <= registry.len(),
        registry[i].name == name,
        forall|k: int| 0 <= k < registry.len() && k != i ==> (#[trigger] registry[k]).name != name,
    ensures
        meta::schemas(registry, Some(name), n) == if i < n {
            meta::schema_text(registry[i])
        } else {
            Seq::empty()
        },
        meta::shown(registry, Some(name), n) <==> i < n,
    decreases n,
{
    if n > 0 {
        lemma_named(registry, name, i, (n - 1) as nat);
        let last = registry[n - 1];
        if i == n - 1 {
            assert(meta::schemas(registry, Some(name), n) =~= meta::schema_text(registry[i]));
        }
    }
    if i < n {
        let _ = registry[i];
    }
}

/// What a command answers: only `.quit` and `.exit` end the shell; `.help` gives the help
/// and `.tables` the names; `.schema` gives the listings, or says that there are none.
pub proof fn law_replies(s: Seq<char>, registry: Seq<ConfigView>)
    ensures
        ({
            let r = meta::replied(s, registry);
            let c = meta::command(s);
            let n = registry.len();
            &&& r.quit <==> c == ".quit"@ || c == ".exit"@
            &&& r.quit ==> r.out.len() == 0 && r.err is None
            &&& c == ".help"@ ==> r.out == meta::help_text() && r.err is None
            &&& c == ".tables"@ ==> r.err is None && r.out == if n == 0 {
                "no collections\n"@
            } else {
                meta::names(registry, n)
            }
            &&& c == ".schema"@ ==> match meta::argument(s) {
                None => r.err is None && r.out == if n == 0 {
                    "no collections\n"@
                } else {
                    meta::schemas(registry, None, n)
                },
                Some(name) => if catalog::has_name(registry, name) {
                    r.err is None && r.out == meta::schemas(registry, Some(name), n)
                } else {
                    r.out.len() == 0 && r.err == Some("error: no such collection: "@ + name)
                },
            }
            &&& c != ".quit"@ && c != ".exit"@ && c != ".help"@ && c != ".tables"@ && c
                != ".schema"@ ==> r.out.len() == 0 && r.err == Some(
                "error: unknown command: "@ + c + "   (.help for a list)"@,
            )
        }),
{
    reveal_strlit(".quit");
    reveal_strlit(".exit");
    reveal_strlit(".help");
    reveal_strlit(".tables");
    reveal_strlit(".schema");
    let n = registry.len();
    assert(".quit"@[1] == 'q' && ".exit"@[1] == 'e' && ".help"@[1] == 'h' && ".tables"@[1] == 't'
        && ".schema"@[1] == 's');
    match meta::argument(s) {
        None => {
            if n > 0 {
                let _ = registry[0];
                assert(meta::shown(registry, None, n));
            }
        },
        Some(name) => {
            assert(meta::shown(registry, Some(name), n) <==> catalog::has_name(registry, name)) by {
                if catalog::has_name(registry, name) {
                    let i = choose|i: int|
                        0 <= i < registry.len() && (#[trigger] registry[i]).name == name;
                    let _ = registry[i];
                }
                if meta::shown(registry, Some(name), n) {
                    let i = choose|i: int| 0 <= i < n && name == (#[trigger] registry[i]).name;
                    assert(registry[i].name == name);
                }
            }
        },
    }
}

/// What the command line may be: nothing, for the default path, or one path, which does
/// not begin with a dash.
pub proof fn law_arguments(args: Seq<Seq<char>>)
    ensures
        match meta::asked(args) {
            Ok(path) => args.len() == 0 && path == "./flats-data"@ || args.len() == 1 && path
                == args[0] && (path.len() > 0 ==> path[0] != '-'),
            Err(_) => args.len() > 1 || args.len() == 1 && args[0].len() > 0 && args[0][0] == '-',
        },
        args.len() > 1 && args[0].len() > 0 && args[0][0] != '-' ==> meta::asked(args) == Err::<
            Seq<char>,
            Seq<char>,
        >("unexpected argument: "@ + args[1]),
{
    reveal_strlit("-h");
    reveal_strlit("--help");
    assert("-h"@[0] == '-' && "--help"@[0] == '-');
}

/// What to do about an input that is no line of statement text: a command is answered; the
/// end of input ends the shell, with a complaint if a statement is open; an interrupt throws
/// an open statement away, and ends a script; and a failed read ends the shell.
pub proof fn law_inputs(repl: ReplView, line: Seq<char>, why: Seq<char>)
    ensures
        repl.is_meta(line) ==> repl.step(Ok(InputView::Line(line))) == StepView::Meta(
            text::trimmed(line),
        ) && repl.next(Ok(InputView::Line(line))) == repl,
        !repl.is_meta(line) ==> repl.step(Ok(InputView::Line(line))) == repl.queued(line).turn()
            && repl.next(Ok(InputView::Line(line))) == repl.queued(line).turned(),
        text::all_white(repl.buffer) ==> repl.step(Ok(InputView::Eof)) == (StepView::Exit {
            code: 0,
            message: None,
        }),
        !text::all_white(repl.buffer) ==> repl.step(Ok(InputView::Eof)) == (StepView::Exit {
            code: 1,
            message: Some("error: unterminated statement at end of input (missing `;`)"@),
        }),
        repl.interactive ==> {
            &&& repl.step(Ok(InputView::Interrupted)) is Again
            &&& repl.next(Ok(InputView::Interrupted)).buffer.len() == 0
            &&& repl.next(Ok(InputView::Interrupted)).interactive
        },
        !repl.interactive ==> repl.step(Ok(InputView::Interrupted)) == (StepView::Exit {
            code: 130,
            message: None,
        }),
        repl.step(Err(why)) == (StepView::Exit {
            code: 1,
            message: Some("error reading input: "@ + why),
        }),
{
}

/// A script ends with code 1 behind a statement that failed, and with 130 behind one that
/// was interrupted; a person's session goes on.
pub proof fn law_exit_codes(repl: ReplView, outcome: Outcome)
    ensures
        match repl.step_after(outcome) {
            StepView::Exit { code, message } => !repl.interactive && message is None && (code == 1
                && outcome is Failed || code == 130 && outcome is Canceled),
            StepView::Run(statement) => repl.waiting.len() > 0 && statement == repl.waiting[0],
            StepView::Again => repl.waiting.len() == 0,
            StepView::Meta(_) => false,
        },
        !repl.interactive && !(outcome is Done) ==> repl.step_after(outcome) is Exit,
        repl.step_after(outcome) matches StepView::Run(_) ==> repl.next_after(outcome).waiting
            == repl.waiting.skip(1),
        repl.next_after(outcome).buffer == repl.buffer,
        repl.next_after(outcome).interactive == repl.interactive,
{
    if repl.waiting.len() > 0 {
        assert(repl.waiting.skip(1) =~= repl.waiting.drop_first());
    }
}

/// How a statement ended: it failed if there is a failure, it was canceled if there is none
/// and it was interrupted, and it is done otherwise.
pub proof fn law_outcomes(run: RunningView)
    ensures
        run.outcome() is Failed <==> run.failure is Some,
        run.outcome() is Canceled <==> run.failure is None && run.canceled,
        run.outcome() is Done <==> run.failure is None && !run.canceled,
{
}

/// A repeated character, and a text that is nothing but white space.
pub proof fn law_plain_texts(c: char, n: int, s: Seq<char>)
    ensures
        text::repeated(c, n).len() == if n > 0 {
            n
        } else {
            0
        },
        forall|i: int| 0 <= i < n ==> #[trigger] text::repeated(c, n)[i] == c,
        text::all_white(s) <==> forall|i: int| 0 <= i < s.len() ==> text::white(#[trigger] s[i]),
{
}

/// Texts in lower case: a letter from A to Z becomes the one 32 places further on, and any
/// other character stays.
pub proof fn law_lower_case(s: Seq<char>, i: int)
    requires
        0 <= i < s.len(),
    ensures
        text::lower_text(s).len() == s.len(),
        'A' <= s[i] <= 'Z' ==> text::lower_text(s)[i] as u32 == s[i] as u32 + 32,
        !('A' <= s[i] <= 'Z') ==> text::lower_text(s)[i] == s[i],
{
}

} // verus!
