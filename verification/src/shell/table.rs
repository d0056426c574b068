//! Drawing a result as a table, with bounded memory.
//!
//! A column is as wide as its widest cell, which is not known before the last row.
//! So a bounded sample of rows is held back and measured; then the header is
//! written, the widths are fixed, and every later row is written as it comes. A
//! later cell that is wider overflows its column and is never cut. Widths count
//! characters.

use vstd::prelude::*;
use vstd::string::*;

use crate::query::RegValue;
use crate::text;
use crate::text::{join3, numeral, push_many, signed_numeral};

verus! {

/// How many rows are held back to measure the columns.
pub const SAMPLE_ROWS: usize = 256;

/// The width of column `i`; a column beyond the known ones has none.
pub open spec fn width_at(widths: Seq<usize>, i: int) -> int {
    if 0 <= i < widths.len() {
        widths[i] as int
    } else {
        0
    }
}

/// The cells from `i` on: two spaces between cells, and each but the last padded to
/// its column's width.
pub open spec fn padded(cells: Seq<Seq<char>>, widths: Seq<usize>, i: int) -> Seq<char>
    decreases cells.len() - i,
{
    if i < 0 || i >= cells.len() {
        Seq::empty()
    } else {
        let gutter = if i > 0 {
            "  "@
        } else {
            Seq::empty()
        };
        let pad = if i + 1 < cells.len() {
            text::repeated(' ', width_at(widths, i) - cells[i].len())
        } else {
            Seq::empty()
        };
        gutter + cells[i] + pad + padded(cells, widths, i + 1)
    }
}

/// A line ends with its last cell. So it carries no trailing white space, unless
/// that cell is empty or ends in white space itself.
pub proof fn law_no_trailing_white(cells: Seq<Seq<char>>, widths: Seq<usize>)
    requires
        cells.len() > 0,
    ensures
        ({
            let line = padded(cells, widths, 0);
            let last = cells.last();
            &&& line.len() >= last.len()
            &&& line.skip(line.len() - last.len()) == last
            &&& last.len() > 0 && !text::white(last.last()) ==> !text::white(line.last())
        }),
{
    lemma_ends_with_last(cells, widths, 0);
    let line = padded(cells, widths, 0);
    let last = cells.last();
    if last.len() > 0 {
        assert(line.skip(line.len() - last.len()).last() == line.last());
    }
}

proof fn lemma_ends_with_last(cells: Seq<Seq<char>>, widths: Seq<usize>, i: int)
    requires
        0 <= i < cells.len(),
    ensures
        padded(cells, widths, i).len() >= cells.last().len(),
        padded(cells, widths, i).skip(padded(cells, widths, i).len() - cells.last().len())
            == cells.last(),
    decreases cells.len() - i,
{
    let line = padded(cells, widths, i);
    let rest = padded(cells, widths, i + 1);
    let last = cells.last();
    if i + 1 < cells.len() {
        lemma_ends_with_last(cells, widths, i + 1);
        assert(line.skip(line.len() - rest.len()) =~= rest);
        assert(line.skip(line.len() - last.len()) =~= rest.skip(rest.len() - last.len()));
    } else {
        assert(line.skip(line.len() - last.len()) =~= last);
    }
}

/// Joins cells with two spaces, each padded to its column's width but the last, so
/// that no line ends in white space of its own.
pub fn join_padded(cells: &[String], widths: &[usize]) -> (out: String)
    ensures
        out@ == padded(text::texts(cells@), widths@, 0),
{
    let ghost views = text::texts(cells@);
    let mut out = String::new();
    let mut i: usize = 0;
    proof {
        assert(out@ + padded(views, widths@, 0) =~= padded(views, widths@, 0));
    }
    while i < cells.len()
        invariant
            i <= cells@.len(),
            views == text::texts(cells@),
            out@ + padded(views, widths@, i as int) == padded(views, widths@, 0),
        decreases cells@.len() - i,
    {
        let ghost was = out@;
        assert(views[i as int] == cells@[i as int]@);
        if i > 0 {
            out.append("  ");
        }
        out.append(cells[i].as_str());
        if i + 1 < cells.len() {
            let width: usize = if i < widths.len() {
                widths[i]
            } else {
                0
            };
            let len: usize = cells[i].as_str().unicode_len();
            if len < width {
                push_many(&mut out, ' ', width - len);
            }
        }
        proof {
            assert(was + padded(views, widths@, i as int) =~= out@ + padded(
                views,
                widths@,
                i + 1,
            ));
        }
        i += 1;
    }
    proof {
        assert(out@ =~= padded(views, widths@, 0));
    }
    out
}

/// A table that is being drawn.
pub struct Table {
    labels: Vec<String>,
    widths: Vec<usize>,
    pending: Vec<Vec<String>>,
    committed: bool,
}

/// What a [`Table`] holds.
pub struct TableView {
    /// The labels of the columns.
    pub labels: Seq<Seq<char>>,
    /// The widths of the columns.
    pub widths: Seq<usize>,
    /// The rows held back.
    pub pending: Seq<Seq<Seq<char>>>,
    /// Whether the header was written, and with it the widths are fixed.
    pub committed: bool,
}

/// What a run of rows holds.
pub open spec fn rows_view(rows: Seq<Vec<String>>) -> Seq<Seq<Seq<char>>> {
    rows.map_values(|r: Vec<String>| text::texts(r@))
}

impl View for Table {
    type V = TableView;

    closed spec fn view(&self) -> TableView {
        TableView {
            labels: text::texts(self.labels@),
            widths: self.widths@,
            pending: rows_view(self.pending@),
            committed: self.committed,
        }
    }
}

/// The widths with room for the cells of one more row. A cell beyond the columns
/// does not count.
pub open spec fn widened(widths: Seq<usize>, cells: Seq<Seq<char>>) -> Seq<usize> {
    Seq::new(
        widths.len(),
        |i: int|
            if i < cells.len() && cells[i].len() > widths[i] {
                cells[i].len() as usize
            } else {
                widths[i]
            },
    )
}

/// One line.
pub open spec fn line(cells: Seq<Seq<char>>, widths: Seq<usize>) -> Seq<char> {
    padded(cells, widths, 0).push('\n')
}

/// The rule under the header: every column as wide as it is.
pub open spec fn rule(widths: Seq<usize>) -> Seq<Seq<char>> {
    Seq::new(widths.len(), |i: int| text::repeated('-', widths[i] as int))
}

/// The first `n` of some rows, one line each.
pub open spec fn lines(rows: Seq<Seq<Seq<char>>>, widths: Seq<usize>, n: nat) -> Seq<char>
    decreases n,
{
    if n == 0 {
        Seq::empty()
    } else {
        lines(rows, widths, (n - 1) as nat) + line(rows[n - 1], widths)
    }
}

impl TableView {
    /// A table without a row: every column is as wide as its label.
    pub open spec fn start(labels: Seq<Seq<char>>) -> TableView {
        TableView {
            labels,
            widths: Seq::new(labels.len(), |i: int| labels[i].len() as usize),
            pending: Seq::empty(),
            committed: false,
        }
    }

    /// The text of the header, the rule and the rows held back.
    pub open spec fn head(self) -> Seq<char> {
        line(self.labels, self.widths) + line(rule(self.widths), self.widths) + lines(
            self.pending,
            self.widths,
            self.pending.len(),
        )
    }

    /// The table with the header written.
    pub open spec fn settled(self) -> TableView {
        TableView { pending: Seq::empty(), committed: true, ..self }
    }

    /// The table with one more row held back.
    pub open spec fn held(self, cells: Seq<Seq<char>>) -> TableView {
        TableView {
            widths: widened(self.widths, cells),
            pending: self.pending.push(cells),
            ..self
        }
    }

    /// The table after a row.
    pub open spec fn pushed(self, cells: Seq<Seq<char>>) -> TableView {
        if self.committed {
            self
        } else if self.held(cells).pending.len() >= SAMPLE_ROWS {
            self.held(cells).settled()
        } else {
            self.held(cells)
        }
    }

    /// What a row makes the table write.
    pub open spec fn pushed_text(self, cells: Seq<Seq<char>>) -> Seq<char> {
        if self.committed {
            line(cells, self.widths)
        } else if self.held(cells).pending.len() >= SAMPLE_ROWS {
            self.held(cells).head()
        } else {
            Seq::empty()
        }
    }

    /// What the end of the result makes the table write.
    pub open spec fn finished_text(self) -> Seq<char> {
        if self.committed {
            Seq::empty()
        } else {
            self.head()
        }
    }
}

impl Table {
    /// Fewer rows are held back than the sample has, and none behind the header.
    pub closed spec fn wf(&self) -> bool {
        &&& self.pending@.len() < SAMPLE_ROWS
        &&& self.committed ==> self.pending@.len() == 0
    }

    /// What well-formedness says of the view.
    pub proof fn lemma_wf(&self)
        requires
            self.wf(),
        ensures
            self@.pending.len() < SAMPLE_ROWS,
            self@.committed ==> self@.pending.len() == 0,
    {
    }

    /// A table with the given columns.
    pub fn new(labels: Vec<String>) -> (t: Table)
        ensures
            t.wf(),
            t@ == TableView::start(text::texts(labels@)),
    {
        let mut widths: Vec<usize> = Vec::new();
        let mut i: usize = 0;
        while i < labels.len()
            invariant
                i <= labels@.len(),
                widths@.len() == i,
                forall|k: int| 0 <= k < i ==> #[trigger] widths@[k] == labels@[k]@.len() as usize,
            decreases labels@.len() - i,
        {
            widths.push(labels[i].as_str().unicode_len());
            i += 1;
        }
        let t = Table { labels, widths, pending: Vec::new(), committed: false };
        proof {
            let start = TableView::start(text::texts(labels@));
            assert(t@.widths =~= start.widths);
            assert(t@.pending =~= start.pending);
        }
        t
    }

    /// How many rows are held back.
    pub fn pending(&self) -> (n: usize)
        ensures
            n == self@.pending.len(),
    {
        self.pending.len()
    }

    /// Adds a row and gives the text to write now: nothing while the sample is not
    /// full, then header, rule and sample, then each row as it comes.
    pub fn push(&mut self, cells: Vec<String>) -> (out: String)
        requires
            old(self).wf(),
        ensures
            final(self).wf(),
            final(self)@ == old(self)@.pushed(text::texts(cells@)),
            out@ == old(self)@.pushed_text(text::texts(cells@)),
    {
        if self.committed {
            let mut out: String = join_padded(cells.as_slice(), self.widths.as_slice());
            out.push('\n');
            return out;
        }
        let ghost start = self@;
        let ghost views = text::texts(cells@);
        let ghost was = self.widths@;
        let mut i: usize = 0;
        while i < cells.len()
            invariant
                i <= cells@.len(),
                views == text::texts(cells@),
                self.widths@.len() == was.len(),
                self.labels == old(self).labels,
                self.pending == old(self).pending,
                self.committed == old(self).committed,
                forall|k: int|
                    0 <= k < was.len() ==> #[trigger] self.widths@[k] == if k < i && views[k].len()
                        > was[k] {
                        views[k].len() as usize
                    } else {
                        was[k]
                    },
            decreases cells@.len() - i,
        {
            assert(views[i as int] == cells@[i as int]@);
            if i < self.widths.len() {
                let len: usize = cells[i].as_str().unicode_len();
                if len > self.widths[i] {
                    self.widths.set(i, len);
                }
            }
            i += 1;
        }
        let ghost before = self.pending@;
        self.pending.push(cells);
        proof {
            assert(self.widths@ =~= widened(was, views));
            assert(rows_view(self.pending@) =~= rows_view(before).push(views));
            assert(self@ == start.held(views));
        }
        if self.pending.len() >= SAMPLE_ROWS {
            return self.commit();
        }
        String::new()
    }

    /// The header, the rule and everything held back.
    fn commit(&mut self) -> (out: String)
        ensures
            final(self).wf(),
            final(self)@ == old(self)@.settled(),
            out@ == old(self)@.head(),
    {
        let ghost start = self@;
        let mut out: String = join_padded(self.labels.as_slice(), self.widths.as_slice());
        out.push('\n');
        let mut dashes: Vec<String> = Vec::new();
        let mut i: usize = 0;
        while i < self.widths.len()
            invariant
                i <= self.widths@.len(),
                dashes@.len() == i,
                forall|k: int|
                    0 <= k < i ==> (#[trigger] dashes@[k])@ == text::repeated(
                        '-',
                        self.widths@[k] as int,
                    ),
            decreases self.widths@.len() - i,
        {
            let mut dash = String::new();
            push_many(&mut dash, '-', self.widths[i]);
            proof {
                assert(dash@ =~= text::repeated('-', self.widths@[i as int] as int));
            }
            dashes.push(dash);
            i += 1;
        }
        proof {
            assert(text::texts(dashes@) =~= rule(self.widths@));
        }
        out.append(join_padded(dashes.as_slice(), self.widths.as_slice()).as_str());
        out.push('\n');
        let ghost top = line(start.labels, start.widths) + line(rule(start.widths), start.widths);
        proof {
            assert(out@ =~= top);
            assert(out@ =~= top + lines(start.pending, start.widths, 0));
        }
        let mut j: usize = 0;
        while j < self.pending.len()
            invariant
                j <= self.pending@.len(),
                start == self@,
                top == line(start.labels, start.widths) + line(rule(start.widths), start.widths),
                out@ == top + lines(start.pending, start.widths, j as nat),
                *self == *old(self),
            decreases self.pending@.len() - j,
        {
            let ghost was = out@;
            let row: String = join_padded(self.pending[j].as_slice(), self.widths.as_slice());
            out.append(row.as_str());
            out.push('\n');
            proof {
                assert(start.pending[j as int] == text::texts(self.pending@[j as int]@));
                assert(out@ =~= was + line(start.pending[j as int], start.widths));
                assert(out@ =~= top + lines(start.pending, start.widths, (j + 1) as nat));
            }
            j += 1;
        }
        self.pending = Vec::new();
        self.committed = true;
        proof {
            assert(self@.pending =~= Seq::<Seq<Seq<char>>>::empty());
        }
        out
    }

    /// Ends the table and gives the text to write. A result without a row still
    /// shows its columns; ending twice writes nothing more.
    pub fn finish(&mut self) -> (out: String)
        requires
            old(self).wf(),
        ensures
            final(self).wf(),
            final(self)@ == if old(self)@.committed {
                old(self)@
            } else {
                old(self)@.settled()
            },
            out@ == old(self)@.finished_text(),
    {
        if self.committed {
            String::new()
        } else {
            self.commit()
        }
    }
}

// ---------------------------------------------------------------------------
// The whole table
// ---------------------------------------------------------------------------

/// The table after the first `n` rows.
pub open spec fn after_rows(t: TableView, rows: Seq<Seq<Seq<char>>>, n: nat) -> TableView
    decreases n,
{
    if n == 0 {
        t
    } else {
        after_rows(t, rows, (n - 1) as nat).pushed(rows[n - 1])
    }
}

/// What was written while the first `n` rows came.
pub open spec fn written(t: TableView, rows: Seq<Seq<Seq<char>>>, n: nat) -> Seq<char>
    decreases n,
{
    if n == 0 {
        Seq::empty()
    } else {
        written(t, rows, (n - 1) as nat) + after_rows(t, rows, (n - 1) as nat).pushed_text(
            rows[n - 1],
        )
    }
}

/// The widths of columns that fit the labels and the first `n` rows.
pub open spec fn fitted(labels: Seq<Seq<char>>, rows: Seq<Seq<Seq<char>>>, n: nat) -> Seq<usize>
    decreases n,
{
    if n == 0 {
        TableView::start(labels).widths
    } else {
        widened(fitted(labels, rows, (n - 1) as nat), rows[n - 1])
    }
}

/// How many rows are measured: the sample, or all of a short result.
pub open spec fn measured(rows: Seq<Seq<Seq<char>>>) -> nat {
    if rows.len() < SAMPLE_ROWS {
        rows.len()
    } else {
        SAMPLE_ROWS as nat
    }
}

/// A result of any length is drawn in full: header, rule and one line per row, in
/// order, with columns as wide as the sample needs.
pub proof fn law_every_row_is_drawn(labels: Seq<Seq<char>>, rows: Seq<Seq<Seq<char>>>)
    ensures
        ({
            let t = TableView::start(labels);
            let widths = fitted(labels, rows, measured(rows));
            written(t, rows, rows.len()) + after_rows(t, rows, rows.len()).finished_text() == line(
                labels,
                widths,
            ) + line(rule(widths), widths) + lines(rows, widths, rows.len())
        }),
{
    let t = TableView::start(labels);
    let n = rows.len();
    let widths = fitted(labels, rows, measured(rows));
    let whole = line(labels, widths) + line(rule(widths), widths) + lines(rows, widths, n);
    if n < SAMPLE_ROWS {
        lemma_held(labels, rows, n);
        let end = after_rows(t, rows, n);
        lemma_lines_take(rows, widths, n);
        assert(rows.take(n as int) =~= rows);
        assert(written(t, rows, n) + end.finished_text() =~= whole);
    } else {
        lemma_streamed(labels, rows, n);
        assert(written(t, rows, n) + Seq::<char>::empty() =~= written(t, rows, n));
    }
}

/// Memory is bounded by the sample, whatever the length of the result.
pub proof fn law_memory_is_bounded(t: TableView, rows: Seq<Seq<Seq<char>>>, n: nat)
    requires
        t.pending.len() < SAMPLE_ROWS,
    ensures
        after_rows(t, rows, n).pending.len() < SAMPLE_ROWS,
    decreases n,
{
    if n > 0 {
        law_memory_is_bounded(t, rows, (n - 1) as nat);
    }
}

/// Once the sample is full, the header is out.
pub proof fn law_header_is_early(labels: Seq<Seq<char>>, rows: Seq<Seq<Seq<char>>>, n: nat)
    requires
        SAMPLE_ROWS <= n <= rows.len(),
    ensures
        after_rows(TableView::start(labels), rows, n).committed,
{
    lemma_streamed(labels, rows, n);
}

proof fn lemma_held(labels: Seq<Seq<char>>, rows: Seq<Seq<Seq<char>>>, n: nat)
    requires
        n <= rows.len(),
        n < SAMPLE_ROWS,
    ensures
        ({
            let t = TableView::start(labels);
            &&& after_rows(t, rows, n) == (TableView {
                labels,
                widths: fitted(labels, rows, n),
                pending: rows.take(n as int),
                committed: false,
            })
            &&& written(t, rows, n) == Seq::<char>::empty()
        }),
    decreases n,
{
    let t = TableView::start(labels);
    if n == 0 {
        assert(rows.take(0) =~= Seq::<Seq<Seq<char>>>::empty());
    } else {
        lemma_held(labels, rows, (n - 1) as nat);
        assert(rows.take(n as int) =~= rows.take(n - 1).push(rows[n - 1]));
        assert(written(t, rows, n) =~= Seq::<char>::empty());
    }
}

proof fn lemma_lines_take(rows: Seq<Seq<Seq<char>>>, widths: Seq<usize>, n: nat)
    requires
        n <= rows.len(),
    ensures
        lines(rows.take(n as int), widths, n) == lines(rows, widths, n),
    decreases n,
{
    lemma_lines_prefix(rows.take(n as int), rows, widths, n);
}

proof fn lemma_lines_prefix(
    a: Seq<Seq<Seq<char>>>,
    b: Seq<Seq<Seq<char>>>,
    widths: Seq<usize>,
    n: nat,
)
    requires
        n <= a.len(),
        n <= b.len(),
        forall|i: int| 0 <= i < n ==> a[i] == #[trigger] b[i],
    ensures
        lines(a, widths, n) == lines(b, widths, n),
    decreases n,
{
    if n > 0 {
        lemma_lines_prefix(a, b, widths, (n - 1) as nat);
        assert(a[n - 1] == b[n - 1]);
    }
}

proof fn lemma_streamed(labels: Seq<Seq<char>>, rows: Seq<Seq<Seq<char>>>, n: nat)
    requires
        SAMPLE_ROWS <= n <= rows.len(),
    ensures
        ({
            let t = TableView::start(labels);
            let widths = fitted(labels, rows, SAMPLE_ROWS as nat);
            &&& after_rows(t, rows, n) == (TableView {
                labels,
                widths,
                pending: Seq::empty(),
                committed: true,
            })
            &&& written(t, rows, n) == line(labels, widths) + line(rule(widths), widths) + lines(
                rows,
                widths,
                n,
            )
        }),
    decreases n,
{
    let t = TableView::start(labels);
    let widths = fitted(labels, rows, SAMPLE_ROWS as nat);
    let top = line(labels, widths) + line(rule(widths), widths);
    if n == SAMPLE_ROWS {
        lemma_held(labels, rows, (n - 1) as nat);
        let before = after_rows(t, rows, (n - 1) as nat);
        assert(before.held(rows[n - 1]).pending =~= rows.take(n as int));
        lemma_lines_take(rows, widths, n);
        assert(written(t, rows, n) =~= top + lines(rows, widths, n));
    } else {
        lemma_streamed(labels, rows, (n - 1) as nat);
        assert(written(t, rows, n) =~= top + lines(rows, widths, n));
    }
}

// ---------------------------------------------------------------------------
// Cells
// ---------------------------------------------------------------------------

/// The text of a cell, given the text of its float if it is one.
pub open spec fn cell(value: RegValue, digits: Seq<char>) -> Seq<char> {
    match value {
        RegValue::Int(i) => text::signed_decimal(i as int),
        RegValue::Real(_) => digits,
        RegValue::Str(s) => s@,
        RegValue::Vector(v) => "<vector dim="@ + text::decimal(v@.len()) + ">"@,
        RegValue::Record(_) => "<record>"@,
        RegValue::Bitmap(b) => "<bitmap "@ + text::decimal(b@.len()) + " rows>"@,
        RegValue::Unset => "<unset>"@,
    }
}

/// The text of a cell. A float's digits are the caller's, who writes a float without
/// a fractional part with one decimal, so that it does not look like an integer.
pub fn render(value: &RegValue, digits: &str) -> (s: String)
    requires
        value matches RegValue::Bitmap(b) ==> b.wf(),
    ensures
        s@ == cell(*value, digits@),
{
    match value {
        RegValue::Int(i) => signed_numeral(*i),
        RegValue::Real(_) => digits.to_owned(),
        RegValue::Str(s) => s.clone(),
        RegValue::Vector(v) => join3("<vector dim=", numeral(v.len() as u64).as_str(), ">"),
        RegValue::Record(_) => "<record>".to_owned(),
        RegValue::Bitmap(b) => join3("<bitmap ", numeral(b.len()).as_str(), " rows>"),
        RegValue::Unset => "<unset>".to_owned(),
    }
}

} // verus!
