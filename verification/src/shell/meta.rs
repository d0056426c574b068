//! The `.`-commands of the shell, and its command line.

use vstd::prelude::*;
use vstd::string::*;
use vstd::utf8::*;

use crate::engine::catalog;
use crate::metadata::common::{CollectionConfig, ColumnDefView, ColumnType, ConfigView, SchemaView};
use crate::text;
use crate::text::{
    chars_of, join2, join3, numeral, push_many, same_text, skip_white, skip_word, text_of,
};

verus! {

/// Where a database lives if the command line does not say.
pub const DEFAULT_PATH: &'static str = "./flats-data";

/// What a meta-command asks for.
pub struct Reply {
    /// Whether the shell ends.
    pub quit: bool,
    /// What goes to the output.
    pub out: String,
    /// What goes to the error output, as one line.
    pub err: Option<String>,
}

/// What a [`Reply`] holds.
pub struct ReplyView {
    /// Whether the shell ends.
    pub quit: bool,
    /// What goes to the output.
    pub out: Seq<char>,
    /// What goes to the error output.
    pub err: Option<Seq<char>>,
}

impl View for Reply {
    type V = ReplyView;

    open spec fn view(&self) -> ReplyView {
        ReplyView {
            quit: self.quit,
            out: self.out@,
            err: match self.err {
                Some(e) => Some(e@),
                None => None,
            },
        }
    }
}

/// The first word from index `i` on, and where it ends.
pub open spec fn word_at(s: Seq<char>, i: int) -> Option<(Seq<char>, int)> {
    let start = text::word_start(s, i);
    let end = text::word_end(s, start);
    if start < s.len() {
        Some((s.subrange(start, end), end))
    } else {
        None
    }
}

/// The command of a line: its first word.
pub open spec fn command(s: Seq<char>) -> Seq<char> {
    match word_at(s, 0) {
        Some((w, _)) => w,
        None => "."@,
    }
}

/// The argument of a line: its second word.
pub open spec fn argument(s: Seq<char>) -> Option<Seq<char>> {
    match word_at(s, 0) {
        Some((_, end)) => match word_at(s, end) {
            Some((w, _)) => Some(w),
            None => None,
        },
        None => None,
    }
}

fn next_word(chars: &[char], i: usize) -> (r: Option<(String, usize)>)
    requires
        i <= chars@.len(),
    ensures
        match r {
            Some((w, end)) => word_at(chars@, i as int) == Some((w@, end as int)) && end
                <= chars@.len(),
            None => word_at(chars@, i as int) is None,
        },
{
    let start: usize = skip_white(chars, i);
    let end: usize = skip_word(chars, start);
    if start < chars.len() {
        Some((text_of(chars, start, end), end))
    } else {
        None
    }
}

/// The names of collections, one on each line.
pub open spec fn names(registry: Seq<ConfigView>, n: nat) -> Seq<char>
    decreases n,
{
    if n == 0 {
        Seq::empty()
    } else {
        names(registry, (n - 1) as nat) + registry[n - 1].name + "\n"@
    }
}

/// The type of a scalar column as a statement writes it.
pub open spec fn sql_name(ty: ColumnType) -> Seq<char> {
    match ty {
        ColumnType::Int => "INT"@,
        ColumnType::Float => "FLOAT"@,
        ColumnType::Text => "TEXT"@,
    }
}

fn sql_text(ty: ColumnType) -> (s: &'static str)
    ensures
        s@ == sql_name(ty),
{
    match ty {
        ColumnType::Int => "INT",
        ColumnType::Float => "FLOAT",
        ColumnType::Text => "TEXT",
    }
}

/// One column of a listing: its place in the declaration, its name and its type.
pub struct Listed {
    /// Place in the declaration.
    pub ordinal: usize,
    /// Name.
    pub name: String,
    /// Type.
    pub ty: String,
}

/// What a [`Listed`] holds.
pub struct ListedView {
    /// Place in the declaration.
    pub ordinal: usize,
    /// Name.
    pub name: Seq<char>,
    /// Type.
    pub ty: Seq<char>,
}

impl View for Listed {
    type V = ListedView;

    open spec fn view(&self) -> ListedView {
        ListedView { ordinal: self.ordinal, name: self.name@, ty: self.ty@ }
    }
}

/// What a run of listed columns holds.
pub open spec fn listed_view(columns: Seq<Listed>) -> Seq<ListedView> {
    columns.map_values(|c: Listed| c@)
}

/// A scalar column as it is listed.
pub open spec fn scalar_listed(def: ColumnDefView) -> ListedView {
    ListedView { ordinal: def.ordinal, name: def.name, ty: sql_name(def.ty) }
}

/// The vector column as it is listed.
pub open spec fn vector_listed(schema: SchemaView) -> ListedView {
    ListedView {
        ordinal: schema.vector.ordinal,
        name: schema.vector.name,
        ty: "VECTOR("@ + text::decimal(schema.vector.dim.spec_get() as nat) + ")"@,
    }
}

/// Where a column goes among columns in declaration order: behind every one that is
/// not later.
pub open spec fn seat(columns: Seq<ListedView>, ordinal: usize) -> int
    decreases columns.len(),
{
    if columns.len() == 0 {
        0
    } else if columns.last().ordinal <= ordinal {
        columns.len() as int
    } else {
        seat(columns.drop_last(), ordinal)
    }
}

/// The columns with one more in its place.
pub open spec fn placed(columns: Seq<ListedView>, column: ListedView) -> Seq<ListedView> {
    columns.insert(seat(columns, column.ordinal), column)
}

/// The first `n` scalar columns in declaration order.
pub open spec fn scalars_listed(schema: SchemaView, n: nat) -> Seq<ListedView>
    decreases n,
{
    if n == 0 {
        Seq::empty()
    } else {
        placed(scalars_listed(schema, (n - 1) as nat), scalar_listed(schema.columns[n - 1]))
    }
}

/// Every column in declaration order, the vector among the scalars.
pub open spec fn columns_listed(schema: SchemaView) -> Seq<ListedView> {
    placed(scalars_listed(schema, schema.columns.len()), vector_listed(schema))
}

/// Declaration ordinals rise or stay.
pub open spec fn in_declaration_order(columns: Seq<ListedView>) -> bool {
    forall|i: int, j: int|
        0 <= i < j < columns.len() ==> (#[trigger] columns[i]).ordinal <= (
        #[trigger] columns[j]).ordinal
}

/// The columns of a schema as they are listed: the scalars as they are stored, then
/// the vector.
pub open spec fn columns_stored(schema: SchemaView) -> Seq<ListedView> {
    schema.columns.map_values(|def: ColumnDefView| scalar_listed(def)).push(vector_listed(schema))
}

/// A listing holds every column of the schema, the vector included, each as often as
/// the schema does, and in the order of the declaration.
pub proof fn law_listing_is_ordered(schema: SchemaView)
    ensures
        in_declaration_order(columns_listed(schema)),
        columns_listed(schema).to_multiset() == columns_stored(schema).to_multiset(),
        columns_listed(schema).len() == schema.columns.len() + 1,
{
    broadcast use vstd::seq_lib::group_to_multiset_ensures;

    let n = schema.columns.len();
    let scalars = schema.columns.map_values(|def: ColumnDefView| scalar_listed(def));
    lemma_scalars_listed(schema, n);
    assert(scalars.take(n as int) =~= scalars);
    lemma_placed(scalars_listed(schema, n), vector_listed(schema));
}

proof fn lemma_scalars_listed(schema: SchemaView, n: nat)
    requires
        n <= schema.columns.len(),
    ensures
        in_declaration_order(scalars_listed(schema, n)),
        scalars_listed(schema, n).len() == n,
        scalars_listed(schema, n).to_multiset() == schema.columns.map_values(
            |def: ColumnDefView| scalar_listed(def),
        ).take(n as int).to_multiset(),
    decreases n,
{
    broadcast use vstd::seq_lib::group_to_multiset_ensures;

    let scalars = schema.columns.map_values(|def: ColumnDefView| scalar_listed(def));
    if n == 0 {
        assert(scalars.take(0) =~= scalars_listed(schema, 0));
    } else {
        lemma_scalars_listed(schema, (n - 1) as nat);
        lemma_placed(
            scalars_listed(schema, (n - 1) as nat),
            scalar_listed(schema.columns[n - 1]),
        );
        assert(scalars.take(n as int) =~= scalars.take(n - 1).push(scalars[n - 1]));
    }
}

proof fn lemma_seat(columns: Seq<ListedView>, ordinal: usize)
    requires
        in_declaration_order(columns),
    ensures
        0 <= seat(columns, ordinal) <= columns.len(),
        forall|i: int|
            0 <= i < seat(columns, ordinal) ==> (#[trigger] columns[i]).ordinal <= ordinal,
        forall|i: int|
            seat(columns, ordinal) <= i < columns.len() ==> (#[trigger] columns[i]).ordinal
                > ordinal,
    decreases columns.len(),
{
    if columns.len() > 0 && columns.last().ordinal > ordinal {
        let rest = columns.drop_last();
        assert(in_declaration_order(rest));
        lemma_seat(rest, ordinal);
        assert forall|i: int| 0 <= i < columns.len() implies ((#[trigger] columns[i]).ordinal
            <= ordinal <==> i < seat(columns, ordinal)) by {
            if i < rest.len() {
                assert(rest[i] == columns[i]);
            }
        }
    }
}

proof fn lemma_placed(columns: Seq<ListedView>, column: ListedView)
    requires
        in_declaration_order(columns),
    ensures
        in_declaration_order(placed(columns, column)),
        placed(columns, column).len() == columns.len() + 1,
        placed(columns, column).to_multiset() == columns.to_multiset().insert(column),
{
    broadcast use vstd::seq_lib::group_to_multiset_ensures;

    lemma_seat(columns, column.ordinal);
    let at = seat(columns, column.ordinal);
    let now = placed(columns, column);
    assert forall|i: int, j: int| 0 <= i < j < now.len() implies (#[trigger] now[i]).ordinal <= (
    #[trigger] now[j]).ordinal by {
        if i < at {
            assert(now[i] == columns[i]);
        } else if i > at {
            assert(now[i] == columns[i - 1]);
        }
        if j < at {
            assert(now[j] == columns[j]);
        } else if j > at {
            assert(now[j] == columns[j - 1]);
        }
    }
}

/// The length of the longest of the first `n` names, in bytes.
pub open spec fn longest(columns: Seq<ListedView>, n: nat) -> nat
    decreases n,
{
    if n == 0 {
        0
    } else {
        let before = longest(columns, (n - 1) as nat);
        let len = encode_utf8(columns[n - 1].name).len();
        if len > before {
            len
        } else {
            before
        }
    }
}

/// The first `n` lines of a listing, names padded to a width in characters.
pub open spec fn column_lines(columns: Seq<ListedView>, width: nat, n: nat) -> Seq<char>
    decreases n,
{
    if n == 0 {
        Seq::empty()
    } else {
        let c = columns[n - 1];
        column_lines(columns, width, (n - 1) as nat) + "  "@ + c.name + text::repeated(
            ' ',
            width - c.name.len(),
        ) + "  "@ + c.ty + "\n"@
    }
}

/// The listing of a collection: name and capacity, then a line for each column.
pub open spec fn schema_text(c: ConfigView) -> Seq<char> {
    let columns = columns_listed(c.schema);
    c.name + "   (capacity "@ + text::decimal(c.capacity as nat) + ")\n"@ + column_lines(
        columns,
        longest(columns, columns.len()),
        columns.len(),
    )
}

fn place(columns: &mut Vec<Listed>, column: Listed)
    ensures
        listed_view(final(columns)@) == placed(listed_view(old(columns)@), column@),
{
    let ghost view = listed_view(columns@);
    let ghost before = columns@;
    let mut at: usize = columns.len();
    proof {
        assert(view.take(at as int) =~= view);
    }
    while at > 0 && columns[at - 1].ordinal > column.ordinal
        invariant
            at <= columns@.len(),
            columns@ == before,
            view == listed_view(columns@),
            seat(view, column.ordinal) == seat(view.take(at as int), column.ordinal),
        decreases at,
    {
        proof {
            assert(view.take(at as int).last() == columns@[at - 1]@);
            assert(view.take(at as int).drop_last() =~= view.take(at - 1));
        }
        at -= 1;
    }
    proof {
        if at > 0 {
            assert(view.take(at as int).last() == columns@[at - 1]@);
        }
        assert(seat(view, column.ordinal) == at);
    }
    columns.insert(at, column);
    proof {
        assert(listed_view(columns@) =~= view.insert(at as int, column@));
    }
}

/// The listing of a collection, its columns in declaration order.
pub fn print_schema(c: &CollectionConfig) -> (s: String)
    ensures
        s@ == schema_text(c@),
{
    let mut columns: Vec<Listed> = Vec::new();
    let mut i: usize = 0;
    proof {
        assert(listed_view(columns@) =~= scalars_listed(c@.schema, 0));
    }
    while i < c.schema.columns.len()
        invariant
            i <= c.schema.columns@.len(),
            listed_view(columns@) == scalars_listed(c@.schema, i as nat),
        decreases c.schema.columns@.len() - i,
    {
        assert(c@.schema.columns[i as int] == c.schema.columns@[i as int]@);
        place(
            &mut columns,
            Listed {
                ordinal: c.schema.columns[i].ordinal,
                name: c.schema.columns[i].name.clone(),
                ty: sql_text(c.schema.columns[i].ty).to_owned(),
            },
        );
        i += 1;
    }
    place(
        &mut columns,
        Listed {
            ordinal: c.schema.vector.ordinal,
            name: c.schema.vector.name.clone(),
            ty: join3("VECTOR(", numeral(c.schema.vector.dim.get() as u64).as_str(), ")"),
        },
    );
    let ghost view = listed_view(columns@);
    proof {
        assert(view == columns_listed(c@.schema));
    }
    let mut width: usize = 0;
    let mut j: usize = 0;
    while j < columns.len()
        invariant
            j <= columns@.len(),
            view == listed_view(columns@),
            width == longest(view, j as nat),
        decreases columns@.len() - j,
    {
        assert(view[j as int] == columns@[j as int]@);
        let len: usize = columns[j].name.as_str().as_bytes().len();
        if len > width {
            width = len;
        }
        j += 1;
    }
    let mut s: String = join3(
        c.name.as_str(),
        "   (capacity ",
        numeral(c.capacity as u64).as_str(),
    );
    s.append(")\n");
    let ghost top = s@;
    proof {
        assert(top =~= c@.name + "   (capacity "@ + text::decimal(c@.capacity as nat) + ")\n"@);
        assert(s@ =~= top + column_lines(view, width as nat, 0));
    }
    let mut k: usize = 0;
    while k < columns.len()
        invariant
            k <= columns@.len(),
            view == listed_view(columns@),
            s@ == top + column_lines(view, width as nat, k as nat),
        decreases columns@.len() - k,
    {
        assert(view[k as int] == columns@[k as int]@);
        s.append("  ");
        s.append(columns[k].name.as_str());
        let len: usize = columns[k].name.as_str().unicode_len();
        if len < width {
            push_many(&mut s, ' ', width - len);
        }
        s.append("  ");
        s.append(columns[k].ty.as_str());
        s.append("\n");
        proof {
            assert(s@ =~= top + column_lines(view, width as nat, (k + 1) as nat));
        }
        k += 1;
    }
    s
}

/// The text of `.help`.
pub open spec fn help_text() -> Seq<char> {
    "meta-commands
  .help              show this message
  .tables            list collections
  .schema [NAME]     show a collection's columns (all collections if omitted)
  .quit, .exit       leave the shell  (Ctrl-D also works)

keys
  up / down          previous and next statement from history
  left / right       move by character   (ctrl+left / ctrl+right by word)
  ctrl-a / ctrl-e    start / end of line
  ctrl-w / ctrl-u    delete the previous word / to the start of the line
  ctrl-k / ctrl-l    delete to end of line / clear the screen
  ctrl-c             abandon the line, or stop a running statement

statements end with `;` and may span several lines
  CREATE COLLECTION docs (vector VECTOR(3), author TEXT) WITH (capacity = 1000);
  INSERT INTO docs (vector, author) VALUES ([0.1, 0.2, 0.3], 'alice');
  SELECT * FROM docs;
  SEARCH TOP 5 NEAREST TO [0.1, 0.2, 0.3] FROM docs RETURNING id, score, author;
"@
}

/// The text of `.help`.
pub fn print_help() -> (s: String)
    ensures
        s@ == help_text(),
{
    "meta-commands
  .help              show this message
  .tables            list collections
  .schema [NAME]     show a collection's columns (all collections if omitted)
  .quit, .exit       leave the shell  (Ctrl-D also works)

keys
  up / down          previous and next statement from history
  left / right       move by character   (ctrl+left / ctrl+right by word)
  ctrl-a / ctrl-e    start / end of line
  ctrl-w / ctrl-u    delete the previous word / to the start of the line
  ctrl-k / ctrl-l    delete to end of line / clear the screen
  ctrl-c             abandon the line, or stop a running statement

statements end with `;` and may span several lines
  CREATE COLLECTION docs (vector VECTOR(3), author TEXT) WITH (capacity = 1000);
  INSERT INTO docs (vector, author) VALUES ([0.1, 0.2, 0.3], 'alice');
  SELECT * FROM docs;
  SEARCH TOP 5 NEAREST TO [0.1, 0.2, 0.3] FROM docs RETURNING id, score, author;
".to_owned()
}

/// The listings of the first `n` collections, all of them or those of one name, with
/// an empty line between two.
pub open spec fn schemas(registry: Seq<ConfigView>, name: Option<Seq<char>>, n: nat) -> Seq<char>
    decreases n,
{
    if n == 0 {
        Seq::empty()
    } else {
        let before = schemas(registry, name, (n - 1) as nat);
        let c = registry[n - 1];
        if name is Some && name->0 != c.name {
            before
        } else if shown(registry, name, (n - 1) as nat) {
            before + "\n"@ + schema_text(c)
        } else {
            before + schema_text(c)
        }
    }
}

/// Whether one of the first `n` collections is listed.
pub open spec fn shown(registry: Seq<ConfigView>, name: Option<Seq<char>>, n: nat) -> bool {
    exists|i: int|
        0 <= i < n && (name is None || name->0 == (#[trigger] registry[i]).name)
}

/// What a meta-command asks for, given the collections in id order.
pub open spec fn replied(s: Seq<char>, registry: Seq<ConfigView>) -> ReplyView {
    let c = command(s);
    let arg = argument(s);
    let n = registry.len();
    if c == ".quit"@ || c == ".exit"@ {
        ReplyView { quit: true, out: Seq::empty(), err: None }
    } else if c == ".help"@ {
        ReplyView { quit: false, out: help_text(), err: None }
    } else if c == ".tables"@ {
        ReplyView {
            quit: false,
            out: if n == 0 {
                "no collections\n"@
            } else {
                names(registry, n)
            },
            err: None,
        }
    } else if c == ".schema"@ {
        if shown(registry, arg, n) {
            ReplyView { quit: false, out: schemas(registry, arg, n), err: None }
        } else {
            match arg {
                Some(name) => ReplyView {
                    quit: false,
                    out: Seq::empty(),
                    err: Some("error: no such collection: "@ + name),
                },
                None => ReplyView { quit: false, out: "no collections\n"@, err: None },
            }
        }
    } else {
        ReplyView {
            quit: false,
            out: Seq::empty(),
            err: Some("error: unknown command: "@ + c + "   (.help for a list)"@),
        }
    }
}

/// Answers a meta-command. A bad one is no failed statement: it never reached the
/// database, so the shell goes on.
pub fn meta(line: &str, collections: &[CollectionConfig]) -> (r: Reply)
    ensures
        r@ == replied(line@, catalog::configs_view(collections@)),
{
    let ghost registry = catalog::configs_view(collections@);
    let chars: Vec<char> = chars_of(line);
    let first: Option<(String, usize)> = next_word(chars.as_slice(), 0);
    let (command, arg): (String, Option<String>) = match first {
        Some((word, end)) => match next_word(chars.as_slice(), end) {
            Some((arg, _)) => (word, Some(arg)),
            None => (word, None),
        },
        None => (".".to_owned(), None),
    };
    let c: &str = command.as_str();
    if same_text(c, ".quit") || same_text(c, ".exit") {
        return Reply { quit: true, out: String::new(), err: None };
    }
    if same_text(c, ".help") {
        return Reply { quit: false, out: print_help(), err: None };
    }
    if same_text(c, ".tables") {
        if collections.len() == 0 {
            return Reply { quit: false, out: "no collections\n".to_owned(), err: None };
        }
        let mut out = String::new();
        let mut i: usize = 0;
        proof {
            assert(out@ =~= names(registry, 0));
        }
        while i < collections.len()
            invariant
                i <= collections@.len(),
                registry == catalog::configs_view(collections@),
                out@ == names(registry, i as nat),
            decreases collections@.len() - i,
        {
            assert(registry[i as int] == collections@[i as int]@);
            out.append(collections[i].name.as_str());
            out.append("\n");
            i += 1;
        }
        return Reply { quit: false, out, err: None };
    }
    if same_text(c, ".schema") {
        return schema_reply(&arg, collections);
    }
    Reply {
        quit: false,
        out: String::new(),
        err: Some(join3("error: unknown command: ", c, "   (.help for a list)")),
    }
}

/// The text of an optional word.
pub open spec fn word_view(arg: Option<String>) -> Option<Seq<char>> {
    match arg {
        Some(name) => Some(name@),
        None => None,
    }
}

fn schema_reply(arg: &Option<String>, collections: &[CollectionConfig]) -> (r: Reply)
    ensures
        ({
            let registry = catalog::configs_view(collections@);
            let n = registry.len();
            let name = word_view(*arg);
            r@ == if shown(registry, name, n) {
                ReplyView { quit: false, out: schemas(registry, name, n), err: None }
            } else {
                match name {
                    Some(name) => ReplyView {
                        quit: false,
                        out: Seq::empty(),
                        err: Some("error: no such collection: "@ + name),
                    },
                    None => ReplyView { quit: false, out: "no collections\n"@, err: None },
                }
            }
        }),
{
    let ghost registry = catalog::configs_view(collections@);
    let ghost name = word_view(*arg);
    let mut out = String::new();
    let mut any: bool = false;
    let mut i: usize = 0;
    proof {
        assert(out@ =~= schemas(registry, name, 0));
    }
    while i < collections.len()
        invariant
            i <= collections@.len(),
            registry == catalog::configs_view(collections@),
            name == word_view(*arg),
            out@ == schemas(registry, name, i as nat),
            any == shown(registry, name, i as nat),
        decreases collections@.len() - i,
    {
        assert(registry[i as int] == collections@[i as int]@);
        let wanted: bool = match arg {
            Some(name) => same_text(name.as_str(), collections[i].name.as_str()),
            None => true,
        };
        let ghost was = shown(registry, name, i as nat);
        if wanted {
            if any {
                out.append("\n");
            }
            out.append(print_schema(&collections[i]).as_str());
            any = true;
            proof {
                let _ = registry[i as int];
                assert(shown(registry, name, (i + 1) as nat));
            }
        } else {
            proof {
                assert(shown(registry, name, (i + 1) as nat) ==> was);
                if was {
                    let k = choose|k: int|
                        0 <= k < i && (name is None || name->0 == (#[trigger] registry[k]).name);
                    assert(registry[k].name == registry[k].name);
                }
            }
        }
        i += 1;
    }
    if any {
        return Reply { quit: false, out, err: None };
    }
    match arg {
        Some(name) => Reply {
            quit: false,
            out: String::new(),
            err: Some(join2("error: no such collection: ", name.as_str())),
        },
        None => Reply { quit: false, out: "no collections\n".to_owned(), err: None },
    }
}

// ---------------------------------------------------------------------------
// The command line
// ---------------------------------------------------------------------------

/// What the command line asks for: the path of the database, or a message to end
/// with.
pub open spec fn asked(args: Seq<Seq<char>>) -> Result<Seq<char>, Seq<char>> {
    if args.len() == 0 {
        Ok(DEFAULT_PATH@)
    } else if args[0] == "-h"@ || args[0] == "--help"@ {
        Err(
            "usage: flats [PATH]\n\nOpens the Flats database in PATH, creating it if absent.\nPATH defaults to "@
                + DEFAULT_PATH@ + "."@,
        )
    } else if args[0].len() > 0 && args[0][0] == '-' {
        Err("unknown option: "@ + args[0])
    } else if args.len() > 1 {
        Err("unexpected argument: "@ + args[1])
    } else {
        Ok(args[0])
    }
}

/// Reads the command line: one optional argument, the path of the database.
pub fn args(given: &[String]) -> (r: Result<String, String>)
    ensures
        match asked(text::texts(given@)) {
            Ok(path) => r matches Ok(p) && p@ == path,
            Err(why) => r matches Err(e) && e@ == why,
        },
{
    let ghost views = text::texts(given@);
    if given.len() == 0 {
        return Ok(DEFAULT_PATH.to_owned());
    }
    assert(views[0] == given@[0]@);
    let first: &str = given[0].as_str();
    if same_text(first, "-h") || same_text(first, "--help") {
        return Err(
            join3(
                "usage: flats [PATH]\n\nOpens the Flats database in PATH, creating it if absent.\nPATH defaults to ",
                DEFAULT_PATH,
                ".",
            ),
        );
    }
    let chars: Vec<char> = chars_of(first);
    if chars.len() > 0 && chars[0] == '-' {
        return Err(join2("unknown option: ", first));
    }
    if given.len() > 1 {
        assert(views[1] == given@[1]@);
        return Err(join2("unexpected argument: ", given[1].as_str()));
    }
    Ok(given[0].clone())
}

} // verus!
