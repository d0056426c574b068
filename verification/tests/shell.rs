//! The shell: splitting, tables, commands and the dialogue.

use flats::editor::Input;
use flats::float::is_whole64;
use flats::metadata::common::{CollectionConfig, ColumnSpec, ColumnType, Dim, Schema};
use flats::platform::signal::Flag;
use flats::query::RegValue;
use flats::shell::meta::{args, meta, print_help, print_schema, DEFAULT_PATH};
use flats::shell::repl::{
    exit_for, mutation_report, plain_line, Outcome, PlainRead, Repl, Running, Step, CONTINUATION,
    EXIT_INTERRUPTED, EXIT_STATEMENT_FAILED, PROMPT,
};
use flats::shell::split::{is_blank, split};
use flats::shell::table::{join_padded, render, Table, SAMPLE_ROWS};
use std::io::{self, ErrorKind, Write};

/// `split` returns owned statements; comparing against `&str` is easier.
fn parts(input: &str) -> (Vec<String>, String) {
    let (statements, rest) = split(input);
    (statements, rest)
}

/// Push every row through a [`Table`] and return what it drew.
fn table(labels: &[&str], rows: &[&[&str]]) -> String {
    let mut out = String::new();
    let mut table = Table::new(labels.iter().map(|s| s.to_string()).collect());
    for row in rows {
        out += &table.push(row.iter().map(|s| s.to_string()).collect());
    }
    out + &table.finish()
}

/// The digits of a real as the shell prints them.
fn digits(f: f64) -> String {
    if is_whole64(f.to_bits()) {
        format!("{f:.1}")
    } else {
        format!("{f}")
    }
}

/// A cell, with its digits where it is a real.
fn cell(value: &RegValue) -> String {
    match value {
        RegValue::Real(bits) => render(value, &digits(f64::from_bits(*bits))),
        other => render(other, ""),
    }
}

// -- statement splitting -------------------------------------------------

#[test]
fn one_statement_per_terminator() {
    let (statements, rest) = parts("SELECT a FROM t; SELECT b FROM t;");
    assert_eq!(statements, ["SELECT a FROM t;", " SELECT b FROM t;"]);
    assert_eq!(rest, "");
}

#[test]
fn an_unterminated_statement_stays_in_the_remainder() {
    // What makes a statement span lines: the tail is handed back, and the
    // next line is appended to it.
    let (statements, rest) = parts("SELECT a\n");
    assert!(statements.is_empty());
    assert_eq!(rest, "SELECT a\n");

    let (statements, rest) = parts(&format!("{rest}FROM t;\n"));
    assert_eq!(statements, ["SELECT a\nFROM t;"]);
    assert!(rest.trim().is_empty());
}

#[test]
fn a_semicolon_inside_a_string_is_not_a_terminator() {
    // The reason the splitter models strings at all. Splitting naively here
    // would hand the parser two fragments, each with an unterminated
    // literal.
    let (statements, rest) = parts("INSERT INTO t (a) VALUES ('x;y');");
    assert_eq!(statements, ["INSERT INTO t (a) VALUES ('x;y');"]);
    assert_eq!(rest, "");
}

#[test]
fn a_doubled_quote_does_not_end_the_string() {
    // `''` is the lexer's escape (`'it''s'` lexes to `it's`), so the string
    // continues — and the `;` inside it is still not a terminator.
    let (statements, rest) = parts("INSERT INTO t (a) VALUES ('it''s; ok');");
    assert_eq!(statements, ["INSERT INTO t (a) VALUES ('it''s; ok');"]);
    assert_eq!(rest, "");
}

#[test]
fn a_semicolon_inside_a_comment_is_not_a_terminator() {
    let (statements, rest) = parts("SELECT a FROM t -- ; not this\n;");
    assert_eq!(statements, ["SELECT a FROM t -- ; not this\n;"]);
    assert_eq!(rest, "");
}

#[test]
fn a_comment_ends_at_the_line_break() {
    // The newline the reader strips has to be pushed back, or the comment
    // would swallow the statement typed on the following line. This is that
    // guarantee, from the splitter's side.
    let (statements, rest) = parts("-- a note\nSELECT a FROM t;");
    assert_eq!(statements, ["-- a note\nSELECT a FROM t;"]);
    assert_eq!(rest, "");
}

#[test]
fn blank_and_comment_only_input_yields_no_statements() {
    // These are what a person types constantly, and `execute("")` is
    // correctly a parse error — so the shell must never send them.
    for input in ["", "   ", "\n\n", "-- just a note\n", "  -- note\n\n", ";"] {
        let (statements, rest) = parts(input);
        assert!(statements.is_empty(), "{input:?} produced {statements:?}");
        assert!(rest.is_empty(), "{input:?} left {rest:?}");
    }
}

#[test]
fn an_unterminated_string_stays_open_across_lines() {
    // The remainder keeps the open literal, so the next line continues it
    // rather than starting a new statement.
    let (statements, rest) = parts("INSERT INTO t (a) VALUES ('start\n");
    assert!(statements.is_empty());
    assert_eq!(rest, "INSERT INTO t (a) VALUES ('start\n");
}

#[test]
fn a_statement_after_a_complete_one_is_kept_as_the_remainder() {
    let (statements, rest) = parts("SELECT a FROM t; SELECT b");
    assert_eq!(statements, ["SELECT a FROM t;"]);
    assert_eq!(rest, " SELECT b");
}

#[test]
fn is_blank_sees_through_comments_but_not_statements() {
    assert!(is_blank(""));
    assert!(is_blank("  \n "));
    assert!(is_blank("-- note"));
    assert!(is_blank("-- note\n  -- another\n"));
    assert!(!is_blank("-- note\nSELECT 1"));
    assert!(!is_blank("SELECT 1"));
}

// -- table rendering -----------------------------------------------------

#[test]
fn a_table_has_a_header_a_rule_and_one_line_per_row() {
    // Column `a` is one character wide (label and cells all fit), so it is
    // separated from `bb` by exactly the two-space gutter and no padding.
    let out = table(&["a", "bb"], &[&["1", "2"], &["3", "4"]]);
    assert_eq!(out, "a  bb\n-  --\n1  2\n3  4\n");
}

#[test]
fn a_table_with_no_rows_still_prints_its_header() {
    // An empty result must show WHICH columns came back empty — that is the
    // difference between "no matches" and "wrong query".
    assert_eq!(table(&["author"], &[]), "author\n------\n");
}

#[test]
fn columns_widen_to_their_widest_cell() {
    let out = table(&["a"], &[&["longest value"], &["x"]]);
    assert_eq!(out, "a\n-------------\nlongest value\nx\n");
}

#[test]
fn no_line_carries_trailing_whitespace() {
    // Otherwise every row ends in padding, which shows up in diffs and
    // copy-paste.
    let out = table(&["a", "b"], &[&["wide value", "x"]]);
    for line in out.lines() {
        assert!(!line.ends_with(' '), "trailing space in {line:?}");
    }
}

#[test]
fn the_last_column_is_not_padded() {
    let widths = vec![5, 5];
    let line = join_padded(&["a".to_string(), "b".to_string()], &widths);
    assert_eq!(line, "a      b");
    assert!(!line.ends_with(' '));
}

#[test]
fn padding_counts_characters_not_bytes() {
    // A multi-byte value must not skew its column: `é` is two BYTES but one
    // character, so padding it by byte length would under-pad by one.
    let widths = vec![3, 1];
    let line = join_padded(&["é".to_string(), "x".to_string()], &widths);
    assert_eq!(line, "é    x");

    // The same property through the real renderer.
    let out = table(&["c", "n"], &[&["é", "1"], &["abc", "2"]]);
    assert_eq!(out, "c    n\n---  -\né    1\nabc  2\n");
}

// -- cell rendering ------------------------------------------------------

#[test]
fn a_whole_numbered_float_is_distinguishable_from_an_int() {
    // `SEARCH … RETURNING id, score` puts an INT and a FLOAT side by side;
    // a score of exactly 1 must not read as the integer 1.
    assert_eq!(cell(&RegValue::Real((1.0f64).to_bits())), "1.0");
    assert_eq!(cell(&RegValue::Int(1)), "1");
    assert_eq!(cell(&RegValue::Real((0.5f64).to_bits())), "0.5");
}

#[test]
fn no_register_variant_panics_when_rendered() {
    // Including the ones no query can emit today. A cell renderer that
    // panicked on a variant would be a landmine for whoever lands
    // `VectorFetch`.
    let values = [
        RegValue::Unset,
        RegValue::Int(-7),
        RegValue::Real(f64::NAN.to_bits()),
        RegValue::Real(f64::INFINITY.to_bits()),
        RegValue::Str(String::new()),
        RegValue::Str("ünïcødé".to_string()),
        RegValue::Vector(vec![0.0f32.to_bits(), 1.0f32.to_bits()]),
    ];
    for v in &values {
        assert!(!cell(v).is_empty() || matches!(v, RegValue::Str(_)));
    }
    assert_eq!(
        cell(&RegValue::Vector(vec![0.0f32.to_bits(); 768])),
        "<vector dim=768>"
    );
}

// -- write failures ------------------------------------------------------

/// A writer that fails every write with a chosen kind — stands in for a
/// closed pipe.
struct Failing(ErrorKind);

impl Write for Failing {
    fn write(&mut self, _: &[u8]) -> io::Result<usize> {
        Err(io::Error::new(self.0, "synthetic"))
    }
    fn flush(&mut self) -> io::Result<()> {
        Err(io::Error::new(self.0, "synthetic"))
    }
}

/// The exit code for a failed write.
fn exit_of(e: io::Error) -> i32 {
    exit_for(e.kind() == ErrorKind::BrokenPipe)
}

#[test]
fn a_broken_pipe_is_a_clean_successful_exit() {
    // `flats db | head` closes stdout mid-table. The reader got what it
    // wanted; that is not a failure, and it must not be reported as one.
    assert_eq!(exit_of(io::Error::new(ErrorKind::BrokenPipe, "x")), 0);
}

#[test]
fn a_real_write_failure_is_an_error_exit() {
    assert_eq!(
        exit_of(io::Error::new(ErrorKind::PermissionDenied, "x")),
        1
    );
    assert_eq!(EXIT_STATEMENT_FAILED, 1);
    // 128 + SIGINT, so `$?` distinguishes a stopped run from a failed one.
    assert_eq!(EXIT_INTERRUPTED, 130);
}

#[test]
fn printing_a_table_propagates_a_write_failure_instead_of_panicking() {
    // The property that keeps `| head` from aborting: the renderer returns
    // the error rather than reaching a `println!` that would panic.
    let mut sink = Failing(ErrorKind::BrokenPipe);
    let mut table = Table::new(vec!["a".to_string()]);
    let err = sink.write_all(table.finish().as_bytes()).expect_err("must fail");
    assert_eq!(err.kind(), ErrorKind::BrokenPipe);
}

// -- bounded output ------------------------------------------------------

#[test]
fn rows_beyond_the_sample_are_not_held_in_memory() {
    // The property, stated directly: memory is O(sample), not O(result).
    // A shell that buffered everything would grow `pending` without bound
    // here, and `SELECT *` over a real collection would push the whole
    // thing through the heap on its way to a terminal.
    let mut out = String::new();
    let mut table = Table::new(vec!["n".to_string()]);
    for i in 0..(SAMPLE_ROWS * 4) {
        out += &table.push(vec![i.to_string()]);
        assert!(
            table.pending() < SAMPLE_ROWS,
            "held {} rows after {i}",
            table.pending()
        );
    }
    out += &table.finish();

    // Every row still reaches the output — bounding memory must not lose
    // data.
    let text = out;
    assert_eq!(text.lines().count(), SAMPLE_ROWS * 4 + 2, "header + rule");
    assert!(text.lines().nth(2) == Some("0"));
    assert!(text.lines().last() == Some(&format!("{}", SAMPLE_ROWS * 4 - 1)));
}

#[test]
fn the_header_is_written_before_the_result_is_complete() {
    // What makes the output STREAM: a long result starts appearing while
    // it is still being produced, rather than after. Once the sample is
    // full the header must already be on the wire.
    let mut out = String::new();
    let mut table = Table::new(vec!["n".to_string()]);
    for i in 0..SAMPLE_ROWS {
        out += &table.push(vec![i.to_string()]);
    }
    assert!(
        !out.is_empty(),
        "nothing was written before the result ended"
    );
    let text = out;
    let mut lines = text.lines();
    assert_eq!(lines.next(), Some("n"), "the header is out");
    assert!(
        lines.next().is_some_and(|l| l.chars().all(|c| c == '-')),
        "and its rule"
    );
}

#[test]
fn a_cell_wider_than_its_frozen_column_is_not_truncated() {
    // The accepted cost of streaming: widths are fixed once the header is
    // out, so a late wide value overflows its column. It must still print
    // in FULL — a ragged table is a cosmetic problem, a silently truncated
    // value is a wrong answer.
    let mut out = String::new();
    let mut table = Table::new(vec!["a".to_string(), "b".to_string()]);
    for _ in 0..SAMPLE_ROWS {
        out += &table.push(vec!["x".to_string(), "y".to_string()]);
    }
    out += &table.push(vec!["a much wider value".to_string(), "z".to_string()]);
    out += &table.finish();

    let text = out;
    assert!(text.contains("a much wider value  z"), "{text}");
}

// -- the dialogue ----------------------------------------------------------

fn line(s: &str) -> Result<Input, String> {
    Ok(Input::Line(s.to_string()))
}

/// The statements that run from a step on, each ending as the next outcome says; then
/// the exit code, if the shell ended.
fn drive(repl: &mut Repl, mut step: Step, outcomes: &[Outcome]) -> (Vec<String>, Option<i32>) {
    let mut ran = Vec::new();
    loop {
        match step {
            Step::Again => return (ran, None),
            Step::Exit { code, .. } => return (ran, Some(code)),
            Step::Meta(command) => panic!("{command:?} is not statement text"),
            Step::Run(statement) => {
                let outcome = outcomes.get(ran.len()).copied().unwrap_or(Outcome::Done);
                ran.push(statement);
                step = repl.settle(outcome);
            }
        }
    }
}

/// The statements that a line completes.
fn ready(repl: &mut Repl, s: &str) -> Vec<String> {
    let step = repl.read(line(s));
    let (ran, code) = drive(repl, step, &[]);
    assert_eq!(code, None);
    ran
}

#[test]
fn both_prompts_have_the_same_width() {
    assert_eq!(PROMPT.len(), CONTINUATION.len());
    assert_eq!(CONTINUATION, "  ...> ");
}

#[test]
fn a_statement_is_gathered_over_lines() {
    let mut repl = Repl::new(true);
    assert_eq!(repl.prompt(), PROMPT);
    assert!(ready(&mut repl, "SELECT a").is_empty());
    assert_eq!(repl.prompt(), CONTINUATION);
    assert_eq!(ready(&mut repl, "FROM t; SELECT b"), ["SELECT a\nFROM t;"]);
    assert_eq!(repl.prompt(), CONTINUATION);
    // An interrupt throws the open statement away.
    assert!(matches!(repl.read(Ok(Input::Interrupted)), Step::Again));
    assert_eq!(repl.prompt(), PROMPT);
    assert_eq!(ready(&mut repl, "SELECT c;"), ["SELECT c;"]);
}

#[test]
fn an_interrupt_ends_a_script() {
    assert!(matches!(
        Repl::new(false).read(Ok(Input::Interrupted)),
        Step::Exit { code: EXIT_INTERRUPTED, message: None }
    ));
}

#[test]
fn a_dot_line_is_a_command_only_between_statements() {
    let mut repl = Repl::new(true);
    match repl.read(line("  .tables ")) {
        Step::Meta(command) => assert_eq!(command, ".tables"),
        _ => panic!("expected a command"),
    }
    assert!(ready(&mut repl, "SELECT").is_empty());
    assert!(ready(&mut repl, ".tables").is_empty());
    assert_eq!(ready(&mut repl, ";"), ["SELECT\n.tables\n;"]);
}

#[test]
fn the_end_of_input_and_a_failed_read_leave() {
    assert!(matches!(
        Repl::new(true).read(Ok(Input::Eof)),
        Step::Exit { code: 0, message: None }
    ));
    let mut open = Repl::new(false);
    ready(&mut open, "SELECT");
    match open.read(Ok(Input::Eof)) {
        Step::Exit { code, message } => {
            assert_eq!(code, EXIT_STATEMENT_FAILED);
            assert_eq!(
                message.as_deref(),
                Some("error: unterminated statement at end of input (missing `;`)")
            );
        }
        _ => panic!("expected an exit"),
    }
    match Repl::new(false).read(Err("gone".to_string())) {
        Step::Exit { code: 1, message } => {
            assert_eq!(message.as_deref(), Some("error reading input: gone"))
        }
        _ => panic!("expected an exit"),
    }
}

#[test]
fn an_interrupted_read_is_an_interrupt_only_if_flagged() {
    let mut flag = Flag { pending: false };
    assert!(plain_line(PlainRead::Interrupted, &mut flag).is_none());
    flag.pending = true;
    assert!(matches!(
        plain_line(PlainRead::Interrupted, &mut flag),
        Some(Ok(Input::Interrupted))
    ));
    assert!(!flag.pending);
    assert!(matches!(plain_line(PlainRead::End, &mut flag), Some(Ok(Input::Eof))));
    assert!(matches!(
        plain_line(PlainRead::Line("x".into()), &mut flag),
        Some(Ok(Input::Line(l))) if l == "x"
    ));
    assert!(matches!(
        plain_line(PlainRead::Failed("why".into()), &mut flag),
        Some(Err(e)) if e == "why"
    ));
}

#[test]
fn a_mutation_is_reported_to_a_person() {
    assert_eq!(mutation_report(true, "2ms"), "ok  (2ms)\n");
    assert_eq!(mutation_report(false, "2ms"), "");
}

#[test]
fn a_failure_ends_only_a_script() {
    let all = ["a;", " b;", " c;"];
    let cases = [
        (Outcome::Failed, EXIT_STATEMENT_FAILED),
        (Outcome::Canceled, EXIT_INTERRUPTED),
    ];
    for (outcome, exit) in cases {
        // A person's statements all run.
        let mut repl = Repl::new(true);
        let step = repl.read(line("a; b; c;"));
        let (ran, code) = drive(&mut repl, step, &[Outcome::Done, outcome]);
        assert_eq!((ran, code), (all.map(String::from).to_vec(), None));

        // In a script nothing behind the second one does.
        let mut repl = Repl::new(false);
        let step = repl.read(line("a; b; c;"));
        let (ran, code) = drive(&mut repl, step, &[Outcome::Done, outcome]);
        assert_eq!((ran, code), (all[..2].iter().map(|s| s.to_string()).collect(), Some(exit)));
        // What waited is gone for good.
        assert!(matches!(repl.settle(Outcome::Done), Step::Again));
    }
    let mut repl = Repl::new(false);
    assert_eq!(ready(&mut repl, "a; b; c;"), all);
}

#[test]
fn arguments_name_at_most_one_directory() {
    assert_eq!(args(&[]).unwrap(), DEFAULT_PATH);
    assert_eq!(args(&["db".to_string()]).unwrap(), "db");
    assert_eq!(args(&["--nope".to_string()]).unwrap_err(), "unknown option: --nope");
    assert_eq!(
        args(&["a".to_string(), "b".to_string()]).unwrap_err(),
        "unexpected argument: b"
    );
    assert_eq!(
        args(&["-h".to_string()]).unwrap_err(),
        "usage: flats [PATH]\n\nOpens the Flats database in PATH, creating it if absent.\n\
         PATH defaults to ./flats-data."
    );
}

/// A collection with one vector and two scalar columns.
fn books() -> CollectionConfig {
    CollectionConfig {
        id: 3,
        name: "books".into(),
        capacity: 10,
        schema: Schema::from_columns(vec![
            ColumnSpec::Scalar {
                name: "title".into(),
                ty: ColumnType::Text,
            },
            ColumnSpec::Vector {
                name: "embedding".into(),
                dim: Dim::new(4).unwrap(),
            },
            ColumnSpec::Scalar {
                name: "year".into(),
                ty: ColumnType::Int,
            },
        ])
        .unwrap(),
    }
}

#[test]
fn commands_answer_from_the_registry() {
    let all = [books()];
    assert!(meta(".quit", &all).quit && meta(".exit", &all).quit);
    assert_eq!(meta(".help", &all).out, print_help());
    let tables = meta(".tables", &all);
    assert!(!tables.quit && tables.err.is_none());
    assert_eq!(tables.out, "books\n");
    assert_eq!(meta(".tables", &[]).out, "no collections\n");
    assert_eq!(meta(".schema books", &all).out, print_schema(&all[0]));
    assert_eq!(meta(".schema", &[]).out, "no collections\n");
    let unknown = meta(".schema films", &all);
    assert_eq!(unknown.err.as_deref(), Some("error: no such collection: films"));
    assert_eq!(unknown.out, "");
    assert_eq!(
        meta(".nonsense", &all).err.as_deref(),
        Some("error: unknown command: .nonsense   (.help for a list)")
    );
}

#[test]
fn a_schema_lists_columns_in_declaration_order() {
    let text = print_schema(&books());
    let at = |needle: &str| text.find(needle).expect(needle);
    assert!(at("title") < at("embedding") && at("embedding") < at("year"));
    assert!(text.contains("VECTOR(4)"), "{text}");
}

#[test]
fn a_running_statement_counts_what_it_printed() {
    let mut run = Running::new(vec!["a".to_string()]);
    let (on, early) = run.item(false, Ok(vec!["x".to_string()]));
    assert!(on && early.is_empty());
    let report = run.finish(true, "1ms");
    assert_eq!(report.out, "a\n-\nx\n1 row  (1ms)\n");
    assert_eq!((report.outcome, report.err), (Outcome::Done, None));

    let quiet = Running::new(vec!["a".to_string()]).finish(false, "1ms");
    assert_eq!(quiet.out, "a\n-\n");
}

#[test]
fn a_failed_row_keeps_the_rows_before_it() {
    let mut run = Running::new(vec!["a".to_string()]);
    run.item(false, Ok(vec!["x".to_string()]));
    let (on, _) = run.item(false, Err("broken".to_string()));
    assert!(!on);
    let report = run.finish(false, "1ms");
    assert_eq!(report.out, "a\n-\nx\n");
    assert_eq!(report.err.as_deref(), Some("error after 1 rows: broken"));
    assert_eq!(report.outcome, Outcome::Failed);
}

#[test]
fn an_interrupt_stops_before_the_next_row() {
    let mut run = Running::new(vec!["a".to_string()]);
    let (on, _) = run.item(true, Ok(vec!["x".to_string()]));
    assert!(!on);
    let report = run.finish(true, "1ms");
    assert_eq!(report.err.as_deref(), Some("canceled after 0 rows"));
    assert_eq!(report.outcome, Outcome::Canceled);
}
