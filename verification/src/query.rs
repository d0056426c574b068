//! The query pipeline: from a planned statement to a program, and the stream of its
//! rows.
//!
//! There are two levels of error. What is wrong with a statement is known before
//! anything runs. What goes wrong while it runs comes as an item of the stream,
//! which ends there.

use vstd::prelude::*;
use vstd::string::*;

use crate::bitmap::Bitmap;
use crate::compiler::bytecode::{Op, Program, ValidateError};
use crate::compiler::compiler;
use crate::compiler::compiler::{compile, CompileError};
use crate::engine::catalog;
use crate::error::Error as EngineError;
use crate::metadata::common::{CollectionConfig, ConfigView, Schema, SchemaView, Value};
use crate::sql::{BoundStatement, LogicalPlan, Statement};
use crate::text;
use crate::text::{join2, same_text};

verus! {

/// What a register of the machine holds.
pub enum RegValue {
    /// Nothing yet.
    Unset,
    /// An integer.
    Int(i64),
    /// A float: the bit pattern.
    Real(u64),
    /// A string.
    Str(String),
    /// A vector: bit patterns of 32-bit floats.
    Vector(Vec<u32>),
    /// A packed row.
    Record(Vec<Value>),
    /// A set of rows.
    Bitmap(Bitmap),
}

/// One row of a result.
pub struct OutputRow(pub Vec<RegValue>);

/// Why the machine stopped.
#[derive(Debug)]
pub enum ExecError {
    /// The program is malformed.
    Invalid(ValidateError),
    /// The engine refused or failed.
    Engine(EngineError),
    /// The machine could not go on, as text.
    Machine(String),
}

/// Why a statement could not be run: which stage refused it, and why.
#[derive(Debug)]
pub enum Error {
    /// Bad syntax.
    Parse(String),
    /// Names, types or arity.
    Bind(String),
    /// The plan could not be lowered.
    Compile(CompileError),
    /// The program is malformed.
    Validate(ValidateError),
    /// The engine refused or failed.
    Engine(EngineError),
    /// The machine could not go on.
    Exec(String),
    /// Valid, and not implemented.
    Unsupported {
        /// What is missing.
        feature: String,
    },
}

/// An error of the machine as one of the pipeline: the cases that are not the
/// machine's own get their own variants.
pub open spec fn surfaced(e: ExecError) -> Error {
    match e {
        ExecError::Invalid(v) => Error::Validate(v),
        ExecError::Engine(e) => Error::Engine(e),
        ExecError::Machine(why) => Error::Exec(why),
    }
}

impl From<ExecError> for Error {
    fn from(e: ExecError) -> (r: Error) {
        match e {
            ExecError::Invalid(v) => Error::Validate(v),
            ExecError::Engine(e) => Error::Engine(e),
            ExecError::Machine(why) => Error::Exec(why),
        }
    }
}

impl vstd::std_specs::convert::FromSpecImpl<ExecError> for Error {
    open spec fn obeys_from_spec() -> bool {
        true
    }

    open spec fn from_spec(e: ExecError) -> Error {
        surfaced(e)
    }
}

impl Error {
    /// The text shown to the user.
    pub open spec fn message(self) -> Seq<char> {
        match self {
            Error::Parse(why) => "parse error: "@ + why@,
            Error::Bind(why) => "bind error: "@ + why@,
            Error::Compile(e) => "compile error: "@ + e.message(),
            Error::Validate(e) => "malformed program: "@ + e.message(),
            Error::Engine(e) => "engine error: "@ + e.message(),
            Error::Exec(why) => "execution error: "@ + why@,
            Error::Unsupported { feature } => "not supported yet: "@ + feature@,
        }
    }

    /// The text shown to the user.
    pub fn to_text(&self) -> (s: String)
        ensures
            s@ == self.message(),
    {
        match self {
            Error::Parse(why) => join2("parse error: ", why.as_str()),
            Error::Bind(why) => join2("bind error: ", why.as_str()),
            Error::Compile(e) => join2("compile error: ", e.to_text().as_str()),
            Error::Validate(e) => join2("malformed program: ", e.to_text().as_str()),
            Error::Engine(e) => join2("engine error: ", e.to_text().as_str()),
            Error::Exec(why) => join2("execution error: ", why.as_str()),
            Error::Unsupported { feature } => join2("not supported yet: ", feature.as_str()),
        }
    }
}

/// The collection that a statement is compiled against.
#[derive(Debug, PartialEq)]
pub enum Target {
    /// One that exists, by name.
    Existing(String),
    /// The one that the statement makes.
    New,
}

impl Target {
    /// The collection that a statement is about.
    pub fn of(statement: &Statement) -> (t: Target)
        ensures
            match statement {
                Statement::Select { from } => t matches Target::Existing(name) && name@ == from@,
                Statement::Insert { collection } => t matches Target::Existing(name) && name@
                    == collection@,
                Statement::Search { collection } => t matches Target::Existing(name) && name@
                    == collection@,
                Statement::CreateCollection { .. } => t is New,
            },
    {
        match statement {
            Statement::Select { from } => Target::Existing(from.clone()),
            Statement::Insert { collection } => Target::Existing(collection.clone()),
            Statement::CreateCollection { .. } => Target::New,
            Statement::Search { collection } => Target::Existing(collection.clone()),
        }
    }
}

/// The labels of a statement's columns, in output order. A mutation has none.
pub open spec fn labels(bound: BoundStatement) -> Seq<Seq<char>> {
    match bound {
        BoundStatement::Select { projection } => Seq::new(
            projection@.len(),
            |i: int| projection@[i].name@,
        ),
        BoundStatement::Search { projection } => Seq::new(
            projection@.len(),
            |i: int| projection@[i].name@,
        ),
        BoundStatement::Insert => Seq::empty(),
        BoundStatement::CreateCollection => Seq::empty(),
    }
}

/// The labels of a statement's columns, in output order. A mutation has none.
pub fn labels_of(bound: &BoundStatement) -> (r: Vec<String>)
    ensures
        text::texts(r@) == labels(*bound),
{
    let mut r: Vec<String> = Vec::new();
    match bound {
        BoundStatement::Select { projection } | BoundStatement::Search { projection } => {
            let mut i: usize = 0;
            while i < projection.len()
                invariant
                    i <= projection@.len(),
                    r@.len() == i,
                    forall|k: int| 0 <= k < i ==> (#[trigger] r@[k])@ == projection@[k].name@,
                decreases projection@.len() - i,
            {
                r.push(projection[i].name.clone());
                i += 1;
            }
        },
        BoundStatement::Insert | BoundStatement::CreateCollection => {},
    }
    proof {
        assert(text::texts(r@) =~= labels(*bound));
    }
    r
}

/// Whether a statement changes the database. A mutation runs to its end before the
/// call returns; a read is pulled row by row.
pub fn mutates(bound: &BoundStatement) -> (r: bool)
    ensures
        r == (bound is Insert || bound is CreateCollection),
{
    match bound {
        BoundStatement::Insert | BoundStatement::CreateCollection => true,
        _ => false,
    }
}

/// Whether a program fetches an embedding.
pub open spec fn fetches(program: Program) -> bool {
    exists|i: int| 0 <= i < program.ops@.len() && #[trigger] program.ops@[i] is VectorFetch
}

/// The feature that a program with a fetch is refused for.
pub open spec fn vector_feature() -> Seq<char> {
    "selecting a vector column (the embedding is stored separately)"@
}

/// Refuses a program with an instruction that the machine does not have.
pub fn reject_unsupported(program: &Program) -> (r: Result<(), Error>)
    ensures
        if fetches(*program) {
            r matches Err(Error::Unsupported { feature }) && feature@ == vector_feature()
        } else {
            r is Ok
        },
{
    let mut i: usize = 0;
    while i < program.ops.len()
        invariant
            i <= program.ops@.len(),
            forall|k: int| 0 <= k < i ==> !(#[trigger] program.ops@[k] is VectorFetch),
        decreases program.ops@.len() - i,
    {
        if let Op::VectorFetch { .. } = &program.ops[i] {
            assert(program.ops@[i as int] is VectorFetch);
            return Err(
                Error::Unsupported {
                    feature: "selecting a vector column (the embedding is stored separately)".to_owned(),
                },
            );
        }
        i += 1;
    }
    Ok(())
}

/// The schema of the first collection of the given name.
pub open spec fn schema_named(
    registry: Seq<ConfigView>,
    name: Seq<char>,
    i: int,
) -> Option<SchemaView>
    decreases registry.len() - i,
{
    if i < 0 || i >= registry.len() {
        None
    } else if registry[i].name == name {
        Some(registry[i].schema)
    } else {
        schema_named(registry, name, i + 1)
    }
}

/// The schema that a statement is compiled against.
pub open spec fn target_schema(
    target: Target,
    registry: Seq<ConfigView>,
) -> Option<SchemaView> {
    match target {
        Target::Existing(name) => schema_named(registry, name@, 0),
        Target::New => None,
    }
}

fn find_schema<'a>(registry: &'a [CollectionConfig], name: &str) -> (r: Option<&'a Schema>)
    ensures
        compiler::schema_of(r) == schema_named(catalog::configs_view(registry@), name@, 0),
{
    let ghost view = catalog::configs_view(registry@);
    let mut i: usize = 0;
    while i < registry.len()
        invariant
            i <= registry@.len(),
            view == catalog::configs_view(registry@),
            schema_named(view, name@, 0) == schema_named(view, name@, i as int),
        decreases registry@.len() - i,
    {
        assert(view[i as int] == registry@[i as int]@);
        if same_text(registry[i].name.as_str(), name) {
            return Some(&registry[i].schema);
        }
        i += 1;
    }
    None
}

/// The program of a planned statement: looks the collection up in the catalog,
/// compiles against its schema, and refuses what the machine does not have. What
/// comes out is well-formed.
pub fn prepare(plan: LogicalPlan, target: &Target, registry: &[CollectionConfig]) -> (r: Result<
    Program,
    Error,
>)
    requires
        compiler::compilable(
            plan,
            target_schema(*target, catalog::configs_view(registry@)),
        ),
    ensures
        ({
            let schema = target_schema(*target, catalog::configs_view(registry@));
            match r {
                Ok(p) => {
                    &&& target is New || schema is Some
                    &&& compiler::compiled(plan, schema, Ok(p))
                    &&& !fetches(p)
                    &&& p.fault() is None
                },
                Err(Error::Engine(EngineError::UnknownCollectionName { name })) => {
                    &&& target matches Target::Existing(n) && n@ == name@
                    &&& schema is None
                },
                Err(Error::Compile(e)) => {
                    &&& target is New || schema is Some
                    &&& compiler::compiled(plan, schema, Err(e))
                },
                Err(Error::Unsupported { feature }) => {
                    &&& target is New || schema is Some
                    &&& feature@ == vector_feature()
                    &&& exists|p: Program| #[trigger]
                        compiler::compiled(plan, schema, Ok(p)) && fetches(p)
                },
                Err(_) => false,
            }
        }),
{
    let schema: Option<&Schema> = match target {
        Target::Existing(name) => match find_schema(registry, name.as_str()) {
            Some(schema) => Some(schema),
            None => {
                return Err(
                    Error::Engine(EngineError::UnknownCollectionName { name: name.clone() }),
                );
            },
        },
        Target::New => None,
    };
    let program: Program = match compile(plan, schema) {
        Ok(program) => program,
        Err(e) => {
            return Err(Error::Compile(e));
        },
    };
    match reject_unsupported(&program) {
        Ok(()) => {},
        Err(e) => {
            return Err(e);
        },
    }
    match program.validate() {
        Ok(()) => Ok(program),
        Err(e) => Err(Error::Validate(e)),
    }
}

/// A stream of result rows, fed by whatever pulls them from the machine.
pub struct RowStream {
    labels: Vec<String>,
    done: bool,
}

/// What a [`RowStream`] holds.
pub struct StreamView {
    /// The labels of the columns.
    pub labels: Seq<Seq<char>>,
    /// Whether the stream has ended.
    pub done: bool,
}

impl View for RowStream {
    type V = StreamView;

    closed spec fn view(&self) -> StreamView {
        StreamView { labels: text::texts(self.labels@), done: self.done }
    }
}

impl RowStream {
    /// A stream whose rows are still to be pulled.
    pub fn over(labels: Vec<String>) -> (s: RowStream)
        ensures
            s@ == (StreamView { labels: text::texts(labels@), done: false }),
    {
        RowStream { labels, done: false }
    }

    /// A stream that has ended: what a mutation gives, having run already.
    pub fn empty() -> (s: RowStream)
        ensures
            s@ == (StreamView { labels: Seq::empty(), done: true }),
    {
        let s = RowStream { labels: Vec::new(), done: true };
        proof {
            assert(s@.labels =~= Seq::<Seq<char>>::empty());
        }
        s
    }

    /// The labels of the columns, in output order. They are there before the first
    /// row and do not change.
    pub fn labels(&self) -> (l: &Vec<String>)
        ensures
            text::texts(l@) == self@.labels,
    {
        &self.labels
    }

    /// Whether the stream has ended, so that nothing is to be pulled for it.
    pub fn is_done(&self) -> (r: bool)
        ensures
            r == self@.done,
    {
        self.done
    }

    /// The next item, from what the machine gave when it was resumed. The stream
    /// ends with the machine, or with its first error, and stays ended.
    pub fn next(&mut self, pulled: Result<Option<OutputRow>, ExecError>) -> (r: Option<
        Result<OutputRow, Error>,
    >)
        ensures
            final(self)@.labels == old(self)@.labels,
            if old(self)@.done {
                r is None && final(self)@.done
            } else {
                match pulled {
                    Ok(Some(row)) => r == Some(Ok::<OutputRow, Error>(row)) && !final(self)@.done,
                    Ok(None) => r is None && final(self)@.done,
                    Err(e) => r == Some(Err::<OutputRow, Error>(surfaced(e)))
                        && final(self)@.done,
                }
            },
    {
        if self.done {
            return None;
        }
        match pulled {
            Ok(Some(row)) => Some(Ok(row)),
            Ok(None) => {
                self.done = true;
                None
            },
            Err(e) => {
                self.done = true;
                Some(Err(Error::from(e)))
            },
        }
    }
}

/// Every column of a read has its own name as its label, in the order of the projection; a
/// mutation has no labels.
pub proof fn law_labels(bound: BoundStatement, k: int)
    ensures
        match bound {
            BoundStatement::Select { projection } => {
                &&& labels(bound).len() == projection@.len()
                &&& 0 <= k < projection@.len() ==> labels(bound)[k] == projection@[k].name@
            },
            BoundStatement::Search { projection } => {
                &&& labels(bound).len() == projection@.len()
                &&& 0 <= k < projection@.len() ==> labels(bound)[k] == projection@[k].name@
            },
            _ => labels(bound).len() == 0,
        },
{
}

/// A statement is compiled against the schema of the collection that it names, the first
/// of that name; and against none if there is none, or if it makes a collection.
pub proof fn law_target_schema(target: Target, registry: Seq<ConfigView>)
    ensures
        match target_schema(target, registry) {
            Some(schema) => target matches Target::Existing(name) && exists|i: int|
                {
                    &&& 0 <= i < registry.len()
                    &&& (#[trigger] registry[i]).name == name@
                    &&& registry[i].schema == schema
                    &&& forall|j: int| 0 <= j < i ==> (#[trigger] registry[j]).name != name@
                },
            None => target matches Target::Existing(name) ==> forall|i: int|
                0 <= i < registry.len() ==> (#[trigger] registry[i]).name != name@,
        },
{
    if let Target::Existing(name) = target {
        lemma_schema_named(registry, name@, 0);
    }
}

proof fn lemma_schema_named(registry: Seq<ConfigView>, name: Seq<char>, from: int)
    requires
        0 <= from <= registry.len(),
    ensures
        match schema_named(registry, name, from) {
            Some(schema) => exists|i: int|
                {
                    &&& from <= i < registry.len()
                    &&& (#[trigger] registry[i]).name == name
                    &&& registry[i].schema == schema
                    &&& forall|j: int| from <= j < i ==> (#[trigger] registry[j]).name != name
                },
            None => forall|i: int|
                from <= i < registry.len() ==> (#[trigger] registry[i]).name != name,
        },
    decreases registry.len() - from,
{
    if from < registry.len() {
        if registry[from].name == name {
            assert(registry[from].schema == schema_named(registry, name, from)->0);
        } else {
            lemma_schema_named(registry, name, from + 1);
            if let Some(schema) = schema_named(registry, name, from + 1) {
                let i = choose|i: int|
                    {
                        &&& from + 1 <= i < registry.len()
                        &&& (#[trigger] registry[i]).name == name
                        &&& registry[i].schema == schema
                        &&& forall|j: int|
                            from + 1 <= j < i ==> (#[trigger] registry[j]).name != name
                    };
                assert(registry[i].schema == schema);
            }
        }
    }
}

/// What goes wrong in the machine surfaces as what it is: a malformed program and a failure
/// of the engine under their own names, with what they carry.
pub proof fn law_faults_surface(e: ExecError)
    ensures
        match e {
            ExecError::Invalid(v) => surfaced(e) matches Error::Validate(w) && w == v,
            ExecError::Engine(v) => surfaced(e) matches Error::Engine(w) && w == v,
            ExecError::Machine(why) => surfaced(e) matches Error::Exec(text) && text == why,
        },
{
}

/// A program is refused as unsupported exactly if one of its instructions fetches a vector.
pub proof fn law_fetches(program: Program)
    ensures
        fetches(program) <==> exists|i: int|
            0 <= i < program.ops@.len() && (#[trigger] program.ops@[i] matches Op::VectorFetch { .. }),
{
}

} // verus!
