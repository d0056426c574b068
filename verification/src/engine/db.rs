//! The database as its callers see it: which collections there are, and what a
//! call puts into the log.
//!
//! A write is checked in full before it becomes a record. A record that could not
//! be applied would fail on every replay, so none may reach the log.

use vstd::prelude::*;

use crate::codec;
use crate::compiler::schema;
use crate::compiler::schema::bind_schema;
use crate::engine::applier::IndexApplier;
use crate::engine::catalog;
use crate::engine::catalog::{load_catalog, merge, name_taken, sorted_by_id, MergeFault};
use crate::engine::record::{Record, RecordView};
use crate::engine::stores::StoresView;
use crate::error;
use crate::error::{Error, Result};
use crate::metadata::common;
use crate::metadata::common::{
    CollectionConfig, ColumnId, ConfigView, Row, Schema, SchemaView, ValueView,
};
use crate::sql::BoundSchema;
use crate::text;
use crate::text::{lowered, same_text};

verus! {

/// Tunables of the engine.
#[derive(Debug, Clone, Copy, PartialEq, Eq, Structural)]
pub struct DbOptions {
    /// Milliseconds between two background checkpoints.
    pub checkpoint_interval: u64,
}

impl Default for DbOptions {
    fn default() -> (o: DbOptions)
        ensures
            o.checkpoint_interval == 5000,
    {
        DbOptions { checkpoint_interval: 5000 }
    }
}

/// One collection on the side of the callers: its configuration and the next
/// position to hand out.
pub struct Collection {
    config: CollectionConfig,
    next_ordinal: u64,
}

/// What a [`Collection`] holds.
pub struct CollectionState {
    /// The configuration.
    pub config: ConfigView,
    /// The next position.
    pub next_ordinal: u64,
}

impl View for Collection {
    type V = CollectionState;

    closed spec fn view(&self) -> CollectionState {
        CollectionState { config: self.config@, next_ordinal: self.next_ordinal }
    }
}

impl CollectionState {
    /// No position is left.
    pub open spec fn full(self) -> bool {
        self.next_ordinal >= self.config.capacity
    }

    /// The collection after a position was handed out.
    pub open spec fn taken(self) -> CollectionState {
        CollectionState { next_ordinal: (self.next_ordinal + 1) as u64, ..self }
    }

    /// Why a row is refused: a vector of another dimension, a row that does not fit
    /// the schema, no position left; the first that holds.
    pub open spec fn insert_fault(
        self,
        dim: nat,
        row: Seq<(ColumnId, ValueView)>,
    ) -> Option<Error> {
        let expected = self.config.schema.vector.dim.spec_get();
        if dim != expected {
            Some(Error::DimensionMismatch { expected, got: dim as usize })
        } else {
            match self.config.schema.row_fault(row) {
                Some(e) => Some(e),
                None => if self.full() {
                    Some(Error::CapacityExceeded { capacity: self.config.capacity })
                } else {
                    None
                },
            }
        }
    }
}

impl Collection {
    /// A collection whose positions up to `len` are in use.
    pub fn new(config: CollectionConfig, len: u64) -> (c: Collection)
        ensures
            c@ == (CollectionState { config: config@, next_ordinal: len }),
    {
        Collection { config, next_ordinal: len }
    }

    /// The configuration.
    pub fn config(&self) -> (c: &CollectionConfig)
        ensures
            c@ == self@.config,
    {
        &self.config
    }

    /// Reserves the next position, unless the collection is full. A full collection
    /// stays as it is.
    pub fn alloc_ordinal(&mut self) -> (r: Result<u64>)
        ensures
            if old(self)@.full() {
                &&& r == Err::<u64, Error>(
                    Error::CapacityExceeded { capacity: old(self)@.config.capacity },
                )
                &&& final(self)@ == old(self)@
            } else {
                &&& r == Ok::<u64, Error>(old(self)@.next_ordinal)
                &&& final(self)@ == old(self)@.taken()
            },
    {
        let cur: u64 = self.next_ordinal;
        if cur >= self.config.capacity as u64 {
            return Err(Error::CapacityExceeded { capacity: self.config.capacity });
        }
        self.next_ordinal = cur + 1;
        Ok(cur)
    }
}

/// The position that `n` allocations in a row end at, each of which succeeds while
/// the collection is not full.
pub open spec fn after_allocations(c: CollectionState, n: nat) -> CollectionState
    decreases n,
{
    if n == 0 {
        c
    } else {
        let before = after_allocations(c, (n - 1) as nat);
        if before.full() {
            before
        } else {
            before.taken()
        }
    }
}

/// Positions are handed out without a gap and never twice: allocation `n` gives the
/// starting position plus `n`, until the collection is full, and never one beyond
/// the capacity.
pub proof fn law_ordinals_are_dense(c: CollectionState, n: nat)
    requires
        c.next_ordinal <= c.config.capacity,
    ensures
        after_allocations(c, n).config == c.config,
        after_allocations(c, n).next_ordinal == if c.next_ordinal + n <= c.config.capacity {
            c.next_ordinal + n
        } else {
            c.config.capacity as int
        },
    decreases n,
{
    if n > 0 {
        law_ordinals_are_dense(c, (n - 1) as nat);
    }
}

/// The stores of a collection were made for its configuration.
pub open spec fn serves(stores: StoresView, config: ConfigView) -> bool {
    &&& stores.flat.dim == config.schema.vector.dim.spec_get()
    &&& stores.flat.capacity == config.capacity
    &&& stores.meta.schema == config.schema
}

/// A row that is accepted can be applied: nothing reaches the log that would fail on
/// every replay. Positions from 2^32 - 1 on are beyond the metadata ordinals.
pub proof fn law_accepted_row_applies(
    c: CollectionState,
    stores: StoresView,
    vector: Seq<u32>,
    row: Seq<(ColumnId, ValueView)>,
)
    requires
        serves(stores, c.config),
        c.insert_fault(vector.len(), row) is None,
        c.next_ordinal < u32::MAX,
    ensures
        stores.vector_fault(c.next_ordinal, vector) is None,
        stores.meta.schema.row_fault(row) is None,
        c.next_ordinal < stores.flat.capacity,
{
}

/// The collections that there are.
pub struct Db {
    collections: Vec<Collection>,
}

impl View for Db {
    type V = Seq<CollectionState>;

    closed spec fn view(&self) -> Seq<CollectionState> {
        self.collections@.map_values(|c: Collection| c@)
    }
}

/// The configurations of a database.
pub open spec fn configs_of(db: Seq<CollectionState>) -> Seq<ConfigView> {
    db.map_values(|c: CollectionState| c.config)
}

/// The index of the first collection of the given id.
pub open spec fn index_of(db: Seq<CollectionState>, id: u32, i: int) -> Option<int>
    decreases db.len() - i,
{
    if i < 0 || i >= db.len() {
        None
    } else if db[i].config.id == id {
        Some(i)
    } else {
        index_of(db, id, i + 1)
    }
}

/// The first collection of the given name.
pub open spec fn named(db: Seq<CollectionState>, name: Seq<char>, i: int) -> Option<ConfigView>
    decreases db.len() - i,
{
    if i < 0 || i >= db.len() {
        None
    } else if db[i].config.name == name {
        Some(db[i].config)
    } else {
        named(db, name, i + 1)
    }
}

proof fn lemma_index_of(db: Seq<CollectionState>, id: u32, i: int)
    requires
        0 <= i,
    ensures
        index_of(db, id, i) matches Some(k) ==> i <= k < db.len() && db[k].config.id == id,
    decreases db.len() - i,
{
    if i < db.len() && db[i].config.id != id {
        lemma_index_of(db, id, i + 1);
    }
}

/// The id that a new collection gets: one more than the greatest, or 0 for the
/// first.
pub open spec fn next_id(db: Seq<CollectionState>, n: nat) -> int
    decreases n,
{
    if n == 0 {
        0
    } else {
        let before = next_id(db, (n - 1) as nat);
        if db[n - 1].config.id + 1 > before {
            db[n - 1].config.id + 1
        } else {
            before
        }
    }
}

/// The name that a column may not have, whatever its case.
pub open spec fn reserved(name: Seq<char>) -> bool {
    text::lower_text(name) == "id"@
}

/// What a schema breaks as that of a new collection.
pub open spec fn schema_refused(schema: SchemaView, e: Error) -> bool {
    match e {
        Error::DuplicateColumn(name) => exists|j: int|
            0 <= j < schema.columns.len() && #[trigger] schema.repeats(j) && name@
                == schema.columns[j].name && (forall|i: int|
                0 <= i < j ==> !#[trigger] schema.repeats(i)),
        Error::ReservedColumn(name) => {
            &&& schema.distinct()
            &&& exists|j: int|
                0 <= j < schema.columns.len() && #[trigger] reserved(schema.columns[j].name)
                    && name@ == schema.columns[j].name && (forall|i: int|
                    0 <= i < j ==> !reserved(#[trigger] schema.columns[i].name))
        },
        _ => false,
    }
}

/// A schema that a new collection can have.
pub open spec fn schema_accepted(schema: SchemaView) -> bool {
    &&& schema.distinct()
    &&& forall|j: int| 0 <= j < schema.columns.len() ==> !reserved(#[trigger] schema.columns[j].name)
}

/// What opening a database starts from.
pub struct Opening {
    /// Every collection there is to be, in id order.
    pub registry: Vec<CollectionConfig>,
    /// Whether the registry is to be saved before any store is touched: it has grown,
    /// or there was none.
    pub persist: bool,
    /// The log position that the registry reflects. Growing it does not change that.
    pub lsn: u64,
}

/// What the catalog file holds: nothing, at log position 0, if it is missing.
pub open spec fn on_file(
    file: Option<&[u8]>,
    parsed: std::result::Result<Vec<CollectionConfig>, String>,
) -> std::result::Result<(Seq<ConfigView>, u64), Seq<char>> {
    match file {
        None => Ok((Seq::empty(), 0)),
        Some(bytes) => catalog::decoded(bytes@, catalog::parsed_view(parsed)),
    }
}

impl Db {
    /// Decides what a database opens with: the collections of its catalog file and
    /// those that the caller wants to be there. `parsed` is what the body of the file
    /// was parsed to. A corrupt file is an error, as is a collection that disagrees
    /// with the registered one.
    pub fn open(
        file: Option<&[u8]>,
        parsed: std::result::Result<Vec<CollectionConfig>, String>,
        given: &[CollectionConfig],
    ) -> (r: Result<Opening>)
        ensures
            match on_file(file, parsed) {
                Err(why) => r matches Err(e) && error::is_corrupt(e, why),
                Ok((persisted, lsn)) => match catalog::merged(
                    persisted,
                    catalog::configs_view(given@),
                    given@.len(),
                ) {
                    Ok(all) => r matches Ok(o) && catalog::configs_view(o.registry@)
                        == catalog::by_id(all) && o.persist == (file is None || all.len()
                        > persisted.len()) && o.lsn == lsn,
                    Err(MergeFault::Mismatch(id)) => r == Err::<Opening, Error>(
                        Error::CollectionConfigMismatch { id },
                    ),
                    Err(MergeFault::NameTaken(name)) => r matches Err(
                        Error::CollectionExists { name: n },
                    ) && n@ == name,
                },
            },
    {
        let present: bool = file.is_some();
        let (persisted, lsn): (Vec<CollectionConfig>, u64) = match load_catalog(file, parsed) {
            Ok(loaded) => loaded,
            Err(e) => {
                return Err(e);
            },
        };
        proof {
            if !present {
                assert(catalog::configs_view(persisted@) =~= Seq::<ConfigView>::empty());
            }
        }
        match merge(persisted, present, given) {
            Ok((registry, persist)) => Ok(Opening { registry, persist, lsn }),
            Err(e) => Err(e),
        }
    }

    /// The database after recovery: every registered collection hands out positions
    /// from behind those that its stores have.
    pub fn resume(applier: &IndexApplier) -> (db: Db)
        requires
            applier.wf(),
        ensures
            db@.len() == applier@.registry.len(),
            forall|i: int|
                0 <= i < db@.len() ==> #[trigger] db@[i] == (CollectionState {
                    config: applier@.registry[i],
                    next_ordinal: applier@.stores[applier@.registry[i].id].flat.count as u64,
                }),
    {
        let registry: &Vec<CollectionConfig> = applier.registry();
        let mut collections: Vec<Collection> = Vec::new();
        let mut i: usize = 0;
        while i < registry.len()
            invariant
                i <= registry@.len(),
                applier.wf(),
                catalog::configs_view(registry@) == applier@.registry,
                collections@.len() == i,
                forall|k: int|
                    0 <= k < i ==> (#[trigger] collections@[k])@ == (CollectionState {
                        config: applier@.registry[k],
                        next_ordinal: applier@.stores[applier@.registry[k].id].flat.count as u64,
                    }),
            decreases registry@.len() - i,
        {
            proof {
                applier.lemma_wf();
                assert(applier@.registry[i as int] == registry@[i as int]@);
                assert(catalog::has_id(applier@.registry, registry@[i as int].id));
            }
            let len: usize = match applier.stores(registry[i].id) {
                Some(stores) => stores.flat().len(),
                None => 0,
            };
            collections.push(Collection::new(registry[i].clone(), len as u64));
            i += 1;
        }
        Db { collections }
    }

    /// The database with the given collections.
    pub fn new(collections: Vec<Collection>) -> (db: Db)
        ensures
            db@ == collections@.map_values(|c: Collection| c@),
    {
        Db { collections }
    }

    fn position(&self, id: u32) -> (r: Option<usize>)
        ensures
            match r {
                Some(i) => index_of(self@, id, 0) == Some(i as int) && i < self.collections@.len(),
                None => index_of(self@, id, 0) is None,
            },
    {
        let mut i: usize = 0;
        while i < self.collections.len()
            invariant
                i <= self.collections@.len(),
                index_of(self@, id, 0) == index_of(self@, id, i as int),
            decreases self.collections@.len() - i,
        {
            assert(self@[i as int] == self.collections@[i as int]@);
            if self.collections[i].config.id == id {
                return Some(i);
            }
            i += 1;
        }
        None
    }

    /// The collection of the given id.
    pub fn collection(&self, id: u32) -> (r: Result<&Collection>)
        ensures
            match index_of(self@, id, 0) {
                Some(i) => r matches Ok(c) && c@ == self@[i],
                None => r == Err::<&Collection, Error>(Error::UnknownCollection { id }),
            },
    {
        match self.position(id) {
            Some(i) => Ok(&self.collections[i]),
            None => Err(Error::UnknownCollection { id }),
        }
    }

    /// The record that inserts `vector` and `row` into a collection, at a position
    /// that is reserved for it. A refused row reserves nothing.
    pub fn insert(&mut self, collection: u32, vector: Vec<u32>, row: Row) -> (r: Result<Record>)
        ensures
            match index_of(old(self)@, collection, 0) {
                None => {
                    &&& r == Err::<Record, Error>(Error::UnknownCollection { id: collection })
                    &&& final(self)@ == old(self)@
                },
                Some(i) => {
                    let c = old(self)@[i];
                    match c.insert_fault(vector@.len(), common::row_view(row@)) {
                        Some(e) => {
                            &&& r == Err::<Record, Error>(e)
                            &&& final(self)@ == old(self)@
                        },
                        None => {
                            &&& r matches Ok(record) && record@ == (RecordView::Insert {
                                collection,
                                ordinal: c.next_ordinal,
                                vector: vector@,
                                metadata: common::row_view(row@),
                            })
                            &&& final(self)@ == old(self)@.update(i, c.taken())
                        },
                    }
                },
            },
    {
        let i: usize = match self.position(collection) {
            Some(i) => i,
            None => {
                return Err(Error::UnknownCollection { id: collection });
            },
        };
        proof {
            lemma_index_of(self@, collection, 0);
            assert(self@[i as int] == self.collections@[i as int]@);
        }
        let expected: usize = self.collections[i].config.schema.vector().dim.get();
        if vector.len() != expected {
            return Err(Error::DimensionMismatch { expected, got: vector.len() });
        }
        match self.collections[i].config.schema.validate_row(&row) {
            Ok(()) => {},
            Err(e) => {
                return Err(e);
            },
        }
        let ghost before = self@;
        let r = self.collections[i].alloc_ordinal();
        proof {
            assert(self@ =~= before.update(i as int, self.collections@[i as int]@));
        }
        match r {
            Ok(ordinal) => Ok(Record::Insert { collection, ordinal, vector, metadata: row }),
            Err(e) => {
                proof {
                    assert(self@ =~= before);
                }
                Err(e)
            },
        }
    }

    /// The record that tombstones a position.
    pub fn delete(&self, collection: u32, ordinal: u64) -> (r: Result<Record>)
        ensures
            match index_of(self@, collection, 0) {
                Some(_) => r == Ok::<Record, Error>(Record::Delete { collection, ordinal }),
                None => r == Err::<Record, Error>(Error::UnknownCollection { id: collection }),
            },
    {
        match self.position(collection) {
            Some(_) => Ok(Record::Delete { collection, ordinal }),
            None => Err(Error::UnknownCollection { id: collection }),
        }
    }

    /// The record that makes a new collection, under the next free id. Name,
    /// capacity, schema and the uniqueness of the name are checked in this order.
    pub fn create_collection(&self, name: &str, capacity: usize, schema: Schema) -> (r: Result<
        Record,
    >)
        requires
            next_id(self@, self@.len()) <= u32::MAX,
        ensures
            if name@.len() == 0 {
                r == Err::<Record, Error>(Error::InvalidCollectionName)
            } else if capacity == 0 {
                r == Err::<Record, Error>(Error::InvalidCapacity)
            } else if !schema_accepted(schema@) {
                r matches Err(e) && schema_refused(schema@, e)
            } else if catalog::has_name(configs_of(self@), name@) {
                r matches Err(Error::CollectionExists { name: n }) && n@ == name@
            } else {
                r matches Ok(record) && record@ == (RecordView::CreateCollection {
                    config: ConfigView {
                        id: next_id(self@, self@.len()) as u32,
                        name: name@,
                        capacity,
                        schema: schema@,
                    },
                })
            },
    {
        if name.unicode_len() == 0 {
            return Err(Error::InvalidCollectionName);
        }
        if capacity == 0 {
            return Err(Error::InvalidCapacity);
        }
        match schema.validate() {
            Ok(()) => {},
            Err(e) => {
                return Err(e);
            },
        }
        let mut j: usize = 0;
        while j < schema.columns.len()
            invariant
                j <= schema.columns@.len(),
                name@.len() > 0,
                capacity > 0,
                schema@.distinct(),
                forall|k: int| 0 <= k < j ==> !reserved(#[trigger] schema@.columns[k].name),
            decreases schema.columns@.len() - j,
        {
            assert(schema@.columns[j as int].name == schema.columns@[j as int].name@);
            if same_text(lowered(schema.columns[j].name.as_str()).as_str(), "id") {
                assert(reserved(schema@.columns[j as int].name));
                return Err(Error::ReservedColumn(schema.columns[j].name.clone()));
            }
            j += 1;
        }
        let configs: Vec<CollectionConfig> = self.configs();
        if name_taken(configs.as_slice(), name) {
            return Err(Error::CollectionExists { name: name.to_owned() });
        }
        let id: u32 = self.free_id();
        Ok(
            Record::CreateCollection {
                config: CollectionConfig { id, name: name.to_owned(), capacity, schema },
            },
        )
    }

    fn free_id(&self) -> (id: u32)
        requires
            next_id(self@, self@.len()) <= u32::MAX,
        ensures
            id == next_id(self@, self@.len()),
    {
        let mut next: u64 = 0;
        let mut i: usize = 0;
        while i < self.collections.len()
            invariant
                i <= self.collections@.len(),
                next == next_id(self@, i as nat),
                next <= u32::MAX + 1,
            decreases self.collections@.len() - i,
        {
            assert(self@[i as int] == self.collections@[i as int]@);
            let after: u64 = self.collections[i].config.id as u64 + 1;
            if after > next {
                next = after;
            }
            i += 1;
        }
        next as u32
    }

    fn configs(&self) -> (configs: Vec<CollectionConfig>)
        ensures
            catalog::configs_view(configs@) == configs_of(self@),
    {
        let mut configs: Vec<CollectionConfig> = Vec::new();
        let mut i: usize = 0;
        while i < self.collections.len()
            invariant
                i <= self.collections@.len(),
                catalog::configs_view(configs@) == configs_of(self@).take(i as int),
            decreases self.collections@.len() - i,
        {
            let ghost before = catalog::configs_view(configs@);
            configs.push(self.collections[i].config.clone());
            proof {
                let c = self.collections@[i as int]@.config;
                assert(configs_of(self@)[i as int] == c);
                assert(catalog::configs_view(configs@) =~= before.push(c));
                assert(configs_of(self@).take(i + 1) =~= before.push(c));
            }
            i += 1;
        }
        proof {
            assert(configs_of(self@).take(i as int) =~= configs_of(self@));
        }
        configs
    }

    /// Every collection's configuration, in id order.
    pub fn collections(&self) -> (configs: Vec<CollectionConfig>)
        ensures
            catalog::configs_view(configs@) == catalog::by_id(configs_of(self@)),
    {
        sorted_by_id(self.configs().as_slice())
    }

    /// The schema of the collection of the given name, as the binder wants it.
    pub fn get_collection(&self, name: &str) -> (r: Option<BoundSchema>)
        ensures
            match named(self@, name@, 0) {
                Some(c) => r matches Some(b) && b@ == schema::raised(
                    c.schema,
                    c.schema.columns.len(),
                ),
                None => r is None,
            },
    {
        let mut i: usize = 0;
        while i < self.collections.len()
            invariant
                i <= self.collections@.len(),
                named(self@, name@, 0) == named(self@, name@, i as int),
            decreases self.collections@.len() - i,
        {
            assert(self@[i as int] == self.collections@[i as int]@);
            if same_text(self.collections[i].config.name.as_str(), name) {
                return Some(bind_schema(&self.collections[i].config.schema));
            }
            i += 1;
        }
        None
    }

    /// A collection that was made exists from here on; its positions up to `len`
    /// are in use.
    pub fn publish(&mut self, config: CollectionConfig, len: u64)
        ensures
            final(self)@ == old(self)@.push(
                CollectionState { config: config@, next_ordinal: len },
            ),
    {
        let ghost before = self@;
        self.collections.push(Collection::new(config, len));
        proof {
            assert(self@ =~= before.push(CollectionState { config: config@, next_ordinal: len }));
        }
    }
}

/// A new collection's id is greater than every one in use, so no id is used twice.
pub proof fn law_ids_are_never_reused(db: Seq<CollectionState>, n: nat)
    requires
        n <= db.len(),
    ensures
        forall|i: int| 0 <= i < n ==> (#[trigger] db[i]).config.id < next_id(db, n),
        n == 0 ==> next_id(db, n) == 0,
    decreases n,
{
    if n > 0 {
        law_ids_are_never_reused(db, (n - 1) as nat);
    }
}

/// A new collection's id is the next after the greatest in use, and 0 for the first.
pub proof fn law_ids_are_dense(db: Seq<CollectionState>, n: nat)
    requires
        n <= db.len(),
    ensures
        n > 0 ==> exists|i: int| 0 <= i < n && (#[trigger] db[i]).config.id + 1 == next_id(db, n),
    decreases n,
{
    if n > 0 {
        if n > 1 {
            law_ids_are_dense(db, (n - 1) as nat);
        }
        let last = db[n - 1];
        if next_id(db, n) != last.config.id + 1 {
            let i = choose|i: int|
                0 <= i < n - 1 && (#[trigger] db[i]).config.id + 1 == next_id(db, (n - 1) as nat);
            assert(db[i].config.id + 1 == next_id(db, n));
        }
    }
}

/// A row is refused for its vector first, then for itself, then for want of room; and it
/// is refused only if one of these holds.
pub proof fn law_insert_refusal(c: CollectionState, dim: nat, row: Seq<(ColumnId, ValueView)>)
    ensures
        ({
            let schema = c.config.schema;
            let fits = dim == schema.vector.dim.spec_get();
            let room = c.next_ordinal < c.config.capacity;
            &&& c.insert_fault(dim, row) is None <==> fits && schema.row_ok(row) && room
            &&& !fits ==> (c.insert_fault(dim, row) matches Some(
                Error::DimensionMismatch { expected, got },
            ) && expected == schema.vector.dim.spec_get() && got == dim as usize)
            &&& fits && !schema.row_ok(row) ==> c.insert_fault(dim, row) == schema.row_fault(row)
            &&& fits && schema.row_ok(row) && !room ==> (c.insert_fault(dim, row) matches Some(
                Error::CapacityExceeded { capacity },
            ) && capacity == c.config.capacity)
        }),
{
}

/// A position is handed out once: the next one is the one behind it.
pub proof fn law_positions_count_up(c: CollectionState)
    requires
        !c.full(),
    ensures
        c.taken().next_ordinal == c.next_ordinal + 1,
        c.taken().config == c.config,
        c.next_ordinal < c.config.capacity,
{
}

/// A collection is found by its id, the first if there are more, and none is found
/// exactly if there is none.
pub proof fn law_collection_by_id(db: Seq<CollectionState>, id: u32)
    ensures
        match index_of(db, id, 0) {
            Some(k) => {
                &&& 0 <= k < db.len()
                &&& db[k].config.id == id
                &&& forall|i: int| 0 <= i < k ==> (#[trigger] db[i]).config.id != id
            },
            None => forall|i: int| 0 <= i < db.len() ==> (#[trigger] db[i]).config.id != id,
        },
{
    lemma_first_of_id(db, id, 0);
}

proof fn lemma_first_of_id(db: Seq<CollectionState>, id: u32, from: int)
    requires
        0 <= from <= db.len(),
    ensures
        match index_of(db, id, from) {
            Some(k) => {
                &&& from <= k < db.len()
                &&& db[k].config.id == id
                &&& forall|i: int| from <= i < k ==> (#[trigger] db[i]).config.id != id
            },
            None => forall|i: int| from <= i < db.len() ==> (#[trigger] db[i]).config.id != id,
        },
    decreases db.len() - from,
{
    if from < db.len() && db[from].config.id != id {
        lemma_first_of_id(db, id, from + 1);
    }
}

/// A collection is found by its name in the same way.
pub proof fn law_collection_by_name(db: Seq<CollectionState>, name: Seq<char>)
    ensures
        match named(db, name, 0) {
            Some(config) => exists|k: int|
                {
                    &&& 0 <= k < db.len()
                    &&& (#[trigger] db[k]).config == config
                    &&& config.name == name
                    &&& forall|i: int| 0 <= i < k ==> (#[trigger] db[i]).config.name != name
                },
            None => forall|i: int| 0 <= i < db.len() ==> (#[trigger] db[i]).config.name != name,
        },
{
    lemma_first_of_name(db, name, 0);
}

proof fn lemma_first_of_name(db: Seq<CollectionState>, name: Seq<char>, from: int)
    requires
        0 <= from <= db.len(),
    ensures
        match named(db, name, from) {
            Some(config) => exists|k: int|
                {
                    &&& from <= k < db.len()
                    &&& (#[trigger] db[k]).config == config
                    &&& config.name == name
                    &&& forall|i: int| from <= i < k ==> (#[trigger] db[i]).config.name != name
                },
            None => forall|i: int| from <= i < db.len() ==> (#[trigger] db[i]).config.name != name,
        },
    decreases db.len() - from,
{
    if from < db.len() {
        if db[from].config.name == name {
            assert(db[from].config == named(db, name, from)->0);
        } else {
            lemma_first_of_name(db, name, from + 1);
            if let Some(config) = named(db, name, from + 1) {
                let k = choose|k: int|
                    {
                        &&& from + 1 <= k < db.len()
                        &&& (#[trigger] db[k]).config == config
                        &&& config.name == name
                        &&& forall|i: int|
                            from + 1 <= i < k ==> (#[trigger] db[i]).config.name != name
                    };
                assert(db[k].config == config);
            }
        }
    }
}

/// The reserved column name is `id`, in any case.
pub proof fn law_reserved_name(name: Seq<char>)
    ensures
        reserved(name) <==> name.len() == 2 && (name[0] == 'i' || name[0] == 'I') && (name[1] == 'd'
            || name[1] == 'D'),
{
    reveal_strlit("id");
    let low = text::lower_text(name);
    assert("id"@.len() == 2 && "id"@[0] == 'i' && "id"@[1] == 'd');
    assert(low.len() == name.len());
    if name.len() == 2 {
        assert(low[0] == text::lower(name[0]));
        assert(low[1] == text::lower(name[1]));
    }
    if reserved(name) {
        assert(low[0] == 'i' && low[1] == 'd');
    }
    if name.len() == 2 && (name[0] == 'i' || name[0] == 'I') && (name[1] == 'd' || name[1] == 'D') {
        assert(low =~= "id"@);
    }
}

/// A schema is accepted exactly if no two of its columns, the vector among them, have the
/// same name, and none is called `id` in any case; and one that is accepted is not refused.
pub proof fn law_accepted_schema(schema: SchemaView, e: Error)
    ensures
        schema_accepted(schema) <==> {
            &&& forall|i: int|
                0 <= i < schema.columns.len() ==> (#[trigger] schema.columns[i]).name
                    != schema.vector.name
            &&& forall|i: int, j: int|
                0 <= i < j < schema.columns.len() ==> (#[trigger] schema.columns[i]).name != (
                #[trigger] schema.columns[j]).name
            &&& forall|i: int|
                0 <= i < schema.columns.len() ==> !is_id((#[trigger] schema.columns[i]).name)
        },
        schema_refused(schema, e) ==> !schema_accepted(schema),
        schema_refused(schema, e) ==> match e {
            Error::DuplicateColumn(name) => exists|j: int|
                0 <= j < schema.columns.len() && (#[trigger] schema.columns[j]).name == name@,
            Error::ReservedColumn(name) => is_id(name@),
            _ => false,
        },
{
    common::law_distinct_names(schema);
    assert forall|i: int| 0 <= i < schema.columns.len() implies (reserved(
        #[trigger] schema.columns[i].name,
    ) <==> is_id(schema.columns[i].name)) by {
        law_reserved_name(schema.columns[i].name);
    }
    if schema_accepted(schema) {
        assert forall|i: int| 0 <= i < schema.columns.len() implies !is_id(
            (#[trigger] schema.columns[i]).name,
        ) by {
            assert(!reserved(schema.columns[i].name));
        }
    }
    if schema_refused(schema, e) {
        match e {
            Error::DuplicateColumn(name) => {
                let j = choose|j: int|
                    0 <= j < schema.columns.len() && #[trigger] schema.repeats(j) && name@
                        == schema.columns[j].name;
                assert(schema.columns[j].name == name@);
            },
            Error::ReservedColumn(name) => {
                law_reserved_name(name@);
            },
            _ => {},
        }
    }
}

/// The letters I and D, in any case.
pub open spec fn is_id(name: Seq<char>) -> bool {
    name.len() == 2 && (name[0] == 'i' || name[0] == 'I') && (name[1] == 'd' || name[1] == 'D')
}

/// A database without a catalog file starts without collections and at the start of the
/// log; one with a file starts with what was parsed, at the log position of the file.
pub proof fn law_what_is_on_file(
    file: Option<&[u8]>,
    parsed: std::result::Result<Vec<CollectionConfig>, String>,
)
    ensures
        file is None ==> (on_file(file, parsed) matches Ok(got) && got.0.len() == 0 && got.1 == 0),
        file matches Some(bytes) ==> (on_file(file, parsed) matches Ok(got) ==> {
            &&& parsed matches Ok(configs) && got.0.len() == configs@.len() && forall|i: int|
                0 <= i < configs@.len() ==> #[trigger] got.0[i] == configs@[i]@
            &&& bytes@.len() >= 24
            &&& got.1 == codec::from_le64(bytes@.subrange(8, 16))
        }),
{
    if let Some(bytes) = file {
        codec::law_what_is_read_is_there(catalog::magic(), catalog::VERSION, bytes@);
    }
}

} // verus!
