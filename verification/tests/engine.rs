//! The engine over a disk in memory: inserts, searches, crashes and recovery.

use flats::bitmap::Bitmap;
use flats::engine::applier::{CreateStep, Entry, IndexApplier};
use flats::engine::catalog::{
    catalog_body, collection_dir, decode_catalog, encode_catalog,
};
use flats::engine::checkpoint::{skip_through, Action};
use flats::engine::cursor::Cursor;
use flats::engine::db::{Db, DbOptions, Opening};
use flats::engine::record::{Fault, FaultKind, Record};
use flats::engine::stores::CollectionWriters;
use flats::error::Error;
use flats::index::{bytes_for, FlatIndex, SearchResult};
use flats::metadata::common::{
    CollectionConfig, ColumnDef, ColumnId, ColumnSpec, ColumnType, Dim, Lsn,
    Ordinal, RangeOp, Row, Schema, Value,
};
use flats::metadata::index::MetadataIndex;
use flats::metadata::tuples::{RowGet, Slot, TupleStore};
use flats::metadata::{index, tuples};
use flats::sql::BoundSchema;
use std::collections::BTreeMap;

/// What survives a crash. Beside every snapshot stands what its body parses to.
#[derive(Default)]
struct Disk {
    catalog: Option<(Vec<u8>, Vec<CollectionConfig>)>,
    images: BTreeMap<u32, Vec<u8>>,
    metas: BTreeMap<u32, (Vec<u8>, Schema)>,
    rows: BTreeMap<u32, (Vec<u8>, Schema, Vec<Slot>)>,
    log: Vec<(u64, Record)>,
    last_lsn: u64,
}

fn copied(slots: &[Slot]) -> Vec<Slot> {
    slots
        .iter()
        .map(|s| match s {
            Slot::Vacant => Slot::Vacant,
            Slot::Tombstone => Slot::Tombstone,
            Slot::Live(values) => Slot::Live(values.clone()),
        })
        .collect()
}

impl Disk {
    fn persist(&mut self, registry: &[CollectionConfig], lsn: u64) {
        self.catalog = Some((encode_catalog(b"registry", lsn), registry.to_vec()));
    }

    fn open_collection(&mut self, cfg: &CollectionConfig) -> Result<(CollectionWriters, u64), Error> {
        let flat = match self.images.get(&cfg.id) {
            Some(image) => FlatIndex::open(image)?,
            None => {
                let dim = cfg.schema.vector().dim;
                let mut image = vec![0; bytes_for(dim.get(), cfg.capacity)?];
                let flat = FlatIndex::create(&mut image, dim, cfg.capacity);
                self.images.insert(cfg.id, image);
                flat
            }
        };
        assert!(flat.is_sound());
        let (meta, _, _) = match self.metas.get(&cfg.id) {
            Some((bytes, schema)) => {
                MetadataIndex::open(Some(bytes), Ok(schema.clone()), cfg.schema.clone())?
            }
            None => MetadataIndex::open(None, Err(String::new()), cfg.schema.clone())?,
        };
        let (tuple, _, _) = match self.rows.get(&cfg.id) {
            Some((bytes, schema, slots)) => TupleStore::open(
                Some(bytes),
                Ok((schema.clone(), copied(slots))),
                cfg.schema.clone(),
            )?,
            None => TupleStore::open(None, Err(String::new()), cfg.schema.clone())?,
        };
        assert!(tuple.fits());
        Ok(CollectionWriters::open_collection(flat, meta, tuple))
    }

    /// A record that became durable and was never applied.
    fn log_only(&mut self, record: Record) {
        self.last_lsn += 1;
        self.log.push((self.last_lsn, record));
    }

    /// Replaces a snapshot of a collection with garbage.
    fn spoil(&mut self, id: u32, victim: &str) {
        let schema = cfg_meta(0, 2, 64).schema;
        match victim {
            "metadata.snap" => {
                self.metas.insert(id, (b"garbage".to_vec(), schema));
            }
            _ => {
                self.rows.insert(id, (b"garbage".to_vec(), schema, Vec::new()));
            }
        }
    }
}

/// An open database. Dropping it is a crash.
struct Sim<'a> {
    disk: &'a mut Disk,
    db: Db,
    applier: IndexApplier,
    fail_next_append: bool,
}

fn bits(v: &[f32]) -> Vec<u32> {
    v.iter().map(|x| x.to_bits()).collect()
}

impl<'a> Sim<'a> {
    fn open(disk: &'a mut Disk, configs: &[CollectionConfig]) -> Result<Sim<'a>, Error> {
        let opening = match &disk.catalog {
            Some((bytes, parsed)) => Db::open(Some(bytes), Ok(parsed.clone()), configs)?,
            None => Db::open(None, Err(String::new()), configs)?,
        };
        let Opening { registry, persist, lsn } = opening;
        if persist {
            disk.persist(&registry, lsn);
        }
        let mut entries = Vec::new();
        let mut marks = Vec::new();
        for cfg in &registry {
            let (stores, mark) = disk.open_collection(cfg)?;
            entries.push(Entry { id: cfg.id, stores });
            marks.push(mark);
        }
        let skip = skip_through(&marks, lsn);
        let mut sim = Sim {
            disk,
            db: Db::new(Vec::new()),
            applier: IndexApplier::new(entries, registry, skip),
            fail_next_append: false,
        };
        for i in 0..sim.disk.log.len() {
            if sim.disk.log[i].0 > skip {
                sim.replay(i).unwrap();
            }
        }
        sim.db = Db::resume(&sim.applier);
        Ok(sim)
    }

    fn len(&self, id: u32) -> u64 {
        self.applier.stores(id).unwrap().flat().len() as u64
    }

    /// Applies record `i` of the log; says whether it made a collection.
    fn replay(&mut self, i: usize) -> Result<bool, Fault> {
        let lsn = Lsn(self.disk.log[i].0);
        let config = match &self.disk.log[i].1 {
            Record::CreateCollection { config } => config.clone(),
            record => {
                let mut none = Vec::new();
                let image = self.disk.images.get_mut(&record.collection()).unwrap_or(&mut none);
                return self.applier.apply(image, lsn, record).map(|_| false);
            }
        };
        match self.applier.begin_create(&config) {
            CreateStep::Skip { .. } => {
                self.applier.skip_create(lsn);
                Ok(false)
            }
            CreateStep::Materialize { registry, stamp } => {
                let made = self.disk.open_collection(&config).map(|(stores, _)| stores);
                if made.is_ok() {
                    self.disk.persist(&registry, stamp);
                }
                self.applier.finish_create(lsn, &config, made)?;
                Ok(true)
            }
        }
    }

    /// Makes a record durable and applies it.
    fn append(&mut self, record: Record) -> Result<(), Fault> {
        let config = match &record {
            Record::CreateCollection { config } => Some(config.clone()),
            _ => None,
        };
        self.disk.log_only(record);
        let made = self.replay(self.disk.log.len() - 1)?;
        if let (true, Some(config)) = (made, config) {
            let len = self.len(config.id);
            self.db.publish(config, len);
        }
        Ok(())
    }

    fn insert(&mut self, id: u32, vector: &[f32], row: Row) -> Result<Ordinal, Error> {
        let record = self.db.insert(id, bits(vector), row)?;
        let ordinal = match &record {
            Record::Insert { ordinal, .. } => *ordinal,
            _ => unreachable!(),
        };
        if self.fail_next_append {
            self.fail_next_append = false;
            let image = self.disk.images.get_mut(&id).unwrap();
            let reader = self.applier.stores(id).unwrap().flat().reader();
            let _ = reader.tombstone_uncommitted(image, ordinal);
            return Err(Error::Io("append failed".into()));
        }
        self.append(record).unwrap();
        Ok(Ordinal(ordinal as u32))
    }

    fn delete(&mut self, id: u32, ordinal: u64) -> Result<(), Error> {
        let record = self.db.delete(id, ordinal)?;
        self.append(record).unwrap();
        Ok(())
    }

    fn create_collection(&mut self, name: &str, capacity: usize, schema: Schema) -> Result<u32, Error> {
        let record = self.db.create_collection(name, capacity, schema)?;
        let id = record.collection();
        self.append(record).unwrap();
        Ok(id)
    }

    fn search(&self, id: u32, query: &[f32], k: usize) -> Result<Vec<SearchResult>, Error> {
        self.db.collection(id)?;
        let image = &self.disk.images[&id];
        let reader = self.applier.stores(id).unwrap().flat().reader();
        let scores: Vec<u32> = (0..reader.len())
            .map(|o| {
                let v = reader.vector(image, o);
                let dot: f32 = v.iter().zip(query).map(|(a, b)| f32::from_bits(*a) * b).sum();
                dot.to_bits()
            })
            .collect();
        reader.search(image, query.len(), k, &scores)
    }

    fn metadata_reader(&self, id: u32) -> Option<index::Reader<'_>> {
        self.applier.stores(id).map(|s| s.meta().reader())
    }

    fn tuple_reader(&self, id: u32) -> Option<tuples::Reader<'_>> {
        self.applier.stores(id).map(|s| s.tuple().reader())
    }

    fn scan(&self, id: u32) -> Cursor {
        let columns = self.applier.stores(id).unwrap().meta().schema().columns.len();
        Cursor::scan(&self.metadata_reader(id).unwrap(), columns as u32)
    }

    fn collections(&self) -> Vec<CollectionConfig> {
        self.db.collections()
    }

    fn get_collection(&self, name: &str) -> Option<BoundSchema> {
        self.db.get_collection(name)
    }

    /// Takes one step of a checkpoint.
    fn take(&mut self, action: Action) {
        let schema = |id: u32| self.db.collection(id).unwrap().config().schema.clone();
        match action {
            Action::SyncData { .. } => {}
            Action::SyncHeader { id, count, lsn } => {
                let image = self.disk.images.get_mut(&id).unwrap();
                let staged = self.applier.stage(id, image, count, lsn).expect("a slot");
                self.applier.commit(id, staged);
            }
            Action::SaveIndex { id, lsn } => {
                let meta = self.applier.stores(id).unwrap().meta();
                let bytes = meta.encode_snapshot(b"schema", Lsn(lsn));
                self.disk.metas.insert(id, (bytes, schema(id)));
            }
            Action::SaveRows { id, lsn } => {
                let slots = copied(self.applier.stores(id).unwrap().tuple().slots());
                let bytes = tuples::Writer::encode_snapshot(b"rows", Lsn(lsn));
                self.disk.rows.insert(id, (bytes, schema(id), slots));
            }
            Action::SaveCatalog { lsn } => self.disk.persist(self.applier.registry(), lsn),
            Action::Truncate { through } => self.disk.log.retain(|(lsn, _)| *lsn > through),
        }
    }

    /// Makes everything durable and cuts the log.
    fn checkpoint(&mut self) {
        for action in self.applier.checkpoint() {
            self.take(action);
        }
    }

    fn close(mut self) {
        self.checkpoint();
    }
}

/// Vector-only collection: empty schema, inserts pass an empty row.
fn cfg(id: u32, dim: usize, capacity: usize) -> CollectionConfig {
    CollectionConfig {
        id,
        name: format!("c{id}"),
        capacity,
        schema: Schema::from_columns(vec![ColumnSpec::Vector {
            name: "vector".into(),
            dim: Dim::new(dim).unwrap(),
        }])
        .unwrap(),
    }
}

/// Collection with a metadata schema: (a INT, c TEXT) alongside the vector.
fn cfg_meta(id: u32, dim: usize, capacity: usize) -> CollectionConfig {
    CollectionConfig {
        id,
        name: format!("c{id}"),
        capacity,
        schema: Schema::from_columns(vec![
            ColumnSpec::Vector {
                name: "vector".into(),
                dim: Dim::new(dim).unwrap(),
            },
            ColumnSpec::Scalar {
                name: "a".into(),
                ty: ColumnType::Int,
            },
            ColumnSpec::Scalar {
                name: "c".into(),
                ty: ColumnType::Text,
            },
        ])
        .unwrap(),
    }
}

/// A vector-only schema (no scalar columns), embedding dim `dim`.
fn vec_only(dim: usize) -> Schema {
    Schema::from_columns(vec![ColumnSpec::Vector {
        name: "vector".into(),
        dim: Dim::new(dim).unwrap(),
    }])
    .unwrap()
}

fn meta_row(a: i64, c: &str) -> Row {
    vec![(0, Value::Int(a)), (1, Value::Text(c.into()))]
}

#[test]
fn insert_search_delete_e2e() {
    let mut disk = Disk::default();
    let mut db = Sim::open(&mut disk, &[cfg(0, 2, 64)]).unwrap();

    let a = db.insert(0, &[1.0, 0.0], vec![]).unwrap();
    let b = db.insert(0, &[2.0, 0.0], vec![]).unwrap();
    let _c = db.insert(0, &[0.0, 1.0], vec![]).unwrap();
    assert_eq!(a, Ordinal(0));
    assert_eq!(b, Ordinal(1));

    let hits = db.search(0, &[1.0, 0.0], 3).unwrap();
    assert_eq!(hits[0].id, Ordinal(1)); // [2,0] best

    // Delete the winner; it must vanish from results.
    db.delete(0, 1).unwrap();
    let hits = db.search(0, &[1.0, 0.0], 3).unwrap();
    assert!(hits.iter().all(|h| h.id != Ordinal(1)));
    assert_eq!(hits[0].id, Ordinal(0)); // [1,0] now best

    db.close();
}

#[test]
fn reopen_recovers_full_state() {
    let mut disk = Disk::default();
    {
        let mut db = Sim::open(&mut disk, &[cfg(0, 2, 64)]).unwrap();
        db.insert(0, &[1.0, 0.0], vec![]).unwrap();
        db.insert(0, &[2.0, 0.0], vec![]).unwrap();
        db.checkpoint(); // durable + WAL truncated
        db.insert(0, &[3.0, 0.0], vec![]).unwrap(); // lives only in the WAL tail
        db.close();
    }
    // Reopen: checkpointed prefix comes from the index, the tail from the WAL.
    let mut db = Sim::open(&mut disk, &[cfg(0, 2, 64)]).unwrap();
    let hits = db.search(0, &[1.0, 0.0], 10).unwrap();
    assert_eq!(hits.len(), 3);
    assert_eq!(hits[0].id, Ordinal(2)); // [3,0]
    // The allocator resumed past the recovered high-water mark.
    let next = db.insert(0, &[4.0, 0.0], vec![]).unwrap();
    assert_eq!(next, Ordinal(3));
    db.close();
}

#[test]
fn capacity_is_enforced_before_logging() {
    let mut disk = Disk::default();
    let mut db = Sim::open(&mut disk, &[cfg(0, 1, 2)]).unwrap();
    db.insert(0, &[1.0], vec![]).unwrap();
    db.insert(0, &[2.0], vec![]).unwrap();
    assert!(matches!(
        db.insert(0, &[3.0], vec![]),
        Err(Error::CapacityExceeded { .. })
    ));
    db.close();
}

#[test]
fn unknown_collection_rejected() {
    let mut disk = Disk::default();
    let mut db = Sim::open(&mut disk, &[cfg(0, 2, 8)]).unwrap();
    assert!(matches!(
        db.insert(7, &[1.0, 2.0], vec![]),
        Err(Error::UnknownCollection { id: 7 })
    ));
    db.close();
}

#[test]
fn failed_insert_does_not_leak_phantom_ordinal() {
    let mut disk = Disk::default();
    let mut db = Sim::open(&mut disk, &[cfg(0, 2, 64)]).unwrap();
    db.insert(0, &[1.0, 0.0], vec![]).unwrap(); // ord 0
    db.insert(0, &[1.0, 0.0], vec![]).unwrap(); // ord 1

    // Force the next durability to fail; its ordinal (2) is burned by the
    // allocator but its slot is never written.
    db.fail_next_append = true;
    let failed = db.insert(0, &[9.0, 9.0], vec![]);
    assert!(failed.is_err(), "durability failure must surface to caller");

    // A subsequent successful insert takes ordinal 3 and pushes the
    // high-water mark to 4, pulling the burned slot 2 (zero-filled) into
    // search range. It must NOT appear — the error path tombstoned it.
    let later = db.insert(0, &[1.0, 0.0], vec![]).unwrap();
    assert_eq!(later, Ordinal(3));

    let hits = db.search(0, &[1.0, 1.0], 64).unwrap();
    let ids: std::collections::BTreeSet<u32> = hits.iter().map(|h| h.id.0).collect();
    assert!(!ids.contains(&2), "burned ordinal 2 must stay hidden");
    assert_eq!(
        ids,
        [0u32, 1, 3].into_iter().collect(),
        "only the real ordinals are visible"
    );
    db.close();
}

/// The full read-side loop by hand (the SEARCH..WHERE executor is a later
/// phase): filter bitmap from the metadata index, intersect with search
/// candidates, fetch RETURNING values from the tuple store.
#[test]
fn metadata_end_to_end() {
    let mut disk = Disk::default();
    let mut db = Sim::open(&mut disk, &[cfg_meta(0, 2, 64)]).unwrap();

    db.insert(0, &[1.0, 0.0], meta_row(1, "alice")).unwrap(); // ord 0
    db.insert(0, &[2.0, 0.0], meta_row(2, "bob")).unwrap(); // ord 1
    db.insert(0, &[3.0, 0.0], meta_row(3, "alice")).unwrap(); // ord 2


    // WHERE a < 3 → {0, 1}.
    let filter = db.metadata_reader(0).unwrap().lookup_range(0, RangeOp::Lt, &Value::Int(3)).unwrap();
    assert_eq!(filter.to_vec(), vec![0, 1]);

    // Intersect with search candidates by hand.
    let hits = db.search(0, &[1.0, 0.0], 10).unwrap();
    let filtered: Vec<u32> = hits
        .iter()
        .map(|h| h.id.0)
        .filter(|id| filter.contains(*id))
        .collect();
    assert_eq!(filtered, vec![1, 0], "best-first among a<3 is ord 1 then 0");

    // RETURNING c, a for the winner.
    assert_eq!(
        db.tuple_reader(0).unwrap().get(Ordinal(1), &[1, 0]).unwrap(),
        RowGet::Live(vec![Value::Text("bob".into()), Value::Int(2)])
    );

    // Delete and re-check exclusion everywhere.
    db.delete(0, 0).unwrap();
    let filter = db.metadata_reader(0).unwrap().lookup_eq(1, &Value::Text("alice".into())).unwrap();
    assert_eq!(filter.to_vec(), vec![2]);
    assert_eq!(db.tuple_reader(0).unwrap().get(Ordinal(0), &[0]).unwrap(), RowGet::Deleted);
    assert_eq!(db.metadata_reader(0).unwrap().live_count(), 2);

    db.close();
}

/// Crash (drop without close = no final checkpoint) → reopen must bring
/// all three stores to the same state purely from WAL replay.
#[test]
fn recovery_without_checkpoint_keeps_three_stores_consistent() {
    let mut disk = Disk::default();
    {
        let mut db = Sim::open(&mut disk, &[cfg_meta(0, 2, 64)]).unwrap();
        for i in 0..5i64 {
            db.insert(0, &[i as f32, 1.0], meta_row(i, if i % 2 == 0 { "even" } else { "odd" }))
                .unwrap();
        }
        db.delete(0, 3).unwrap();
        // Drop, not close: skips the final checkpoint, everything lives
        // only in the WAL tail.
    }

    let db = Sim::open(&mut disk, &[cfg_meta(0, 2, 64)]).unwrap();

    // flat live count == metadata live count == live tuple slots.
    let hits = db.search(0, &[0.0, 1.0], 64).unwrap();
    assert_eq!(hits.len(), 4);
    assert_eq!(db.metadata_reader(0).unwrap().live_count(), 4);
    for ord in [0u32, 1, 2, 4] {
        assert!(matches!(db.tuple_reader(0).unwrap().get(Ordinal(ord), &[0]).unwrap(), RowGet::Live(_)));
    }
    assert_eq!(db.tuple_reader(0).unwrap().get(Ordinal(3), &[0]).unwrap(), RowGet::Deleted);

    // Spot-check lookups and values.
    let evens = db.metadata_reader(0).unwrap().lookup_eq(1, &Value::Text("even".into())).unwrap();
    assert_eq!(evens.to_vec(), vec![0, 2, 4]);
    assert_eq!(
        db.tuple_reader(0).unwrap().get(Ordinal(4), &[0, 1]).unwrap(),
        RowGet::Live(vec![Value::Int(4), Value::Text("even".into())])
    );
    db.close();
}

/// A corrupt snapshot while the WAL still holds every record: the victim
/// opens empty at Lsn(0), its 0 drags the min watermark down, the full
/// replay heals it while the other stores absorb the replay idempotently.
/// (Corruption AFTER the WAL truncated past the data is outside the crash
/// model — serialize-and-rename makes torn checkpoints leave the OLD
/// complete snapshot, which bounds truncation; see Apply::checkpoint.)
#[test]
fn corrupt_snapshot_with_full_wal_self_heals() {
    for victim in ["metadata.snap", "tuples.snap"] {
        let mut disk = Disk::default();
        {
            let mut db = Sim::open(&mut disk, &[cfg_meta(0, 2, 64)]).unwrap();
            db.insert(0, &[1.0, 0.0], meta_row(1, "x")).unwrap();
            db.insert(0, &[2.0, 0.0], meta_row(2, "y")).unwrap();
            db.delete(0, 0).unwrap();
            drop(db); // no checkpoint: the WAL holds everything
        }
        // A torn/garbage snapshot file where none (or a partial one) was.
        disk.spoil(0, victim);

        let db = Sim::open(&mut disk, &[cfg_meta(0, 2, 64)]).unwrap();
                assert_eq!(db.metadata_reader(0).unwrap().live_count(), 1, "victim {victim}");
        assert_eq!(
            db.metadata_reader(0).unwrap().lookup_eq(0, &Value::Int(2)).unwrap().to_vec(),
            vec![1],
            "victim {victim}"
        );
        assert_eq!(db.tuple_reader(0).unwrap().get(Ordinal(0), &[1]).unwrap(), RowGet::Deleted);
        assert_eq!(
            db.tuple_reader(0).unwrap().get(Ordinal(1), &[1]).unwrap(),
            RowGet::Live(vec![Value::Text("y".into())]),
            "victim {victim}"
        );
        db.close();
    }
}

#[test]
fn catalog_round_trips_collections_across_reopen() {
    let mut disk = Disk::default();
    {
        let mut db = Sim::open(&mut disk, &[cfg_meta(0, 2, 64), cfg(1, 3, 32)]).unwrap();
        db.insert(0, &[1.0, 0.0], meta_row(7, "kept")).unwrap();
        db.insert(1, &[1.0, 0.0, 0.0], vec![]).unwrap();
        db.close();
    }

    // Reopen with NO configs: both collections re-emerge from catalog.snap
    // with their exact configs, and their data is intact.
    let mut db = Sim::open(&mut disk, &[]).unwrap();
    assert_eq!(db.collections(), vec![cfg_meta(0, 2, 64), cfg(1, 3, 32)]);
    assert_eq!(db.search(0, &[1.0, 0.0], 10).unwrap().len(), 1);
    assert_eq!(db.search(1, &[1.0, 0.0, 0.0], 10).unwrap().len(), 1);
    assert_eq!(
        db.metadata_reader(0).unwrap().lookup_eq(0, &Value::Int(7)).unwrap().to_vec(),
        vec![0]
    );
    // The re-emerged schema still validates inserts.
    assert!(matches!(
        db.insert(0, &[2.0, 0.0], vec![]),
        Err(Error::IncompleteRow)
    ));
    db.close();
}

#[test]
fn conflicting_config_for_registered_collection_errs() {
    let mut disk = Disk::default();
    {
        let db = Sim::open(&mut disk, &[cfg_meta(0, 2, 64)]).unwrap();
        db.close();
    }
    // Same id, different schema (cfg's is empty) → refuse before any
    // store is touched.
    assert!(matches!(
        Sim::open(&mut disk, &[cfg(0, 2, 64)]),
        Err(Error::CollectionConfigMismatch { id: 0 })
    ));
    // Same id, same schema shape but different capacity → also refuse.
    assert!(matches!(
        Sim::open(&mut disk, &[cfg_meta(0, 2, 128)]),
        Err(Error::CollectionConfigMismatch { id: 0 })
    ));
    // The exact registered config still opens fine.
    let db = Sim::open(&mut disk, &[cfg_meta(0, 2, 64)]).unwrap();
    db.close();
}

#[test]
fn corrupt_catalog_is_a_loud_error_not_a_fallback() {
    let mut disk = Disk::default();
    {
        let db = Sim::open(&mut disk, &[cfg(0, 2, 8)]).unwrap();
        db.close();
    }
    let bytes = &mut disk.catalog.as_mut().unwrap().0;
    let mid = bytes.len() / 2;
    bytes[mid] ^= 0xFF;

    // Collection registration is not WAL-rebuildable, so this must NOT
    // silently open an empty database.
    assert!(matches!(
        Sim::open(&mut disk, &[]),
        Err(Error::CorruptSnapshot(_))
    ));
}

/// WAL records for different collections dispatch to the right writers,
/// and recovery restores each collection independently — including their
/// separate ordinal spaces and allocators.
#[test]
fn multi_collection_apply_dispatches_and_recovers_independently() {
    let mut disk = Disk::default();
    {
        let mut db = Sim::open(&mut disk, &[cfg_meta(0, 2, 64), cfg_meta(1, 4, 64)]).unwrap();
        // Interleave records across the two collections in one WAL.
        assert_eq!(db.insert(0, &[1.0, 0.0], meta_row(1, "a")).unwrap(), Ordinal(0));
        assert_eq!(db.insert(1, &[1.0, 0.0, 0.0, 0.0], meta_row(10, "b")).unwrap(), Ordinal(0));
        assert_eq!(db.insert(0, &[2.0, 0.0], meta_row(2, "a")).unwrap(), Ordinal(1));
        assert_eq!(db.insert(1, &[2.0, 0.0, 0.0, 0.0], meta_row(20, "b")).unwrap(), Ordinal(1));
        db.delete(0, 0).unwrap(); // only collection 0's ordinal 0 dies
        // Drop without close: everything recovers from the WAL tail alone.
    }

    let mut db = Sim::open(&mut disk, &[]).unwrap();

    // Collection 0: one live row (ordinal 1), the tombstone held.
    assert_eq!(db.search(0, &[1.0, 0.0], 10).unwrap().len(), 1);
    assert_eq!(db.metadata_reader(0).unwrap().live_count(), 1);
    assert_eq!(
        db.tuple_reader(0).unwrap().get(Ordinal(0), &[0]).unwrap(),
        RowGet::Deleted
    );

    // Collection 1: untouched by collection 0's delete; both rows live.
    assert_eq!(db.search(1, &[1.0, 0.0, 0.0, 0.0], 10).unwrap().len(), 2);
    assert_eq!(db.metadata_reader(1).unwrap().live_count(), 2);
    assert_eq!(
        db.metadata_reader(1).unwrap().lookup_eq(0, &Value::Int(20)).unwrap().to_vec(),
        vec![1]
    );
    assert_eq!(
        db.tuple_reader(1).unwrap().get(Ordinal(0), &[1]).unwrap(),
        RowGet::Live(vec![Value::Text("b".into())])
    );

    // Allocators resumed independently per collection.
    assert_eq!(db.insert(0, &[3.0, 0.0], meta_row(3, "a")).unwrap(), Ordinal(2));
    assert_eq!(
        db.insert(1, &[3.0, 0.0, 0.0, 0.0], meta_row(30, "b")).unwrap(),
        Ordinal(2)
    );
    db.close();
}

#[test]
fn create_collection_end_to_end() {
    let mut disk = Disk::default();
    let mut db = Sim::open(&mut disk, &[]).unwrap();

    let schema = Schema::from_columns(vec![
        ColumnSpec::Vector {
            name: "vector".into(),
            dim: Dim::new(3).unwrap(),
        },
        ColumnSpec::Scalar {
            name: "a".into(),
            ty: ColumnType::Int,
        },
    ])
    .unwrap();
    let id = db.create_collection("docs", 16, schema).unwrap();
    assert_eq!(id, 0, "first collection gets id 0");

    db.insert(id, &[1.0, 0.0, 0.0], vec![(0, Value::Int(7))]).unwrap();
    db.insert(id, &[0.0, 1.0, 0.0], vec![(0, Value::Int(8))]).unwrap();

    let hits = db.search(id, &[1.0, 0.0, 0.0], 10).unwrap();
    assert_eq!(hits.len(), 2);
    assert_eq!(hits[0].id, Ordinal(0));
    assert_eq!(
        db.metadata_reader(id)
            .unwrap()
            .lookup_eq(0, &Value::Int(8))
            .unwrap().to_vec(),
        vec![1]
    );
    db.close();
}

/// Models a true crash: the CreateCollection frame is fsync'd to the WAL
/// but NOTHING ever applies it — no collection dir, no catalog.snap.
/// `Db::open`'s recovery (skip_through = 0 on a fresh db) must replay it
/// through the real applier and fully materialize the collection.
#[test]
fn create_collection_crash_before_materialization_replays_on_open() {
    let mut disk = Disk::default();
    let config = CollectionConfig {
        id: 0,
        name: "docs".into(),
        capacity: 8,
        schema: Schema::from_columns(vec![
            ColumnSpec::Vector {
                name: "vector".into(),
                dim: Dim::new(2).unwrap(),
            },
            ColumnSpec::Scalar {
                name: "a".into(),
                ty: ColumnType::Int,
            },
        ])
        .unwrap(),
    };
    disk.log_only(Record::CreateCollection {
        config: config.clone(),
    });
    assert!(disk.catalog.is_none(), "nothing applied yet");
    assert!(disk.images.is_empty());

    let mut db = Sim::open(&mut disk, &[]).unwrap();
    assert_eq!(db.collections(), vec![config]);
    db.insert(0, &[1.0, 0.0], vec![(0, Value::Int(1))]).unwrap();
    assert_eq!(db.search(0, &[1.0, 0.0], 10).unwrap().len(), 1);
    db.close();
}

#[test]
fn duplicate_create_is_a_noop_on_replay() {
    let mut disk = Disk::default();
    let mut db = Sim::open(&mut disk, &[]).unwrap();
    let id = db.create_collection("docs", 8, vec_only(2)).unwrap();
    db.insert(id, &[1.0, 0.0], vec![]).unwrap();

    // User-level repeat: caught before it ever reaches the WAL.
    assert!(matches!(
        db.create_collection("docs", 8, vec_only(2)),
        Err(Error::CollectionExists { .. })
    ));

    // Replay-level repeat — what recovery actually does: redeliver the
    // exact record already durable in the log. Apply's own existence
    // check must make this silent, not an error or a duplicate.
    let config = db.collections().into_iter().find(|c| c.id == id).unwrap();
    db.append(Record::CreateCollection { config }).unwrap();

    assert_eq!(db.collections().len(), 1);
    assert_eq!(
        db.search(id, &[1.0, 0.0], 10).unwrap().len(),
        1,
        "data untouched by the replayed create"
    );
    db.close();
}

#[test]
fn invalid_create_is_rejected_before_the_wal_and_burns_no_id() {
    let mut disk = Disk::default();
    let mut db = Sim::open(&mut disk, &[]).unwrap();

    assert!(matches!(
        db.create_collection("", 8, vec_only(2)),
        Err(Error::InvalidCollectionName)
    ));
    assert!(matches!(
        db.create_collection("x", 0, vec_only(2)),
        Err(Error::InvalidCapacity)
    ));
    // The `id` pseudo-column collides with SEARCH's ordinal column.
    assert!(matches!(
        db.create_collection(
            "x",
            8,
            Schema::from_columns(vec![
                ColumnSpec::Vector {
                    name: "vector".into(),
                    dim: Dim::new(2).unwrap(),
                },
                ColumnSpec::Scalar {
                    name: "id".into(),
                    ty: ColumnType::Int,
                },
            ])
            .unwrap(),
        ),
        Err(Error::ReservedColumn(_))
    ));
    // A hand-built Schema bypassing the `Schema::from_columns` constructor
    // still gets caught — create_collection re-validates it.
    let mut sneaky = Schema::from_columns(vec![
        ColumnSpec::Vector {
            name: "vector".into(),
            dim: Dim::new(2).unwrap(),
        },
        ColumnSpec::Scalar {
            name: "a".into(),
            ty: ColumnType::Int,
        },
    ])
    .unwrap();
    sneaky.columns.push(ColumnDef {
        id: 1,
        name: "a".into(),
        ty: ColumnType::Text,
        ordinal: 2,
    });
    assert!(matches!(
        db.create_collection("x", 8, sneaky),
        Err(Error::DuplicateColumn(_))
    ));

    assert!(db.collections().is_empty(), "nothing registered by any failed attempt");

    // No id was burned by the failed attempts: the first real create
    // still gets id 0.
    let id = db.create_collection("real", 8, vec_only(2)).unwrap();
    assert_eq!(id, 0);
    db.close();
}

/// The full schema — vector name/ordinal/dim + every scalar
/// name/id/ordinal/type — survives persist + reopen, reconstructed from
/// disk alone. The scalar ColumnId space stays dense 0..N (vector excluded);
/// declaration ordinals are vector-inclusive.
#[test]
fn full_schema_round_trips_across_reopen() {
    let mut disk = Disk::default();
    // Vector deliberately NOT first: [author@0, embedding@1, year@2].
    let schema = Schema::from_columns(vec![
        ColumnSpec::Scalar {
            name: "author".into(),
            ty: ColumnType::Text,
        },
        ColumnSpec::Vector {
            name: "embedding".into(),
            dim: Dim::new(16).unwrap(),
        },
        ColumnSpec::Scalar {
            name: "year".into(),
            ty: ColumnType::Int,
        },
    ])
    .unwrap();
    let cfg0 = CollectionConfig {
        id: 0,
        name: "docs".into(),
        capacity: 8,
        schema,
    };
    {
        let db = Sim::open(&mut disk, &[cfg0.clone()]).unwrap();
        db.close();
    }
    // Reopen with NO configs: the collection re-emerges from catalog.snap.
    let db = Sim::open(&mut disk, &[]).unwrap();
    assert_eq!(db.collections(), vec![cfg0]);
    let s = &db.collections()[0].schema;
    // Vector: name + declaration ordinal + dim.
    assert_eq!(s.vector().name, "embedding");
    assert_eq!(s.vector().ordinal, 1);
    assert_eq!(s.vector().dim.get(), 16);
    // Scalars: ColumnId dense 0..N (vector excluded); ordinals vector-inclusive.
    assert_eq!(s.columns.len(), 2);
    assert_eq!(
        (s.columns[0].id, s.columns[0].name.as_str(), s.columns[0].ordinal),
        (0, "author", 0)
    );
    assert_eq!(
        (s.columns[1].id, s.columns[1].name.as_str(), s.columns[1].ordinal),
        (1, "year", 2)
    );
    db.close();
}

/// The engine answers with the schema in the shape that a binder reads.
#[test]
fn engine_is_a_binder_catalog_and_binder_consumes_it() {
    let mut disk = Disk::default();
    let mut db = Sim::open(&mut disk, &[]).unwrap();
    // docs: vector VECTOR(768) @0, author TEXT @1, title TEXT @2.
    let schema = Schema::from_columns(vec![
        ColumnSpec::Vector {
            name: "vector".into(),
            dim: Dim::new(768).unwrap(),
        },
        ColumnSpec::Scalar {
            name: "author".into(),
            ty: ColumnType::Text,
        },
        ColumnSpec::Scalar {
            name: "title".into(),
            ty: ColumnType::Text,
        },
    ])
    .unwrap();
    db.create_collection("docs", 1_000_000, schema).unwrap();

    // Read the binder-shaped schema back through the trait.
    let bound = db.get_collection("docs").expect("collection exists");
    assert_eq!(bound.columns.len(), 3);
    assert!(bound.columns[0].is_vector);
    assert_eq!(
        bound
            .columns
            .iter()
            .map(|c| (c.name.as_str(), c.ordinal, c.is_vector))
            .collect::<Vec<_>>(),
        vec![
            ("vector", 0, true),
            ("author", 1, false),
            ("title", 2, false),
        ]
    );
    assert!(db.get_collection("ghost").is_none());

    db.close();
}

const DIM: usize = 4;
const CAPACITY: usize = 100_000;
/// Every scalar column, in `ColumnId` order — what `Db::scan` projects.
const ALL: [ColumnId; 3] = [0, 1, 2];
const TEXTS: [&str; 4] = ["red", "green", "blue", "teal"];

// ---- fixtures ---------------------------------------------------------
//
// Row contents are a PURE FUNCTION of the ordinal, so any thread can verify
// any row it sees with no shared model and no lock — the same trick
// `swmr.rs` and `tests/concurrent_stores.rs` use.

fn vector_for(o: u64) -> Vec<f32> {
    vec![((o % 7) + 1) as f32; DIM]
}

/// The row's values in `ALL` order. Exactly representable, so comparisons
/// are bit-for-bit.
fn values_for(o: u64) -> Vec<Value> {
    vec![
        Value::Int((o % 8) as i64),
        Value::Float(((o % 16) as f64 / 4.0 - 2.0).to_bits()),
        Value::Text(TEXTS[(o % 4) as usize].into()),
    ]
}

fn row_for(o: u64) -> Row {
    values_for(o)
        .into_iter()
        .enumerate()
        .map(|(i, v)| (i as ColumnId, v))
        .collect()
}

fn schema() -> Schema {
    Schema::from_columns(vec![
        ColumnSpec::Vector {
            name: "vector".into(),
            dim: Dim::new(DIM).unwrap(),
        },
        ColumnSpec::Scalar {
            name: "a".into(),
            ty: ColumnType::Int,
        },
        ColumnSpec::Scalar {
            name: "b".into(),
            ty: ColumnType::Float,
        },
        ColumnSpec::Scalar {
            name: "c".into(),
            ty: ColumnType::Text,
        },
    ])
    .unwrap()
}

fn cfgs() -> Vec<CollectionConfig> {
    vec![CollectionConfig {
        id: 0,
        name: "docs".into(),
        capacity: CAPACITY,
        schema: schema(),
    }]
}

fn insert_n(db: &mut Sim, n: u64) {
    for o in 0..n {
        let ord = db.insert(0, &vector_for(o), row_for(o)).unwrap();
        assert_eq!(ord.0 as u64, o, "ordinals are dense from 0");
    }
}

/// Drain a cursor into `(ordinal, values)` pairs, verifying as it goes that
/// every row's values are the ones its ordinal was written with.
fn drain(db: &Sim, cursor: &mut Cursor) -> Vec<(u64, Vec<Value>)> {
    let mut out = Vec::new();
    let mut has_row = cursor.seek_first(&db.tuple_reader(0).unwrap()).unwrap();
    while has_row {
        let o = cursor.ordinal().expect("parked on a row").0 as u64;
        let values = cursor.row().expect("parked on a row").clone();
        assert_eq!(values, values_for(o), "row {o} came back with wrong values");
        out.push((o, values));
        has_row = cursor.next(&db.tuple_reader(0).unwrap()).unwrap();
    }
    // Exhausted cursors report nothing, not a stale row.
    assert!(
        cursor.ordinal().is_none(),
        "exhausted cursor still has an ordinal"
    );
    assert!(cursor.row().is_none(), "exhausted cursor still has a row");
    out
}

fn ordinals(db: &Sim, cursor: &mut Cursor) -> Vec<u64> {
    drain(db, cursor).into_iter().map(|(o, _)| o).collect()
}

// ---- cursors ----------------------------------------------------------

#[test]
fn empty_collection_yields_nothing() {
    let mut disk = Disk::default();
    let db = Sim::open(&mut disk, &cfgs()).unwrap();

    let mut cursor = db.scan(0);
    assert!(
        !cursor.seek_first(&db.tuple_reader(0).unwrap()).unwrap(),
        "empty collection must report empty"
    );
    assert!(cursor.ordinal().is_none());
    assert!(cursor.row().is_none());
    assert!(
        cursor.column(0).is_none(),
        "column is never valid before a row"
    );
    // `next` on an empty scan stays empty rather than wrapping or panicking.
    assert!(!cursor.next(&db.tuple_reader(0).unwrap()).unwrap());

    db.close();
}

#[test]
fn single_row_reads_back() {
    let mut disk = Disk::default();
    let mut db = Sim::open(&mut disk, &cfgs()).unwrap();
    insert_n(&mut db, 1);

    let mut cursor = db.scan(0);
    assert!(cursor.seek_first(&db.tuple_reader(0).unwrap()).unwrap(), "must park on the only row");
    assert_eq!(cursor.ordinal(), Some(Ordinal(0)));

    // Every field of the row, by projection position (== ColumnId here).
    let want = values_for(0);
    assert_eq!(cursor.column(0), Some(&want[0]));
    assert_eq!(cursor.column(1), Some(&want[1]));
    assert_eq!(cursor.column(2), Some(&want[2]));
    assert_eq!(cursor.column(3), None, "past the projection");
    assert_eq!(cursor.row(), Some(&want));

    assert!(
        !cursor.next(&db.tuple_reader(0).unwrap()).unwrap(),
        "one row means exhausted after one advance"
    );
    assert!(cursor.ordinal().is_none());

    db.close();
}

#[test]
fn multi_row_ascending_order() {
    let mut disk = Disk::default();
    let mut db = Sim::open(&mut disk, &cfgs()).unwrap();
    insert_n(&mut db, 32);

    // Ascending order is free from the bitmap — pinned here so a later
    // refactor (a different ordinal source, a reordering optimization)
    // cannot silently take it away.
    let got = ordinals(&db, &mut db.scan(0));
    assert_eq!(got, (0..32).collect::<Vec<u64>>());

    db.close();
}

#[test]
fn tombstoned_rows_skipped() {
    let mut disk = Disk::default();
    let mut db = Sim::open(&mut disk, &cfgs()).unwrap();
    insert_n(&mut db, 8);
    for victim in [1u64, 4, 6] {
        db.delete(0, victim).unwrap();
    }

    // Proves the cursor is driven by `live()`, not a naive `0..len`.
    let got = ordinals(&db, &mut db.scan(0));
    assert_eq!(got, vec![0, 2, 3, 5, 7]);

    db.close();
}

#[test]
fn projection_returns_selected_columns() {
    let mut disk = Disk::default();
    let mut db = Sim::open(&mut disk, &cfgs()).unwrap();
    insert_n(&mut db, 4);

    // A REORDERED SUBSET: c (id 2) then a (id 0), skipping b entirely.
    let live = db.metadata_reader(0).unwrap().live();
    let mut cursor = Cursor::over(live.to_vec().into_iter().map(Ordinal).collect(), vec![2, 0]);

    let mut has_row = cursor.seek_first(&db.tuple_reader(0).unwrap()).unwrap();
    let mut seen = 0;
    while has_row {
        let o = cursor.ordinal().unwrap().0 as u64;
        let want = values_for(o);
        assert_eq!(
            cursor.row(),
            Some(&vec![want[2].clone(), want[0].clone()]),
            "projection must be exactly the requested columns, in the requested order"
        );
        assert_eq!(cursor.column(0), Some(&want[2]));
        assert_eq!(cursor.column(1), Some(&want[0]));
        assert_eq!(cursor.column(2), None, "projection has only two columns");
        seen += 1;
        has_row = cursor.next(&db.tuple_reader(0).unwrap()).unwrap();
    }
    assert_eq!(seen, 4);

    db.close();
}

#[test]
fn cursor_over_arbitrary_bitmap() {
    let mut disk = Disk::default();
    let mut db = Sim::open(&mut disk, &cfgs()).unwrap();
    insert_n(&mut db, 8);

    // A hand-built bitmap that is NOT `live()` — every one of these 8 ordinals
    // is live, so a cursor wired to `live()` would return all 8 and fail here.
    let bitmap = Bitmap::of(&[3, 5]);
    let chosen = bitmap.to_vec().into_iter().map(Ordinal).collect();
    let mut cursor = Cursor::over(chosen, ALL.to_vec());
    assert_eq!(ordinals(&db, &mut cursor), vec![3, 5]);

    // A plain list drives the same cursor. That is the shape a ranked result
    // arrives in.
    let knn = vec![Ordinal(6), Ordinal(1), Ordinal(4)];
    let mut cursor = Cursor::over(knn, ALL.to_vec());
    assert_eq!(
        ordinals(&db, &mut cursor),
        vec![6, 1, 4],
        "the cursor preserves the source's order; it does not impose ascending"
    );

    let keep = &Bitmap::of(&[2, 7]);
    let chosen = keep.to_vec().into_iter().map(Ordinal).collect();
    let mut cursor = Cursor::over(chosen, ALL.to_vec());
    assert_eq!(ordinals(&db, &mut cursor), vec![2, 7]);

    db.close();
}

#[test]
fn a_cursor_skips_what_is_gone_and_counts_it() {
    let mut disk = Disk::default();
    let mut db = Sim::open(&mut disk, &cfgs()).unwrap();
    insert_n(&mut db, 4);
    db.delete(0, 2).unwrap();
    let all = (0..6).map(Ordinal).collect();
    let mut cursor = Cursor::over(all, ALL.to_vec());
    assert_eq!(ordinals(&db, &mut cursor), vec![0, 1, 3]);
    assert_eq!((cursor.fetched(), cursor.skipped()), (3, 3));
    assert_eq!(cursor.columns(), &ALL.to_vec());
}

#[test]
fn an_unknown_column_stops_a_cursor() {
    let mut disk = Disk::default();
    let mut db = Sim::open(&mut disk, &cfgs()).unwrap();
    insert_n(&mut db, 1);
    let mut cursor = Cursor::over(vec![Ordinal(0)], vec![0, 9]);
    assert!(matches!(
        cursor.seek_first(&db.tuple_reader(0).unwrap()),
        Err(Error::UnknownColumn { column: 9 })
    ));
}

// ---- replay and checkpoints ------------------------------------------------

#[test]
fn replay_over_a_checkpoint_changes_nothing() {
    let mut disk = Disk::default();
    let mut db = Sim::open(&mut disk, &[cfg_meta(0, 2, 8)]).unwrap();
    db.insert(0, &[1.0, 0.0], meta_row(1, "x")).unwrap();
    db.insert(0, &[2.0, 0.0], meta_row(2, "y")).unwrap();
    db.delete(0, 0).unwrap();
    let log = db.disk.log.len();
    let image = db.disk.images[&0].clone();
    for i in 0..log {
        db.replay(i).unwrap();
    }
    assert_eq!(db.disk.images[&0], image);
    assert_eq!(db.metadata_reader(0).unwrap().live().to_vec(), vec![1]);
    assert_eq!(db.tuple_reader(0).unwrap().get(Ordinal(0), &[0]).unwrap(), RowGet::Deleted);
}

#[test]
fn a_record_for_nobody_is_refused() {
    let mut disk = Disk::default();
    let mut db = Sim::open(&mut disk, &[cfg(0, 2, 8)]).unwrap();
    let fault = db
        .append(Record::Delete { collection: 9, ordinal: 0 })
        .unwrap_err();
    assert_eq!(fault.kind, FaultKind::NotFound);
    assert_eq!(fault.message, "record references unknown collection 9");
    let fault = db
        .append(Record::Delete { collection: 0, ordinal: 1 << 32 })
        .unwrap_err();
    assert_eq!(fault.kind, FaultKind::InvalidData);
    assert_eq!(
        fault.message,
        "ordinal 4294967296 overflows the u32 metadata ordinal space"
    );
}

#[test]
fn a_failed_create_holds_the_watermark_back() {
    let mut applier = IndexApplier::new(Vec::new(), Vec::new(), 4);
    let config = cfg(0, 2, 8);
    assert!(matches!(
        applier.begin_create(&config),
        CreateStep::Materialize { stamp: 4, .. }
    ));
    let fault = applier
        .finish_create(Lsn(6), &config, Err(Error::Io("disk full".into())))
        .unwrap_err();
    assert_eq!(fault.kind, FaultKind::System);
    applier.skip_create(Lsn(9));
    assert_eq!(applier.catalog_watermark(), 5);
    assert!(applier.registry().is_empty());
}

#[test]
fn a_checkpoint_goes_from_data_to_log() {
    let mut disk = Disk::default();
    let mut db = Sim::open(&mut disk, &[cfg(0, 1, 8), cfg(1, 1, 8)]).unwrap();
    db.insert(0, &[1.0], vec![]).unwrap(); // position 1 of the log
    db.insert(1, &[1.0], vec![]).unwrap(); // position 2
    db.insert(1, &[2.0], vec![]).unwrap(); // position 3
    let of = |id: u32, count: u32, lsn: u64| {
        vec![
            Action::SyncData { id },
            Action::SyncHeader { id, count, lsn },
            Action::SaveIndex { id, lsn },
            Action::SaveRows { id, lsn },
        ]
    };
    let mut want = of(0, 1, 1);
    want.extend(of(1, 2, 3));
    want.push(Action::SaveCatalog { lsn: 3 });
    want.push(Action::Truncate { through: 1 });
    assert_eq!(db.applier.checkpoint(), want);
}

#[test]
fn a_fresh_database_keeps_its_log() {
    let mut disk = Disk::default();
    let db = Sim::open(&mut disk, &[]).unwrap();
    assert_eq!(db.applier.checkpoint(), vec![Action::SaveCatalog { lsn: 0 }]);
}

#[test]
fn a_checkpoint_that_stops_anywhere_loses_nothing() {
    for stop in 0..=10 {
        let mut disk = Disk::default();
        let mut db = Sim::open(&mut disk, &[cfg_meta(0, 2, 64), cfg_meta(1, 2, 64)]).unwrap();
        db.insert(0, &[1.0, 0.0], meta_row(1, "x")).unwrap();
        db.insert(1, &[2.0, 0.0], meta_row(2, "y")).unwrap();
        db.delete(0, 0).unwrap();
        let actions = db.applier.checkpoint();
        assert_eq!(actions.len(), 10);
        for action in actions.into_iter().take(stop) {
            db.take(action);
        }
        drop(db);

        let mut db = Sim::open(&mut disk, &[]).unwrap();
        assert_eq!(db.metadata_reader(0).unwrap().live_count(), 0, "stop {stop}");
        assert_eq!(db.search(1, &[1.0, 0.0], 9).unwrap().len(), 1, "stop {stop}");
        assert_eq!(
            db.tuple_reader(1).unwrap().get(Ordinal(0), &[1]).unwrap(),
            RowGet::Live(vec![Value::Text("y".into())])
        );
        assert_eq!(db.insert(0, &[1.0, 1.0], meta_row(3, "z")).unwrap(), Ordinal(1));
    }
}

#[test]
fn recovery_starts_at_the_slowest_store() {
    assert_eq!(skip_through(&[9, 4], 7), 4);
    assert_eq!(skip_through(&[], 7), 7);
    assert_eq!(skip_through(&[], u64::MAX), 0);
}

#[test]
fn a_name_belongs_to_one_collection() {
    let mut disk = Disk::default();
    let mut twin = cfg(1, 2, 8);
    twin.name = "c0".into();
    assert!(matches!(
        Sim::open(&mut disk, &[cfg(0, 2, 8), twin]).map(|_| ()),
        Err(Error::CollectionExists { name }) if name == "c0"
    ));
}

#[test]
fn catalogs_are_framed_and_checked() {
    let body = b"the registry";
    let bytes = encode_catalog(body, 42);
    assert_eq!(&bytes[..4], b"CAT0");
    assert_eq!(catalog_body(&bytes).unwrap(), body);
    assert_eq!(bytes[bytes.len() - 4..], 0xEC4E84BBu32.to_le_bytes());
    let (registry, lsn) = decode_catalog(&bytes, Ok(vec![cfg(0, 2, 8)])).unwrap();
    assert_eq!((registry, lsn), (vec![cfg(0, 2, 8)], 42));
    assert!(matches!(
        decode_catalog(&bytes, Err("bad tag".into())),
        Err(Error::CorruptSnapshot(why)) if why == "catalog body: bad tag"
    ));
    assert!(matches!(
        catalog_body(b"short"),
        Err(Error::CorruptSnapshot(why)) if why == "catalog: truncated"
    ));
    assert_eq!(collection_dir(17), "collection-17");
}

#[test]
fn a_catalog_is_refused_when_any_byte_changes() {
    let bytes = encode_catalog(b"the registry", 42);
    for i in 0..bytes.len() {
        for flip in [0x01u8, 0x80, 0xFF] {
            let mut changed = bytes.clone();
            changed[i] ^= flip;
            assert!(
                matches!(
                    decode_catalog(&changed, Ok(vec![cfg(0, 2, 8)])),
                    Err(Error::CorruptSnapshot(_))
                ),
                "byte {i} flipped by {flip}"
            );
        }
    }
}

#[test]
fn checkpoints_come_every_five_seconds() {
    assert_eq!(DbOptions::default().checkpoint_interval, 5_000);
}
