//! Folding the log into the stores.
//!
//! The applier owns the writers of every collection and the catalog's registry. It
//! is the one place where either changes. The registry counts as a store of its
//! own, with its own watermark: without that, cutting the log could drop the record
//! of a collection that no file remembers yet.

use vstd::prelude::*;

use crate::engine::catalog;
use crate::engine::catalog::{name_taken, registered, sorted_by_id};
use crate::engine::checkpoint;
use crate::engine::checkpoint::Action;
use crate::engine::record;
use crate::engine::record::{to_io, Fault, FaultKind, Record};
use crate::engine::stores::{CollectionView, CollectionWriters, StoresView};
use crate::error::Error;
use crate::index;
use crate::index::FlatView;
use crate::metadata::common;
use crate::metadata::common::{CollectionConfig, ConfigView, Lsn};
use crate::text::{join2, numeral};

verus! {

/// The stores of one collection.
pub struct Entry {
    /// The collection.
    pub id: u32,
    /// Its stores.
    pub stores: CollectionWriters,
}

/// Every collection's stores, the registry, and how far the log was applied.
pub struct IndexApplier {
    entries: Vec<Entry>,
    registry: Vec<CollectionConfig>,
    last_applied: u64,
    failed_create: Option<u64>,
}

/// What an [`IndexApplier`] holds.
pub struct ApplierView {
    /// The stores, by collection.
    pub stores: Map<u32, StoresView>,
    /// The registered configurations, in id order.
    pub registry: Seq<ConfigView>,
    /// The highest log position that was applied.
    pub last_applied: u64,
    /// The first new collection that could not be made.
    pub failed_create: Option<u64>,
}

/// The greater of two log positions.
pub open spec fn later(a: u64, b: u64) -> u64 {
    if a >= b {
        a
    } else {
        b
    }
}

impl ApplierView {
    /// The log position through which the registry reflects every record. It stays
    /// below the first collection that could not be made, so that neither the log
    /// is cut behind it nor the catalog claims it.
    pub open spec fn catalog_watermark(self) -> u64 {
        match self.failed_create {
            Some(l) => {
                let below = if l == 0 {
                    0
                } else {
                    (l - 1) as u64
                };
                if self.last_applied <= below {
                    self.last_applied
                } else {
                    below
                }
            },
            None => self.last_applied,
        }
    }

    /// Whether a collection of this id or name is there already.
    pub open spec fn taken(self, config: ConfigView) -> bool {
        self.stores.contains_key(config.id) || catalog::has_name(self.registry, config.name)
    }

    /// The registry with one more configuration.
    pub open spec fn with_config(self, config: ConfigView) -> Seq<ConfigView> {
        catalog::by_id(self.registry.push(config))
    }

    /// Log position `lsn` was applied.
    pub open spec fn reached(self, lsn: u64) -> ApplierView {
        ApplierView { last_applied: later(self.last_applied, lsn), ..self }
    }

    /// Every registered collection has stores, and no other has.
    pub open spec fn matched(self) -> bool {
        forall|id: u32| #[trigger]
            self.stores.contains_key(id) <==> catalog::has_id(self.registry, id)
    }
}

/// The position of a collection's entry.
pub open spec fn seated(entries: Seq<Entry>, id: u32, i: int) -> bool {
    0 <= i < entries.len() && entries[i].id == id
}

/// What the entries hold, by collection.
pub open spec fn stores_of(entries: Seq<Entry>) -> Map<u32, StoresView> {
    Map::new(
        |id: u32| exists|i: int| seated(entries, id, i),
        |id: u32| entries[choose|i: int| seated(entries, id, i)].stores@,
    )
}

/// No collection has two entries.
pub open spec fn one_each(entries: Seq<Entry>) -> bool {
    forall|i: int, j: int|
        0 <= i < j < entries.len() ==> (#[trigger] entries[i]).id != (#[trigger] entries[j]).id
}

proof fn lemma_seated(entries: Seq<Entry>, i: int)
    requires
        one_each(entries),
        0 <= i < entries.len(),
    ensures
        stores_of(entries).contains_key(entries[i].id),
        stores_of(entries)[entries[i].id] == entries[i].stores@,
{
    let id = entries[i].id;
    assert(seated(entries, id, i));
    let k = choose|k: int| seated(entries, id, k);
    if k < i {
        assert(entries[k].id != entries[i].id);
    } else if i < k {
        assert(entries[i].id != entries[k].id);
    }
}

proof fn lemma_entry_changed(before: Seq<Entry>, after: Seq<Entry>, i: int)
    requires
        one_each(before),
        0 <= i < before.len(),
        after.len() == before.len(),
        forall|k: int| 0 <= k < before.len() ==> (#[trigger] after[k]).id == before[k].id,
        forall|k: int| 0 <= k < before.len() && k != i ==> #[trigger] after[k] == before[k],
    ensures
        one_each(after),
        stores_of(after) == stores_of(before).insert(before[i].id, after[i].stores@),
{
    assert forall|a: int, b: int| 0 <= a < b < after.len() implies (#[trigger] after[a]).id != (
    #[trigger] after[b]).id by {
        assert(before[a].id != before[b].id);
    }
    assert forall|id: u32| stores_of(after).contains_key(id) == stores_of(before).insert(
        before[i].id,
        after[i].stores@,
    ).contains_key(id) by {
        if stores_of(before).contains_key(id) {
            let k = choose|k: int| seated(before, id, k);
            assert(seated(after, id, k));
        }
        if stores_of(after).contains_key(id) {
            let k = choose|k: int| seated(after, id, k);
            assert(seated(before, id, k));
        }
        assert(seated(after, before[i].id, i));
    }
    assert forall|id: u32| stores_of(after).contains_key(id) implies stores_of(after)[id]
        == stores_of(before).insert(before[i].id, after[i].stores@)[id] by {
        let k = choose|k: int| seated(after, id, k);
        lemma_seated(after, k);
        lemma_seated(before, k);
    }
    assert(stores_of(after) =~= stores_of(before).insert(before[i].id, after[i].stores@));
}

proof fn lemma_entry_added(before: Seq<Entry>, entry: Entry)
    requires
        one_each(before),
        !stores_of(before).contains_key(entry.id),
    ensures
        one_each(before.push(entry)),
        stores_of(before.push(entry)) == stores_of(before).insert(entry.id, entry.stores@),
{
    let after = before.push(entry);
    assert forall|a: int, b: int| 0 <= a < b < after.len() implies (#[trigger] after[a]).id != (
    #[trigger] after[b]).id by {
        if b == before.len() {
            lemma_seated(before, a);
        } else {
            assert(before[a].id != before[b].id);
        }
    }
    assert forall|id: u32| stores_of(after).contains_key(id) == stores_of(before).insert(
        entry.id,
        entry.stores@,
    ).contains_key(id) by {
        if stores_of(before).contains_key(id) {
            let k = choose|k: int| seated(before, id, k);
            assert(seated(after, id, k));
        }
        if stores_of(after).contains_key(id) {
            let k = choose|k: int| seated(after, id, k);
            if k < before.len() {
                assert(seated(before, id, k));
            }
        }
        assert(seated(after, entry.id, before.len() as int));
    }
    assert forall|id: u32| stores_of(after).contains_key(id) implies stores_of(after)[id]
        == stores_of(before).insert(entry.id, entry.stores@)[id] by {
        let k = choose|k: int| seated(after, id, k);
        lemma_seated(after, k);
        if k < before.len() {
            lemma_seated(before, k);
        }
    }
    assert(stores_of(after) =~= stores_of(before).insert(entry.id, entry.stores@));
}

impl View for IndexApplier {
    type V = ApplierView;

    closed spec fn view(&self) -> ApplierView {
        ApplierView {
            stores: stores_of(self.entries@),
            registry: catalog::configs_view(self.registry@),
            last_applied: self.last_applied,
            failed_create: self.failed_create,
        }
    }
}

/// What is to be done about a logged new collection.
pub enum CreateStep {
    /// Nothing: the id or the name is there already, which is what replay of the
    /// record finds. If what is there is something else, that is worth a warning.
    Skip {
        /// Whether what is there is something else.
        collides: bool,
    },
    /// Make the stores, then persist the registry, stamped with the log position.
    Materialize {
        /// The registry to persist.
        registry: Vec<CollectionConfig>,
        /// Its watermark.
        stamp: u64,
    },
}

impl IndexApplier {
    /// No collection has two entries, every store is well-formed, and the
    /// registered collections are those that have stores.
    pub closed spec fn wf(&self) -> bool {
        &&& one_each(self.entries@)
        &&& forall|i: int| 0 <= i < self.entries@.len() ==> (#[trigger] self.entries@[i]).stores.wf()
        &&& self@.matched()
    }

    /// What well-formedness says of the view.
    pub proof fn lemma_wf(&self)
        requires
            self.wf(),
        ensures
            self@.matched(),
    {
    }

    /// The applier over opened collections. Recovery starts behind
    /// `skip_through`: everything up to there is durable in every store.
    pub fn new(
        entries: Vec<Entry>,
        registry: Vec<CollectionConfig>,
        skip_through: u64,
    ) -> (a: IndexApplier)
        requires
            one_each(entries@),
            forall|i: int| 0 <= i < entries@.len() ==> (#[trigger] entries@[i]).stores.wf(),
            forall|id: u32| #[trigger]
                stores_of(entries@).contains_key(id) <==> catalog::has_id(
                    catalog::configs_view(registry@),
                    id,
                ),
        ensures
            a.wf(),
            a@ == (ApplierView {
                stores: stores_of(entries@),
                registry: catalog::configs_view(registry@),
                last_applied: skip_through,
                failed_create: None,
            }),
    {
        IndexApplier { entries, registry, last_applied: skip_through, failed_create: None }
    }

    fn position(&self, id: u32) -> (r: Option<usize>)
        requires
            self.wf(),
        ensures
            match r {
                Some(i) => i < self.entries@.len() && self.entries@[i as int].id == id
                    && self@.stores.contains_key(id) && self@.stores[id]
                    == self.entries@[i as int].stores@,
                None => !self@.stores.contains_key(id),
            },
    {
        let mut i: usize = 0;
        while i < self.entries.len()
            invariant
                i <= self.entries@.len(),
                self.wf(),
                forall|k: int| 0 <= k < i ==> (#[trigger] self.entries@[k]).id != id,
            decreases self.entries@.len() - i,
        {
            if self.entries[i].id == id {
                proof {
                    lemma_seated(self.entries@, i as int);
                }
                return Some(i);
            }
            i += 1;
        }
        None
    }

    /// The stores of a collection.
    pub fn stores(&self, id: u32) -> (r: Option<&CollectionWriters>)
        requires
            self.wf(),
        ensures
            match r {
                Some(w) => w.wf() && self@.stores.contains_key(id) && w@ == self@.stores[id],
                None => !self@.stores.contains_key(id),
            },
    {
        match self.position(id) {
            Some(i) => Some(&self.entries[i].stores),
            None => None,
        }
    }

    /// The registered configurations, in id order.
    pub fn registry(&self) -> (r: &Vec<CollectionConfig>)
        ensures
            catalog::configs_view(r@) == self@.registry,
    {
        &self.registry
    }

    /// Folds a row or a tombstone into the stores of its collection, whose flat
    /// index has the given image. A record of a new collection goes through
    /// [`begin_create`](Self::begin_create) instead.
    pub fn apply(&mut self, image: &mut [u8], lsn: Lsn, record: &Record) -> (r: Result<(), Fault>)
        requires
            old(self).wf(),
            !(record is CreateCollection),
            old(self)@.stores.contains_key(record@.collection())
                ==> old(self)@.stores[record@.collection()].holds(old(image)@),
            record matches Record::Insert { ordinal, .. } ==> ordinal != u32::MAX || (
            old(self)@.stores.contains_key(record@.collection()) ==> ordinal
                >= old(self)@.stores[record@.collection()].flat.capacity),
        ensures
            final(self).wf(),
            final(image)@.len() == old(image)@.len(),
            ({
                let id = record@.collection();
                let before = CollectionView {
                    stores: old(self)@.stores[id],
                    image: old(image)@,
                };
                let after = CollectionView {
                    stores: final(self)@.stores[id],
                    image: final(image)@,
                };
                if !old(self)@.stores.contains_key(id) {
                    &&& r matches Err(fault) && record::is_unknown(fault, id)
                    &&& final(self)@ == old(self)@
                    &&& final(image)@ == old(image)@
                } else {
                    let stored = ApplierView {
                        stores: old(self)@.stores.insert(id, after.stores),
                        ..old(self)@
                    };
                    &&& final(self)@ == if r is Ok {
                        stored.reached(lsn.0)
                    } else {
                        stored
                    }
                    &&& match record {
                        Record::Insert { ordinal, vector, metadata, .. } => {
                            let row = common::row_view(metadata@);
                            if *ordinal > u32::MAX {
                                &&& r matches Err(fault) && record::is_overflow(fault, *ordinal)
                                &&& after == before
                            } else {
                                match before.stores.vector_fault(*ordinal, vector@) {
                                    Some(e) => {
                                        &&& r matches Err(fault) && record::stands_for(fault, e)
                                        &&& after == before
                                    },
                                    None => match before.stores.meta.schema.row_fault(row) {
                                        Some(e) => {
                                            &&& r matches Err(fault) && record::stands_for(fault, e)
                                            &&& after == before.placed(*ordinal, vector@)
                                        },
                                        None => {
                                            &&& r is Ok
                                            &&& after == before.inserted(
                                                lsn.0,
                                                *ordinal,
                                                vector@,
                                                row,
                                            )
                                        },
                                    },
                                }
                            }
                        },
                        Record::Delete { ordinal, .. } => {
                            if *ordinal > u32::MAX {
                                &&& r matches Err(fault) && record::is_overflow(fault, *ordinal)
                                &&& after == before
                            } else if *ordinal >= before.stores.flat.capacity {
                                &&& r matches Err(fault) && record::stands_for(
                                    fault,
                                    Error::CapacityExceeded {
                                        capacity: before.stores.flat.capacity as usize,
                                    },
                                )
                                &&& after == before
                            } else {
                                &&& r is Ok
                                &&& after == before.deleted(lsn.0, *ordinal)
                            }
                        },
                        Record::CreateCollection { .. } => true,
                    }
                }
            }),
    {
        let id: u32 = record.collection();
        let i: usize = match self.position(id) {
            Some(i) => i,
            None => {
                return Err(
                    Fault {
                        kind: FaultKind::NotFound,
                        message: join2(
                            "record references unknown collection ",
                            numeral(id as u64).as_str(),
                        ),
                    },
                );
            },
        };
        let ghost before = self.entries@;
        let r = match record {
            Record::Insert { ordinal, vector, metadata, .. } =>
                self.entries[i].stores.apply_insert(
                    image,
                    lsn,
                    *ordinal,
                    vector.as_slice(),
                    metadata,
                ),
            Record::Delete { ordinal, .. } => self.entries[i].stores.apply_delete(
                image,
                lsn,
                *ordinal,
            ),
            Record::CreateCollection { .. } => Ok(()),
        };
        proof {
            lemma_entry_changed(before, self.entries@, i as int);
            lemma_seated(self.entries@, i as int);
        }
        if r.is_ok() {
            if lsn.0 > self.last_applied {
                self.last_applied = lsn.0;
            }
        }
        r
    }

    /// The steps of a checkpoint of everything, in the order in which they are to be
    /// taken. What was applied when this was asked is what the steps claim: nothing
    /// is to be applied before they are through.
    pub fn checkpoint(&self) -> (actions: Vec<Action>)
        requires
            self.wf(),
        ensures
            exists|order: Seq<u32>|
                checkpoint::covers(order, self@.stores) && actions@ == #[trigger] checkpoint::plan(
                    order,
                    self@.stores,
                    self@.catalog_watermark(),
                ),
    {
        let ghost all = self@.stores;
        let ghost order = Seq::new(self.entries@.len(), |i: int| self.entries@[i].id);
        let mut actions: Vec<Action> = Vec::new();
        let mut min: u64 = 0xffff_ffff_ffff_ffff;
        let mut i: usize = 0;
        while i < self.entries.len()
            invariant
                i <= self.entries@.len(),
                self.wf(),
                all == self@.stores,
                order == Seq::new(self.entries@.len(), |i: int| self.entries@[i].id),
                actions@ == checkpoint::steps(order.take(i as int), all),
                min == checkpoint::floor(checkpoint::marks(order.take(i as int), all)),
            decreases self.entries@.len() - i,
        {
            let id: u32 = self.entries[i].id;
            let stores = &self.entries[i].stores;
            let (count, flat): (u32, u64) = stores.flat().begin_checkpoint();
            let meta: u64 = stores.meta().applied_lsn().0;
            let tuple: u64 = stores.tuple().applied_lsn().0;
            proof {
                lemma_seated(self.entries@, i as int);
                assert(order.take(i + 1).drop_last() =~= order.take(i as int));
                let m = checkpoint::marks(order.take(i as int), all);
                let a = m.push(flat);
                let b = a.push(meta);
                assert(checkpoint::marks(order.take(i + 1), all) =~= b.push(tuple));
                checkpoint::lemma_floor_push(m, flat);
                checkpoint::lemma_floor_push(a, meta);
                checkpoint::lemma_floor_push(b, tuple);
            }
            actions.push(Action::SyncData { id });
            actions.push(Action::SyncHeader { id, count, lsn: flat });
            actions.push(Action::SaveIndex { id, lsn: meta });
            actions.push(Action::SaveRows { id, lsn: tuple });
            if flat < min {
                min = flat;
            }
            if meta < min {
                min = meta;
            }
            if tuple < min {
                min = tuple;
            }
            proof {
                assert(actions@ =~= checkpoint::steps(order.take(i + 1), all));
            }
            i += 1;
        }
        let stamp: u64 = self.catalog_watermark();
        actions.push(Action::SaveCatalog { lsn: stamp });
        if stamp < min {
            min = stamp;
        }
        proof {
            assert(order.take(i as int) =~= order);
            checkpoint::lemma_floor_push(checkpoint::marks(order, all), stamp);
        }
        if min != 0xffff_ffff_ffff_ffff && min != 0 {
            actions.push(Action::Truncate { through: min });
        }
        proof {
            assert(actions@ =~= checkpoint::plan(order, all, stamp));
            assert forall|id: u32| all.contains_key(id) <==> #[trigger] order.contains(id) by {
                if all.contains_key(id) {
                    let k = choose|k: int| seated(self.entries@, id, k);
                    assert(order[k] == id);
                }
                if order.contains(id) {
                    let k = choose|k: int| 0 <= k < order.len() && order[k] == id;
                    assert(seated(self.entries@, id, k));
                }
            }
            assert forall|a: int, b: int| 0 <= a < order.len() && 0 <= b < order.len() && a
                != b implies order[a] != order[b] by {
                if a < b {
                    assert(self.entries@[a].id != self.entries@[b].id);
                } else {
                    assert(self.entries@[b].id != self.entries@[a].id);
                }
            }
            assert(checkpoint::covers(order, self@.stores));
        }
        actions
    }

    /// Writes a checkpoint of a collection's flat index into its spare header slot,
    /// and says which slot to flush. The count and log position are those read
    /// before the vectors were flushed.
    pub fn stage(&mut self, id: u32, image: &mut [u8], count: u32, lsn: u64) -> (r: Option<
        (usize, u64, u32, u64),
    >)
        requires
            old(self).wf(),
            old(self)@.stores.contains_key(id),
            old(self)@.stores[id].holds(old(image)@),
            old(self)@.stores[id].flat.seq < u64::MAX,
        ensures
            final(self).wf(),
            ({
                let was = old(self)@.stores[id];
                &&& final(self)@ == (ApplierView {
                    stores: old(self)@.stores.insert(
                        id,
                        StoresView { flat: FlatView { staged: None, ..was.flat }, ..was },
                    ),
                    ..old(self)@
                })
                &&& final(image)@ == index::spliced(
                    old(image)@,
                    index::slot_at(1 - was.flat.active_slot),
                    index::slot_bytes(was.flat.next_slot(count, lsn)),
                )
                &&& r matches Some((slot, seq, c, l)) && slot == 1 - was.flat.active_slot && seq
                    == was.flat.seq + 1 && c == count && l == lsn
            }),
    {
        match self.position(id) {
            Some(i) => {
                let ghost before = self.entries@;
                let r = self.entries[i].stores.stage(image, count, lsn);
                proof {
                    lemma_entry_changed(before, self.entries@, i as int);
                }
                r
            },
            None => None,
        }
    }

    /// The staged header slot was flushed: from here on the collection's flat index
    /// is durable up to its log position.
    pub fn commit(&mut self, id: u32, flushed: (usize, u64, u32, u64))
        requires
            old(self).wf(),
            old(self)@.stores.contains_key(id),
            old(self)@.stores[id].flat.staged is None,
            flushed.0 <= 1,
        ensures
            final(self).wf(),
            ({
                let was = old(self)@.stores[id];
                final(self)@ == (ApplierView {
                    stores: old(self)@.stores.insert(
                        id,
                        StoresView {
                            flat: FlatView {
                                active_slot: flushed.0 as int,
                                seq: flushed.1,
                                checkpoint_lsn: flushed.3,
                                ..was.flat
                            },
                            ..was
                        },
                    ),
                    ..old(self)@
                })
            }),
    {
        if let Some(i) = self.position(id) {
            let ghost before = self.entries@;
            self.entries[i].stores.commit(flushed);
            proof {
                lemma_entry_changed(before, self.entries@, i as int);
            }
        }
    }

    /// The log position through which the registry reflects every record.
    pub fn catalog_watermark(&self) -> (lsn: u64)
        ensures
            lsn == self@.catalog_watermark(),
    {
        match self.failed_create {
            Some(l) => {
                let below: u64 = if l == 0 {
                    0
                } else {
                    l - 1
                };
                if self.last_applied <= below {
                    self.last_applied
                } else {
                    below
                }
            },
            None => self.last_applied,
        }
    }

    /// What a logged new collection asks for. A known id or name is no error:
    /// recovery delivers the record again until a checkpoint has folded it away.
    pub fn begin_create(&self, config: &CollectionConfig) -> (step: CreateStep)
        requires
            self.wf(),
        ensures
            if self@.taken(config@) {
                step == (CreateStep::Skip { collides: !self@.registry.contains(config@) })
            } else {
                step matches CreateStep::Materialize { registry, stamp }
                    && catalog::configs_view(registry@) == self@.with_config(config@) && stamp
                    == self@.catalog_watermark()
            },
    {
        if self.position(config.id).is_some() || name_taken(
            self.registry.as_slice(),
            config.name.as_str(),
        ) {
            return CreateStep::Skip {
                collides: !registered(self.registry.as_slice(), config),
            };
        }
        CreateStep::Materialize {
            registry: self.grown(config),
            stamp: self.catalog_watermark(),
        }
    }

    fn grown(&self, config: &CollectionConfig) -> (registry: Vec<CollectionConfig>)
        ensures
            catalog::configs_view(registry@) == self@.with_config(config@),
    {
        let mut all: Vec<CollectionConfig> = Vec::new();
        let mut i: usize = 0;
        while i < self.registry.len()
            invariant
                i <= self.registry@.len(),
                catalog::configs_view(all@) == catalog::configs_view(self.registry@).take(i as int),
            decreases self.registry@.len() - i,
        {
            let ghost before = catalog::configs_view(all@);
            all.push(self.registry[i].clone());
            proof {
                assert(catalog::configs_view(all@) =~= before.push(self.registry@[i as int]@));
                assert(catalog::configs_view(self.registry@).take(i + 1) =~= before.push(
                    self.registry@[i as int]@,
                ));
            }
            i += 1;
        }
        let ghost before = catalog::configs_view(all@);
        all.push(config.clone());
        proof {
            assert(before =~= self@.registry);
            assert(catalog::configs_view(all@) =~= self@.registry.push(config@));
        }
        sorted_by_id(all.as_slice())
    }

    /// A logged new collection that was skipped counts as applied.
    pub fn skip_create(&mut self, lsn: Lsn)
        requires
            old(self).wf(),
        ensures
            final(self).wf(),
            final(self)@ == old(self)@.reached(lsn.0),
    {
        if lsn.0 > self.last_applied {
            self.last_applied = lsn.0;
        }
    }

    /// Ends a new collection: `made` is what making its stores and persisting the
    /// registry gave. Only then does the collection exist; a failure leaves
    /// everything as it was and freezes the catalog's watermark below the record.
    pub fn finish_create(
        &mut self,
        lsn: Lsn,
        config: &CollectionConfig,
        made: Result<CollectionWriters, Error>,
    ) -> (r: Result<(), Fault>)
        requires
            old(self).wf(),
            !old(self)@.taken(config@),
            made matches Ok(w) ==> w.wf(),
        ensures
            final(self).wf(),
            match made {
                Ok(w) => r is Ok && final(self)@ == (ApplierView {
                    stores: old(self)@.stores.insert(config.id, w@),
                    registry: old(self)@.with_config(config@),
                    ..old(self)@
                }).reached(lsn.0),
                Err(e) => {
                    &&& r matches Err(fault) && record::stands_for(fault, e)
                    &&& final(self)@ == (ApplierView {
                        failed_create: if old(self)@.failed_create is Some {
                            old(self)@.failed_create
                        } else {
                            Some(lsn.0)
                        },
                        ..old(self)@
                    })
                },
            },
    {
        match made {
            Ok(stores) => {
                let ghost before = self@;
                proof {
                    lemma_entry_added(self.entries@, Entry { id: config.id, stores });
                }
                let registry: Vec<CollectionConfig> = self.grown(config);
                self.registry = registry;
                self.entries.push(Entry { id: config.id, stores });
                if lsn.0 > self.last_applied {
                    self.last_applied = lsn.0;
                }
                proof {
                    let pushed = before.registry.push(config@);
                    assert forall|id: u32| #[trigger]
                        self@.stores.contains_key(id) <==> catalog::has_id(
                            self@.registry,
                            id,
                        ) by {
                        catalog::lemma_by_id_keeps(pushed, ConfigView { id, ..config@ });
                        assert(before.stores.contains_key(id) <==> catalog::has_id(
                            before.registry,
                            id,
                        ));
                        if catalog::has_id(before.registry, id) {
                            let k = choose|k: int|
                                0 <= k < before.registry.len() && (
                                #[trigger] before.registry[k]).id == id;
                            assert(pushed[k].id == id);
                        }
                        if catalog::has_id(pushed, id) && id != config.id {
                            let k = choose|k: int|
                                0 <= k < pushed.len() && (#[trigger] pushed[k]).id == id;
                            assert(before.registry[k].id == id);
                        }
                        assert(pushed[before.registry.len() as int].id == config.id);
                    }
                }
                Ok(())
            },
            Err(e) => {
                if self.failed_create.is_none() {
                    self.failed_create = Some(lsn.0);
                }
                Err(to_io(e))
            },
        }
    }
}

/// A new collection that could not be made is beyond the catalog's watermark, for
/// as long as the applier lives: the catalog never claims it and the log is never
/// cut behind it.
pub proof fn law_failed_create_is_never_claimed(applier: ApplierView, lsn: u64)
    requires
        applier.failed_create is Some,
        applier.failed_create->0 > 0,
    ensures
        applier.catalog_watermark() < applier.failed_create->0,
        applier.reached(lsn).failed_create == applier.failed_create,
{
}

/// The catalog's watermark never leads what was applied, and rises with it.
pub proof fn law_watermark_follows(applier: ApplierView, lsn: u64)
    ensures
        applier.catalog_watermark() <= applier.last_applied,
        applier.catalog_watermark() <= applier.reached(lsn).catalog_watermark(),
{
}

/// A new collection that is delivered again is skipped, without a warning, and the
/// registry stays as it is.
pub proof fn law_create_is_idempotent(applier: ApplierView, config: ConfigView, stores: StoresView)
    ensures
        ({
            let after = ApplierView {
                stores: applier.stores.insert(config.id, stores),
                registry: applier.with_config(config),
                ..applier
            };
            after.taken(config) && after.registry.contains(config)
        }),
{
    let pushed = applier.registry.push(config);
    catalog::lemma_by_id_keeps(pushed, config);
    assert(pushed[applier.registry.len() as int] == config);
}

/// The catalog's watermark is what was applied, or the position before the first new
/// collection that could not be made, whichever is less.
pub proof fn law_watermark_is_exact(applier: ApplierView)
    ensures
        applier.failed_create is None ==> applier.catalog_watermark() == applier.last_applied,
        applier.failed_create matches Some(l) ==> {
            let w = applier.catalog_watermark();
            &&& w <= applier.last_applied
            &&& w == applier.last_applied || w + 1 == l || w == 0 && l == 0
        },
{
}

/// Registering a collection adds it to the others and keeps them in the order of their
/// ids.
pub proof fn law_registry_grows_by_one(applier: ApplierView, config: ConfigView)
    ensures
        applier.with_config(config).len() == applier.registry.len() + 1,
        applier.with_config(config).contains(config),
        forall|c: ConfigView|
            applier.registry.contains(c) ==> #[trigger] applier.with_config(config).contains(c),
        forall|c: ConfigView| #[trigger]
            applier.with_config(config).contains(c) ==> c == config || applier.registry.contains(c),
        forall|i: int, j: int|
            0 <= i < j < applier.with_config(config).len() ==> (#[trigger] applier.with_config(
                config,
            )[i]).id <= (#[trigger] applier.with_config(config)[j]).id,
{
    let pushed = applier.registry.push(config);
    catalog::law_by_id_sorts(pushed);
    assert(pushed[applier.registry.len() as int] == config);
    catalog::lemma_by_id_keeps(pushed, config);
    assert forall|c: ConfigView| applier.registry.contains(c) implies #[trigger] applier.with_config(
        config,
    ).contains(c) by {
        catalog::lemma_by_id_keeps(pushed, c);
        let i = choose|i: int| 0 <= i < applier.registry.len() && applier.registry[i] == c;
        assert(pushed[i] == c);
    }
    assert forall|c: ConfigView| #[trigger] applier.with_config(config).contains(c) implies c
        == config || applier.registry.contains(c) by {
        catalog::lemma_by_id_keeps(pushed, c);
        let i = choose|i: int| 0 <= i < pushed.len() && pushed[i] == c;
        if i < applier.registry.len() {
            assert(applier.registry[i] == c);
        }
    }
}

/// Applying a record raises the position that was applied to the record's, unless it is
/// there already, and changes nothing else.
pub proof fn law_reached(applier: ApplierView, lsn: u64)
    ensures
        applier.reached(lsn).last_applied >= lsn,
        applier.reached(lsn).last_applied >= applier.last_applied,
        applier.reached(lsn).last_applied == lsn || applier.reached(lsn).last_applied
            == applier.last_applied,
        applier.reached(lsn).stores == applier.stores,
        applier.reached(lsn).registry == applier.registry,
{
}

/// A collection is there already exactly if its id has stores or its name is registered.
pub proof fn law_taken(applier: ApplierView, config: ConfigView)
    ensures
        applier.taken(config) <==> applier.stores.contains_key(config.id) || exists|i: int|
            0 <= i < applier.registry.len() && (#[trigger] applier.registry[i]).name
                == config.name,
{
}

} // verus!
