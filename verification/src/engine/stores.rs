//! The three stores of one collection, which every record of it goes to.

use vstd::prelude::*;

use crate::engine::record;
use crate::engine::record::{ordinal32, to_io, Fault};
use crate::error::Error;
use crate::index;
use crate::index::FlatView;
use crate::metadata::common;
use crate::metadata::common::{ColumnId, Lsn, Ordinal, Row, ValueView};
use crate::metadata::index::IndexView;
use crate::metadata::tuples;
use crate::metadata::tuples::TupleView;

verus! {

/// The three writers of one collection.
pub struct CollectionWriters {
    flat: crate::index::Writer,
    meta: crate::metadata::index::Writer,
    tuple: crate::metadata::tuples::Writer,
}

/// What the three stores of a collection hold, beside the image of the flat index.
pub struct StoresView {
    /// The flat vector index.
    pub flat: FlatView,
    /// The metadata index.
    pub meta: IndexView,
    /// The tuple store.
    pub tuple: TupleView,
}

/// What a collection holds: the stores and the image of the flat index.
pub struct CollectionView {
    /// The stores.
    pub stores: StoresView,
    /// The image.
    pub image: Seq<u8>,
}

impl View for CollectionWriters {
    type V = StoresView;

    closed spec fn view(&self) -> StoresView {
        StoresView { flat: self.flat@, meta: self.meta@, tuple: self.tuple@ }
    }
}

/// The flat index after log position `lsn` was applied.
pub open spec fn advanced(flat: FlatView, lsn: u64) -> FlatView {
    FlatView {
        last_applied: if lsn > flat.last_applied {
            lsn
        } else {
            flat.last_applied
        },
        ..flat
    }
}

/// The smallest of three log positions.
pub open spec fn least(a: u64, b: u64, c: u64) -> u64 {
    if a <= b && a <= c {
        a
    } else if b <= c {
        b
    } else {
        c
    }
}

fn least_of(a: u64, b: u64, c: u64) -> (m: u64)
    ensures
        m == least(a, b, c),
{
    if a <= b && a <= c {
        a
    } else if b <= c {
        b
    } else {
        c
    }
}

impl StoresView {
    /// The image of the flat index is long enough, and no position within the
    /// capacity is beyond what the count can reach.
    pub open spec fn holds(self, image: Seq<u8>) -> bool {
        self.flat.holds(image)
    }

    /// The log position up to which all three stores are durable.
    pub open spec fn watermark(self) -> u64 {
        least(self.flat.checkpoint_lsn, self.meta.applied, self.tuple.applied)
    }

    /// The stores after log position `lsn` was applied.
    pub open spec fn advanced(self, lsn: u64) -> StoresView {
        StoresView {
            flat: advanced(self.flat, lsn),
            meta: self.meta.advanced(lsn),
            tuple: self.tuple.advanced(lsn),
        }
    }

    /// Why a vector cannot be placed.
    pub open spec fn vector_fault(self, ordinal: u64, vector: Seq<u32>) -> Option<Error> {
        if vector.len() != self.flat.dim {
            Some(
                Error::DimensionMismatch {
                    expected: self.flat.dim as usize,
                    got: vector.len() as usize,
                },
            )
        } else if ordinal >= self.flat.capacity {
            Some(Error::CapacityExceeded { capacity: self.flat.capacity as usize })
        } else {
            None
        }
    }
}

impl CollectionView {
    /// The collection with `vector` placed in the flat index, and nothing else
    /// changed.
    pub open spec fn placed(self, ordinal: u64, vector: Seq<u32>) -> CollectionView {
        let flat = self.stores.flat;
        CollectionView {
            stores: StoresView {
                flat: FlatView {
                    count: if ordinal + 1 > flat.count {
                        ordinal + 1
                    } else {
                        flat.count
                    },
                    ..flat
                },
                ..self.stores
            },
            image: index::spliced(
                self.image,
                index::vector_at(flat.dim, flat.capacity, ordinal as int),
                index::vector_bytes(vector),
            ),
        }
    }

    /// The collection after a row was applied to all three stores.
    pub open spec fn inserted(
        self,
        lsn: u64,
        ordinal: u64,
        vector: Seq<u32>,
        row: Seq<(ColumnId, ValueView)>,
    ) -> CollectionView {
        let placed = self.placed(ordinal, vector);
        CollectionView {
            stores: StoresView {
                flat: placed.stores.flat,
                meta: self.stores.meta.inserted(ordinal as u32, row),
                tuple: self.stores.tuple.written(ordinal as u32, row),
            }.advanced(lsn),
            image: placed.image,
        }
    }

    /// The collection after a row was deleted from all three stores.
    pub open spec fn deleted(self, lsn: u64, ordinal: u64) -> CollectionView {
        CollectionView {
            stores: StoresView {
                flat: self.stores.flat,
                meta: self.stores.meta.removed(ordinal as u32),
                tuple: self.stores.tuple.deleted(ordinal as u32),
            }.advanced(lsn),
            image: index::marked(self.image, ordinal as int),
        }
    }
}

impl CollectionWriters {
    /// Every store is well-formed, and the two metadata stores have one schema.
    pub closed spec fn wf(&self) -> bool {
        &&& self.flat.wf()
        &&& self.meta.wf()
        &&& self.tuple@.fits()
        &&& self.meta@.schema == self.tuple@.schema
    }

    /// What well-formedness says of the view.
    pub proof fn lemma_wf(&self)
        requires
            self.wf(),
        ensures
            0 <= self@.flat.count <= self@.flat.capacity,
            self@.meta.consistent(),
            self@.tuple.fits(),
            self@.meta.schema == self@.tuple.schema,
    {
        self.flat.lemma_wf();
        self.meta.lemma_wf();
    }

    /// Puts the opened stores of a collection together. The second part is the log
    /// position up to which all of them are durable: recovery may skip no record
    /// beyond it.
    pub fn open_collection(
        flat: crate::index::Writer,
        meta: crate::metadata::index::Writer,
        tuple: crate::metadata::tuples::Writer,
    ) -> (r: (CollectionWriters, u64))
        requires
            flat.wf(),
            meta.wf(),
            tuple@.fits(),
            meta@.schema == tuple@.schema,
        ensures
            r.0.wf(),
            r.0@ == (StoresView { flat: flat@, meta: meta@, tuple: tuple@ }),
            r.1 == r.0@.watermark(),
    {
        let lsn: u64 = least_of(flat.checkpoint_lsn(), meta.applied_lsn().0, tuple.applied_lsn().0);
        (CollectionWriters { flat, meta, tuple }, lsn)
    }

    /// The flat vector index.
    pub fn flat(&self) -> (w: &crate::index::Writer)
        requires
            self.wf(),
        ensures
            w.wf(),
            w@ == self@.flat,
    {
        &self.flat
    }

    /// The metadata index.
    pub fn meta(&self) -> (w: &crate::metadata::index::Writer)
        requires
            self.wf(),
        ensures
            w.wf(),
            w@ == self@.meta,
    {
        &self.meta
    }

    /// The tuple store.
    pub fn tuple(&self) -> (w: &crate::metadata::tuples::Writer)
        requires
            self.wf(),
        ensures
            w@.fits(),
            w@ == self@.tuple,
    {
        &self.tuple
    }

    /// Applies a row to all three stores: vector, metadata index, tuple. The log
    /// position is recorded last, and only if every write succeeded. What a failed
    /// row leaves behind is overwritten when the record is applied again.
    pub fn apply_insert(
        &mut self,
        image: &mut [u8],
        lsn: Lsn,
        ordinal: u64,
        vector: &[u32],
        row: &Row,
    ) -> (r: Result<(), Fault>)
        requires
            old(self).wf(),
            old(self)@.holds(old(image)@),
            ordinal != u32::MAX || ordinal >= old(self)@.flat.capacity,
        ensures
            final(self).wf(),
            final(image)@.len() == old(image)@.len(),
            ({
                let before = CollectionView { stores: old(self)@, image: old(image)@ };
                let after = CollectionView { stores: final(self)@, image: final(image)@ };
                let view = common::row_view(row@);
                if ordinal > u32::MAX {
                    &&& r matches Err(fault) && record::is_overflow(fault, ordinal)
                    &&& after == before
                } else {
                    match before.stores.vector_fault(ordinal, vector@) {
                        Some(e) => {
                            &&& r matches Err(fault) && record::stands_for(fault, e)
                            &&& after == before
                        },
                        None => match before.stores.meta.schema.row_fault(view) {
                            Some(e) => {
                                &&& r matches Err(fault) && record::stands_for(fault, e)
                                &&& after == before.placed(ordinal, vector@)
                            },
                            None => {
                                &&& r is Ok
                                &&& after == before.inserted(lsn.0, ordinal, vector@, view)
                            },
                        },
                    }
                }
            }),
    {
        let o: Ordinal = match ordinal32(ordinal) {
            Ok(o) => o,
            Err(fault) => {
                return Err(fault);
            },
        };
        match self.flat.write_at(image, ordinal, vector) {
            Ok(()) => {},
            Err(e) => {
                return Err(to_io(e));
            },
        }
        match self.meta.insert_row(o, row) {
            Ok(()) => {},
            Err(e) => {
                return Err(to_io(e));
            },
        }
        proof {
            let view = common::row_view(row@);
            tuples::law_fits_kept(self.tuple@, o.0, view, lsn.0);
            tuples::law_fits_kept(self.tuple@.written(o.0, view), o.0, view, lsn.0);
        }
        match self.tuple.write_row(o, row) {
            Ok(()) => {},
            Err(e) => {
                return Err(to_io(e));
            },
        }
        self.flat.advance_applied_lsn(lsn.0);
        self.meta.advance_applied_lsn(lsn);
        self.tuple.advance_applied_lsn(lsn);
        Ok(())
    }

    /// Applies a tombstone to all three stores, and records the log position last.
    pub fn apply_delete(&mut self, image: &mut [u8], lsn: Lsn, ordinal: u64) -> (r: Result<
        (),
        Fault,
    >)
        requires
            old(self).wf(),
            old(self)@.holds(old(image)@),
        ensures
            final(self).wf(),
            final(image)@.len() == old(image)@.len(),
            ({
                let before = CollectionView { stores: old(self)@, image: old(image)@ };
                let after = CollectionView { stores: final(self)@, image: final(image)@ };
                if ordinal > u32::MAX {
                    &&& r matches Err(fault) && record::is_overflow(fault, ordinal)
                    &&& after == before
                } else if ordinal >= before.stores.flat.capacity {
                    &&& r matches Err(fault) && record::stands_for(
                        fault,
                        Error::CapacityExceeded {
                            capacity: before.stores.flat.capacity as usize,
                        },
                    )
                    &&& after == before
                } else {
                    &&& r is Ok
                    &&& after == before.deleted(lsn.0, ordinal)
                }
            }),
    {
        let o: Ordinal = match ordinal32(ordinal) {
            Ok(o) => o,
            Err(fault) => {
                return Err(fault);
            },
        };
        match self.flat.delete(image, ordinal) {
            Ok(()) => {},
            Err(e) => {
                return Err(to_io(e));
            },
        }
        match self.meta.remove_row(o) {
            Ok(()) => {},
            Err(e) => {
                return Err(to_io(e));
            },
        }
        proof {
            tuples::law_fits_kept(self.tuple@, o.0, Seq::empty(), lsn.0);
            tuples::law_fits_kept(self.tuple@.deleted(o.0), o.0, Seq::empty(), lsn.0);
        }
        match self.tuple.delete_row(o) {
            Ok(()) => {},
            Err(e) => {
                return Err(to_io(e));
            },
        }
        self.flat.advance_applied_lsn(lsn.0);
        self.meta.advance_applied_lsn(lsn);
        self.tuple.advance_applied_lsn(lsn);
        Ok(())
    }

    /// First half of a checkpoint of the flat index, to be called when its data is
    /// flushed: writes the count and log position, read before that flush, into the
    /// spare header slot, and says which slot to flush next.
    pub fn stage(&mut self, image: &mut [u8], count: u32, lsn: u64) -> (r: Option<
        (usize, u64, u32, u64),
    >)
        requires
            old(self).wf(),
            old(self)@.holds(old(image)@),
            old(self)@.flat.seq < u64::MAX,
        ensures
            final(self).wf(),
            final(self)@ == (StoresView {
                flat: FlatView { staged: None, ..old(self)@.flat },
                ..old(self)@
            }),
            final(image)@ == index::spliced(
                old(image)@,
                index::slot_at(1 - old(self)@.flat.active_slot),
                index::slot_bytes(old(self)@.flat.next_slot(count, lsn)),
            ),
            r matches Some((slot, seq, c, l)) && slot == 1 - old(self)@.flat.active_slot && seq
                == old(self)@.flat.seq + 1 && c == count && l == lsn,
    {
        self.flat.stage_watermark(image, count, lsn);
        self.flat.take_staged()
    }

    /// Second half: the slot was flushed, so it becomes the active one.
    pub fn commit(&mut self, flushed: (usize, u64, u32, u64))
        requires
            old(self).wf(),
            old(self)@.flat.staged is None,
            flushed.0 <= 1,
        ensures
            final(self).wf(),
            final(self)@ == (StoresView {
                flat: FlatView {
                    active_slot: flushed.0 as int,
                    seq: flushed.1,
                    checkpoint_lsn: flushed.3,
                    ..old(self)@.flat
                },
                ..old(self)@
            }),
    {
        self.flat.sync_header(flushed);
    }
}

/// The watermark of a collection is the least of the positions that its three stores are
/// durable up to.
pub proof fn law_watermark_is_the_least(s: StoresView)
    ensures
        s.watermark() <= s.flat.checkpoint_lsn,
        s.watermark() <= s.meta.applied,
        s.watermark() <= s.tuple.applied,
        s.watermark() == s.flat.checkpoint_lsn || s.watermark() == s.meta.applied || s.watermark()
            == s.tuple.applied,
{
}

/// A vector is refused exactly for its length or for a position beyond the capacity.
pub proof fn law_vector_refusal(s: StoresView, ordinal: u64, vector: Seq<u32>)
    ensures
        s.vector_fault(ordinal, vector) is None <==> vector.len() == s.flat.dim && ordinal
            < s.flat.capacity,
        s.vector_fault(ordinal, vector) matches Some(Error::DimensionMismatch { expected, got })
            ==> vector.len() != s.flat.dim && expected == s.flat.dim as usize && got
            == vector.len() as usize,
        s.vector_fault(ordinal, vector) matches Some(Error::CapacityExceeded { capacity })
            ==> ordinal >= s.flat.capacity && capacity == s.flat.capacity as usize,
{
}

} // verus!
