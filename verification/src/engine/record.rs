//! The records of the log, and the faults of applying one.

use vstd::prelude::*;

use crate::error::Error;
use crate::metadata::common;
use crate::metadata::common::{
    CollectionConfig, ColumnId, ConfigView, Ordinal, Row, ValueView,
};
use crate::text;
use crate::text::{join3, numeral};

verus! {

/// One logged mutation. Vectors are compared by their bit patterns: a record is what was
/// logged, to the bit.
#[derive(Debug, PartialEq)]
pub enum Record {
    /// A row, at the position that was reserved for it.
    Insert {
        /// The collection.
        collection: u32,
        /// The position.
        ordinal: u64,
        /// The vector: bit patterns of 32-bit floats.
        vector: Vec<u32>,
        /// The scalar columns.
        metadata: Row,
    },
    /// A tombstone.
    Delete {
        /// The collection.
        collection: u32,
        /// The position.
        ordinal: u64,
    },
    /// A new collection.
    CreateCollection {
        /// Its configuration.
        config: CollectionConfig,
    },
}

/// What a [`Record`] holds.
pub enum RecordView {
    /// A row.
    Insert {
        /// The collection.
        collection: u32,
        /// The position.
        ordinal: u64,
        /// The vector.
        vector: Seq<u32>,
        /// The scalar columns.
        metadata: Seq<(ColumnId, ValueView)>,
    },
    /// A tombstone.
    Delete {
        /// The collection.
        collection: u32,
        /// The position.
        ordinal: u64,
    },
    /// A new collection.
    CreateCollection {
        /// Its configuration.
        config: ConfigView,
    },
}

impl View for Record {
    type V = RecordView;

    open spec fn view(&self) -> RecordView {
        match self {
            Record::Insert { collection, ordinal, vector, metadata } => RecordView::Insert {
                collection: *collection,
                ordinal: *ordinal,
                vector: vector@,
                metadata: common::row_view(metadata@),
            },
            Record::Delete { collection, ordinal } => RecordView::Delete {
                collection: *collection,
                ordinal: *ordinal,
            },
            Record::CreateCollection { config } => RecordView::CreateCollection {
                config: config@,
            },
        }
    }
}

impl RecordView {
    /// The collection that the record is about.
    pub open spec fn collection(self) -> u32 {
        match self {
            RecordView::Insert { collection, .. } => collection,
            RecordView::Delete { collection, .. } => collection,
            RecordView::CreateCollection { config } => config.id,
        }
    }
}

impl Record {
    /// The collection that the record is about.
    pub fn collection(&self) -> (id: u32)
        ensures
            id == self@.collection(),
    {
        match self {
            Record::Insert { collection, .. } => *collection,
            Record::Delete { collection, .. } => *collection,
            Record::CreateCollection { config } => config.id,
        }
    }
}

/// The kinds of a [`Fault`].
#[derive(Debug, Clone, Copy, PartialEq, Eq, Structural)]
pub enum FaultKind {
    /// Something that a record refers to is not there.
    NotFound,
    /// A record that does not fit its collection.
    InvalidData,
    /// A failure of the operating system.
    System,
}

/// Why a record could not be applied, in the log's terms.
#[derive(Debug, PartialEq)]
pub struct Fault {
    /// The kind.
    pub kind: FaultKind,
    /// The text.
    pub message: String,
}

/// The fault that stands for an engine error: a failure of the operating system
/// passes through, anything else is invalid data.
pub open spec fn stands_for(fault: Fault, e: Error) -> bool {
    match e {
        Error::Io(why) => fault.kind == FaultKind::System && fault.message@ == why@,
        _ => fault.kind == FaultKind::InvalidData && fault.message@ == e.message(),
    }
}

/// An engine error in the log's terms.
pub fn to_io(e: Error) -> (fault: Fault)
    ensures
        stands_for(fault, e),
{
    match e {
        Error::Io(why) => Fault { kind: FaultKind::System, message: why },
        other => {
            let message: String = other.to_text();
            Fault { kind: FaultKind::InvalidData, message }
        },
    }
}

/// The fault of an ordinal beyond the metadata ordinals.
pub open spec fn is_overflow(fault: Fault, ordinal: u64) -> bool {
    &&& fault.kind == FaultKind::InvalidData
    &&& fault.message@ == "ordinal "@ + text::decimal(ordinal as nat)
        + " overflows the u32 metadata ordinal space"@
}

/// The metadata ordinal of a logged one. It is never truncated.
pub fn ordinal32(ordinal: u64) -> (r: Result<Ordinal, Fault>)
    ensures
        match r {
            Ok(o) => o.0 == ordinal,
            Err(fault) => ordinal > u32::MAX && is_overflow(fault, ordinal),
        },
{
    if ordinal > 0xffff_ffff {
        return Err(
            Fault {
                kind: FaultKind::InvalidData,
                message: join3(
                    "ordinal ",
                    numeral(ordinal).as_str(),
                    " overflows the u32 metadata ordinal space",
                ),
            },
        );
    }
    Ok(Ordinal(ordinal as u32))
}

/// The fault of a record for a collection that is not there.
pub open spec fn is_unknown(fault: Fault, id: u32) -> bool {
    &&& fault.kind == FaultKind::NotFound
    &&& fault.message@ == "record references unknown collection "@ + text::decimal(id as nat)
}

} // verus!
