//! The flat vector index.
//!
//! The index lives in one file image: two header slots on the first two pages, a
//! tombstone bitset, and the vectors, which start on a page of their own. The
//! functions here read and write such an image in memory; mapping and flushing
//! the file belongs to the caller.
//!
//! A header slot holds magic, version, dimension, count, log position, capacity
//! and a sequence number, sealed by a CRC-32. A checkpoint writes the slot that is
//! not active, so a torn write cannot lose the last one.

use std::cmp::Ordering;
use vstd::bytes::{u32_from_le_bytes, u64_from_le_bytes};
use vstd::prelude::*;
use vstd::slice::slice_subrange;

use crate::checksum;
use crate::checksum::crc32;
use crate::codec;
use crate::codec::{put_u32, put_u64};
use crate::error::{Error, Result};
use crate::float;
use crate::float::{is_nan32, precedes32, SIGN32};
use crate::metadata::common::{Dim, Ordinal};

verus! {

/// The first four bytes of a slot: `FLAT`, least significant byte first.
pub const MAGIC: u32 = 0x5441_4c46;

/// The version of the image format.
pub const VERSION: u32 = 2;

/// The page size that the layout is aligned to.
pub const PAGE: usize = 4096;

/// The bytes of a header slot.
pub const SLOT_BYTES: usize = 64;

/// Where the tombstone bitset starts.
pub const BITSET_OFFSET: usize = 8192;

/// One hit of a search. The score is the bit pattern of a 32-bit float; higher is
/// more similar.
///
/// Hits are compared by their scores alone: they are equal if the scores are, as
/// floats, and ordered by the total order of floats.
#[derive(Debug, Clone, Copy)]
pub struct SearchResult {
    /// The row.
    pub id: Ordinal,
    /// Its score.
    pub score: u32,
}

impl PartialEq for SearchResult {
    fn eq(&self, other: &SearchResult) -> (r: bool) {
        float::is_equal32(self.score, other.score)
    }
}

impl vstd::std_specs::cmp::PartialEqSpecImpl for SearchResult {
    open spec fn obeys_eq_spec() -> bool {
        true
    }

    open spec fn eq_spec(&self, other: &SearchResult) -> bool {
        float::equal32(self.score, other.score)
    }
}

impl Eq for SearchResult {}

impl PartialOrd for SearchResult {
    fn partial_cmp(&self, other: &SearchResult) -> (r: Option<Ordering>) {
        if precedes32(self.score, other.score) {
            Some(Ordering::Less)
        } else if precedes32(other.score, self.score) {
            Some(Ordering::Greater)
        } else {
            Some(Ordering::Equal)
        }
    }
}

impl vstd::std_specs::cmp::PartialOrdSpecImpl for SearchResult {
    open spec fn obeys_partial_cmp_spec() -> bool {
        true
    }

    open spec fn partial_cmp_spec(&self, other: &SearchResult) -> Option<Ordering> {
        if float::rank32(self.score) < float::rank32(other.score) {
            Some(Ordering::Less)
        } else if float::rank32(self.score) > float::rank32(other.score) {
            Some(Ordering::Greater)
        } else {
            Some(Ordering::Equal)
        }
    }
}

/// The contents of one header slot.
#[derive(Debug, Clone, Copy, PartialEq, Eq, Structural)]
pub struct Slot {
    /// Vector dimension.
    pub dim: u32,
    /// High-water mark of written ordinals.
    pub count: u32,
    /// The log position that the image reflects.
    pub last_lsn: u64,
    /// How many vectors fit.
    pub capacity: u64,
    /// Which of two slots is newer.
    pub seq: u64,
}

// ---------------------------------------------------------------------------
// Geometry
// ---------------------------------------------------------------------------

/// `n` divided by `d`, rounded up.
pub open spec fn ceil_div(n: int, d: int) -> int {
    (n + d - 1) / d
}

/// Where the vectors of an image of the given capacity start.
pub open spec fn vectors_at(capacity: int) -> int {
    ceil_div(BITSET_OFFSET + ceil_div(capacity, 8), PAGE as int) * PAGE
}

/// The length of an image.
pub open spec fn image_len(dim: int, capacity: int) -> int {
    vectors_at(capacity) + dim * capacity * 4
}

/// The bytes of the tombstone bitset: one bit per vector.
pub fn bitset_bytes(capacity: usize) -> (n: usize)
    ensures
        n == ceil_div(capacity as int, 8),
{
    if capacity % 8 == 0 {
        capacity / 8
    } else {
        capacity / 8 + 1
    }
}

/// Where the vectors start: the first page border behind the bitset.
pub fn vectors_offset(capacity: usize) -> (n: usize)
    ensures
        n == vectors_at(capacity as int),
        n % 4096 == 0,
        n >= BITSET_OFFSET + ceil_div(capacity as int, 8),
{
    let end: usize = BITSET_OFFSET + bitset_bytes(capacity);
    if end % 4096 == 0 {
        end
    } else {
        (end / 4096 + 1) * 4096
    }
}

/// The length of an image for `capacity` vectors of dimension `dim`, unless it
/// does not fit in `usize`.
pub fn bytes_for(dim: usize, capacity: usize) -> (r: Result<usize>)
    ensures
        image_len(dim as int, capacity as int) <= usize::MAX ==> r == Ok::<usize, Error>(
            image_len(dim as int, capacity as int) as usize,
        ),
        image_len(dim as int, capacity as int) > usize::MAX ==> r == Err::<usize, Error>(
            Error::CapacityOverflow { dim, capacity },
        ),
{
    proof {
        assert(dim * capacity >= 0) by (nonlinear_arith);
    }
    match dim.checked_mul(capacity) {
        Some(cells) => match cells.checked_mul(4) {
            Some(bytes) => match vectors_offset(capacity).checked_add(bytes) {
                Some(n) => Ok(n),
                None => Err(Error::CapacityOverflow { dim, capacity }),
            },
            None => Err(Error::CapacityOverflow { dim, capacity }),
        },
        None => Err(Error::CapacityOverflow { dim, capacity }),
    }
}

/// Where a header slot starts.
pub open spec fn slot_at(slot: int) -> int {
    if slot == 0 {
        0
    } else {
        PAGE as int
    }
}

/// Where a header slot starts: each has a page of its own.
pub fn slot_offset(slot: usize) -> (n: usize)
    ensures
        n == slot_at(slot as int),
{
    if slot == 0 {
        0
    } else {
        PAGE
    }
}

/// Where the vector of `ordinal` starts.
pub open spec fn vector_at(dim: int, capacity: int, ordinal: int) -> int {
    vectors_at(capacity) + ordinal * dim * 4
}

proof fn lemma_vector_bounds(dim: int, capacity: int, ordinal: int)
    requires
        dim >= 1,
        0 <= ordinal < capacity,
    ensures
        vectors_at(capacity) <= vector_at(dim, capacity, ordinal),
        vector_at(dim, capacity, ordinal) + dim * 4 <= image_len(dim, capacity),
{
    assert(ordinal * dim >= 0) by (nonlinear_arith)
        requires
            ordinal >= 0,
            dim >= 1,
    ;
    assert(ordinal * dim + dim <= dim * capacity) by (nonlinear_arith)
        requires
            dim >= 1,
            ordinal + 1 <= capacity,
    ;
}

proof fn lemma_vectors_apart(dim: int, capacity: int, a: int, b: int)
    requires
        dim >= 1,
        0 <= a < b,
    ensures
        vector_at(dim, capacity, a) + dim * 4 <= vector_at(dim, capacity, b),
{
    assert(a * dim + dim <= b * dim) by (nonlinear_arith)
        requires
            dim >= 1,
            a + 1 <= b,
    ;
}

// ---------------------------------------------------------------------------
// Bytes in place
// ---------------------------------------------------------------------------

/// The image with `bytes` in place from `at` on.
pub open spec fn spliced(image: Seq<u8>, at: int, bytes: Seq<u8>) -> Seq<u8> {
    Seq::new(
        image.len(),
        |i: int|
            if at <= i < at + bytes.len() {
                bytes[i - at]
            } else {
                image[i]
            },
    )
}

fn splice(image: &mut [u8], at: usize, bytes: &[u8])
    requires
        at + bytes@.len() <= old(image)@.len(),
    ensures
        final(image)@ == spliced(old(image)@, at as int, bytes@),
{
    let ghost was = image@;
    let len: usize = image.len();
    let mut i: usize = 0;
    while i < bytes.len()
        invariant
            i <= bytes@.len(),
            was.len() == image@.len() == len,
            at + bytes@.len() <= len,
            forall|k: int|
                0 <= k < image@.len() ==> #[trigger] image@[k] == if at <= k < at + i {
                    bytes@[k - at]
                } else {
                    was[k]
                },
        decreases bytes@.len() - i,
    {
        image[at + i] = bytes[i];
        i += 1;
    }
    proof {
        assert(image@ =~= spliced(was, at as int, bytes@));
    }
}

fn read_u32(image: &[u8], offset: usize) -> (x: u32)
    requires
        offset + 4 <= image@.len(),
    ensures
        x == codec::from_le32(image@.subrange(offset as int, offset + 4)),
{
    let len: usize = image.len();
    assert(offset + 4 <= len);
    u32_from_le_bytes(slice_subrange(image, offset, offset + 4))
}

fn read_u64(image: &[u8], offset: usize) -> (x: u64)
    requires
        offset + 8 <= image@.len(),
    ensures
        x == codec::from_le64(image@.subrange(offset as int, offset + 8)),
{
    let len: usize = image.len();
    assert(offset + 8 <= len);
    u64_from_le_bytes(slice_subrange(image, offset, offset + 8))
}

// ---------------------------------------------------------------------------
// Header slots
// ---------------------------------------------------------------------------

/// The sealed fields of a slot: the first 48 bytes.
pub open spec fn slot_fields(s: Slot) -> Seq<u8> {
    codec::le32(MAGIC) + codec::le32(VERSION) + codec::le32(s.dim) + codec::le32(0) + codec::le32(
        s.count,
    ) + codec::le32(0) + codec::le64(s.last_lsn) + codec::le64(s.capacity) + codec::le64(s.seq)
}

/// The bytes of a slot: its fields and their checksum.
pub open spec fn slot_bytes(s: Slot) -> Seq<u8> {
    slot_fields(s) + codec::le32(checksum::crc32_of(slot_fields(s)))
}

/// The slot found at a place in an image, unless it is out of range, of another
/// kind of file or version, or its checksum does not match.
pub open spec fn slot_in(image: Seq<u8>, slot: int) -> Option<Slot> {
    let base = slot_at(slot);
    if base + SLOT_BYTES > image.len() {
        None
    } else if codec::from_le32(image.subrange(base, base + 4)) != MAGIC {
        None
    } else if codec::from_le32(image.subrange(base + 4, base + 8)) != VERSION {
        None
    } else if checksum::crc32_of(image.subrange(base, base + 48)) != codec::from_le32(
        image.subrange(base + 48, base + 52),
    ) {
        None
    } else {
        Some(
            Slot {
                dim: codec::from_le32(image.subrange(base + 8, base + 12)),
                count: codec::from_le32(image.subrange(base + 16, base + 20)),
                last_lsn: codec::from_le64(image.subrange(base + 24, base + 32)),
                capacity: codec::from_le64(image.subrange(base + 32, base + 40)),
                seq: codec::from_le64(image.subrange(base + 40, base + 48)),
            },
        )
    }
}

/// Writes a slot into its place. When one byte of it changes, it is not readable
/// any more.
pub fn write_slot(image: &mut [u8], slot: usize, s: &Slot)
    requires
        slot_at(slot as int) + SLOT_BYTES <= old(image)@.len(),
    ensures
        final(image)@ == spliced(old(image)@, slot_at(slot as int), slot_bytes(*s)),
        slot_bytes(*s).len() == 52,
        forall|b: Seq<u8>|
            checksum::one_byte_apart(slot_bytes(*s), b) ==> slot_in(
                #[trigger] spliced(old(image)@, slot_at(slot as int), b),
                slot as int,
            ) is None,
{
    let mut bytes: Vec<u8> = Vec::new();
    put_u32(&mut bytes, MAGIC);
    put_u32(&mut bytes, VERSION);
    put_u32(&mut bytes, s.dim);
    put_u32(&mut bytes, 0);
    put_u32(&mut bytes, s.count);
    put_u32(&mut bytes, 0);
    put_u64(&mut bytes, s.last_lsn);
    put_u64(&mut bytes, s.capacity);
    put_u64(&mut bytes, s.seq);
    proof {
        assert(bytes@ =~= slot_fields(*s));
        lemma_slot_len(*s);
    }
    let crc: u32 = crc32(bytes.as_slice());
    put_u32(&mut bytes, crc);
    proof {
        let base = slot_at(slot as int);
        assert forall|b: Seq<u8>| checksum::one_byte_apart(slot_bytes(*s), b) implies slot_in(
            #[trigger] spliced(image@, base, b),
            slot as int,
        ) is None by {
            let now = spliced(image@, base, b);
            codec::lemma_le32(crc);
            codec::lemma_change_shows(slot_fields(*s), codec::le32(crc), b);
            assert(now.subrange(base, base + 48) =~= b.take(48));
            assert(now.subrange(base + 48, base + 52) =~= b.skip(48));
        }
    }
    splice(image, slot_offset(slot), bytes.as_slice());
}

/// Reads and checks the slot at its place.
pub fn read_slot(image: &[u8], slot: usize) -> (r: Option<Slot>)
    ensures
        r == slot_in(image@, slot as int),
{
    let base: usize = slot_offset(slot);
    if base + SLOT_BYTES > image.len() {
        return None;
    }
    if read_u32(image, base) != MAGIC {
        return None;
    }
    if read_u32(image, base + 4) != VERSION {
        return None;
    }
    let stored: u32 = read_u32(image, base + 48);
    if crc32(slice_subrange(image, base, base + 48)) != stored {
        return None;
    }
    Some(
        Slot {
            dim: read_u32(image, base + 8),
            count: read_u32(image, base + 16),
            last_lsn: read_u64(image, base + 24),
            capacity: read_u64(image, base + 32),
            seq: read_u64(image, base + 40),
        },
    )
}

proof fn lemma_slot_len(s: Slot)
    ensures
        slot_fields(s).len() == 48,
        slot_bytes(s).len() == 52,
{
    codec::lemma_le32(MAGIC);
    codec::lemma_le32(VERSION);
    codec::lemma_le32(s.dim);
    codec::lemma_le32(0);
    codec::lemma_le32(s.count);
    codec::lemma_le64(s.last_lsn);
    codec::lemma_le64(s.capacity);
    codec::lemma_le64(s.seq);
    codec::lemma_le32(checksum::crc32_of(slot_fields(s)));
}

/// A slot reads back as it was written.
pub proof fn law_slot_round_trip(image: Seq<u8>, slot: int, s: Slot)
    requires
        slot_at(slot) + SLOT_BYTES <= image.len(),
    ensures
        slot_in(spliced(image, slot_at(slot), slot_bytes(s)), slot) == Some(s),
{
    lemma_slot_len(s);
    codec::lemma_le32(MAGIC);
    codec::lemma_le32(VERSION);
    codec::lemma_le32(s.dim);
    codec::lemma_le32(0);
    codec::lemma_le32(s.count);
    codec::lemma_le64(s.last_lsn);
    codec::lemma_le64(s.capacity);
    codec::lemma_le64(s.seq);
    codec::lemma_le32(checksum::crc32_of(slot_fields(s)));
    let base = slot_at(slot);
    let now = spliced(image, base, slot_bytes(s));
    let f = slot_fields(s);
    assert(now.subrange(base, base + 48) =~= f);
    assert(now.subrange(base, base + 4) =~= codec::le32(MAGIC));
    assert(now.subrange(base + 4, base + 8) =~= codec::le32(VERSION));
    assert(now.subrange(base + 8, base + 12) =~= codec::le32(s.dim));
    assert(now.subrange(base + 16, base + 20) =~= codec::le32(s.count));
    assert(now.subrange(base + 24, base + 32) =~= codec::le64(s.last_lsn));
    assert(now.subrange(base + 32, base + 40) =~= codec::le64(s.capacity));
    assert(now.subrange(base + 40, base + 48) =~= codec::le64(s.seq));
    assert(now.subrange(base + 48, base + 52) =~= codec::le32(checksum::crc32_of(f)));
}

/// What a slot reads as depends on its own bytes alone.
pub proof fn lemma_slot_frame(a: Seq<u8>, b: Seq<u8>, slot: int)
    requires
        a.len() == b.len(),
        slot_at(slot) + SLOT_BYTES <= a.len() ==> a.subrange(
            slot_at(slot),
            slot_at(slot) + SLOT_BYTES,
        ) == b.subrange(slot_at(slot), slot_at(slot) + SLOT_BYTES),
    ensures
        slot_in(a, slot) == slot_in(b, slot),
{
    let base = slot_at(slot);
    if base + SLOT_BYTES <= a.len() {
        let sa = a.subrange(base, base + SLOT_BYTES);
        let sb = b.subrange(base, base + SLOT_BYTES);
        assert forall|i: int, j: int| 0 <= i <= j <= SLOT_BYTES implies #[trigger] a.subrange(
            base + i,
            base + j,
        ) == b.subrange(base + i, base + j) by {
            assert(a.subrange(base + i, base + j) =~= sa.subrange(i, j));
            assert(b.subrange(base + i, base + j) =~= sb.subrange(i, j));
        }
        assert(a.subrange(base + 0, base + 4) == b.subrange(base + 0, base + 4));
        assert(a.subrange(base + 0, base + 48) == b.subrange(base + 0, base + 48));
        assert(a.subrange(base + 4, base + 8) == b.subrange(base + 4, base + 8));
        assert(a.subrange(base + 8, base + 12) == b.subrange(base + 8, base + 12));
        assert(a.subrange(base + 16, base + 20) == b.subrange(base + 16, base + 20));
        assert(a.subrange(base + 24, base + 32) == b.subrange(base + 24, base + 32));
        assert(a.subrange(base + 32, base + 40) == b.subrange(base + 32, base + 40));
        assert(a.subrange(base + 40, base + 48) == b.subrange(base + 40, base + 48));
        assert(a.subrange(base + 48, base + 52) == b.subrange(base + 48, base + 52));
    }
}

/// The slot that counts: the newer of the two that can be read, the first on a
/// tie.
pub open spec fn active(image: Seq<u8>) -> Option<(int, Slot)> {
    match (slot_in(image, 0), slot_in(image, 1)) {
        (Some(a), Some(b)) => if b.seq > a.seq {
            Some((1, b))
        } else {
            Some((0, a))
        },
        (Some(a), None) => Some((0, a)),
        (None, Some(b)) => Some((1, b)),
        (None, None) => None,
    }
}

// ---------------------------------------------------------------------------
// The index
// ---------------------------------------------------------------------------

/// What an index keeps beside its image.
pub struct FlatView {
    /// Vector dimension.
    pub dim: int,
    /// How many vectors fit.
    pub capacity: int,
    /// High-water mark of written ordinals.
    pub count: int,
    /// The highest log position applied in memory.
    pub last_applied: u64,
    /// The log position of the active slot.
    pub checkpoint_lsn: u64,
    /// The active slot.
    pub active_slot: int,
    /// The sequence number of the active slot.
    pub seq: u64,
    /// The slot written and not yet active: place, sequence number, count, log
    /// position.
    pub staged: Option<(int, u64, u32, u64)>,
}

impl FlatView {
    /// The image is long enough for every vector.
    pub open spec fn holds(self, image: Seq<u8>) -> bool {
        image.len() >= image_len(self.dim, self.capacity)
    }

    /// The bit patterns of the vector at `ordinal`.
    pub open spec fn vector(self, image: Seq<u8>, ordinal: int) -> Seq<u32> {
        let at = vector_at(self.dim, self.capacity, ordinal);
        Seq::new(
            self.dim as nat,
            |i: int| codec::from_le32(image.subrange(at + 4 * i, at + 4 * i + 4)),
        )
    }

    /// The slot that a checkpoint of the given count and log position writes.
    pub open spec fn next_slot(self, count: u32, last_lsn: u64) -> Slot {
        Slot {
            dim: self.dim as u32,
            count,
            last_lsn,
            capacity: self.capacity as u64,
            seq: (self.seq + 1) as u64,
        }
    }
}

/// Whether `ordinal` has its tombstone bit set.
pub open spec fn deleted_in(image: Seq<u8>, ordinal: int) -> bool {
    (image[BITSET_OFFSET + ordinal / 8] >> ((ordinal % 8) as u8)) & 1u8 == 1u8
}

/// The image with the tombstone bit of `ordinal` set.
pub open spec fn marked(image: Seq<u8>, ordinal: int) -> Seq<u8> {
    let at = BITSET_OFFSET + ordinal / 8;
    image.update(at, image[at] | (1u8 << ((ordinal % 8) as u8)))
}

/// The bytes of a vector: its bit patterns, least significant byte first.
pub open spec fn vector_bytes(vector: Seq<u32>) -> Seq<u8>
    decreases vector.len(),
{
    if vector.len() == 0 {
        Seq::empty()
    } else {
        vector_bytes(vector.drop_last()) + codec::le32(vector.last())
    }
}

/// The index over an image: the single place where either changes.
pub struct Writer {
    dim: Dim,
    capacity: usize,
    count: u32,
    last_applied: u64,
    checkpoint_lsn: u64,
    active_slot: usize,
    seq: u64,
    staged: Option<(usize, u64, u32, u64)>,
}

impl View for Writer {
    type V = FlatView;

    closed spec fn view(&self) -> FlatView {
        FlatView {
            dim: self.dim.spec_get() as int,
            capacity: self.capacity as int,
            count: self.count as int,
            last_applied: self.last_applied,
            checkpoint_lsn: self.checkpoint_lsn,
            active_slot: self.active_slot as int,
            seq: self.seq,
            staged: match self.staged {
                Some((slot, seq, count, lsn)) => Some((slot as int, seq, count, lsn)),
                None => None,
            },
        }
    }
}

/// Namespace of the constructors.
pub struct FlatIndex;

impl FlatIndex {
    /// Writes both header slots of a fresh image for `capacity` vectors. The
    /// image must have the length that [`bytes_for`] gives.
    pub fn create(image: &mut [u8], dim: Dim, capacity: usize) -> (w: Writer)
        requires
            old(image)@.len() >= image_len(dim.spec_get() as int, capacity as int),
        ensures
            w.wf(),
            w@ == (FlatView {
                dim: dim.spec_get() as int,
                capacity: capacity as int,
                count: 0,
                last_applied: 0,
                checkpoint_lsn: 0,
                active_slot: 0,
                seq: 0,
                staged: None,
            }),
            ({
                let s = Slot {
                    dim: dim.spec_get() as u32,
                    count: 0,
                    last_lsn: 0,
                    capacity: capacity as u64,
                    seq: 0,
                };
                final(image)@ == spliced(
                    spliced(old(image)@, 0, slot_bytes(s)),
                    PAGE as int,
                    slot_bytes(s),
                )
            }),
    {
        let d: usize = dim.get();
        proof {
            assert(d * capacity >= 0) by (nonlinear_arith);
        }
        let s = Slot {
            dim: d as u32,
            count: 0,
            last_lsn: 0,
            capacity: capacity as u64,
            seq: 0,
        };
        write_slot(image, 0, &s);
        write_slot(image, 1, &s);
        Writer {
            dim,
            capacity,
            count: 0,
            last_applied: 0,
            checkpoint_lsn: 0,
            active_slot: 0,
            seq: 0,
            staged: None,
        }
    }

    /// Opens an existing image by its newest readable header slot.
    ///
    /// With no readable slot the first fields of the first slot say what is
    /// wrong. A dimension of 0, a length that overflows, and an image shorter
    /// than the slot calls for are errors, in this order. The image must hold the
    /// fields that are looked at: the magic, and behind the right magic the version.
    pub fn open(image: &[u8]) -> (r: Result<Writer>)
        requires
            image@.len() >= 4,
            codec::from_le32(image@.subrange(0, 4)) == MAGIC ==> image@.len() >= 8,
        ensures
            match active(image@) {
                None => {
                    let magic = codec::from_le32(image@.subrange(0, 4));
                    let version = codec::from_le32(image@.subrange(4, 8));
                    r == Err::<Writer, Error>(
                        if magic != MAGIC {
                            Error::BadMagic { got: magic }
                        } else if version != VERSION {
                            Error::UnsupportedVersion { got: version }
                        } else {
                            Error::CorruptHeader
                        },
                    )
                },
                Some((place, s)) => {
                    let capacity = s.capacity as usize;
                    if s.dim == 0 {
                        r == Err::<Writer, Error>(Error::InvalidDimension)
                    } else if image_len(s.dim as int, capacity as int) > usize::MAX {
                        r == Err::<Writer, Error>(
                            Error::CapacityOverflow { dim: s.dim as usize, capacity },
                        )
                    } else if image@.len() < image_len(s.dim as int, capacity as int) {
                        r == Err::<Writer, Error>(Error::CorruptHeader)
                    } else {
                        r matches Ok(w) && w@ == (FlatView {
                            dim: s.dim as int,
                            capacity: capacity as int,
                            count: s.count as int,
                            last_applied: s.last_lsn,
                            checkpoint_lsn: s.last_lsn,
                            active_slot: place,
                            seq: s.seq,
                            staged: None,
                        }) && w.wf() == (s.count <= capacity)
                    }
                },
            },
    {
        let (active_slot, s): (usize, Slot) = match (read_slot(image, 0), read_slot(image, 1)) {
            (Some(a), Some(b)) => {
                if b.seq > a.seq {
                    (1, b)
                } else {
                    (0, a)
                }
            },
            (Some(a), None) => (0, a),
            (None, Some(b)) => (1, b),
            (None, None) => {
                let magic: u32 = read_u32(image, 0);
                if magic != MAGIC {
                    return Err(Error::BadMagic { got: magic });
                }
                let version: u32 = read_u32(image, 4);
                if version != VERSION {
                    return Err(Error::UnsupportedVersion { got: version });
                }
                return Err(Error::CorruptHeader);
            },
        };
        let dim: Dim = match Dim::new(s.dim as usize) {
            Some(dim) => dim,
            None => {
                return Err(Error::InvalidDimension);
            },
        };
        let capacity: usize = s.capacity as usize;
        match bytes_for(s.dim as usize, capacity) {
            Ok(len) => {
                if image.len() < len {
                    return Err(Error::CorruptHeader);
                }
            },
            Err(e) => {
                return Err(e);
            },
        }
        Ok(
            Writer {
                dim,
                capacity,
                count: s.count,
                last_applied: s.last_lsn,
                checkpoint_lsn: s.last_lsn,
                active_slot,
                seq: s.seq,
                staged: None,
            },
        )
    }
}

impl Writer {
    /// The dimension is positive, the count stays within the capacity, and the active
    /// and staged slots are different ones of the two.
    pub closed spec fn wf(&self) -> bool {
        &&& self.dim.spec_get() >= 1
        &&& self.count <= self.capacity
        &&& self.active_slot <= 1
        &&& self.staged matches Some((slot, _, _, _)) ==> slot == 1 - self.active_slot
    }

    /// What well-formedness says of the view.
    pub proof fn lemma_wf(&self)
        requires
            self.wf(),
        ensures
            self@.dim >= 1,
            0 <= self@.count <= self@.capacity <= usize::MAX,
            0 <= self@.active_slot <= 1,
            self@.staged matches Some((slot, _, _, _)) ==> slot == 1 - self@.active_slot,
    {
    }

    /// Whether the index is well-formed, which one opened from a header with a
    /// count beyond the capacity is not.
    pub fn is_sound(&self) -> (r: bool)
        ensures
            r ==> self@.count <= self@.capacity,
            self.wf() ==> r,
    {
        self.count as usize <= self.capacity
    }

    /// The read side of the index.
    pub fn reader(&self) -> (r: Reader<'_>)
        ensures
            r@ == self@,
            r.wf() == self.wf(),
    {
        Reader { inner: self }
    }

    /// Places `vector` at the slot of `ordinal` and raises the high-water mark to
    /// cover it. The ordinal is the position; writing the same again changes
    /// nothing.
    pub fn write_at(&mut self, image: &mut [u8], ordinal: u64, vector: &[u32]) -> (r: Result<()>)
        requires
            old(self).wf(),
            old(self)@.holds(old(image)@),
            ordinal < old(self)@.capacity ==> ordinal < u32::MAX,
        ensures
            final(self).wf(),
            final(image)@.len() == old(image)@.len(),
            if vector@.len() != old(self)@.dim {
                &&& r == Err::<(), Error>(
                    Error::DimensionMismatch {
                        expected: old(self)@.dim as usize,
                        got: vector@.len() as usize,
                    },
                )
                &&& final(self)@ == old(self)@
                &&& final(image)@ == old(image)@
            } else if ordinal >= old(self)@.capacity {
                &&& r == Err::<(), Error>(
                    Error::CapacityExceeded { capacity: old(self)@.capacity as usize },
                )
                &&& final(self)@ == old(self)@
                &&& final(image)@ == old(image)@
            } else {
                &&& r is Ok
                &&& final(self)@ == (FlatView {
                    count: if ordinal + 1 > old(self)@.count {
                        ordinal + 1
                    } else {
                        old(self)@.count
                    },
                    ..old(self)@
                })
                &&& final(image)@ == spliced(
                    old(image)@,
                    vector_at(old(self)@.dim, old(self)@.capacity, ordinal as int),
                    vector_bytes(vector@),
                )
            },
    {
        let dim: usize = self.dim.get();
        if vector.len() != dim {
            return Err(Error::DimensionMismatch { expected: dim, got: vector.len() });
        }
        if ordinal >= self.capacity as u64 {
            return Err(Error::CapacityExceeded { capacity: self.capacity });
        }
        let o: usize = ordinal as usize;
        proof {
            lemma_vector_bounds(dim as int, self.capacity as int, o as int);
            assert(o * dim >= 0) by (nonlinear_arith);
        }
        let bytes: Vec<u8> = bytes_of_vector(vector);
        let len: usize = image.len();
        let offset: usize = vectors_offset(self.capacity) + o * dim * 4;
        splice(image, offset, bytes.as_slice());
        let mark: u32 = ordinal as u32 + 1;
        if mark > self.count {
            self.count = mark;
        }
        Ok(())
    }

    /// Appends `vector` at the high-water mark.
    pub fn insert(&mut self, image: &mut [u8], vector: &[u32]) -> (r: Result<Ordinal>)
        requires
            old(self).wf(),
            old(self)@.holds(old(image)@),
            old(self)@.count < old(self)@.capacity ==> old(self)@.count < u32::MAX,
        ensures
            final(self).wf(),
            final(image)@.len() == old(image)@.len(),
            if vector@.len() != old(self)@.dim {
                &&& r == Err::<Ordinal, Error>(
                    Error::DimensionMismatch {
                        expected: old(self)@.dim as usize,
                        got: vector@.len() as usize,
                    },
                )
                &&& final(self)@ == old(self)@
                &&& final(image)@ == old(image)@
            } else if old(self)@.count >= old(self)@.capacity {
                &&& r == Err::<Ordinal, Error>(
                    Error::CapacityExceeded { capacity: old(self)@.capacity as usize },
                )
                &&& final(self)@ == old(self)@
                &&& final(image)@ == old(image)@
            } else {
                &&& r == Ok::<Ordinal, Error>(Ordinal(old(self)@.count as u32))
                &&& final(self)@ == (FlatView { count: old(self)@.count + 1, ..old(self)@ })
                &&& final(image)@ == spliced(
                    old(image)@,
                    vector_at(old(self)@.dim, old(self)@.capacity, old(self)@.count),
                    vector_bytes(vector@),
                )
            },
    {
        let ordinal: u64 = self.count as u64;
        match self.write_at(image, ordinal, vector) {
            Ok(()) => Ok(Ordinal(ordinal as u32)),
            Err(e) => Err(e),
        }
    }

    /// Tombstones `ordinal`. One that is tombstoned already stays so.
    pub fn delete(&mut self, image: &mut [u8], ordinal: u64) -> (r: Result<()>)
        requires
            old(self).wf(),
            old(self)@.holds(old(image)@),
        ensures
            *final(self) == *old(self),
            final(image)@.len() == old(image)@.len(),
            if ordinal >= old(self)@.capacity {
                &&& r == Err::<(), Error>(
                    Error::CapacityExceeded { capacity: old(self)@.capacity as usize },
                )
                &&& final(image)@ == old(image)@
            } else {
                &&& r is Ok
                &&& final(image)@ == marked(old(image)@, ordinal as int)
            },
    {
        self.mark(image, ordinal)
    }

    fn mark(&self, image: &mut [u8], ordinal: u64) -> (r: Result<()>)
        requires
            self.wf(),
            self@.holds(old(image)@),
        ensures
            final(image)@.len() == old(image)@.len(),
            if ordinal >= self@.capacity {
                &&& r == Err::<(), Error>(
                    Error::CapacityExceeded { capacity: self@.capacity as usize },
                )
                &&& final(image)@ == old(image)@
            } else {
                &&& r is Ok
                &&& final(image)@ == marked(old(image)@, ordinal as int)
            },
    {
        if ordinal >= self.capacity as u64 {
            return Err(Error::CapacityExceeded { capacity: self.capacity });
        }
        let dim: usize = self.dim.get();
        let ghost cap = self.capacity as int;
        proof {
            assert(dim * cap >= 0) by (nonlinear_arith)
                requires
                    dim >= 0,
                    cap >= 0,
            ;
        }
        let o: usize = ordinal as usize;
        let at: usize = BITSET_OFFSET + o / 8;
        let bit: u8 = (o % 8) as u8;
        image[at] = image[at] | (1u8 << bit);
        Ok(())
    }

    /// Records that the log was applied up to `lsn`. The mark never goes back.
    pub fn advance_applied_lsn(&mut self, lsn: u64)
        ensures
            final(self).wf() == old(self).wf(),
            final(self)@ == (FlatView {
                last_applied: if lsn > old(self)@.last_applied {
                    lsn
                } else {
                    old(self)@.last_applied
                },
                ..old(self)@
            }),
    {
        if lsn > self.last_applied {
            self.last_applied = lsn;
        }
    }

    /// The log position of the active slot.
    pub fn checkpoint_lsn(&self) -> (lsn: u64)
        ensures
            lsn == self@.checkpoint_lsn,
    {
        self.checkpoint_lsn
    }

    /// The high-water mark.
    pub fn len(&self) -> (n: usize)
        ensures
            n == self@.count,
    {
        self.count as usize
    }

    /// Whether nothing was written.
    pub fn is_empty(&self) -> (r: bool)
        ensures
            r == (self@.count == 0),
    {
        self.count == 0
    }

    /// The capacity.
    pub fn capacity(&self) -> (n: usize)
        ensures
            n == self@.capacity,
    {
        self.capacity
    }

    /// The dimension.
    pub fn dim(&self) -> (n: usize)
        ensures
            n == self@.dim,
            n >= 1,
    {
        self.dim.get()
    }

    /// The sequence number of the active slot.
    pub fn seq(&self) -> (n: u64)
        ensures
            n == self@.seq,
    {
        self.seq
    }

    /// The count and log position to checkpoint, read before the data is flushed.
    pub fn begin_checkpoint(&self) -> (r: (u32, u64))
        ensures
            r.0 == self@.count,
            r.1 == self@.last_applied,
    {
        (self.count, self.last_applied)
    }

    /// Writes the checkpoint into the slot that is not active. Nothing else in
    /// the image changes, and the old slot stays active.
    pub fn stage_watermark(&mut self, image: &mut [u8], count: u32, last_lsn: u64)
        requires
            old(self).wf(),
            old(self)@.holds(old(image)@),
            old(self)@.seq < u64::MAX,
        ensures
            final(self).wf(),
            final(self)@ == (FlatView {
                staged: Some(
                    (1 - old(self)@.active_slot, (old(self)@.seq + 1) as u64, count, last_lsn),
                ),
                ..old(self)@
            }),
            final(image)@ == spliced(
                old(image)@,
                slot_at(1 - old(self)@.active_slot),
                slot_bytes(old(self)@.next_slot(count, last_lsn)),
            ),
    {
        let dim: usize = self.dim.get();
        let ghost cap = self.capacity as int;
        proof {
            assert(dim * cap >= 0) by (nonlinear_arith)
                requires
                    dim >= 0,
                    cap >= 0,
            ;
        }
        let target: usize = 1 - self.active_slot;
        let seq: u64 = self.seq + 1;
        let s = Slot { dim: dim as u32, count, last_lsn, capacity: self.capacity as u64, seq };
        write_slot(image, target, &s);
        self.staged = Some((target, seq, count, last_lsn));
    }

    /// Takes the staged slot's place, to be flushed; nothing if none is staged.
    pub fn take_staged(&mut self) -> (r: Option<(usize, u64, u32, u64)>)
        ensures
            old(self).wf() ==> final(self).wf(),
            final(self)@ == (FlatView { staged: None, ..old(self)@ }),
            match r {
                Some((slot, seq, count, lsn)) => old(self)@.staged == Some(
                    (slot as int, seq, count, lsn),
                ),
                None => old(self)@.staged is None,
            },
    {
        let r = self.staged;
        self.staged = None;
        r
    }

    /// Makes a flushed slot the active one. From here on its log position is
    /// durable.
    pub fn sync_header(&mut self, flushed: (usize, u64, u32, u64))
        requires
            old(self).wf(),
            old(self)@.staged is None,
            flushed.0 <= 1,
        ensures
            final(self).wf(),
            final(self)@ == (FlatView {
                active_slot: flushed.0 as int,
                seq: flushed.1,
                checkpoint_lsn: flushed.3,
                ..old(self)@
            }),
    {
        self.active_slot = flushed.0;
        self.seq = flushed.1;
        self.checkpoint_lsn = flushed.3;
    }
}

fn bytes_of_vector(vector: &[u32]) -> (bytes: Vec<u8>)
    ensures
        bytes@ == vector_bytes(vector@),
        bytes@.len() == vector@.len() * 4,
{
    let mut bytes: Vec<u8> = Vec::new();
    let mut i: usize = 0;
    while i < vector.len()
        invariant
            i <= vector@.len(),
            bytes@ == vector_bytes(vector@.take(i as int)),
            bytes@.len() == i * 4,
        decreases vector@.len() - i,
    {
        put_u32(&mut bytes, vector[i]);
        proof {
            codec::lemma_le32(vector@[i as int]);
            assert(vector@.take(i + 1).drop_last() =~= vector@.take(i as int));
        }
        i += 1;
    }
    proof {
        assert(vector@.take(i as int) =~= vector@);
    }
    bytes
}

/// The read side of the index.
#[derive(Clone, Copy)]
pub struct Reader<'a> {
    inner: &'a Writer,
}

impl<'a> View for Reader<'a> {
    type V = FlatView;

    closed spec fn view(&self) -> FlatView {
        self.inner@
    }
}

/// Whether score `a` is greater than score `b` as numbers: never when either is a
/// NaN, and the two zeroes are equal.
pub open spec fn greater(a: u32, b: u32) -> bool {
    !float::nan32(a) && !float::nan32(b) && number(a) > number(b)
}

/// The place of a score among numbers: its rank, with both zeroes at 0.
pub open spec fn number(bits: u32) -> int {
    if bits == SIGN32 {
        0
    } else {
        float::rank32(bits)
    }
}

fn is_greater(a: u32, b: u32) -> (r: bool)
    ensures
        r == greater(a, b),
{
    if is_nan32(a) || is_nan32(b) {
        return false;
    }
    let x: u32 = if a == SIGN32 {
        0
    } else {
        a
    };
    let y: u32 = if b == SIGN32 {
        0
    } else {
        b
    };
    precedes32(y, x)
}

/// How many of the first `n` ordinals are not tombstoned.
pub open spec fn candidates(image: Seq<u8>, n: nat) -> nat
    decreases n,
{
    if n == 0 {
        0
    } else {
        candidates(image, (n - 1) as nat) + if deleted_in(image, n - 1) {
            0nat
        } else {
            1
        }
    }
}

/// Whether a row is among the hits.
pub open spec fn chosen(hits: Seq<SearchResult>, id: int) -> bool {
    exists|i: int| 0 <= i < hits.len() && (#[trigger] hits[i]).id.0 == id
}

/// The hits are different ordinals below `n` that are not tombstoned, each with
/// its score, best first in the total order of scores; as many as there are, up
/// to `k`; and a row left out is no better than the last hit, unless one of the
/// two scores is a NaN.
pub open spec fn is_top(
    image: Seq<u8>,
    scores: Seq<u32>,
    n: nat,
    k: int,
    hits: Seq<SearchResult>,
) -> bool {
    &&& hits.len() == if candidates(image, n) <= k {
        candidates(image, n) as int
    } else {
        k
    }
    &&& forall|i: int|
        0 <= i < hits.len() ==> {
            let h = #[trigger] hits[i];
            &&& h.id.0 < n
            &&& !deleted_in(image, h.id.0 as int)
            &&& h.score == scores[h.id.0 as int]
        }
    &&& forall|i: int, j: int|
        0 <= i < j < hits.len() ==> (#[trigger] hits[i]).id != (#[trigger] hits[j]).id
            && float::rank32(hits[i].score) >= float::rank32(hits[j].score)
    &&& forall|id: int|
        0 <= id < n && !deleted_in(image, id) && !#[trigger] chosen(hits, id) ==> {
            ||| float::nan32(scores[id])
            ||| float::nan32(hits.last().score)
            ||| number(scores[id]) <= number(hits.last().score)
        }
}

/// The scores of a run of hits.
pub open spec fn score_run(hits: Seq<SearchResult>) -> Seq<u32> {
    hits.map_values(|h: SearchResult| h.score)
}

/// Where a score goes in a run from best to worst: behind every one that is at
/// least as good.
pub open spec fn score_seat(run: Seq<u32>, score: u32) -> int
    decreases run.len(),
{
    if run.len() == 0 {
        0
    } else if float::rank32(run.last()) >= float::rank32(score) {
        run.len() as int
    } else {
        score_seat(run.drop_last(), score)
    }
}

/// The scores of the best `k` of the first `n` rows that are not tombstoned, from
/// best to worst. Once there are `k`, a row comes in only by a score that is greater
/// as a number than the last one, which goes. So a NaN that is last stays, and one
/// that comes later never comes in.
pub open spec fn top_scores(image: Seq<u8>, scores: Seq<u32>, n: nat, k: int) -> Seq<u32>
    decreases n,
{
    if n == 0 {
        Seq::empty()
    } else {
        let before = top_scores(image, scores, (n - 1) as nat, k);
        let score = scores[n - 1];
        if deleted_in(image, n - 1) {
            before
        } else if before.len() < k {
            before.insert(score_seat(before, score), score)
        } else if greater(score, before.last()) {
            before.drop_last().insert(score_seat(before.drop_last(), score), score)
        } else {
            before
        }
    }
}

impl<'a> Reader<'a> {
    /// The index read is well-formed.
    pub closed spec fn wf(&self) -> bool {
        self.inner.wf()
    }

    /// How many vectors are committed.
    pub fn len(&self) -> (n: usize)
        ensures
            n == self@.count,
    {
        self.inner.len()
    }

    /// Whether no vector is committed.
    pub fn is_empty(&self) -> (r: bool)
        ensures
            r == (self@.count == 0),
    {
        self.inner.is_empty()
    }

    /// Tombstones an ordinal that was never committed.
    pub fn tombstone_uncommitted(&self, image: &mut [u8], ordinal: u64) -> (r: Result<()>)
        requires
            self.wf(),
            self@.holds(old(image)@),
        ensures
            final(image)@.len() == old(image)@.len(),
            if ordinal >= self@.capacity {
                &&& r == Err::<(), Error>(
                    Error::CapacityExceeded { capacity: self@.capacity as usize },
                )
                &&& final(image)@ == old(image)@
            } else {
                &&& r is Ok
                &&& final(image)@ == marked(old(image)@, ordinal as int)
            },
    {
        self.inner.mark(image, ordinal)
    }

    /// Whether `ordinal` is tombstoned.
    pub fn is_deleted(&self, image: &[u8], ordinal: usize) -> (r: bool)
        requires
            self.wf(),
            self@.holds(image@),
            ordinal < self@.capacity,
        ensures
            r == deleted_in(image@, ordinal as int),
    {
        let dim: usize = self.inner.dim.get();
        let ghost cap = self.inner.capacity as int;
        proof {
            assert(dim * cap >= 0) by (nonlinear_arith)
                requires
                    dim >= 0,
                    cap >= 0,
            ;
        }
        let byte: u8 = image[BITSET_OFFSET + ordinal / 8];
        let bit: u8 = (ordinal % 8) as u8;
        (byte >> bit) & 1u8 == 1u8
    }

    /// The bit patterns of the vector at `ordinal`.
    pub fn vector(&self, image: &[u8], ordinal: usize) -> (v: Vec<u32>)
        requires
            self.wf(),
            self@.holds(image@),
            ordinal < self@.capacity,
        ensures
            v@ == self@.vector(image@, ordinal as int),
    {
        let dim: usize = self.inner.dim.get();
        let capacity: usize = self.inner.capacity;
        proof {
            lemma_vector_bounds(dim as int, capacity as int, ordinal as int);
            assert(ordinal * dim >= 0) by (nonlinear_arith);
        }
        let len: usize = image.len();
        let at: usize = vectors_offset(capacity) + ordinal * dim * 4;
        let mut v: Vec<u32> = Vec::new();
        let mut i: usize = 0;
        while i < dim
            invariant
                i <= dim,
                dim == self@.dim,
                at == vector_at(dim as int, self@.capacity, ordinal as int),
                at + dim * 4 <= image@.len() <= usize::MAX,
                v@.len() == i,
                forall|k: int|
                    0 <= k < i ==> #[trigger] v@[k] == codec::from_le32(
                        image@.subrange(at + 4 * k, at + 4 * k + 4),
                    ),
            decreases dim - i,
        {
            v.push(read_u32(image, at + 4 * i));
            i += 1;
        }
        proof {
            assert(v@ =~= self@.vector(image@, ordinal as int));
        }
        v
    }

    /// Whether a search for the best `k` rows by a query of `query_len` numbers
    /// can run.
    pub fn check_search(&self, query_len: usize, k: usize) -> (r: Result<()>)
        ensures
            if query_len != self@.dim {
                r == Err::<(), Error>(
                    Error::DimensionMismatch { expected: self@.dim as usize, got: query_len },
                )
            } else if k == 0 {
                r == Err::<(), Error>(Error::InvalidTopK { k })
            } else {
                r is Ok
            },
    {
        let dim: usize = self.inner.dim.get();
        if query_len != dim {
            return Err(Error::DimensionMismatch { expected: dim, got: query_len });
        }
        if k == 0 {
            return Err(Error::InvalidTopK { k });
        }
        Ok(())
    }

    /// The best `k` committed rows that are not tombstoned, best first, where
    /// `scores` holds the score of every committed row for the query.
    pub fn search(&self, image: &[u8], query_len: usize, k: usize, scores: &[u32]) -> (r: Result<
        Vec<SearchResult>,
    >)
        requires
            self.wf(),
            self@.holds(image@),
            scores@.len() >= self@.count,
        ensures
            if query_len != self@.dim {
                r == Err::<Vec<SearchResult>, Error>(
                    Error::DimensionMismatch { expected: self@.dim as usize, got: query_len },
                )
            } else if k == 0 {
                r == Err::<Vec<SearchResult>, Error>(Error::InvalidTopK { k })
            } else {
                r matches Ok(hits) && is_top(
                    image@,
                    scores@,
                    self@.count as nat,
                    k as int,
                    hits@,
                ) && score_run(hits@) == top_scores(image@, scores@, self@.count as nat, k as int)
            },
    {
        match self.check_search(query_len, k) {
            Ok(()) => {},
            Err(e) => {
                return Err(e);
            },
        }
        proof {
            self.inner.lemma_wf();
        }
        let n: usize = self.inner.count as usize;
        let mut hits: Vec<SearchResult> = Vec::new();
        let mut id: usize = 0;
        proof {
            assert(score_run(hits@) =~= Seq::<u32>::empty());
        }
        while id < n
            invariant
                id <= n,
                n == self@.count,
                n <= u32::MAX,
                n <= self@.capacity,
                self.wf(),
                self@.holds(image@),
                scores@.len() >= n,
                k > 0,
                is_top(image@, scores@, id as nat, k as int, hits@),
                score_run(hits@) == top_scores(image@, scores@, id as nat, k as int),
            decreases n - id,
        {
            let ghost run = score_run(hits@);
            let gone: bool = self.is_deleted(image, id);
            if gone {
                proof {
                    lemma_skip(image@, scores@, id as nat, k as int, hits@);
                }
            } else {
                let hit = SearchResult { id: Ordinal(id as u32), score: scores[id] };
                if hits.len() < k {
                    let at: usize = place(&hits, hit.score);
                    proof {
                        lemma_grow(image@, scores@, id as nat, k as int, hits@, hit, at as int);
                    }
                    hits.insert(at, hit);
                    proof {
                        assert(score_run(hits@) =~= run.insert(at as int, hit.score));
                    }
                } else {
                    let last: usize = hits.len() - 1;
                    assert(run.last() == hits@[last as int].score);
                    if is_greater(hit.score, hits[last].score) {
                        let ghost full = hits@;
                        hits.pop();
                        proof {
                            assert(hits@ =~= full.drop_last());
                            assert(score_run(hits@) =~= run.drop_last());
                            lemma_drop_sorted(full);
                        }
                        let at: usize = place(&hits, hit.score);
                        proof {
                            lemma_swap(
                                image@,
                                scores@,
                                id as nat,
                                k as int,
                                full,
                                hit,
                                at as int,
                            );
                        }
                        hits.insert(at, hit);
                        proof {
                            assert(score_run(hits@) =~= run.drop_last().insert(
                                at as int,
                                hit.score,
                            ));
                        }
                    } else {
                        proof {
                            lemma_reject(image@, scores@, id as nat, k as int, hits@);
                        }
                    }
                }
            }
            id += 1;
        }
        Ok(hits)
    }
}

/// Hits from best to worst in the total order of scores.
pub open spec fn best_first(hits: Seq<SearchResult>) -> bool {
    forall|i: int, j: int|
        0 <= i < j < hits.len() ==> float::rank32((#[trigger] hits[i]).score) >= float::rank32(
            (#[trigger] hits[j]).score,
        )
}

/// Where a hit of the given score goes: behind every hit that is at least as
/// good.
fn place(hits: &Vec<SearchResult>, score: u32) -> (at: usize)
    requires
        best_first(hits@),
    ensures
        at <= hits@.len(),
        at == score_seat(score_run(hits@), score),
        forall|i: int|
            0 <= i < at ==> float::rank32((#[trigger] hits@[i]).score) >= float::rank32(score),
        forall|i: int|
            at <= i < hits@.len() ==> float::rank32((#[trigger] hits@[i]).score) < float::rank32(
                score,
            ),
{
    let ghost run = score_run(hits@);
    let mut at: usize = hits.len();
    proof {
        assert(run.take(run.len() as int) =~= run);
    }
    while at > 0 && precedes32(hits[at - 1].score, score)
        invariant
            at <= hits@.len(),
            best_first(hits@),
            run == score_run(hits@),
            score_seat(run, score) == score_seat(run.take(at as int), score),
            forall|i: int|
                at <= i < hits@.len() ==> float::rank32((#[trigger] hits@[i]).score)
                    < float::rank32(score),
        decreases at,
    {
        proof {
            assert(run.take(at as int).drop_last() =~= run.take(at - 1));
        }
        at -= 1;
    }
    proof {
        assert forall|i: int| 0 <= i < at implies float::rank32((#[trigger] hits@[i]).score)
            >= float::rank32(score) by {
            if i < at - 1 {
                assert(float::rank32(hits@[i].score) >= float::rank32(hits@[at - 1].score));
            }
        }
    }
    at
}

proof fn lemma_drop_sorted(hits: Seq<SearchResult>)
    requires
        hits.len() > 0,
        forall|i: int, j: int|
            0 <= i < j < hits.len() ==> (#[trigger] hits[i]).id != (#[trigger] hits[j]).id
                && float::rank32(hits[i].score) >= float::rank32(hits[j].score),
    ensures
        best_first(hits.drop_last()),
{
    let d = hits.drop_last();
    assert forall|i: int, j: int| 0 <= i < j < d.len() implies float::rank32(
        (#[trigger] d[i]).score,
    ) >= float::rank32((#[trigger] d[j]).score) by {
        assert(hits[i].id != hits[j].id);
    }
}

proof fn lemma_skip(
    image: Seq<u8>,
    scores: Seq<u32>,
    n: nat,
    k: int,
    hits: Seq<SearchResult>,
)
    requires
        is_top(image, scores, n, k, hits),
        deleted_in(image, n as int),
    ensures
        is_top(image, scores, n + 1, k, hits),
{
    assert forall|id: int| 0 <= id < n + 1 && !deleted_in(image, id) && !#[trigger] chosen(
        hits,
        id,
    ) implies {
        ||| float::nan32(scores[id])
        ||| float::nan32(hits.last().score)
        ||| number(scores[id]) <= number(hits.last().score)
    } by {}
}

proof fn lemma_reject(
    image: Seq<u8>,
    scores: Seq<u32>,
    n: nat,
    k: int,
    hits: Seq<SearchResult>,
)
    requires
        is_top(image, scores, n, k, hits),
        !deleted_in(image, n as int),
        hits.len() >= k,
        !greater(scores[n as int], hits.last().score),
    ensures
        is_top(image, scores, n + 1, k, hits),
{
}

/// One more hit put in its place.
proof fn lemma_grow(
    image: Seq<u8>,
    scores: Seq<u32>,
    n: nat,
    k: int,
    hits: Seq<SearchResult>,
    hit: SearchResult,
    at: int,
)
    requires
        is_top(image, scores, n, k, hits),
        !deleted_in(image, n as int),
        hits.len() < k,
        n <= u32::MAX,
        hit.id.0 == n,
        hit.score == scores[n as int],
        0 <= at <= hits.len(),
        forall|i: int|
            0 <= i < at ==> float::rank32((#[trigger] hits[i]).score) >= float::rank32(hit.score),
        forall|i: int|
            at <= i < hits.len() ==> float::rank32((#[trigger] hits[i]).score) < float::rank32(
                hit.score,
            ),
    ensures
        is_top(image, scores, n + 1, k, hits.insert(at, hit)),
{
    let now = hits.insert(at, hit);
    lemma_inserted(image, scores, n, hits, hit, at);
    assert forall|id: int| 0 <= id < n + 1 && !deleted_in(image, id) implies #[trigger] chosen(
        now,
        id,
    ) by {
        if id == n {
            assert(now[at].id.0 == id);
        } else {
            lemma_all_chosen(image, scores, n, k, hits, id);
            let i = choose|i: int| 0 <= i < hits.len() && (#[trigger] hits[i]).id.0 == id;
            if i < at {
                assert(now[i].id.0 == id);
            } else {
                assert(now[i + 1].id.0 == id);
            }
        }
    }
}

/// The fields and order of the hits after one more was put in its place.
proof fn lemma_inserted(
    image: Seq<u8>,
    scores: Seq<u32>,
    n: nat,
    hits: Seq<SearchResult>,
    hit: SearchResult,
    at: int,
)
    requires
        !deleted_in(image, n as int),
        n <= u32::MAX,
        hit.id.0 == n,
        hit.score == scores[n as int],
        0 <= at <= hits.len(),
        forall|i: int|
            0 <= i < at ==> float::rank32((#[trigger] hits[i]).score) >= float::rank32(hit.score),
        forall|i: int|
            at <= i < hits.len() ==> float::rank32((#[trigger] hits[i]).score) < float::rank32(
                hit.score,
            ),
        forall|i: int|
            0 <= i < hits.len() ==> {
                let h = #[trigger] hits[i];
                &&& h.id.0 < n
                &&& !deleted_in(image, h.id.0 as int)
                &&& h.score == scores[h.id.0 as int]
            },
        forall|i: int, j: int|
            0 <= i < j < hits.len() ==> (#[trigger] hits[i]).id != (#[trigger] hits[j]).id
                && float::rank32(hits[i].score) >= float::rank32(hits[j].score),
    ensures
        ({
            let now = hits.insert(at, hit);
            &&& forall|i: int|
                0 <= i < now.len() ==> {
                    let h = #[trigger] now[i];
                    &&& h.id.0 < n + 1
                    &&& !deleted_in(image, h.id.0 as int)
                    &&& h.score == scores[h.id.0 as int]
                }
            &&& forall|i: int, j: int|
                0 <= i < j < now.len() ==> (#[trigger] now[i]).id != (#[trigger] now[j]).id
                    && float::rank32(now[i].score) >= float::rank32(now[j].score)
        }),
{
    let now = hits.insert(at, hit);
    assert forall|i: int| 0 <= i < now.len() implies {
        let h = #[trigger] now[i];
        &&& h.id.0 < n + 1
        &&& !deleted_in(image, h.id.0 as int)
        &&& h.score == scores[h.id.0 as int]
    } by {
        if i < at {
            assert(now[i] == hits[i]);
        } else if i > at {
            assert(now[i] == hits[i - 1]);
        }
    }
    assert forall|i: int, j: int| 0 <= i < j < now.len() implies (#[trigger] now[i]).id != (
    #[trigger] now[j]).id && float::rank32(now[i].score) >= float::rank32(now[j].score) by {
        let a = if i < at { i } else { i - 1 };
        let b = if j < at { j } else { j - 1 };
        if i != at {
            assert(now[i] == hits[a]);
        }
        if j != at {
            assert(now[j] == hits[b]);
        }
        if i != at && j != at {
            assert(hits[a].id != hits[b].id);
        }
    }
}

/// While there is room, every candidate is a hit.
proof fn lemma_all_chosen(
    image: Seq<u8>,
    scores: Seq<u32>,
    n: nat,
    k: int,
    hits: Seq<SearchResult>,
    id: int,
)
    requires
        is_top(image, scores, n, k, hits),
        hits.len() < k,
        0 <= id < n,
        !deleted_in(image, id),
    ensures
        chosen(hits, id),
{
    if !chosen(hits, id) {
        lemma_count_bound(image, n, hits, id);
    }
}

/// Hits that are different candidates below `n`, and not `id`, are fewer than the
/// candidates below `n`.
proof fn lemma_count_bound(image: Seq<u8>, n: nat, hits: Seq<SearchResult>, id: int)
    requires
        0 <= id < n,
        !deleted_in(image, id),
        !chosen(hits, id),
        forall|i: int|
            0 <= i < hits.len() ==> (#[trigger] hits[i]).id.0 < n && !deleted_in(
                image,
                hits[i].id.0 as int,
            ),
        forall|i: int, j: int|
            0 <= i < j < hits.len() ==> (#[trigger] hits[i]).id != (#[trigger] hits[j]).id,
    ensures
        hits.len() < candidates(image, n),
{
    let ids = Seq::new(hits.len(), |i: int| hits[i].id.0 as int);
    assert(ids.no_duplicates()) by {
        assert forall|i: int, j: int| 0 <= i < ids.len() && 0 <= j < ids.len() && i != j implies ids[i]
            != ids[j] by {
            if i < j {
                assert(hits[i].id != hits[j].id);
            } else {
                assert(hits[j].id != hits[i].id);
            }
        }
    }
    ids.unique_seq_to_set();
    let all = Set::new(|x: int| 0 <= x < n && !deleted_in(image, x));
    lemma_candidates_len(image, n);
    assert(ids.to_set().subset_of(all.remove(id))) by {
        assert forall|x: int| ids.to_set().contains(x) implies all.remove(id).contains(x) by {
            let i = choose|i: int| 0 <= i < ids.len() && ids[i] == x;
            assert(hits[i].id.0 == x);
        }
    }
    vstd::set_lib::lemma_len_subset(ids.to_set(), all.remove(id));
}

proof fn lemma_candidates_len(image: Seq<u8>, n: nat)
    ensures
        Set::new(|x: int| 0 <= x < n && !deleted_in(image, x)).finite(),
        Set::new(|x: int| 0 <= x < n && !deleted_in(image, x)).len() == candidates(image, n),
    decreases n,
{
    let now = Set::new(|x: int| 0 <= x < n && !deleted_in(image, x));
    if n == 0 {
        assert(now =~= Set::<int>::empty());
    } else {
        let m = (n - 1) as nat;
        lemma_candidates_len(image, m);
        let before = Set::new(|x: int| 0 <= x < m && !deleted_in(image, x));
        if deleted_in(image, n - 1) {
            assert(now =~= before);
        } else {
            assert(now =~= before.insert(n - 1));
        }
    }
}

/// The last hit replaced by a better one.
proof fn lemma_swap(
    image: Seq<u8>,
    scores: Seq<u32>,
    n: nat,
    k: int,
    full: Seq<SearchResult>,
    hit: SearchResult,
    at: int,
)
    requires
        is_top(image, scores, n, k, full),
        !deleted_in(image, n as int),
        full.len() >= k > 0,
        n <= u32::MAX,
        hit.id.0 == n,
        hit.score == scores[n as int],
        greater(hit.score, full.last().score),
        0 <= at <= full.len() - 1,
        forall|i: int|
            0 <= i < at ==> float::rank32((#[trigger] full.drop_last()[i]).score)
                >= float::rank32(hit.score),
        forall|i: int|
            at <= i < full.len() - 1 ==> float::rank32((#[trigger] full.drop_last()[i]).score)
                < float::rank32(hit.score),
    ensures
        is_top(image, scores, n + 1, k, full.drop_last().insert(at, hit)),
{
    let hits = full.drop_last();
    let now = hits.insert(at, hit);
    let worst = full.last();
    assert forall|i: int| 0 <= i < hits.len() implies {
        let h = #[trigger] hits[i];
        &&& h.id.0 < n
        &&& !deleted_in(image, h.id.0 as int)
        &&& h.score == scores[h.id.0 as int]
    } by {
        assert(hits[i] == full[i]);
    }
    assert forall|i: int, j: int| 0 <= i < j < hits.len() implies (#[trigger] hits[i]).id != (
    #[trigger] hits[j]).id && float::rank32(hits[i].score) >= float::rank32(hits[j].score) by {
        assert(full[i].id != full[j].id);
    }
    lemma_inserted(image, scores, n, hits, hit, at);
    // The last hit now is at least as good as the one that left.
    assert(float::rank32(now.last().score) >= float::rank32(worst.score)) by {
        if at == hits.len() {
            assert(now.last() == hit);
        } else {
            let l = hits.len() - 1;
            assert(now.last() == hits[l]);
            assert(full[l].id != full[full.len() - 1].id);
        }
    }
    assert forall|id: int| 0 <= id < n + 1 && !deleted_in(image, id) && !#[trigger] chosen(
        now,
        id,
    ) implies {
        ||| float::nan32(scores[id])
        ||| float::nan32(now.last().score)
        ||| number(scores[id]) <= number(now.last().score)
    } by {
        if id == n {
            assert(now[at].id.0 == id);
        } else if worst.id.0 == id {
            assert(full[full.len() - 1].score == scores[id]);
        } else {
            if chosen(full, id) {
                let i = choose|i: int| 0 <= i < full.len() && (#[trigger] full[i]).id.0 == id;
                if i < full.len() - 1 {
                    if i < at {
                        assert(now[i] == full[i]);
                        assert(now[i].id.0 == id);
                    } else {
                        assert(now[i + 1] == full[i]);
                        assert(now[i + 1].id.0 == id);
                    }
                }
            }
        }
    }
}

proof fn lemma_vector_bytes(vector: Seq<u32>, i: int)
    requires
        0 <= i < vector.len(),
    ensures
        vector_bytes(vector).len() == 4 * vector.len(),
        vector_bytes(vector).subrange(4 * i, 4 * i + 4) == codec::le32(vector[i]),
    decreases vector.len(),
{
    let d = vector.drop_last();
    codec::lemma_le32(vector.last());
    lemma_vector_len(d);
    if i < d.len() {
        lemma_vector_bytes(d, i);
        assert(vector_bytes(vector).subrange(4 * i, 4 * i + 4) =~= vector_bytes(d).subrange(
            4 * i,
            4 * i + 4,
        ));
    } else {
        assert(vector_bytes(vector).subrange(4 * i, 4 * i + 4) =~= codec::le32(vector.last()));
    }
}

proof fn lemma_vector_len(vector: Seq<u32>)
    ensures
        vector_bytes(vector).len() == 4 * vector.len(),
    decreases vector.len(),
{
    if vector.len() > 0 {
        codec::lemma_le32(vector.last());
        lemma_vector_len(vector.drop_last());
    }
}

/// A written vector reads back, and writing it changes no other vector, no
/// tombstone and no header slot.
pub proof fn law_vector_write(
    index: FlatView,
    image: Seq<u8>,
    ordinal: int,
    vector: Seq<u32>,
    other: int,
)
    requires
        index.dim >= 1,
        index.holds(image),
        vector.len() == index.dim,
        0 <= ordinal < index.capacity,
        0 <= other < index.capacity,
    ensures
        ({
            let now = spliced(
                image,
                vector_at(index.dim, index.capacity, ordinal),
                vector_bytes(vector),
            );
            &&& index.vector(now, ordinal) == vector
            &&& other != ordinal ==> index.vector(now, other) == index.vector(image, other)
            &&& deleted_in(now, other) == deleted_in(image, other)
            &&& slot_in(now, 0) == slot_in(image, 0)
            &&& slot_in(now, 1) == slot_in(image, 1)
        }),
{
    let at = vector_at(index.dim, index.capacity, ordinal);
    let now = spliced(image, at, vector_bytes(vector));
    lemma_vector_len(vector);
    lemma_vector_bounds(index.dim, index.capacity, ordinal);
    lemma_vector_bounds(index.dim, index.capacity, other);
    assert forall|i: int| 0 <= i < index.dim implies #[trigger] index.vector(now, ordinal)[i]
        == vector[i] by {
        lemma_vector_bytes(vector, i);
        assert(now.subrange(at + 4 * i, at + 4 * i + 4) =~= vector_bytes(vector).subrange(
            4 * i,
            4 * i + 4,
        ));
        codec::lemma_le32(vector[i]);
    }
    assert(index.vector(now, ordinal) =~= vector);
    if other != ordinal {
        if other < ordinal {
            lemma_vectors_apart(index.dim, index.capacity, other, ordinal);
        } else {
            lemma_vectors_apart(index.dim, index.capacity, ordinal, other);
        }
        let from = vector_at(index.dim, index.capacity, other);
        assert forall|i: int| 0 <= i < index.dim implies #[trigger] index.vector(now, other)[i]
            == index.vector(image, other)[i] by {
            assert(now.subrange(from + 4 * i, from + 4 * i + 4) =~= image.subrange(
                from + 4 * i,
                from + 4 * i + 4,
            ));
        }
        assert(index.vector(now, other) =~= index.vector(image, other));
    }
    assert(now[BITSET_OFFSET + other / 8] == image[BITSET_OFFSET + other / 8]);
    assert(now.subrange(0, 64) =~= image.subrange(0, 64));
    assert(now.subrange(4096, 4160) =~= image.subrange(4096, 4160));
    lemma_slot_frame(now, image, 0);
    lemma_slot_frame(now, image, 1);
}

/// Writing the same vector at the same place again changes nothing.
pub proof fn law_write_is_idempotent(image: Seq<u8>, at: int, bytes: Seq<u8>)
    ensures
        spliced(spliced(image, at, bytes), at, bytes) == spliced(image, at, bytes),
{
    assert(spliced(spliced(image, at, bytes), at, bytes) =~= spliced(image, at, bytes));
}

proof fn lemma_bits(byte: u8, set: u8, probe: u8)
    requires
        set < 8,
        probe < 8,
    ensures
        ((byte | (1u8 << set)) >> probe) & 1u8 == 1u8 <==> probe == set || (byte >> probe) & 1u8
            == 1u8,
        (byte | (1u8 << set)) | (1u8 << set) == byte | (1u8 << set),
{
    assert(((byte | (1u8 << set)) >> probe) & 1u8 == 1u8 <==> probe == set || (byte >> probe)
        & 1u8 == 1u8) by (bit_vector)
        requires
            set < 8,
            probe < 8,
    ;
    assert((byte | (1u8 << set)) | (1u8 << set) == byte | (1u8 << set)) by (bit_vector);
}

/// A bit that is set again, after another one, is as if it was set once.
pub proof fn lemma_bits_absorbed(byte: u8, r: u8, x: u8)
    requires
        r < 8,
        x < 8,
    ensures
        ((byte | (1u8 << r)) | (1u8 << x)) | (1u8 << r) == (byte | (1u8 << x)) | (1u8 << r),
        (byte | (1u8 << r)) | (1u8 << r) == byte | (1u8 << r),
{
    assert(((byte | (1u8 << r)) | (1u8 << x)) | (1u8 << r) == (byte | (1u8 << x)) | (1u8 << r))
        by (bit_vector);
    assert((byte | (1u8 << r)) | (1u8 << r) == byte | (1u8 << r)) by (bit_vector);
}

/// The tombstone bit of an ordinal within the capacity lies in the image.
pub proof fn lemma_mark_in_range(index: FlatView, image: Seq<u8>, ordinal: int)
    requires
        index.dim >= 1,
        index.holds(image),
        0 <= ordinal < index.capacity,
    ensures
        0 <= BITSET_OFFSET + ordinal / 8 < image.len(),
{
    lemma_vector_bounds(index.dim, index.capacity, ordinal);
}

/// A tombstone marks its own row and no other; marking again changes nothing;
/// vectors and header slots stay.
pub proof fn law_tombstone(index: FlatView, image: Seq<u8>, ordinal: int, other: int)
    requires
        index.dim >= 1,
        index.holds(image),
        0 <= ordinal < index.capacity,
        0 <= other < index.capacity,
    ensures
        deleted_in(marked(image, ordinal), other) <==> other == ordinal || deleted_in(
            image,
            other,
        ),
        marked(marked(image, ordinal), ordinal) == marked(image, ordinal),
        index.vector(marked(image, ordinal), other) == index.vector(image, other),
        slot_in(marked(image, ordinal), 0) == slot_in(image, 0),
        slot_in(marked(image, ordinal), 1) == slot_in(image, 1),
{
    lemma_vector_bounds(index.dim, index.capacity, ordinal);
    lemma_vector_bounds(index.dim, index.capacity, other);
    let at = BITSET_OFFSET + ordinal / 8;
    let now = marked(image, ordinal);
    lemma_bits(image[at], (ordinal % 8) as u8, (other % 8) as u8);
    assert(marked(now, ordinal) =~= now);
    let from = vector_at(index.dim, index.capacity, other);
    assert forall|i: int| 0 <= i < index.dim implies #[trigger] index.vector(now, other)[i]
        == index.vector(image, other)[i] by {
        assert(now.subrange(from + 4 * i, from + 4 * i + 4) =~= image.subrange(
            from + 4 * i,
            from + 4 * i + 4,
        ));
    }
    assert(index.vector(now, other) =~= index.vector(image, other));
    assert(now.subrange(0, 64) =~= image.subrange(0, 64));
    assert(now.subrange(4096, 4160) =~= image.subrange(4096, 4160));
    lemma_slot_frame(now, image, 0);
    lemma_slot_frame(now, image, 1);
}

/// Two images that agree outside one header slot's bytes.
pub open spec fn agree_outside(a: Seq<u8>, b: Seq<u8>, slot: int) -> bool {
    &&& a.len() == b.len()
    &&& forall|i: int|
        0 <= i < a.len() && !(slot_at(slot) <= i < slot_at(slot) + SLOT_BYTES) ==> #[trigger] a[i]
            == b[i]
}

/// A torn write of the spare slot cannot lose the last checkpoint: whatever ends
/// up in the spare slot's bytes, opening finds the old active slot, unless the
/// spare slot reads as a newer one.
pub proof fn law_torn_header_keeps_checkpoint(
    image: Seq<u8>,
    torn: Seq<u8>,
    place: int,
    slot: Slot,
)
    requires
        image.len() >= BITSET_OFFSET,
        active(image) == Some((place, slot)),
        agree_outside(image, torn, 1 - place),
    ensures
        slot_in(torn, place) == Some(slot),
        active(torn) matches Some((p, s)) && (p == place && s == slot || p == 1 - place && slot_in(
            torn,
            1 - place,
        ) == Some(s) && s.seq >= slot.seq),
        slot_in(torn, 1 - place) is None ==> active(torn) == Some((place, slot)),
{
    let base = slot_at(place);
    assert(image.subrange(base, base + SLOT_BYTES) =~= torn.subrange(base, base + SLOT_BYTES));
    lemma_slot_frame(image, torn, place);
}

/// A completed checkpoint is what opening finds: the staged slot is newer than
/// the active one, so it counts from the moment it can be read.
pub proof fn law_checkpoint_takes_over(
    index: FlatView,
    image: Seq<u8>,
    old_slot: Slot,
    count: u32,
    last_lsn: u64,
)
    requires
        image.len() >= BITSET_OFFSET,
        0 <= index.active_slot <= 1,
        index.seq < u64::MAX,
        slot_in(image, index.active_slot) == Some(old_slot),
        old_slot.seq == index.seq,
    ensures
        ({
            let target = 1 - index.active_slot;
            let s = index.next_slot(count, last_lsn);
            active(spliced(image, slot_at(target), slot_bytes(s))) == Some((target, s))
        }),
{
    let target = 1 - index.active_slot;
    let s = index.next_slot(count, last_lsn);
    let now = spliced(image, slot_at(target), slot_bytes(s));
    lemma_slot_len(s);
    law_slot_round_trip(image, target, s);
    let base = slot_at(index.active_slot);
    assert(image.subrange(base, base + SLOT_BYTES) =~= now.subrange(base, base + SLOT_BYTES));
    lemma_slot_frame(image, now, index.active_slot);
}

/// A fresh image opens as it was created.
pub proof fn law_create_then_open(image: Seq<u8>, s: Slot)
    requires
        image.len() >= BITSET_OFFSET,
    ensures
        active(spliced(spliced(image, 0, slot_bytes(s)), PAGE as int, slot_bytes(s))) == Some(
            (0int, s),
        ),
{
    let one = spliced(image, 0, slot_bytes(s));
    let two = spliced(one, PAGE as int, slot_bytes(s));
    lemma_slot_len(s);
    law_slot_round_trip(image, 0, s);
    law_slot_round_trip(one, 1, s);
    assert(one.subrange(0, 64) =~= two.subrange(0, 64));
    lemma_slot_frame(one, two, 0);
}

/// Where the fields of a header slot are: magic, version and dimension at 0, 4 and 8, the
/// count at 16, log position, capacity and sequence number at 24, 32 and 40, and the
/// checksum of all before it at 48. The magic is the text `FLAT`.
pub proof fn law_slot_layout(s: Slot)
    ensures
        ({
            let b = slot_bytes(s);
            &&& b.len() == 52
            &&& b.subrange(0, 4) == codec::le32(MAGIC)
            &&& MAGIC == 0x46 + 256 * (0x4c + 256 * (0x41 + 256 * 0x54))
            &&& b.subrange(4, 8) == codec::le32(2)
            &&& b.subrange(8, 12) == codec::le32(s.dim)
            &&& b.subrange(16, 20) == codec::le32(s.count)
            &&& b.subrange(24, 32) == codec::le64(s.last_lsn)
            &&& b.subrange(32, 40) == codec::le64(s.capacity)
            &&& b.subrange(40, 48) == codec::le64(s.seq)
            &&& b.subrange(48, 52) == codec::le32(checksum::crc32_of(b.take(48)))
        }),
{
    lemma_slot_len(s);
    codec::lemma_le32(MAGIC);
    codec::lemma_le32(VERSION);
    codec::lemma_le32(s.dim);
    codec::lemma_le32(0);
    codec::lemma_le32(s.count);
    codec::lemma_le64(s.last_lsn);
    codec::lemma_le64(s.capacity);
    codec::lemma_le64(s.seq);
    let b = slot_bytes(s);
    codec::lemma_le32(checksum::crc32_of(slot_fields(s)));
    assert(b.take(48) =~= slot_fields(s));
    assert(b.subrange(0, 4) =~= codec::le32(MAGIC));
    assert(b.subrange(4, 8) =~= codec::le32(VERSION));
    assert(b.subrange(8, 12) =~= codec::le32(s.dim));
    assert(b.subrange(16, 20) =~= codec::le32(s.count));
    assert(b.subrange(24, 32) =~= codec::le64(s.last_lsn));
    assert(b.subrange(32, 40) =~= codec::le64(s.capacity));
    assert(b.subrange(40, 48) =~= codec::le64(s.seq));
    assert(b.subrange(48, 52) =~= codec::le32(checksum::crc32_of(slot_fields(s))));
}

/// Of two readable slots the one with the greater sequence number is the active one, and
/// the first if they are equal; of one readable slot it is that one.
pub proof fn law_newest_slot_is_active(image: Seq<u8>)
    ensures
        match (slot_in(image, 0), slot_in(image, 1)) {
            (Some(a), Some(b)) => active(image) == if a.seq >= b.seq {
                Some((0int, a))
            } else {
                Some((1int, b))
            },
            (Some(a), None) => active(image) == Some((0int, a)),
            (None, Some(b)) => active(image) == Some((1int, b)),
            (None, None) => active(image) is None,
        },
{
}

/// A checkpoint writes the number after the last one, with what it was given.
pub proof fn law_next_slot(index: FlatView, count: u32, last_lsn: u64)
    requires
        index.seq < u64::MAX,
    ensures
        index.next_slot(count, last_lsn).seq == index.seq + 1,
        index.next_slot(count, last_lsn).count == count,
        index.next_slot(count, last_lsn).last_lsn == last_lsn,
        0 <= index.dim <= u32::MAX ==> index.next_slot(count, last_lsn).dim == index.dim,
        0 <= index.capacity <= u64::MAX ==> index.next_slot(count, last_lsn).capacity
            == index.capacity,
{
}

} // verus!
