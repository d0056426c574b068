//! The flat vector index over an image in memory.

use flats::error::Error;
use flats::index::{
    bitset_bytes, bytes_for, read_slot, slot_offset, vectors_offset, FlatIndex, SearchResult, Slot,
    Writer, BITSET_OFFSET, MAGIC, PAGE,
};
use flats::metadata::common::{Dim, Ordinal};

/// An index with its image, and the float arithmetic around it.
struct Flat {
    image: Vec<u8>,
    writer: Writer,
}

fn bits(v: &[f32]) -> Vec<u32> {
    v.iter().map(|x| x.to_bits()).collect()
}

impl Flat {
    fn create(dim: usize, capacity: usize) -> Flat {
        let mut image = vec![0u8; bytes_for(dim, capacity).unwrap()];
        let writer = FlatIndex::create(&mut image, Dim::new(dim).unwrap(), capacity);
        Flat { image, writer }
    }

    fn open(image: Vec<u8>) -> Result<Flat, Error> {
        let writer = FlatIndex::open(&image)?;
        assert!(writer.is_sound());
        Ok(Flat { image, writer })
    }

    fn insert(&mut self, v: &[f32]) -> Result<Ordinal, Error> {
        self.writer.insert(&mut self.image, &bits(v))
    }

    fn write_at(&mut self, ordinal: u64, v: &[f32]) -> Result<(), Error> {
        self.writer.write_at(&mut self.image, ordinal, &bits(v))
    }

    fn delete(&mut self, ordinal: u64) -> Result<(), Error> {
        self.writer.delete(&mut self.image, ordinal)
    }

    fn vector(&self, ordinal: usize) -> Vec<f32> {
        self.writer
            .reader()
            .vector(&self.image, ordinal)
            .into_iter()
            .map(f32::from_bits)
            .collect()
    }

    fn search(&self, query: &[f32], k: usize) -> Result<Vec<SearchResult>, Error> {
        let r = self.writer.reader();
        let scores: Vec<u32> = (0..r.len())
            .map(|o| {
                let dot: f32 = self.vector(o).iter().zip(query).map(|(a, b)| a * b).sum();
                dot.to_bits()
            })
            .collect();
        r.search(&self.image, query.len(), k, &scores)
    }

    fn len(&self) -> usize {
        self.writer.reader().len()
    }

    /// A full checkpoint; returns the durable log position.
    fn sync(&mut self) -> u64 {
        let (count, lsn) = self.writer.begin_checkpoint();
        self.writer.stage_watermark(&mut self.image, count, lsn);
        let staged = self.writer.take_staged().expect("a slot was staged");
        self.writer.sync_header(staged);
        lsn
    }
}

#[test]
fn create_insert_search_roundtrip() {
    let mut w = Flat::create(2, 16);

    w.insert(&[1.0, 0.0]).unwrap();
    w.insert(&[2.0, 0.0]).unwrap();
    w.insert(&[0.0, 1.0]).unwrap();

    let results = w.search(&[1.0, 0.0], 2).unwrap();
    assert_eq!(results[0].id, Ordinal(1));
    assert_eq!(results[1].id, Ordinal(0));
}

#[test]
fn reopen_sees_synced_data() {
    let mut w = Flat::create(3, 8);
    w.insert(&[1.0, 2.0, 3.0]).unwrap();
    w.insert(&[4.0, 5.0, 6.0]).unwrap();
    w.sync();

    let r = Flat::open(w.image).unwrap();
    assert_eq!(r.len(), 2);
    let results = r.search(&[1.0, 0.0, 0.0], 1).unwrap();
    assert_eq!(results[0].id, Ordinal(1));
}

#[test]
fn write_at_is_positional_and_idempotent() {
    let mut w = Flat::create(2, 16);

    w.write_at(5, &[1.0, 1.0]).unwrap();
    assert_eq!(w.len(), 6); // sparse high-water

    w.write_at(5, &[1.0, 1.0]).unwrap(); // idempotent
    assert_eq!(w.len(), 6);

    let results = w.search(&[1.0, 1.0], 1).unwrap();
    assert_eq!(results.len(), 1);
    assert_eq!(results[0].id, Ordinal(5));
    assert_eq!(f32::from_bits(results[0].score), 2.0);
}

#[test]
fn delete_is_idempotent_and_hidden_from_search() {
    let mut w = Flat::create(2, 8);
    w.write_at(0, &[1.0, 0.0]).unwrap();
    w.write_at(1, &[2.0, 0.0]).unwrap();

    w.delete(1).unwrap();
    w.delete(1).unwrap(); // idempotent, no error

    let results = w.search(&[1.0, 0.0], 8).unwrap();
    assert_eq!(results.len(), 1);
    assert_eq!(results[0].id, Ordinal(0));
}

#[test]
fn checkpoint_persists_watermark_across_reopen() {
    let mut w = Flat::create(2, 8);
    w.write_at(0, &[1.0, 0.0]).unwrap();
    w.writer.advance_applied_lsn(42);
    assert_eq!(w.sync(), 42);

    let r = Flat::open(w.image).unwrap();
    assert_eq!(r.writer.checkpoint_lsn(), 42);
    assert_eq!(r.len(), 1);
}

#[test]
fn double_buffer_survives_one_corrupt_slot() {
    let mut w = Flat::create(2, 8);
    w.write_at(0, &[9.0, 9.0]).unwrap();
    w.writer.advance_applied_lsn(7);
    w.sync(); // writes slot 1, seq 1 -> active
    assert_eq!(w.writer.seq(), 1);

    // Corrupt the active slot (slot 1, page 1). Open must fall back to slot 0.
    w.image[slot_offset(1)..slot_offset(1) + 16].fill(0xAA);
    let r = Flat::open(w.image).unwrap();
    assert_eq!(r.writer.checkpoint_lsn(), 0); // fell back to the create-time slot
}

#[test]
fn insert_rejects_wrong_dim() {
    let mut w = Flat::create(3, 4);
    assert!(matches!(
        w.write_at(0, &[1.0, 2.0]),
        Err(Error::DimensionMismatch { .. })
    ));
}

#[test]
fn capacity_exceeded() {
    let mut w = Flat::create(1, 2);
    w.write_at(0, &[1.0]).unwrap();
    w.write_at(1, &[2.0]).unwrap();
    assert!(matches!(
        w.write_at(2, &[3.0]),
        Err(Error::CapacityExceeded { .. })
    ));
}

#[test]
fn open_rejects_bad_magic() {
    assert!(matches!(
        Flat::open(vec![0u8; 64]),
        Err(Error::BadMagic { .. })
    ));
}

#[test]
fn a_short_image_of_another_kind_is_refused_by_its_magic() {
    for len in 4..9 {
        assert!(matches!(
            Flat::open(vec![7u8; len]),
            Err(Error::BadMagic { got: 0x0707_0707 })
        ));
    }
    assert!(matches!(
        Flat::open([MAGIC.to_le_bytes(), [9, 0, 0, 0]].concat()),
        Err(Error::UnsupportedVersion { got: 9 })
    ));
}

#[test]
fn open_names_every_fault() {
    let image = Flat::create(2, 8).image;
    let mut old = image.clone();
    for slot in 0..2 {
        old[slot_offset(slot) + 4] = 9;
    }
    assert!(matches!(Flat::open(old), Err(Error::UnsupportedVersion { got: 9 })));

    let mut torn = image.clone();
    for slot in 0..2 {
        torn[slot_offset(slot) + 20] ^= 1;
    }
    assert!(matches!(Flat::open(torn), Err(Error::CorruptHeader)));

    let short = image[..image.len() - 1].to_vec();
    assert!(matches!(Flat::open(short), Err(Error::CorruptHeader)));
}

#[test]
fn the_layout_is_fixed() {
    assert_eq!(bitset_bytes(0), 0);
    assert_eq!(bitset_bytes(9), 2);
    assert_eq!(vectors_offset(1), 3 * PAGE);
    assert_eq!(vectors_offset(8 * PAGE), 3 * PAGE);
    assert_eq!(vectors_offset(8 * PAGE + 1), 4 * PAGE);
    assert_eq!(bytes_for(2, 16).unwrap(), 3 * PAGE + 128);
    assert!(matches!(
        bytes_for(usize::MAX, 2),
        Err(Error::CapacityOverflow { dim: usize::MAX, capacity: 2 })
    ));

    let w = Flat::create(2, 16);
    assert_eq!(&w.image[..4], b"FLAT");
    assert_eq!(
        read_slot(&w.image, 0),
        Some(Slot { dim: 2, count: 0, last_lsn: 0, capacity: 16, seq: 0 })
    );
}

#[test]
fn a_tombstone_is_one_bit() {
    let mut w = Flat::create(1, 20);
    w.delete(10).unwrap();
    assert_eq!(w.image[BITSET_OFFSET + 1], 0b100);
    assert!(w.writer.reader().is_deleted(&w.image, 10));
    assert!(!w.writer.reader().is_deleted(&w.image, 11));
    assert!(matches!(w.delete(20), Err(Error::CapacityExceeded { capacity: 20 })));
    assert_eq!((w.writer.capacity(), w.writer.dim()), (20, 1));
    assert!(w.writer.is_empty() && w.writer.reader().is_empty());
}

#[test]
fn searches_are_checked_and_ranked() {
    let mut w = Flat::create(1, 8);
    for x in [1.0, 3.0, -2.0, 3.0] {
        w.insert(&[x]).unwrap();
    }
    assert!(matches!(
        w.search(&[1.0, 1.0], 1),
        Err(Error::DimensionMismatch { expected: 1, got: 2 })
    ));
    assert!(matches!(w.search(&[1.0], 0), Err(Error::InvalidTopK { k: 0 })));
    let hits = w.search(&[1.0], 10).unwrap();
    let scores: Vec<f32> = hits.iter().map(|h| f32::from_bits(h.score)).collect();
    assert_eq!(scores, vec![3.0, 3.0, 1.0, -2.0]);
    assert_eq!(w.search(&[-1.0], 1).unwrap()[0].id, Ordinal(2));
}

#[test]
fn a_nan_gives_way_to_nothing() {
    let mut w = Flat::create(1, 8);
    for x in [f32::NAN, 5.0, 7.0] {
        w.insert(&[x]).unwrap();
    }
    assert_eq!(w.search(&[1.0], 1).unwrap()[0].id, Ordinal(0));
    // With room for two, the greatest number displaces the lesser one.
    let ids: Vec<u32> = w.search(&[1.0], 2).unwrap().iter().map(|h| h.id.0).collect();
    assert_eq!(ids, vec![0, 2]);

    // One that comes when there is no room stays out.
    let mut w = Flat::create(1, 8);
    for x in [5.0, f32::NAN, 7.0] {
        w.insert(&[x]).unwrap();
    }
    assert_eq!(w.search(&[1.0], 1).unwrap()[0].id, Ordinal(2));
}

#[test]
fn a_torn_checkpoint_keeps_the_old_one() {
    let mut w = Flat::create(1, 8);
    w.insert(&[1.0]).unwrap();
    w.writer.advance_applied_lsn(3);
    w.sync();
    w.insert(&[2.0]).unwrap();
    w.writer.advance_applied_lsn(4);
    let (count, lsn) = w.writer.begin_checkpoint();
    w.writer.stage_watermark(&mut w.image, count, lsn);
    // The staged slot is half written when the power goes.
    w.image[slot_offset(0) + 20..slot_offset(0) + 30].fill(0xFF);
    let r = Flat::open(w.image).unwrap();
    assert_eq!((r.writer.checkpoint_lsn(), r.len()), (3, 1));
}

#[test]
fn hits_are_compared_by_score_alone() {
    let hit = |id: u32, score: f32| SearchResult { id: Ordinal(id), score: score.to_bits() };
    assert!(hit(1, 0.5) == hit(2, 0.5));
    assert!(hit(1, 0.0) == hit(2, -0.0));
    assert!(hit(1, 0.5) != hit(1, 0.25));
    assert!(hit(1, f32::NAN) != hit(1, f32::NAN));
    // The order is total, and tells the two zeroes apart.
    let ordered = [f32::NEG_INFINITY, -1.0, -0.0, 0.0, 1.0, f32::INFINITY, f32::NAN];
    for (i, a) in ordered.iter().enumerate() {
        for (j, b) in ordered.iter().enumerate() {
            assert_eq!(hit(9, *a).partial_cmp(&hit(3, *b)), Some(i.cmp(&j)), "{a} {b}");
        }
    }
}
