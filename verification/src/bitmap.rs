//! Sets of row ordinals, kept as roaring bitmaps.
//!
//! [`Bitmap`] is the only holder of a `roaring::RoaringBitmap` in the library.
//! Its view is the set of the ordinals in it. The private functions at the top
//! are the calls into the `roaring` crate; what they claim is not proved here.

use roaring::RoaringBitmap;
use vstd::prelude::*;

verus! {

/// `roaring::RoaringBitmap`, opaque.
#[verifier::external_type_specification]
#[verifier::external_body]
pub struct ExRoaringBitmap(RoaringBitmap);

/// The integers that a roaring bitmap holds: those its iterator yields.
pub uninterp spec fn ordinals_of(bitmap: RoaringBitmap) -> Set<u32>;

/// Whether a roaring bitmap is in the form in which the crate's own operations
/// leave it: containers in strictly ascending key order, none of them empty,
/// each stored as an array up to 4096 values and as bits above. Only reading
/// serialized bytes can give a bitmap in another form.
pub uninterp spec fn canonical(bitmap: RoaringBitmap) -> bool;

/// What `RoaringBitmap::deserialize_from` makes of a byte sequence: the
/// integers read and the number of bytes consumed from the front, or the text of
/// the error.
pub uninterp spec fn bitmap_decoding(bytes: Seq<u8>) -> Result<(Set<u32>, nat), Seq<char>>;

/// What `RoaringBitmap::serialize_into` writes for a canonical bitmap that holds
/// the given integers.
pub uninterp spec fn bitmap_encoding(ordinals: Set<u32>) -> Seq<u8>;

/// `RoaringBitmap::new`: an empty bitmap, which is canonical.
#[verifier::external_body]
fn roaring_new() -> (b: RoaringBitmap)
    ensures
        ordinals_of(b) == Set::<u32>::empty(),
        canonical(b),
{
    RoaringBitmap::new()
}

/// `RoaringBitmap::clone`: the same integers in the same form.
#[verifier::external_body]
fn roaring_clone(b: &RoaringBitmap) -> (c: RoaringBitmap)
    ensures
        ordinals_of(c) == ordinals_of(*b),
        canonical(c) == canonical(*b),
{
    b.clone()
}

/// `RoaringBitmap::insert`: adds one value and tells whether it was absent.
#[verifier::external_body]
fn roaring_insert(b: &mut RoaringBitmap, value: u32) -> (added: bool)
    requires
        canonical(*old(b)),
    ensures
        ordinals_of(*final(b)) == ordinals_of(*old(b)).insert(value),
        added == !ordinals_of(*old(b)).contains(value),
        canonical(*final(b)),
{
    b.insert(value)
}

/// `RoaringBitmap::remove`: takes one value out and tells whether it was there.
#[verifier::external_body]
fn roaring_remove(b: &mut RoaringBitmap, value: u32) -> (removed: bool)
    requires
        canonical(*old(b)),
    ensures
        ordinals_of(*final(b)) == ordinals_of(*old(b)).remove(value),
        removed == ordinals_of(*old(b)).contains(value),
        canonical(*final(b)),
{
    b.remove(value)
}

/// `RoaringBitmap::contains`: membership.
#[verifier::external_body]
fn roaring_contains(b: &RoaringBitmap, value: u32) -> (found: bool)
    requires
        canonical(*b),
    ensures
        found == ordinals_of(*b).contains(value),
{
    b.contains(value)
}

/// `RoaringBitmap::len`: the number of integers held.
#[verifier::external_body]
fn roaring_len(b: &RoaringBitmap) -> (n: u64)
    requires
        canonical(*b),
    ensures
        n == ordinals_of(*b).len(),
{
    b.len()
}

/// `RoaringBitmap::is_empty`: whether no integer is held.
#[verifier::external_body]
fn roaring_is_empty(b: &RoaringBitmap) -> (empty: bool)
    requires
        canonical(*b),
    ensures
        empty == (ordinals_of(*b) == Set::<u32>::empty()),
{
    b.is_empty()
}

/// `BitAndAssign<&RoaringBitmap>`: intersection in place.
#[verifier::external_body]
fn roaring_intersect(b: &mut RoaringBitmap, other: &RoaringBitmap)
    requires
        canonical(*old(b)),
        canonical(*other),
    ensures
        ordinals_of(*final(b)) == ordinals_of(*old(b)).intersect(ordinals_of(*other)),
        canonical(*final(b)),
{
    *b &= other;
}

/// `BitOrAssign<&RoaringBitmap>`: union in place.
#[verifier::external_body]
fn roaring_unite(b: &mut RoaringBitmap, other: &RoaringBitmap)
    requires
        canonical(*old(b)),
        canonical(*other),
    ensures
        ordinals_of(*final(b)) == ordinals_of(*old(b)).union(ordinals_of(*other)),
        canonical(*final(b)),
{
    *b |= other;
}

/// `RoaringBitmap::iter`: every integer held, in strictly ascending order.
#[verifier::external_body]
fn roaring_items(b: &RoaringBitmap) -> (items: Vec<u32>)
    requires
        canonical(*b),
    ensures
        items@.to_set() == ordinals_of(*b),
        forall|i: int, j: int| 0 <= i < j < items@.len() ==> items@[i] < items@[j],
{
    b.iter().collect()
}

/// `RoaringBitmap::serialize_into`: appends the standard roaring format. The
/// format ends itself: whatever follows, `deserialize_from` reads these bytes and
/// no more, and gives the same integers back.
#[verifier::external_body]
fn roaring_serialize(b: &RoaringBitmap, out: &mut Vec<u8>)
    requires
        canonical(*b),
    ensures
        final(out)@ == old(out)@ + bitmap_encoding(ordinals_of(*b)),
        forall|rest: Seq<u8>| #[trigger]
            bitmap_decoding(
                final(out)@.subrange(old(out)@.len() as int, final(out)@.len() as int) + rest,
            ) == Ok::<(Set<u32>, nat), Seq<char>>(
                (ordinals_of(*b), (final(out)@.len() - old(out)@.len()) as nat),
            ),
{
    b.serialize_into(out).expect("writing into memory does not fail")
}

/// `RoaringBitmap::deserialize_from`, over a slice: the integers read and the rest
/// of the slice, or the error's text. The bytes read are those before the rest.
/// Bytes that no bitmap was serialized to can decode to a bitmap that is not
/// canonical, so the integers are handed out in place of it; their order is then
/// not fixed.
#[verifier::external_body]
fn roaring_deserialize(bytes: &[u8]) -> (r: Result<(Vec<u32>, &[u8]), String>)
    ensures
        match r {
            Ok((items, rest)) => {
                &&& rest@.len() <= bytes@.len()
                &&& rest@ == bytes@.skip(bytes@.len() - rest@.len())
                &&& bitmap_decoding(bytes@) == Ok::<(Set<u32>, nat), Seq<char>>(
                    (items@.to_set(), (bytes@.len() - rest@.len()) as nat),
                )
            },
            Err(why) => bitmap_decoding(bytes@) == Err::<(Set<u32>, nat), Seq<char>>(why@),
        },
{
    let mut cur: &[u8] = bytes;
    match RoaringBitmap::deserialize_from(&mut cur) {
        Ok(b) => Ok((b.iter().collect(), cur)),
        Err(e) => Err(e.to_string()),
    }
}

/// A set of row ordinals.
pub struct Bitmap {
    inner: RoaringBitmap,
}

impl View for Bitmap {
    type V = Set<u32>;

    closed spec fn view(&self) -> Set<u32> {
        ordinals_of(self.inner)
    }
}

impl Clone for Bitmap {
    fn clone(&self) -> (b: Bitmap)
        ensures
            b.wf() == self.wf(),
            b@ == self@,
    {
        Bitmap { inner: roaring_clone(&self.inner) }
    }
}

impl Bitmap {
    /// Whether the bitmap underneath is in canonical form. Every constructor
    /// establishes it and every method keeps it.
    pub closed spec fn wf(&self) -> bool {
        canonical(self.inner)
    }

    /// The empty set.
    pub fn new() -> (b: Bitmap)
        ensures
            b.wf(),
            b@ == Set::<u32>::empty(),
    {
        Bitmap { inner: roaring_new() }
    }

    /// The set of the given ordinals.
    pub fn of(items: &[u32]) -> (b: Bitmap)
        ensures
            b.wf(),
            b@ == items@.to_set(),
    {
        let mut b = Bitmap::new();
        let mut i: usize = 0;
        while i < items.len()
            invariant
                i <= items@.len(),
                b.wf(),
                b@ == items@.take(i as int).to_set(),
            decreases items@.len() - i,
        {
            b.insert(items[i]);
            proof {
                assert(items@.take(i + 1) =~= items@.take(i as int).push(items@[i as int]));
                lemma_push_to_set(items@.take(i as int), items@[i as int]);
            }
            i += 1;
        }
        proof {
            assert(items@.take(i as int) =~= items@);
        }
        b
    }

    /// Adds `ordinal`; tells whether it was absent.
    pub fn insert(&mut self, ordinal: u32) -> (added: bool)
        requires
            old(self).wf(),
        ensures
            final(self).wf(),
            final(self)@ == old(self)@.insert(ordinal),
            added == !old(self)@.contains(ordinal),
    {
        roaring_insert(&mut self.inner, ordinal)
    }

    /// Takes `ordinal` out; tells whether it was there.
    pub fn remove(&mut self, ordinal: u32) -> (removed: bool)
        requires
            old(self).wf(),
        ensures
            final(self).wf(),
            final(self)@ == old(self)@.remove(ordinal),
            removed == old(self)@.contains(ordinal),
    {
        roaring_remove(&mut self.inner, ordinal)
    }

    /// Whether `ordinal` is in the set.
    pub fn contains(&self, ordinal: u32) -> (found: bool)
        requires
            self.wf(),
        ensures
            found == self@.contains(ordinal),
    {
        roaring_contains(&self.inner, ordinal)
    }

    /// How many ordinals are in the set.
    pub fn len(&self) -> (n: u64)
        requires
            self.wf(),
        ensures
            n == self@.len(),
    {
        roaring_len(&self.inner)
    }

    /// Whether the set is empty.
    pub fn is_empty(&self) -> (empty: bool)
        requires
            self.wf(),
        ensures
            empty == (self@ == Set::<u32>::empty()),
    {
        roaring_is_empty(&self.inner)
    }

    /// Keeps only the ordinals that are in `other` too.
    pub fn intersect_with(&mut self, other: &Bitmap)
        requires
            old(self).wf(),
            other.wf(),
        ensures
            final(self).wf(),
            final(self)@ == old(self)@.intersect(other@),
    {
        roaring_intersect(&mut self.inner, &other.inner)
    }

    /// Adds every ordinal of `other`.
    pub fn unite_with(&mut self, other: &Bitmap)
        requires
            old(self).wf(),
            other.wf(),
        ensures
            final(self).wf(),
            final(self)@ == old(self)@.union(other@),
    {
        roaring_unite(&mut self.inner, &other.inner)
    }

    /// The ordinals in ascending order.
    pub fn to_vec(&self) -> (items: Vec<u32>)
        requires
            self.wf(),
        ensures
            ascending(items@),
            items@.to_set() == self@,
    {
        roaring_items(&self.inner)
    }

    /// Appends the serialized set to `out`.
    pub fn write_to(&self, out: &mut Vec<u8>)
        requires
            self.wf(),
        ensures
            final(out)@ == old(out)@ + bitmap_encoding(self@),
            round_trips(self@),
    {
        roaring_serialize(&self.inner, out);
        proof {
            assert(out@.subrange(old(out)@.len() as int, out@.len() as int) =~= bitmap_encoding(
                self@,
            ));
            assert forall|rest: Seq<u8>| #[trigger]
                bitmap_decoding(bitmap_encoding(self@) + rest) == Ok::<(Set<u32>, nat), Seq<char>>(
                    (self@, bitmap_encoding(self@).len()),
                ) by {}
        }
    }

    /// Reads a set off the front of `bytes`: the set and the number of bytes it
    /// took, or what is wrong with the bytes.
    pub fn read_from(bytes: &[u8]) -> (r: Result<(Bitmap, usize), String>)
        ensures
            match r {
                Ok((b, used)) => {
                    &&& b.wf()
                    &&& used <= bytes@.len()
                    &&& bitmap_decoding(bytes@) == Ok::<(Set<u32>, nat), Seq<char>>(
                        (b@, used as nat),
                    )
                },
                Err(why) => bitmap_decoding(bytes@) == Err::<(Set<u32>, nat), Seq<char>>(why@),
            },
    {
        match roaring_deserialize(bytes) {
            Ok((items, rest)) => {
                let used: usize = bytes.len() - rest.len();
                Ok((Bitmap::of(items.as_slice()), used))
            },
            Err(why) => Err(why),
        }
    }
}

/// Strictly ascending.
pub open spec fn ascending(items: Seq<u32>) -> bool {
    forall|i: int, j: int| 0 <= i < j < items.len() ==> items[i] < items[j]
}

/// Reading the encoding of `ordinals` gives `ordinals` back and stops at its end,
/// whatever follows it.
pub open spec fn round_trips(ordinals: Set<u32>) -> bool {
    forall|rest: Seq<u8>| #[trigger]
        bitmap_decoding(bitmap_encoding(ordinals) + rest) == Ok::<(Set<u32>, nat), Seq<char>>(
            (ordinals, bitmap_encoding(ordinals).len()),
        )
}

proof fn lemma_push_to_set(s: Seq<u32>, v: u32)
    ensures
        s.push(v).to_set() == s.to_set().insert(v),
{
    assert forall|x: u32| s.push(v).to_set().contains(x) == s.to_set().insert(v).contains(x) by {
        if s.to_set().contains(x) {
            let i = choose|i: int| 0 <= i < s.len() && s[i] == x;
            assert(s.push(v)[i] == x);
        }
        if x == v {
            assert(s.push(v)[s.len() as int] == x);
        }
        if s.push(v).contains(x) {
            let i = choose|i: int| 0 <= i < s.push(v).len() && s.push(v)[i] == x;
            if i < s.len() {
                assert(s[i] == x);
            }
        }
    }
    assert(s.push(v).to_set() =~= s.to_set().insert(v));
}

} // verus!
