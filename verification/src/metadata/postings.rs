//! Posting lists: which ordinals have which value, for one column.
//!
//! A numeric column keeps its lists in ascending key order, so that a range of
//! keys is a run of lists. A float's key is its place in the total order of bit
//! patterns, which is again a 64-bit integer. A text column keeps its lists in
//! the order in which the strings first came.

use vstd::prelude::*;

use crate::bitmap::Bitmap;
use crate::float;
use crate::float::SIGN64;
use crate::metadata::common::RangeOp;

verus! {

/// The key of a float among a column's posting lists: the rank of its bit
/// pattern.
pub fn rank_of(bits: u64) -> (rank: i64)
    ensures
        rank == float::rank64(bits),
{
    if bits < SIGN64 {
        bits as i64
    } else {
        -((bits - SIGN64) as i64) - 1
    }
}

/// The bit pattern of the given rank.
pub open spec fn unrank(rank: i64) -> u64 {
    if rank >= 0 {
        rank as u64
    } else {
        (float::SIGN64 - (rank + 1)) as u64
    }
}

/// The bit pattern of the given rank.
pub fn bits_of(rank: i64) -> (bits: u64)
    ensures
        bits == unrank(rank),
{
    if rank >= 0 {
        rank as u64
    } else {
        SIGN64 + ((-(rank + 1)) as u64)
    }
}

/// Rank and bit pattern determine each other.
pub proof fn lemma_rank_round_trip(rank: i64, bits: u64)
    ensures
        float::rank64(unrank(rank)) == rank,
        unrank(float::rank64(bits) as i64) == bits,
{
}

/// How many of the posting lists have a key below `key`, when they stand in
/// ascending order.
pub open spec fn slot(lists: Seq<(i64, Set<u32>)>, key: i64) -> int
    decreases lists.len(),
{
    if lists.len() == 0 {
        0
    } else if lists.last().0 < key {
        lists.len() as int
    } else {
        slot(lists.drop_last(), key)
    }
}

/// Whether there is a list for `key`.
pub open spec fn listed(lists: Seq<(i64, Set<u32>)>, key: i64) -> bool {
    let p = slot(lists, key);
    p < lists.len() && lists[p].0 == key
}

/// The ordinals listed under `key`; none if there is no list.
pub open spec fn under(lists: Seq<(i64, Set<u32>)>, key: i64) -> Set<u32> {
    if listed(lists, key) {
        lists[slot(lists, key)].1
    } else {
        Set::empty()
    }
}

/// The lists with `set` as the list of `key`.
pub open spec fn put(lists: Seq<(i64, Set<u32>)>, key: i64, set: Set<u32>) -> Seq<(i64, Set<u32>)> {
    let p = slot(lists, key);
    if listed(lists, key) {
        lists.update(p, (key, set))
    } else {
        lists.insert(p, (key, set))
    }
}

/// The lists with `ordinal` added under `key`.
pub open spec fn added(lists: Seq<(i64, Set<u32>)>, key: i64, ordinal: u32) -> Seq<
    (i64, Set<u32>),
> {
    put(lists, key, under(lists, key).insert(ordinal))
}

/// The ordinals listed under a key that satisfies the comparison.
pub open spec fn between(lists: Seq<(i64, Set<u32>)>, op: RangeOp, key: int) -> Set<u32> {
    Set::new(
        |o: u32|
            exists|i: int|
                0 <= i < lists.len() && op.holds(lists[i].0 as int, key) && (
                #[trigger] lists[i]).1.contains(o),
    )
}

/// Strictly ascending keys.
pub open spec fn sorted(lists: Seq<(i64, Set<u32>)>) -> bool {
    forall|i: int, j: int| 0 <= i < j < lists.len() ==> (#[trigger] lists[i]).0 < (
    #[trigger] lists[j]).0
}

/// In ascending lists the slot of a key parts the smaller keys from the rest.
pub proof fn lemma_slot(lists: Seq<(i64, Set<u32>)>, key: i64)
    requires
        sorted(lists),
    ensures
        0 <= slot(lists, key) <= lists.len(),
        forall|i: int| 0 <= i < slot(lists, key) ==> (#[trigger] lists[i]).0 < key,
        forall|i: int| slot(lists, key) <= i < lists.len() ==> (#[trigger] lists[i]).0 >= key,
    decreases lists.len(),
{
    if lists.len() > 0 {
        if lists.last().0 < key {
            assert forall|i: int| 0 <= i < lists.len() implies (#[trigger] lists[i]).0 < key by {
                if i < lists.len() - 1 {
                    assert(lists[i].0 < lists[lists.len() - 1].0);
                }
            }
        } else {
            let d = lists.drop_last();
            assert(sorted(d)) by {
                assert forall|i: int, j: int| 0 <= i < j < d.len() implies (#[trigger] d[i]).0 < (
                #[trigger] d[j]).0 by {
                    assert(lists[i].0 < lists[j].0);
                }
            }
            lemma_slot(d, key);
            assert forall|i: int| 0 <= i < slot(d, key) implies (#[trigger] lists[i]).0 < key by {
                assert(d[i] == lists[i]);
            }
            assert forall|i: int| slot(d, key) <= i < lists.len() implies (
            #[trigger] lists[i]).0 >= key by {
                if i < d.len() {
                    assert(d[i] == lists[i]);
                }
            }
        }
    }
}

/// Putting a list keeps the order.
pub proof fn lemma_put_sorted(lists: Seq<(i64, Set<u32>)>, key: i64, set: Set<u32>)
    requires
        sorted(lists),
    ensures
        sorted(put(lists, key, set)),
{
    lemma_slot(lists, key);
    let p = slot(lists, key);
    let now = put(lists, key, set);
    assert forall|i: int, j: int| 0 <= i < j < now.len() implies (#[trigger] now[i]).0 < (
    #[trigger] now[j]).0 by {
        if listed(lists, key) {
            assert(lists[i].0 < lists[j].0);
        } else {
            let a = if i < p { i } else { i - 1 };
            let b = if j < p { j } else { j - 1 };
            if i != p {
                assert(now[i] == lists[a]);
            }
            if j != p {
                assert(now[j] == lists[b]);
            }
            if i != p && j != p {
                assert(lists[a].0 < lists[b].0);
            }
        }
    }
}

/// A position that parts the smaller keys from the rest is the slot.
proof fn lemma_slot_unique(lists: Seq<(i64, Set<u32>)>, key: i64, p: int)
    requires
        sorted(lists),
        0 <= p <= lists.len(),
        forall|i: int| 0 <= i < p ==> (#[trigger] lists[i]).0 < key,
        forall|i: int| p <= i < lists.len() ==> (#[trigger] lists[i]).0 >= key,
    ensures
        p == slot(lists, key),
{
    lemma_slot(lists, key);
    let q = slot(lists, key);
    if p < q {
        assert(lists[p].0 < key);
    }
    if q < p {
        assert(lists[q].0 >= key);
    }
}

/// After a list was put, its key has that list and every other key what it had.
pub proof fn lemma_put_under(lists: Seq<(i64, Set<u32>)>, key: i64, set: Set<u32>, other: i64)
    requires
        sorted(lists),
    ensures
        listed(put(lists, key, set), key),
        under(put(lists, key, set), other) == if other == key {
            set
        } else {
            under(lists, other)
        },
{
    let now = put(lists, key, set);
    lemma_put_sorted(lists, key, set);
    lemma_slot(lists, key);
    lemma_slot(lists, other);
    lemma_slot(now, key);
    lemma_slot(now, other);
    let p = slot(lists, key);
    assert(now[p] == (key, set));
    lemma_slot_unique_at(now, key, p);
    let q = slot(lists, other);
    if other != key {
        if listed(lists, other) {
            let at = if listed(lists, key) || q < p { q } else { q + 1 };
            assert(now[at] == lists[q]);
            lemma_slot_unique_at(now, other, at);
        } else if listed(now, other) {
            let at = slot(now, other);
            let was = if listed(lists, key) || at < p { at } else { at - 1 };
            assert(now[at] == lists[was]);
            lemma_slot_unique_at(lists, other, was);
        }
    }
}

/// The index of a key is its slot.
pub proof fn lemma_slot_unique_at(lists: Seq<(i64, Set<u32>)>, key: i64, p: int)
    requires
        sorted(lists),
        0 <= p < lists.len(),
        lists[p].0 == key,
    ensures
        slot(lists, key) == p,
        listed(lists, key),
{
    assert forall|i: int| 0 <= i < p implies (#[trigger] lists[i]).0 < key by {
        assert(lists[i].0 < lists[p].0);
    }
    assert forall|i: int| p <= i < lists.len() implies (#[trigger] lists[i]).0 >= key by {
        if p < i {
            assert(lists[p].0 < lists[i].0);
        }
    }
    lemma_slot_unique(lists, key, p);
}

/// The posting lists of a numeric column, in ascending key order.
pub struct Postings {
    lists: Vec<(i64, Bitmap)>,
}

impl View for Postings {
    type V = Seq<(i64, Set<u32>)>;

    closed spec fn view(&self) -> Seq<(i64, Set<u32>)> {
        self.lists@.map_values(|e: (i64, Bitmap)| (e.0, e.1@))
    }
}

impl Postings {
    /// Keys strictly ascend and every bitmap is well-formed.
    pub closed spec fn wf(&self) -> bool {
        &&& sorted(self@)
        &&& forall|i: int| 0 <= i < self.lists@.len() ==> (#[trigger] self.lists@[i]).1.wf()
    }

    /// What well-formedness says of the view.
    pub proof fn lemma_wf(&self)
        requires
            self.wf(),
        ensures
            sorted(self@),
            self@.len() <= usize::MAX,
    {
        assert(self@.len() == self.lists.len());
    }

    /// No lists.
    pub fn new() -> (p: Postings)
        ensures
            p.wf(),
            p@ == Seq::<(i64, Set<u32>)>::empty(),
    {
        let p = Postings { lists: Vec::new() };
        proof {
            assert(p@ =~= Seq::<(i64, Set<u32>)>::empty());
        }
        p
    }

    /// How many keys have a list.
    pub fn len(&self) -> (n: usize)
        ensures
            n == self@.len(),
    {
        self.lists.len()
    }

    /// The key at `i`.
    pub fn key(&self, i: usize) -> (k: i64)
        requires
            i < self@.len(),
        ensures
            k == self@[i as int].0,
    {
        self.lists[i].0
    }

    /// The list at `i`.
    pub fn list(&self, i: usize) -> (b: &Bitmap)
        requires
            self.wf(),
            i < self@.len(),
        ensures
            b.wf(),
            b@ == self@[i as int].1,
    {
        &self.lists[i].1
    }

    /// The slot of `key`, by bisection, and whether its list is there.
    fn find(&self, key: i64) -> (r: (usize, bool))
        requires
            self.wf(),
        ensures
            r.0 == slot(self@, key),
            r.0 <= self@.len(),
            r.1 == listed(self@, key),
    {
        let mut lo: usize = 0;
        let mut hi: usize = self.lists.len();
        while lo < hi
            invariant
                self.wf(),
                lo <= hi <= self@.len(),
                self@.len() == self.lists@.len(),
                forall|i: int| 0 <= i < lo ==> (#[trigger] self@[i]).0 < key,
                forall|i: int| hi <= i < self@.len() ==> (#[trigger] self@[i]).0 >= key,
            decreases hi - lo,
        {
            let mid: usize = lo + (hi - lo) / 2;
            assert(self@[mid as int].0 == self.lists@[mid as int].0);
            if self.lists[mid].0 < key {
                proof {
                    assert forall|i: int| 0 <= i < mid + 1 implies (#[trigger] self@[i]).0 < key by {
                        if i < mid {
                            assert(self@[i].0 < self@[mid as int].0);
                        }
                    }
                }
                lo = mid + 1;
            } else {
                proof {
                    assert forall|i: int| mid <= i < self@.len() implies (
                    #[trigger] self@[i]).0 >= key by {
                        if mid < i {
                            assert(self@[mid as int].0 < self@[i].0);
                        }
                    }
                }
                hi = mid;
            }
        }
        proof {
            lemma_slot_unique(self@, key, lo as int);
        }
        let found: bool = lo < self.lists.len() && self.lists[lo].0 == key;
        (lo, found)
    }

    /// Puts `rows` as the list of `key`.
    pub fn put(&mut self, key: i64, rows: Bitmap)
        requires
            old(self).wf(),
            rows.wf(),
        ensures
            final(self).wf(),
            final(self)@ == put(old(self)@, key, rows@),
    {
        let (p, found) = self.find(key);
        let ghost before = self@;
        if found {
            self.lists.set(p, (key, rows));
        } else {
            self.lists.insert(p, (key, rows));
        }
        proof {
            lemma_put_sorted(before, key, rows@);
            assert(self@ =~= put(before, key, rows@));
        }
    }

    /// Adds `ordinal` under `key`.
    pub fn add(&mut self, key: i64, ordinal: u32)
        requires
            old(self).wf(),
        ensures
            final(self).wf(),
            final(self)@ == added(old(self)@, key, ordinal),
    {
        let mut rows: Bitmap = self.get(key);
        rows.insert(ordinal);
        self.put(key, rows);
    }

    /// The ordinals under `key`.
    pub fn get(&self, key: i64) -> (rows: Bitmap)
        requires
            self.wf(),
        ensures
            rows.wf(),
            rows@ == under(self@, key),
    {
        let (p, found) = self.find(key);
        if found {
            self.lists[p].1.clone()
        } else {
            Bitmap::new()
        }
    }

    /// The run of lists whose keys satisfy the comparison with `key`: from the
    /// first index to before the second.
    pub fn range_bounds(&self, op: RangeOp, key: i64) -> (r: (usize, usize))
        requires
            self.wf(),
        ensures
            r.0 <= r.1 <= self@.len(),
            forall|i: int|
                0 <= i < self@.len() ==> (r.0 <= i < r.1 <==> op.holds(
                    (#[trigger] self@[i]).0 as int,
                    key as int,
                )),
    {
        let n: usize = self.lists.len();
        let (p, found) = self.find(key);
        proof {
            lemma_slot(self@, key);
            assert(n == self@.len());
            if found {
                assert forall|i: int| p < i < self@.len() implies (#[trigger] self@[i]).0 > key by {
                    assert(self@[p as int].0 < self@[i].0);
                }
            }
        }
        let q: usize = if found {
            p + 1
        } else {
            p
        };
        match op {
            RangeOp::Lt => (0, p),
            RangeOp::Le => (0, q),
            RangeOp::Gt => (q, n),
            RangeOp::Ge => (p, n),
        }
    }

    /// The ordinals under every key that satisfies the comparison with `key`.
    pub fn range(&self, op: RangeOp, key: i64) -> (rows: Bitmap)
        requires
            self.wf(),
        ensures
            rows.wf(),
            rows@ == between(self@, op, key as int),
    {
        let (lo, hi) = self.range_bounds(op, key);
        let mut rows = Bitmap::new();
        let mut i: usize = lo;
        while i < hi
            invariant
                self.wf(),
                lo <= i <= hi <= self@.len(),
                self@.len() == self.lists@.len(),
                rows.wf(),
                forall|o: u32| #[trigger]
                    rows@.contains(o) <==> exists|k: int|
                        lo <= k < i && (#[trigger] self@[k]).1.contains(o),
            decreases hi - i,
        {
            let ghost before = rows@;
            rows.unite_with(&self.lists[i].1);
            proof {
                assert(self@[i as int].1 == self.lists@[i as int].1@);
                assert forall|o: u32| #[trigger] rows@.contains(o) <==> exists|k: int|
                    lo <= k < i + 1 && (#[trigger] self@[k]).1.contains(o) by {
                    if before.contains(o) {
                        let k = choose|k: int|
                            lo <= k < i && (#[trigger] self@[k]).1.contains(o);
                        assert(self@[k].1.contains(o));
                    }
                    if self@[i as int].1.contains(o) {
                        assert(rows@.contains(o));
                    }
                }
            }
            i += 1;
        }
        proof {
            assert forall|o: u32| rows@.contains(o) == between(self@, op, key as int).contains(
                o,
            ) by {
                if rows@.contains(o) {
                    let k = choose|k: int| lo <= k < i && (#[trigger] self@[k]).1.contains(o);
                    assert(op.holds(self@[k].0 as int, key as int));
                }
            }
            assert(rows@ =~= between(self@, op, key as int));
        }
        rows
    }
}

/// The index of the first list of the given name, or the number of lists.
pub open spec fn spot(lists: Seq<(Seq<char>, Set<u32>)>, name: Seq<char>) -> int
    decreases lists.len(),
{
    if lists.len() == 0 {
        0
    } else {
        let p = spot(lists.drop_last(), name);
        if p < lists.len() - 1 || lists.last().0 == name {
            p
        } else {
            lists.len() as int
        }
    }
}

/// Whether there is a list of the given name.
pub open spec fn named(lists: Seq<(Seq<char>, Set<u32>)>, name: Seq<char>) -> bool {
    spot(lists, name) < lists.len()
}

/// The ordinals listed under a name; none if there is no list.
pub open spec fn under_name(lists: Seq<(Seq<char>, Set<u32>)>, name: Seq<char>) -> Set<u32> {
    if named(lists, name) {
        lists[spot(lists, name)].1
    } else {
        Set::empty()
    }
}

/// The lists with `set` as the list of `name`; a new name goes to the end.
pub open spec fn put_name(
    lists: Seq<(Seq<char>, Set<u32>)>,
    name: Seq<char>,
    set: Set<u32>,
) -> Seq<(Seq<char>, Set<u32>)> {
    if named(lists, name) {
        lists.update(spot(lists, name), (name, set))
    } else {
        lists.push((name, set))
    }
}

/// The lists with `ordinal` added under `name`.
pub open spec fn added_name(
    lists: Seq<(Seq<char>, Set<u32>)>,
    name: Seq<char>,
    ordinal: u32,
) -> Seq<(Seq<char>, Set<u32>)> {
    put_name(lists, name, under_name(lists, name).insert(ordinal))
}

/// No name twice.
pub open spec fn unique_names(lists: Seq<(Seq<char>, Set<u32>)>) -> bool {
    forall|i: int, j: int| 0 <= i < j < lists.len() ==> (#[trigger] lists[i]).0 != (
    #[trigger] lists[j]).0
}

/// The spot of a name is the first index that has it.
pub proof fn lemma_spot(lists: Seq<(Seq<char>, Set<u32>)>, name: Seq<char>)
    ensures
        0 <= spot(lists, name) <= lists.len(),
        forall|i: int| 0 <= i < spot(lists, name) ==> (#[trigger] lists[i]).0 != name,
        spot(lists, name) < lists.len() ==> lists[spot(lists, name)].0 == name,
    decreases lists.len(),
{
    if lists.len() > 0 {
        let d = lists.drop_last();
        lemma_spot(d, name);
        assert forall|i: int| 0 <= i < spot(lists, name) implies (#[trigger] lists[i]).0 != name by {
            if i < d.len() {
                assert(d[i] == lists[i]);
            }
        }
        if spot(d, name) < d.len() {
            assert(d[spot(d, name)] == lists[spot(d, name)]);
        }
    }
}

/// An index with the name, and none before it, is the spot.
proof fn lemma_spot_unique(lists: Seq<(Seq<char>, Set<u32>)>, name: Seq<char>, p: int)
    requires
        0 <= p <= lists.len(),
        forall|i: int| 0 <= i < p ==> (#[trigger] lists[i]).0 != name,
        p < lists.len() ==> lists[p].0 == name,
    ensures
        spot(lists, name) == p,
{
    lemma_spot(lists, name);
    let q = spot(lists, name);
    if q < p {
        assert(lists[q].0 != name);
    }
    if p < q {
        assert(lists[p].0 != name);
    }
}

/// The index of a name is its spot.
pub proof fn lemma_spot_at(lists: Seq<(Seq<char>, Set<u32>)>, p: int)
    requires
        unique_names(lists),
        0 <= p < lists.len(),
    ensures
        spot(lists, lists[p].0) == p,
        named(lists, lists[p].0),
{
    assert forall|i: int| 0 <= i < p implies (#[trigger] lists[i]).0 != lists[p].0 by {}
    lemma_spot_unique(lists, lists[p].0, p);
}

/// Putting a list keeps names unique; its name then has that list and every other
/// name what it had.
pub proof fn lemma_put_name(
    lists: Seq<(Seq<char>, Set<u32>)>,
    name: Seq<char>,
    set: Set<u32>,
    other: Seq<char>,
)
    requires
        unique_names(lists),
    ensures
        unique_names(put_name(lists, name, set)),
        under_name(put_name(lists, name, set), other) == if other == name {
            set
        } else {
            under_name(lists, other)
        },
{
    let now = put_name(lists, name, set);
    lemma_spot(lists, name);
    lemma_spot(lists, other);
    lemma_spot(now, other);
    let p = spot(lists, name);
    assert(now[p] == (name, set));
    assert forall|i: int, j: int| 0 <= i < j < now.len() implies (#[trigger] now[i]).0 != (
    #[trigger] now[j]).0 by {
        if i < lists.len() && j < lists.len() {
            assert(lists[i].0 != lists[j].0);
        }
    }
    lemma_spot_at(now, p);
    let q = spot(lists, other);
    if other != name {
        if named(lists, other) {
            assert(now[q] == lists[q]);
            lemma_spot_at(now, q);
        } else if named(now, other) {
            let at = spot(now, other);
            assert(now[at] == lists[at]);
            lemma_spot_at(lists, at);
        }
    }
}

/// The posting lists of a text column, in the order in which the strings came.
pub struct TextPostings {
    names: Vec<String>,
    lists: Vec<Bitmap>,
}

impl View for TextPostings {
    type V = Seq<(Seq<char>, Set<u32>)>;

    closed spec fn view(&self) -> Seq<(Seq<char>, Set<u32>)> {
        Seq::new(self.names@.len(), |i: int| (self.names@[i]@, self.lists@[i]@))
    }
}

impl TextPostings {
    /// One list per name, no name twice, every bitmap well-formed.
    pub closed spec fn wf(&self) -> bool {
        &&& self.names@.len() == self.lists@.len()
        &&& unique_names(self@)
        &&& forall|i: int| 0 <= i < self.lists@.len() ==> (#[trigger] self.lists@[i]).wf()
    }

    /// What well-formedness says of the view.
    pub proof fn lemma_wf(&self)
        requires
            self.wf(),
        ensures
            unique_names(self@),
            self@.len() <= usize::MAX,
    {
        assert(self@.len() == self.names.len());
    }

    /// No lists.
    pub fn new() -> (p: TextPostings)
        ensures
            p.wf(),
            p@ == Seq::<(Seq<char>, Set<u32>)>::empty(),
    {
        let p = TextPostings { names: Vec::new(), lists: Vec::new() };
        proof {
            assert(p@ =~= Seq::<(Seq<char>, Set<u32>)>::empty());
        }
        p
    }

    /// How many strings have a list.
    pub fn len(&self) -> (n: usize)
        ensures
            n == self@.len(),
    {
        self.names.len()
    }

    /// The string at `i`.
    pub fn name(&self, i: usize) -> (s: &String)
        requires
            i < self@.len(),
        ensures
            s@ == self@[i as int].0,
    {
        &self.names[i]
    }

    /// The list at `i`.
    pub fn list(&self, i: usize) -> (b: &Bitmap)
        requires
            self.wf(),
            i < self@.len(),
        ensures
            b.wf(),
            b@ == self@[i as int].1,
    {
        &self.lists[i]
    }

    fn find(&self, name: &String) -> (p: usize)
        requires
            self.wf(),
        ensures
            p == spot(self@, name@),
            p <= self@.len(),
    {
        let mut i: usize = 0;
        while i < self.names.len()
            invariant
                i <= self.names@.len(),
                self@.len() == self.names@.len(),
                forall|k: int| 0 <= k < i ==> (#[trigger] self@[k]).0 != name@,
            decreases self.names@.len() - i,
        {
            if self.names[i] == *name {
                proof {
                    lemma_spot_unique(self@, name@, i as int);
                }
                return i;
            }
            i += 1;
        }
        proof {
            lemma_spot_unique(self@, name@, i as int);
        }
        i
    }

    /// Puts `rows` as the list of `name`.
    pub fn put(&mut self, name: String, rows: Bitmap)
        requires
            old(self).wf(),
            rows.wf(),
        ensures
            final(self).wf(),
            final(self)@ == put_name(old(self)@, name@, rows@),
    {
        let p: usize = self.find(&name);
        let ghost before = self@;
        proof {
            lemma_spot(before, name@);
            lemma_put_name(before, name@, rows@, name@);
        }
        if p < self.names.len() {
            self.lists.set(p, rows);
        } else {
            self.names.push(name);
            self.lists.push(rows);
        }
        proof {
            assert(self@ =~= put_name(before, name@, rows@));
        }
    }

    /// Adds `ordinal` under `name`.
    pub fn add(&mut self, name: &String, ordinal: u32)
        requires
            old(self).wf(),
        ensures
            final(self).wf(),
            final(self)@ == added_name(old(self)@, name@, ordinal),
    {
        let mut rows: Bitmap = self.get(name);
        rows.insert(ordinal);
        self.put(name.clone(), rows);
    }

    /// The ordinals under `name`.
    pub fn get(&self, name: &String) -> (rows: Bitmap)
        requires
            self.wf(),
        ensures
            rows.wf(),
            rows@ == under_name(self@, name@),
    {
        let p: usize = self.find(name);
        if p < self.names.len() {
            self.lists[p].clone()
        } else {
            Bitmap::new()
        }
    }
}

} // verus!
