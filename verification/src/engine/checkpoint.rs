//! Checkpoints: what is made durable in which order, and up to where the log may be
//! cut.
//!
//! Vectors and tombstones come before the header that counts them. The log is cut
//! last, once every store and the catalog are durable, and no further than the
//! slowest of them: what recovery still needs is in the log at every moment.

use vstd::prelude::*;

use crate::engine::stores;
use crate::engine::stores::StoresView;

verus! {

/// One step of a checkpoint. A step that fails ends the checkpoint: none of those
/// behind it is taken.
#[derive(Debug, Clone, Copy, PartialEq, Eq, Structural)]
pub enum Action {
    /// Flush the vectors and tombstones of a collection's flat index.
    SyncData {
        /// The collection.
        id: u32,
    },
    /// Write a collection's spare header slot and flush its page; from then on it is
    /// the active one.
    SyncHeader {
        /// The collection.
        id: u32,
        /// How many vectors it counts.
        count: u32,
        /// The log position that it claims.
        lsn: u64,
    },
    /// Save the snapshot of a collection's metadata index.
    SaveIndex {
        /// The collection.
        id: u32,
        /// The log position that it claims.
        lsn: u64,
    },
    /// Save the snapshot of a collection's tuple store.
    SaveRows {
        /// The collection.
        id: u32,
        /// The log position that it claims.
        lsn: u64,
    },
    /// Save the catalog.
    SaveCatalog {
        /// The log position that it claims.
        lsn: u64,
    },
    /// Cut the log.
    Truncate {
        /// The last log position that goes.
        through: u64,
    },
}

/// The least of a run of log positions; with none, the greatest number.
pub open spec fn floor(lsns: Seq<u64>) -> u64
    decreases lsns.len(),
{
    if lsns.len() == 0 {
        u64::MAX
    } else {
        let rest = floor(lsns.drop_last());
        if lsns.last() <= rest {
            lsns.last()
        } else {
            rest
        }
    }
}

/// Up to where the log may be cut when the given log positions are durable: up to
/// the least of them, or not at all if that is 0.
pub open spec fn truncation(lsns: Seq<u64>) -> Option<u64> {
    if floor(lsns) == u64::MAX || floor(lsns) == 0 {
        None
    } else {
        Some(floor(lsns))
    }
}

/// The steps of one collection.
pub open spec fn steps_of(id: u32, s: StoresView) -> Seq<Action> {
    seq![
        Action::SyncData { id },
        Action::SyncHeader { id, count: s.flat.count as u32, lsn: s.flat.last_applied },
        Action::SaveIndex { id, lsn: s.meta.applied },
        Action::SaveRows { id, lsn: s.tuple.applied },
    ]
}

/// The steps of some collections, in this order.
pub open spec fn steps(order: Seq<u32>, all: Map<u32, StoresView>) -> Seq<Action>
    decreases order.len(),
{
    if order.len() == 0 {
        Seq::empty()
    } else {
        steps(order.drop_last(), all) + steps_of(order.last(), all[order.last()])
    }
}

/// The log positions that those steps make durable.
pub open spec fn marks(order: Seq<u32>, all: Map<u32, StoresView>) -> Seq<u64>
    decreases order.len(),
{
    if order.len() == 0 {
        Seq::empty()
    } else {
        let s = all[order.last()];
        marks(order.drop_last(), all) + seq![s.flat.last_applied, s.meta.applied, s.tuple.applied]
    }
}

/// A whole checkpoint: every collection, then the catalog, then the log.
pub open spec fn plan(order: Seq<u32>, all: Map<u32, StoresView>, stamp: u64) -> Seq<Action> {
    let made = steps(order, all).push(Action::SaveCatalog { lsn: stamp });
    match truncation(marks(order, all).push(stamp)) {
        Some(through) => made.push(Action::Truncate { through }),
        None => made,
    }
}

/// Every collection comes once.
pub open spec fn covers(order: Seq<u32>, all: Map<u32, StoresView>) -> bool {
    &&& order.no_duplicates()
    &&& forall|id: u32| all.contains_key(id) <==> #[trigger] order.contains(id)
}

/// The log position that a step makes durable.
pub open spec fn claimed(a: Action) -> Option<u64> {
    match a {
        Action::SyncHeader { lsn, .. } => Some(lsn),
        Action::SaveIndex { lsn, .. } => Some(lsn),
        Action::SaveRows { lsn, .. } => Some(lsn),
        Action::SaveCatalog { lsn } => Some(lsn),
        _ => None,
    }
}

/// What one more position does to the floor.
pub proof fn lemma_floor_push(lsns: Seq<u64>, lsn: u64)
    ensures
        floor(lsns.push(lsn)) == if lsn <= floor(lsns) {
            lsn
        } else {
            floor(lsns)
        },
{
    assert(lsns.push(lsn).drop_last() =~= lsns);
}

/// The floor is below every position, and is one of them unless there is none.
pub proof fn law_floor(lsns: Seq<u64>)
    ensures
        forall|i: int| 0 <= i < lsns.len() ==> floor(lsns) <= #[trigger] lsns[i],
        lsns.len() > 0 ==> lsns.contains(floor(lsns)),
        lsns.len() == 0 ==> floor(lsns) == u64::MAX,
    decreases lsns.len(),
{
    if lsns.len() > 0 {
        let rest = lsns.drop_last();
        law_floor(rest);
        assert forall|i: int| 0 <= i < lsns.len() implies floor(lsns) <= #[trigger] lsns[i] by {
            if i < rest.len() {
                assert(lsns[i] == rest[i]);
            }
        }
        if lsns.last() <= floor(rest) {
            assert(lsns[lsns.len() - 1] == floor(lsns));
        } else {
            let k = choose|k: int| 0 <= k < rest.len() && rest[k] == floor(rest);
            assert(lsns[k] == floor(lsns));
        }
    }
}

proof fn lemma_claims(order: Seq<u32>, all: Map<u32, StoresView>, i: int)
    requires
        0 <= i < steps(order, all).len(),
    ensures
        !(steps(order, all)[i] is Truncate),
        claimed(steps(order, all)[i]) matches Some(lsn) ==> marks(order, all).contains(lsn),
        steps(order, all)[i] matches Action::SyncHeader { id, .. } ==> i > 0 && steps(
            order,
            all,
        )[i - 1] == (Action::SyncData { id }),
    decreases order.len(),
{
    let before = steps(order.drop_last(), all);
    let s = all[order.last()];
    let earlier = marks(order.drop_last(), all);
    let own = seq![s.flat.last_applied, s.meta.applied, s.tuple.applied];
    if i < before.len() {
        lemma_claims(order.drop_last(), all, i);
        if let Some(lsn) = claimed(before[i]) {
            let k = choose|k: int| 0 <= k < earlier.len() && earlier[k] == lsn;
            assert((earlier + own)[k] == lsn);
        }
    } else {
        assert((earlier + own)[earlier.len() as int] == s.flat.last_applied);
        assert((earlier + own)[earlier.len() as int + 1] == s.meta.applied);
        assert((earlier + own)[earlier.len() as int + 2] == s.tuple.applied);
    }
}

/// The log is cut last, and no further than what any step before has made durable.
pub proof fn law_the_log_is_cut_last(
    order: Seq<u32>,
    all: Map<u32, StoresView>,
    stamp: u64,
    i: int,
)
    requires
        0 <= i < plan(order, all, stamp).len(),
        plan(order, all, stamp)[i] is Truncate,
    ensures
        i == plan(order, all, stamp).len() - 1,
        forall|k: int|
            0 <= k < i ==> (claimed(#[trigger] plan(order, all, stamp)[k]) matches Some(lsn)
                ==> plan(order, all, stamp)[i]->through <= lsn),
{
    let p = plan(order, all, stamp);
    let made = steps(order, all);
    let lsns = marks(order, all).push(stamp);
    law_floor(lsns);
    if i < made.len() {
        lemma_claims(order, all, i);
    }
    assert forall|k: int| 0 <= k < i implies (claimed(#[trigger] p[k]) matches Some(lsn)
        ==> p[i]->through <= lsn) by {
        if k < made.len() {
            assert(p[k] == made[k]);
            lemma_claims(order, all, k);
            if let Some(lsn) = claimed(p[k]) {
                let j = choose|j: int|
                    0 <= j < marks(order, all).len() && marks(order, all)[j] == lsn;
                assert(lsns[j] == lsn);
            }
        } else {
            assert(lsns[lsns.len() - 1] == stamp);
        }
    }
}

/// A header is written only right after the vectors and tombstones that it counts
/// were flushed.
pub proof fn law_data_comes_before_its_header(
    order: Seq<u32>,
    all: Map<u32, StoresView>,
    stamp: u64,
    i: int,
)
    requires
        0 <= i < plan(order, all, stamp).len(),
        plan(order, all, stamp)[i] is SyncHeader,
    ensures
        i > 0,
        plan(order, all, stamp)[i - 1] == (Action::SyncData {
            id: plan(order, all, stamp)[i]->SyncHeader_id,
        }),
{
    let made = steps(order, all);
    if i < made.len() {
        assert(plan(order, all, stamp)[i] == made[i]);
        lemma_claims(order, all, i);
        assert(plan(order, all, stamp)[i - 1] == made[i - 1]);
    }
}

/// The log positions that recovery finds after a whole checkpoint.
pub open spec fn found(order: Seq<u32>, all: Map<u32, StoresView>) -> Seq<u64> {
    Seq::new(
        order.len(),
        |i: int|
            {
                let s = all[order[i]];
                stores::least(s.flat.last_applied, s.meta.applied, s.tuple.applied)
            },
    )
}

proof fn lemma_found(order: Seq<u32>, all: Map<u32, StoresView>)
    ensures
        floor(found(order, all)) == floor(marks(order, all)),
    decreases order.len(),
{
    if order.len() > 0 {
        lemma_found(order.drop_last(), all);
        assert(found(order, all).drop_last() =~= found(order.drop_last(), all));
        let s = all[order.last()];
        let m = marks(order.drop_last(), all);
        let a = m.push(s.flat.last_applied);
        let b = a.push(s.meta.applied);
        assert(marks(order, all) =~= b.push(s.tuple.applied));
        lemma_floor_push(m, s.flat.last_applied);
        lemma_floor_push(a, s.meta.applied);
        lemma_floor_push(b, s.tuple.applied);
    }
}

/// After a whole checkpoint, recovery starts exactly where the log was cut: no
/// record that it needs is gone, and none that it skips is kept.
pub proof fn law_recovery_starts_at_the_cut(
    order: Seq<u32>,
    all: Map<u32, StoresView>,
    stamp: u64,
)
    ensures
        truncation(marks(order, all).push(stamp)) matches Some(through) ==> floor(
            found(order, all).push(stamp),
        ) == through,
{
    lemma_found(order, all);
    lemma_floor_push(marks(order, all), stamp);
    lemma_floor_push(found(order, all), stamp);
}

/// A checkpoint that stops part-way loses nothing: the log was cut no further than
/// what was durable before, and no store has fallen back since.
pub proof fn law_a_stopped_checkpoint_loses_nothing(old_marks: Seq<u64>, now: Seq<u64>, cut: u64)
    requires
        cut <= floor(old_marks),
        now.len() == old_marks.len(),
        forall|i: int| 0 <= i < now.len() ==> #[trigger] old_marks[i] <= now[i],
    ensures
        cut <= floor(now),
{
    law_floor(old_marks);
    law_floor(now);
    if now.len() > 0 {
        let k = choose|k: int| 0 <= k < now.len() && now[k] == floor(now);
        assert(old_marks[k] <= now[k]);
    }
}

/// The log position behind which recovery starts: the least that any store of any
/// collection or the catalog is durable up to. Records up to it are in every store;
/// a record beyond it may be in some, which applying it again does not disturb.
pub fn skip_through(watermarks: &[u64], catalog_lsn: u64) -> (lsn: u64)
    ensures
        lsn == if floor(watermarks@.push(catalog_lsn)) == u64::MAX {
            0
        } else {
            floor(watermarks@.push(catalog_lsn))
        },
{
    let mut min: u64 = 0xffff_ffff_ffff_ffff;
    let mut i: usize = 0;
    while i < watermarks.len()
        invariant
            i <= watermarks@.len(),
            min == floor(watermarks@.take(i as int)),
        decreases watermarks@.len() - i,
    {
        proof {
            assert(watermarks@.take(i + 1).drop_last() =~= watermarks@.take(i as int));
        }
        if watermarks[i] <= min {
            min = watermarks[i];
        }
        i += 1;
    }
    proof {
        assert(watermarks@.take(i as int) =~= watermarks@);
        assert(watermarks@.push(catalog_lsn).drop_last() =~= watermarks@);
    }
    if catalog_lsn <= min {
        min = catalog_lsn;
    }
    if min == 0xffff_ffff_ffff_ffff {
        0
    } else {
        min
    }
}

proof fn lemma_steps_hold(order: Seq<u32>, all: Map<u32, StoresView>, k: int)
    requires
        0 <= k < order.len(),
    ensures
        steps(order, all).len() == 4 * order.len(),
        steps(order, all)[4 * k] == (Action::SyncData { id: order[k] }),
        steps(order, all)[4 * k + 1] == (Action::SyncHeader {
            id: order[k],
            count: all[order[k]].flat.count as u32,
            lsn: all[order[k]].flat.last_applied,
        }),
        steps(order, all)[4 * k + 2] == (Action::SaveIndex {
            id: order[k],
            lsn: all[order[k]].meta.applied,
        }),
        steps(order, all)[4 * k + 3] == (Action::SaveRows {
            id: order[k],
            lsn: all[order[k]].tuple.applied,
        }),
    decreases order.len(),
{
    let before = order.drop_last();
    if before.len() > 0 {
        lemma_steps_hold(before, all, if k < before.len() {
            k
        } else {
            0
        });
    } else {
        assert(steps(before, all).len() == 0);
    }
}

/// A checkpoint goes over every collection: its vectors, its header with its count and
/// the position that its flat index has applied, its metadata index and its rows, each
/// with the position that it has applied; then the catalog with its stamp.
pub proof fn law_checkpoint_saves_everything(
    order: Seq<u32>,
    all: Map<u32, StoresView>,
    stamp: u64,
    k: int,
)
    requires
        0 <= k < order.len(),
    ensures
        ({
            let p = plan(order, all, stamp);
            let (id, s) = (order[k], all[order[k]]);
            &&& p[4 * k] == (Action::SyncData { id })
            &&& p[4 * k + 1] == (Action::SyncHeader {
                id,
                count: s.flat.count as u32,
                lsn: s.flat.last_applied,
            })
            &&& p[4 * k + 2] == (Action::SaveIndex { id, lsn: s.meta.applied })
            &&& p[4 * k + 3] == (Action::SaveRows { id, lsn: s.tuple.applied })
            &&& p[4 * order.len() as int] == (Action::SaveCatalog { lsn: stamp })
        }),
{
    lemma_steps_hold(order, all, k);
}

/// The log is cut exactly up to the least position that any store or the catalog has
/// reached, and not at all if that is 0.
pub proof fn law_the_cut_is_the_least(order: Seq<u32>, all: Map<u32, StoresView>, stamp: u64)
    ensures
        ({
            let p = plan(order, all, stamp);
            let n = 4 * order.len() as int;
            let cut = p.len() == n + 2;
            &&& p.len() == n + 1 || cut && p[n + 1] is Truncate
            &&& cut ==> {
                let through = p[n + 1]->through;
                &&& through > 0
                &&& through <= stamp
                &&& forall|k: int|
                    0 <= k < order.len() ==> {
                        let s = all[#[trigger] order[k]];
                        &&& through <= s.flat.last_applied
                        &&& through <= s.meta.applied
                        &&& through <= s.tuple.applied
                    }
                &&& through == stamp || exists|k: int|
                    0 <= k < order.len() && {
                        let s = all[#[trigger] order[k]];
                        through == s.flat.last_applied || through == s.meta.applied || through
                            == s.tuple.applied
                    }
            }
            &&& !cut ==> stamp == 0 || stamp == u64::MAX || exists|k: int|
                0 <= k < order.len() && {
                    let s = all[#[trigger] order[k]];
                    s.flat.last_applied == 0 || s.meta.applied == 0 || s.tuple.applied == 0
                }
        }),
{
    let lsns = marks(order, all).push(stamp);
    law_floor(lsns);
    lemma_marks(order, all);
    if order.len() > 0 {
        lemma_steps_hold(order, all, 0);
    }
    let m = floor(lsns);
    assert(lsns[lsns.len() - 1] == stamp);
    let i = choose|i: int| 0 <= i < lsns.len() && lsns[i] == m;
    assert forall|k: int| 0 <= k < order.len() implies {
        let s = all[#[trigger] order[k]];
        &&& m <= s.flat.last_applied
        &&& m <= s.meta.applied
        &&& m <= s.tuple.applied
    } by {
        assert(lsns[3 * k] == marks(order, all)[3 * k]);
        assert(lsns[3 * k + 1] == marks(order, all)[3 * k + 1]);
        assert(lsns[3 * k + 2] == marks(order, all)[3 * k + 2]);
    }
    if i < lsns.len() - 1 {
        let k = i / 3;
        let s = all[order[k]];
        assert(marks(order, all)[3 * k] == s.flat.last_applied);
        assert(marks(order, all)[3 * k + 1] == s.meta.applied);
        assert(marks(order, all)[3 * k + 2] == s.tuple.applied);
        assert(m == s.flat.last_applied || m == s.meta.applied || m == s.tuple.applied);
    }
}

proof fn lemma_marks(order: Seq<u32>, all: Map<u32, StoresView>)
    ensures
        marks(order, all).len() == 3 * order.len(),
        forall|k: int|
            0 <= k < order.len() ==> {
                let s = all[#[trigger] order[k]];
                &&& marks(order, all)[3 * k] == s.flat.last_applied
                &&& marks(order, all)[3 * k + 1] == s.meta.applied
                &&& marks(order, all)[3 * k + 2] == s.tuple.applied
            },
    decreases order.len(),
{
    if order.len() > 0 {
        let before = order.drop_last();
        lemma_marks(before, all);
        assert forall|k: int| 0 <= k < order.len() implies {
            let s = all[#[trigger] order[k]];
            &&& marks(order, all)[3 * k] == s.flat.last_applied
            &&& marks(order, all)[3 * k + 1] == s.meta.applied
            &&& marks(order, all)[3 * k + 2] == s.tuple.applied
        } by {
            if k < before.len() {
                assert(order[k] == before[k]);
            }
        }
    }
}

} // verus!
