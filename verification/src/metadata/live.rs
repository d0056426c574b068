//! Liveness snapshots: one immutable set of live ordinals per version, built at
//! most once per version and only when somebody asks.

use std::sync::Arc;
use vstd::prelude::*;

use crate::bitmap::Bitmap;
use crate::metadata::index::Reader;

verus! {

/// An immutable snapshot of one collection's live ordinals, with the version that
/// it reflects.
pub struct LiveSet {
    version: u64,
    live: Bitmap,
}

/// What a [`LiveSet`] holds.
pub struct LiveView {
    /// The version that the snapshot reflects.
    pub version: u64,
    /// The ordinals alive at that version.
    pub live: Set<u32>,
}

impl View for LiveSet {
    type V = LiveView;

    closed spec fn view(&self) -> LiveView {
        LiveView { version: self.version, live: self.live@ }
    }
}

impl LiveSet {
    /// The set underneath is well-formed.
    pub closed spec fn wf(&self) -> bool {
        self.live.wf()
    }

    /// A snapshot of `live` labeled `version`. The two must have been read at one
    /// moment.
    pub fn new(version: u64, live: Bitmap) -> (s: LiveSet)
        requires
            live.wf(),
        ensures
            s.wf(),
            s@.version == version,
            s@.live == live@,
    {
        LiveSet { version, live }
    }

    /// The version that the snapshot reflects.
    pub fn version(&self) -> (v: u64)
        ensures
            v == self@.version,
    {
        self.version
    }

    /// Whether `ordinal` is alive in the snapshot.
    pub fn contains(&self, ordinal: u32) -> (r: bool)
        requires
            self.wf(),
        ensures
            r == self@.live.contains(ordinal),
    {
        self.live.contains(ordinal)
    }

    /// How many ordinals are alive.
    pub fn len(&self) -> (n: u64)
        requires
            self.wf(),
        ensures
            n == self@.live.len(),
    {
        self.live.len()
    }

    /// Whether no ordinal is alive.
    pub fn is_empty(&self) -> (r: bool)
        requires
            self.wf(),
        ensures
            r == (self@.live == Set::<u32>::empty()),
    {
        self.live.is_empty()
    }

    /// The set itself.
    pub fn bitmap(&self) -> (b: &Bitmap)
        requires
            self.wf(),
        ensures
            b.wf(),
            b@ == self@.live,
    {
        &self.live
    }

    /// The live ordinals in ascending order.
    pub fn iter(&self) -> (items: Vec<u32>)
        requires
            self.wf(),
        ensures
            crate::bitmap::ascending(items@),
            items@.to_set() == self@.live,
    {
        self.live.to_vec()
    }
}

/// The publish point for one collection's liveness: a version that rises with
/// every change, and the newest snapshot that somebody asked for.
///
/// A snapshot's label may lag the state that it holds and never leads it: the
/// version is raised after the change is in, and [`LiveHandle::resolve`] reads
/// version and state in one step.
pub struct LiveHandle {
    version: u64,
    cached: Option<Arc<LiveSet>>,
    materializations: u64,
}

/// What a [`LiveHandle`] holds.
pub struct HandleView {
    /// The current version.
    pub version: u64,
    /// The newest snapshot, if any was built.
    pub cached: Option<LiveView>,
    /// How many snapshots were built.
    pub built: u64,
}

impl View for LiveHandle {
    type V = HandleView;

    closed spec fn view(&self) -> HandleView {
        HandleView {
            version: self.version,
            cached: match self.cached {
                Some(set) => Some(set@),
                None => None,
            },
            built: self.materializations,
        }
    }
}

impl HandleView {
    /// Version 0, and no snapshot.
    pub open spec fn start() -> HandleView {
        HandleView { version: 0, cached: None, built: 0 }
    }

    /// The cached snapshot is of the current version.
    pub open spec fn fresh(self) -> bool {
        self.cached matches Some(s) && s.version == self.version
    }

    /// The handle after the version was raised.
    pub open spec fn bumped(self) -> HandleView {
        HandleView { version: u64_next(self.version), ..self }
    }

    /// The snapshot that a reader gets when `live` is the live set now.
    pub open spec fn snapshot(self, live: Set<u32>) -> LiveView {
        if self.fresh() {
            self.cached->0
        } else {
            LiveView { version: self.version, live }
        }
    }

    /// The handle after a reader asked: a fresh snapshot is reused, any other is
    /// replaced by a new one.
    pub open spec fn resolved(self, live: Set<u32>) -> HandleView {
        if self.fresh() {
            self
        } else {
            HandleView {
                cached: Some(self.snapshot(live)),
                built: u64_next(self.built),
                ..self
            }
        }
    }
}

/// The number after `n`; after the largest comes 0.
pub open spec fn u64_next(n: u64) -> u64 {
    if n == u64::MAX {
        0
    } else {
        (n + 1) as u64
    }
}

impl<'a> Reader<'a> {
    /// A publish point for the liveness of this index, at version 0 and without any
    /// snapshot. There should be one for an index: two would not share snapshots.
    pub fn live_handle(&self) -> (h: LiveHandle)
        ensures
            h.wf(),
            h@ == HandleView::start(),
    {
        LiveHandle::new()
    }
}

impl LiveHandle {
    /// The cached snapshot is well-formed.
    pub closed spec fn wf(&self) -> bool {
        self.cached matches Some(set) ==> set.wf()
    }

    /// A handle at version 0 without any snapshot.
    fn new() -> (h: LiveHandle)
        ensures
            h.wf(),
            h@ == HandleView::start(),
    {
        LiveHandle { version: 0, cached: None, materializations: 0 }
    }

    /// The current version.
    pub fn version(&self) -> (v: u64)
        ensures
            v == self@.version,
    {
        self.version
    }

    /// Raises the version, which makes every snapshot built so far stale. To be
    /// called once the change is in.
    pub fn bump(&mut self)
        requires
            old(self).wf(),
        ensures
            final(self).wf(),
            final(self)@ == old(self)@.bumped(),
    {
        self.version = self.version.wrapping_add(1);
    }

    /// The newest snapshot, whether it is current or not.
    pub fn cached(&self) -> (r: Option<Arc<LiveSet>>)
        requires
            self.wf(),
        ensures
            match r {
                Some(set) => set.wf() && self@.cached == Some(set@),
                None => self@.cached is None,
            },
    {
        match &self.cached {
            Some(set) => Some(Arc::clone(set)),
            None => None,
        }
    }

    /// The snapshot of the current version, built from `state` if nobody asked
    /// for this version yet.
    pub fn resolve(&mut self, state: &Reader<'_>) -> (set: Arc<LiveSet>)
        requires
            old(self).wf(),
            state.wf(),
        ensures
            final(self).wf(),
            set.wf(),
            set@ == old(self)@.snapshot(state@.live),
            final(self)@ == old(self)@.resolved(state@.live),
    {
        if let Some(set) = &self.cached {
            if set.version() == self.version {
                return Arc::clone(set);
            }
        }
        let set: Arc<LiveSet> = Arc::new(LiveSet::new(self.version, state.live()));
        self.materializations = self.materializations.wrapping_add(1);
        self.cached = Some(Arc::clone(&set));
        set
    }

    /// How many snapshots were built over the handle's life.
    pub fn materializations(&self) -> (n: u64)
        ensures
            n == self@.built,
    {
        self.materializations
    }
}

/// What happens to a collection's liveness: a change goes in, the version is
/// raised for a change that is in, or a reader asks for a snapshot.
pub enum Step {
    /// A change goes in, and this is the live set behind it.
    Change(Set<u32>),
    /// The version is raised.
    Publish,
    /// A reader asks.
    Ask,
}

/// A handle beside the live sets that its index has had.
pub struct Trace {
    /// The handle.
    pub handle: HandleView,
    /// The live set at the start, and behind each change.
    pub states: Seq<Set<u32>>,
}

impl Trace {
    /// A fresh handle for an index with the given live set.
    pub open spec fn start(live: Set<u32>) -> Trace {
        Trace { handle: HandleView::start(), states: seq![live] }
    }

    /// How many changes are in.
    pub open spec fn changes(self) -> int {
        self.states.len() - 1
    }

    /// One step. The version is raised only for a change that is in already.
    pub open spec fn next(self, step: Step) -> Trace {
        match step {
            Step::Change(live) => Trace { states: self.states.push(live), ..self },
            Step::Publish => if self.handle.version < self.changes() {
                Trace { handle: self.handle.bumped(), ..self }
            } else {
                self
            },
            Step::Ask => Trace { handle: self.handle.resolved(self.states.last()), ..self },
        }
    }

    /// The state after a run of steps.
    pub open spec fn after(live: Set<u32>, steps: Seq<Step>) -> Trace
        decreases steps.len(),
    {
        if steps.len() == 0 {
            Trace::start(live)
        } else {
            Trace::after(live, steps.drop_last()).next(steps.last())
        }
    }

    /// The snapshot is a live set that the index has had, with at least as many
    /// changes in it as its label says.
    pub open spec fn label_covered(self, snapshot: LiveView) -> bool {
        exists|held: int|
            snapshot.version <= held <= self.changes() && #[trigger] self.states[held]
                == snapshot.live
    }
}

/// In every run the label of the cached snapshot never leads the changes that it
/// holds, and at most one snapshot is built per version: versions 0 to its label
/// allow for no more than `label + 1`. The run is short enough for the version not to
/// wrap around.
pub proof fn law_label_never_leads(live: Set<u32>, steps: Seq<Step>)
    requires
        steps.len() <= u64::MAX,
    ensures
        ({
            let t = Trace::after(live, steps);
            &&& t.handle.version <= t.changes() <= steps.len()
            &&& match t.handle.cached {
                None => t.handle.built == 0,
                Some(snapshot) => {
                    &&& snapshot.version <= t.handle.version
                    &&& t.label_covered(snapshot)
                    &&& t.handle.built <= snapshot.version + 1
                    &&& t.handle.built <= steps.len()
                },
            }
        }),
    decreases steps.len(),
{
    if steps.len() > 0 {
        let before = Trace::after(live, steps.drop_last());
        let t = Trace::after(live, steps);
        law_label_never_leads(live, steps.drop_last());
        match steps.last() {
            Step::Ask => {
                if !before.handle.fresh() {
                    assert(t.states[t.changes()] == t.handle.cached->0.live);
                }
            },
            _ => {},
        }
        if let Some(snapshot) = before.handle.cached {
            let held = choose|held: int|
                snapshot.version <= held <= before.changes() && #[trigger] before.states[held]
                    == snapshot.live;
            assert(t.states[held] == snapshot.live);
        }
    }
}

/// A snapshot that a reader gets at any moment of any run is covered by its label
/// in the same way.
pub proof fn law_reader_label_never_leads(live: Set<u32>, steps: Seq<Step>)
    requires
        steps.len() <= u64::MAX,
    ensures
        ({
            let t = Trace::after(live, steps);
            let snapshot = t.handle.snapshot(t.states.last());
            &&& snapshot.version == t.handle.version
            &&& t.label_covered(snapshot)
        }),
{
    let t = Trace::after(live, steps);
    law_label_never_leads(live, steps);
    assert(t.states[t.changes()] == t.states.last());
}

/// A run in which nobody asks builds nothing.
pub proof fn law_writes_build_nothing(live: Set<u32>, steps: Seq<Step>)
    requires
        forall|i: int| 0 <= i < steps.len() ==> #[trigger] steps[i] !is Ask,
    ensures
        Trace::after(live, steps).handle.built == 0,
        Trace::after(live, steps).handle.cached is None,
    decreases steps.len(),
{
    if steps.len() > 0 {
        let d = steps.drop_last();
        assert forall|i: int| 0 <= i < d.len() implies #[trigger] d[i] !is Ask by {
            assert(d[i] == steps[i]);
        }
        law_writes_build_nothing(live, d);
        assert(steps[steps.len() - 1] !is Ask);
    }
}

/// Asking twice without a version in between gives the same snapshot, also when
/// the state has changed, and builds at most one.
pub proof fn law_ask_again_reuses(handle: HandleView, live: Set<u32>, later: Set<u32>)
    ensures
        handle.resolved(live).snapshot(later) == handle.snapshot(live),
        handle.resolved(live).resolved(later) == handle.resolved(live),
        handle.resolved(live).fresh(),
{
}

/// Raising the version makes the cached snapshot stale, so the next reader gets
/// the state of now.
pub proof fn law_bump_invalidates(handle: HandleView, live: Set<u32>, later: Set<u32>)
    ensures
        !handle.resolved(live).bumped().fresh(),
        handle.resolved(live).bumped().snapshot(later).live == later,
{
}

/// A snapshot that is built is of the current version and holds the live set as it is now;
/// one that is reused is the cached one. Each build counts.
pub proof fn law_snapshot_is_of_now(handle: HandleView, live: Set<u32>)
    ensures
        !(handle.cached is Some && handle.cached->0.version == handle.version) ==> {
            &&& handle.snapshot(live).version == handle.version
            &&& handle.snapshot(live).live == live
            &&& handle.resolved(live).cached == Some(handle.snapshot(live))
            &&& handle.built < u64::MAX ==> handle.resolved(live).built == handle.built + 1
        },
        handle.cached is Some && handle.cached->0.version == handle.version ==> {
            &&& handle.snapshot(live) == handle.cached->0
            &&& handle.resolved(live) == handle
        },
        handle.resolved(live).version == handle.version,
{
}

/// Raising the version adds one to it and touches nothing else.
pub proof fn law_bump_adds_one(handle: HandleView)
    ensures
        handle.version < u64::MAX ==> handle.bumped().version == handle.version + 1,
        handle.bumped().cached == handle.cached,
        handle.bumped().built == handle.built,
        HandleView::start().version == 0,
        HandleView::start().cached is None,
        HandleView::start().built == 0,
{
}

} // verus!
