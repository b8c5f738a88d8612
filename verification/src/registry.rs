//! The registry: accumulated offsets, the flush timer and the share count,
//! as one state value with a transition for every event.
//!
//! The registry performs no I/O and reads no clock. Each transition takes
//! the current clock reading where it needs one and returns, where a commit
//! is to be made, a [`CommitRequest`] that says what to commit, in which
//! mode, and where the outcome is to go. The caller holds the registry
//! behind its lock, carries requests out on a copy of the offsets after
//! releasing the lock, and keeps the observer function beside the state.

use crate::offsets::OffsetMap;
use crate::schedule::{flush_due, is_due, last_after};
use crate::store::{grouped, offset_map_to_tpl, TopicPartitionList};
use vstd::prelude::*;

verus! {

/// Whether a commit waits for the broker's acknowledgment.
#[derive(Clone, Copy, PartialEq, Eq, Debug, Structural)]
pub enum CommitMode {
    /// Block until the broker has acknowledged.
    Sync,
    /// Send the request and return at once.
    Async,
}

/// Where the outcome of a commit is to go.
#[derive(Clone, Copy, PartialEq, Eq, Debug, Structural)]
pub enum ResultRoute {
    /// To the registered observer, together with the snapshot.
    Observer,
    /// Back to whoever asked for the commit.
    Caller,
    /// Nowhere: nobody is left to look at it.
    Discard,
}

/// A commit to carry out.
pub struct CommitRequest {
    /// The offsets to commit, grouped by topic.
    pub offsets: TopicPartitionList,
    /// The mode to commit in.
    pub mode: CommitMode,
    /// A copy of the offset map as of this flush.
    pub snapshot: OffsetMap,
    /// Where the outcome goes.
    pub route: ResultRoute,
}

/// What becomes of the outcome of a commit that was carried out.
pub enum Delivery<E> {
    /// The observer is called once, with the request's snapshot and this
    /// outcome.
    Observer(Result<(), E>),
    /// The outcome is returned to the caller of the explicit commit.
    Caller(Result<(), E>),
    /// The outcome is dropped.
    Dropped,
}

/// The delivery of `outcome` along `route`. The outcome, success or error,
/// is passed on as it came; nothing is retried.
pub open spec fn delivery_of<E>(route: ResultRoute, outcome: Result<(), E>) -> Delivery<E> {
    match route {
        ResultRoute::Observer => Delivery::Observer(outcome),
        ResultRoute::Caller => Delivery::Caller(outcome),
        ResultRoute::Discard => Delivery::Dropped,
    }
}

/// The registry's state as plain values.
pub ghost struct RegistryView {
    pub offsets: Map<(Seq<char>, i32), i64>,
    pub last_commit_time: u64,
    pub commit_interval: u64,
    pub commit_mode: CommitMode,
    pub has_callback: bool,
    pub handles: nat,
}

impl CommitRequest {
    /// The request carries exactly the offsets of state `v`, in its
    /// configured mode, with the outcome routed to `route`.
    pub open spec fn flushes(&self, v: RegistryView, route: ResultRoute) -> bool {
        &&& self.offsets@ == grouped(v.offsets)
        &&& self.snapshot@ == v.offsets
        &&& self.mode == v.commit_mode
        &&& self.route == route
    }
}

impl CommitRequest {
    /// Routes the outcome of this commit, once it has been carried out.
    pub fn deliver<E>(&self, outcome: Result<(), E>) -> (d: Delivery<E>)
        ensures
            d == delivery_of(self.route, outcome),
    {
        match self.route {
            ResultRoute::Observer => Delivery::Observer(outcome),
            ResultRoute::Caller => Delivery::Caller(outcome),
            ResultRoute::Discard => Delivery::Dropped,
        }
    }
}

/// Where the outcome of a scheduled flush goes: to the observer if one is
/// registered, else nowhere.
pub open spec fn scheduled_route(has_callback: bool) -> ResultRoute {
    if has_callback {
        ResultRoute::Observer
    } else {
        ResultRoute::Discard
    }
}

/// Where outcomes go. The outcome of a scheduled flush made while an
/// observer is registered is handed to the observer, once and as it came,
/// together with a snapshot equal to the offsets as of that flush; without
/// an observer it is dropped. The outcome of an explicit commit goes to the
/// caller and never to the observer; that of the final commit is dropped.
pub proof fn lemma_outcome_routes<E>(request: CommitRequest, v: RegistryView, outcome: Result<(), E>)
    ensures
        request.flushes(v, scheduled_route(true)) ==> delivery_of(request.route, outcome)
            == Delivery::Observer(outcome) && request.snapshot@ == v.offsets,
        request.flushes(v, scheduled_route(false)) ==> delivery_of(request.route, outcome)
            == Delivery::<E>::Dropped,
        request.flushes(v, ResultRoute::Caller) ==> delivery_of(request.route, outcome)
            == Delivery::Caller(outcome),
        request.flushes(v, ResultRoute::Discard) ==> delivery_of(request.route, outcome)
            == Delivery::<E>::Dropped,
{
}

/// The state shared by all handles of one registry.
pub struct AutoCommitRegistry {
    offsets: OffsetMap,
    last_commit_time: u64,
    commit_interval: u64,
    commit_mode: CommitMode,
    has_callback: bool,
    handles: u64,
}

impl View for AutoCommitRegistry {
    type V = RegistryView;

    closed spec fn view(&self) -> RegistryView {
        RegistryView {
            offsets: self.offsets@,
            last_commit_time: self.last_commit_time,
            commit_interval: self.commit_interval,
            commit_mode: self.commit_mode,
            has_callback: self.has_callback,
            handles: self.handles as nat,
        }
    }
}

impl AutoCommitRegistry {
    /// At least one handle is left.
    pub open spec fn is_active(&self) -> bool {
        self@.handles > 0
    }

    /// A registry with no offsets and no observer, held by one handle, whose
    /// timer starts at `now`.
    pub fn new(commit_interval: u64, commit_mode: CommitMode, now: u64) -> (r: AutoCommitRegistry)
        ensures
            r@ == (RegistryView {
                offsets: Map::empty(),
                last_commit_time: now,
                commit_interval,
                commit_mode,
                has_callback: false,
                handles: 1,
            }),
    {
        AutoCommitRegistry {
            offsets: OffsetMap::new(),
            last_commit_time: now,
            commit_interval,
            commit_mode,
            has_callback: false,
            handles: 1,
        }
    }

    /// Records that an observer is registered. From now on the outcome of
    /// every scheduled flush is routed to it.
    pub fn set_callback(&mut self)
        ensures
            final(self)@ == (RegistryView { has_callback: true, ..old(self)@ }),
    {
        self.has_callback = true;
    }

    /// Records the offset of a consumed message, then asks the timer as
    /// `maybe_commit` does.
    pub fn register_message(&mut self, message_id: (String, i32, i64), now: u64) -> (r: Option<
        CommitRequest,
    >)
        requires
            old(self).is_active(),
        ensures
            final(self)@ == (RegistryView {
                offsets: old(self)@.offsets.insert((message_id.0@, message_id.1), message_id.2),
                last_commit_time: last_after(
                    old(self)@.last_commit_time,
                    now,
                    old(self)@.commit_interval,
                ),
                ..old(self)@
            }),
            r is Some <==> flush_due(old(self)@.last_commit_time, now, old(self)@.commit_interval),
            r is Some ==> r->0.flushes(final(self)@, scheduled_route(old(self)@.has_callback)),
    {
        self.offsets.insert(message_id.0, message_id.1, message_id.2);
        self.maybe_commit(now)
    }

    /// The scheduled flush. Where the time since the last flush has reached
    /// the interval, the timer moves to `now` and the request to carry out
    /// is returned; else nothing changes.
    pub fn maybe_commit(&mut self, now: u64) -> (r: Option<CommitRequest>)
        requires
            old(self).is_active(),
        ensures
            final(self)@ == (RegistryView {
                last_commit_time: last_after(
                    old(self)@.last_commit_time,
                    now,
                    old(self)@.commit_interval,
                ),
                ..old(self)@
            }),
            r is Some <==> flush_due(old(self)@.last_commit_time, now, old(self)@.commit_interval),
            r is Some ==> r->0.flushes(final(self)@, scheduled_route(old(self)@.has_callback)),
    {
        if is_due(self.last_commit_time, now, self.commit_interval) {
            self.last_commit_time = now;
            let route = if self.has_callback {
                ResultRoute::Observer
            } else {
                ResultRoute::Discard
            };
            Some(self.request(route))
        } else {
            None
        }
    }

    /// The explicit commit: whatever time has passed, the timer moves to
    /// `now` and the request is returned, its outcome routed to the caller.
    pub fn commit(&mut self, now: u64) -> (r: CommitRequest)
        requires
            old(self).is_active(),
        ensures
            final(self)@ == (RegistryView { last_commit_time: now, ..old(self)@ }),
            r.flushes(final(self)@, ResultRoute::Caller),
    {
        self.last_commit_time = now;
        self.request(ResultRoute::Caller)
    }

    /// Counts one more handle.
    pub fn share(&mut self)
        requires
            old(self).is_active(),
            old(self)@.handles < u64::MAX,
        ensures
            final(self)@ == (RegistryView { handles: old(self)@.handles + 1, ..old(self)@ }),
    {
        self.handles = self.handles + 1;
    }

    /// Gives one handle up. When it was the last, the final commit of all
    /// accumulated offsets is returned, its outcome discarded, and the
    /// registry is left without handles; while others remain nothing else
    /// changes and nothing is committed.
    pub fn release(&mut self, now: u64) -> (r: Option<CommitRequest>)
        requires
            old(self).is_active(),
        ensures
            final(self)@ == (RegistryView {
                handles: (old(self)@.handles - 1) as nat,
                last_commit_time: if old(self)@.handles == 1 {
                    now
                } else {
                    old(self)@.last_commit_time
                },
                ..old(self)@
            }),
            r is Some <==> old(self)@.handles == 1,
            r is Some ==> r->0.flushes(final(self)@, ResultRoute::Discard),
    {
        self.handles = self.handles - 1;
        if self.handles == 0 {
            self.last_commit_time = now;
            Some(self.request(ResultRoute::Discard))
        } else {
            None
        }
    }

    /// The request that commits the current offsets.
    fn request(&self, route: ResultRoute) -> (r: CommitRequest)
        ensures
            r.flushes(self@, route),
    {
        CommitRequest {
            offsets: offset_map_to_tpl(&self.offsets),
            mode: self.commit_mode,
            snapshot: self.offsets.snapshot(),
            route,
        }
    }

    /// The offsets accumulated so far.
    pub fn offsets(&self) -> (m: &OffsetMap)
        ensures
            m@ == self@.offsets,
    {
        &self.offsets
    }

    /// The clock reading of the last flush.
    pub fn last_commit_time(&self) -> (t: u64)
        ensures
            t == self@.last_commit_time,
    {
        self.last_commit_time
    }

    /// The configured interval between scheduled flushes.
    pub fn commit_interval(&self) -> (t: u64)
        ensures
            t == self@.commit_interval,
    {
        self.commit_interval
    }

    /// The configured commit mode.
    pub fn commit_mode(&self) -> (m: CommitMode)
        ensures
            m == self@.commit_mode,
    {
        self.commit_mode
    }

    /// Whether an observer is registered.
    pub fn has_callback(&self) -> (b: bool)
        ensures
            b == self@.has_callback,
    {
        self.has_callback
    }

    /// The number of handles left.
    pub fn handles(&self) -> (n: u64)
        ensures
            n == self@.handles,
    {
        self.handles
    }
}

} // verus!
