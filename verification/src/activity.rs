//! Activity versions of actors, and the one observer that each may have.
use vstd::prelude::*;
use crate::ordered;
use crate::ordered::{OrdMap, OrdSet};
use crate::types::{ActorRef, Error};

verus! {

/// What is known of the activity in one actor slot. An observer is a number
/// under which the caller finds whom to wake.
#[derive(Clone, Copy, Debug, PartialEq, Eq, Structural)]
pub struct ActivitySlot {
    pub actor: ActorRef,
    pub version: u64,
    pub overflow: bool,
    pub observer: Option<u64>,
}

/// An observer that lost its place, and whether it is owed a wake.
#[derive(Clone, Copy, Debug, PartialEq, Eq, Structural)]
pub struct Retired {
    pub observer: u64,
    pub wake: bool,
}

/// Whether an observer has to wait.
#[derive(Clone, Copy, Debug, PartialEq, Eq)]
pub enum ActivityPoll {
    Ready(Result<u64, Error>),
    Pending,
}

#[verifier::ext_equal]
pub struct ActivityView {
    pub slots: Map<u32, ActivitySlot>,
    pub dirty: Set<u32>,
}

pub open spec fn fresh_slot(actor: ActorRef) -> ActivitySlot {
    ActivitySlot { actor, version: 1, overflow: false, observer: None }
}

impl ActivityView {
    pub open spec fn none() -> ActivityView {
        ActivityView { slots: Map::empty(), dirty: Set::empty() }
    }

    /// Whether another generation holds the actor's slot.
    pub open spec fn displaced(self, actor: ActorRef) -> bool {
        self.slots.dom().contains(actor.slot) && self.slots[actor.slot].actor != actor
    }

    /// The registry once the actor has its slot: another generation loses it.
    pub open spec fn seated(self, actor: ActorRef) -> ActivityView {
        if !self.slots.dom().contains(actor.slot) {
            ActivityView { slots: self.slots.insert(actor.slot, fresh_slot(actor)), ..self }
        } else if self.displaced(actor) {
            ActivityView {
                slots: self.slots.insert(actor.slot, fresh_slot(actor)),
                dirty: self.dirty.remove(actor.slot),
            }
        } else {
            self
        }
    }

    /// The observer that seating the actor retires.
    pub open spec fn unseated(self, actor: ActorRef) -> Option<Retired> {
        if self.displaced(actor) {
            match self.slots[actor.slot].observer {
                Some(observer) => Some(Retired { observer, wake: true }),
                None => None,
            }
        } else {
            None
        }
    }

    /// The version that the seated actor shows.
    pub open spec fn shown(self, actor: ActorRef) -> Result<u64, Error> {
        let slot = self.slots[actor.slot];
        if slot.overflow {
            Err(Error::LimitExceeded)
        } else {
            Ok(slot.version)
        }
    }

    /// Whether a poll has something to report at once.
    pub open spec fn reports(self, actor: ActorRef, observed: u64) -> bool {
        self.displaced(actor) || self.seated(actor).shown(actor) != Ok::<u64, Error>(observed)
    }

    pub open spec fn polled(self, actor: ActorRef, observed: u64, incoming: u64) -> ActivityView {
        let seated = self.seated(actor);
        if self.reports(actor, observed) {
            seated
        } else {
            ActivityView {
                slots: seated.slots.insert(
                    actor.slot,
                    ActivitySlot { observer: Some(incoming), ..seated.slots[actor.slot] },
                ),
                ..seated
            }
        }
    }

    /// The observer that a poll retires: that of another generation is owed a
    /// wake, one that is replaced is not.
    pub open spec fn poll_retires(self, actor: ActorRef, observed: u64, incoming: u64) -> Option<
        Retired,
    > {
        if self.displaced(actor) {
            self.unseated(actor)
        } else if self.reports(actor, observed) {
            None
        } else {
            match self.seated(actor).slots[actor.slot].observer {
                Some(observer) => if observer != incoming {
                    Some(Retired { observer, wake: false })
                } else {
                    None
                },
                None => None,
            }
        }
    }

    /// After a change to an actor's work.
    pub open spec fn marked(self, actor: ActorRef) -> ActivityView {
        if !self.slots.dom().contains(actor.slot) {
            self
        } else {
            let slot = self.slots[actor.slot];
            ActivityView {
                slots: if slot.actor != actor {
                    self.slots
                } else if slot.version == u64::MAX {
                    self.slots.insert(actor.slot, ActivitySlot { overflow: true, ..slot })
                } else {
                    self.slots.insert(
                        actor.slot,
                        ActivitySlot { version: (slot.version + 1) as u64, ..slot },
                    )
                },
                dirty: self.dirty.insert(actor.slot),
            }
        }
    }

    /// After changes to the work of several actors, one after another.
    pub open spec fn marked_all(self, actors: Seq<ActorRef>) -> ActivityView
        decreases actors.len(),
    {
        if actors.len() == 0 {
            self
        } else {
            self.marked_all(actors.drop_last()).marked(actors.last())
        }
    }

    /// The observers of slots, in order, with those without one left out.
    pub open spec fn observers_of(self, slots: Seq<u32>) -> Seq<u64>
        decreases slots.len(),
    {
        if slots.len() == 0 {
            Seq::empty()
        } else {
            let rest = self.observers_of(slots.drop_last());
            if self.slots.dom().contains(slots.last()) && self.slots[slots.last()].observer is Some {
                rest.push(self.slots[slots.last()].observer->0)
            } else {
                rest
            }
        }
    }

    /// After the marked slots were flushed: they are clean and unobserved.
    pub open spec fn flushed(self) -> ActivityView {
        ActivityView {
            slots: Map::new(
                |s: u32| self.slots.dom().contains(s),
                |s: u32|
                    if self.dirty.contains(s) {
                        ActivitySlot { observer: None, ..self.slots[s] }
                    } else {
                        self.slots[s]
                    },
            ),
            dirty: Set::empty(),
        }
    }
}

pub proof fn lemma_marked_all_concat(view: ActivityView, a: Seq<ActorRef>, b: Seq<ActorRef>)
    ensures
        view.marked_all(a + b) == view.marked_all(a).marked_all(b),
    decreases b.len(),
{
    if b.len() == 0 {
        assert(a + b =~= a);
    } else {
        lemma_marked_all_concat(view, a, b.drop_last());
        assert((a + b).drop_last() =~= a + b.drop_last());
    }
}

/// One activity slot per actor slot; those that changed are dirty.
pub struct ActivityRegistry {
    slots: OrdMap<u32, ActivitySlot>,
    dirty: OrdSet<u32>,
}

impl View for ActivityRegistry {
    type V = ActivityView;

    closed spec fn view(&self) -> ActivityView {
        ActivityView { slots: self.slots@, dirty: self.dirty@ }
    }
}

impl ActivityRegistry {
    pub closed spec fn wf(self) -> bool {
        self.slots.wf() && self.dirty.wf()
    }

    pub fn new() -> (r: Self)
        ensures
            r.wf(),
            r@ == ActivityView::none(),
    {
        ActivityRegistry { slots: OrdMap::new(), dirty: OrdSet::new() }
    }

    /// A registry that knows one actor, at the given version.
    pub fn starting_at(actor: ActorRef, version: u64) -> (r: Self)
        ensures
            r.wf(),
            r@ == (ActivityView {
                slots: Map::empty().insert(
                    actor.slot,
                    ActivitySlot { version, ..fresh_slot(actor) },
                ),
                dirty: Set::empty(),
            }),
    {
        let mut r = ActivityRegistry::new();
        let _before = r.slots.insert(
            actor.slot,
            ActivitySlot { actor, version, overflow: false, observer: None },
        );
        r
    }

    fn seat(&mut self, actor: ActorRef) -> (r: (ActivitySlot, bool, Option<Retired>))
        requires
            old(self).wf(),
        ensures
            final(self).wf(),
            final(self)@ == old(self)@.seated(actor),
            final(self)@.slots.dom().contains(actor.slot),
            r.0 == final(self)@.slots[actor.slot],
            r.1 == old(self)@.displaced(actor),
            r.2 == old(self)@.unseated(actor),
    {
        let slot: ActivitySlot = match self.slots.get(&actor.slot) {
            Some(slot) => *slot,
            None => {
                let fresh = ActivitySlot { actor, version: 1, overflow: false, observer: None };
                let _none = self.slots.insert(actor.slot, fresh);
                return (fresh, false, None);
            },
        };
        if slot.actor != actor {
            let fresh = ActivitySlot { actor, version: 1, overflow: false, observer: None };
            let _prior = self.slots.insert(actor.slot, fresh);
            let _removed = self.dirty.remove(&actor.slot);
            let retired = match slot.observer {
                Some(observer) => Some(Retired { observer, wake: true }),
                None => None,
            };
            (fresh, true, retired)
        } else {
            (slot, false, None)
        }
    }

    /// The actor's version. Asking for it registers the actor.
    pub fn version(&mut self, actor: ActorRef) -> (r: (Result<u64, Error>, Option<Retired>))
        requires
            old(self).wf(),
        ensures
            final(self).wf(),
            final(self)@ == old(self)@.seated(actor),
            r.0 == final(self)@.shown(actor),
            r.1 == old(self)@.unseated(actor),
    {
        let (slot, _displaced, retired) = self.seat(actor);
        if slot.overflow {
            (Err(Error::LimitExceeded), retired)
        } else {
            (Ok(slot.version), retired)
        }
    }

    /// Reports a version other than the one observed, or keeps the observer.
    pub fn poll(&mut self, actor: ActorRef, observed: u64, incoming: u64) -> (r: (
        ActivityPoll,
        Option<Retired>,
    ))
        requires
            old(self).wf(),
        ensures
            final(self).wf(),
            final(self)@ == old(self)@.polled(actor, observed, incoming),
            r.0 == (if old(self)@.reports(actor, observed) {
                ActivityPoll::Ready(final(self)@.shown(actor))
            } else {
                ActivityPoll::Pending
            }),
            r.1 == old(self)@.poll_retires(actor, observed, incoming),
    {
        let (slot, displaced, retired) = self.seat(actor);
        if displaced {
            return (ActivityPoll::Ready(Ok(slot.version)), retired);
        }
        if slot.overflow {
            return (ActivityPoll::Ready(Err(Error::LimitExceeded)), None);
        }
        if slot.version != observed {
            return (ActivityPoll::Ready(Ok(slot.version)), None);
        }
        let kept = ActivitySlot {
            actor: slot.actor,
            version: slot.version,
            overflow: slot.overflow,
            observer: Some(incoming),
        };
        let _prior = self.slots.insert(actor.slot, kept);
        let replaced = match slot.observer {
            Some(observer) => if observer != incoming {
                Some(Retired { observer, wake: false })
            } else {
                None
            },
            None => None,
        };
        (ActivityPoll::Pending, replaced)
    }

    /// Marks an actor that is registered. Another generation in its slot keeps
    /// its place until the next version or poll.
    pub fn mark(&mut self, actor: ActorRef)
        requires
            old(self).wf(),
        ensures
            final(self).wf(),
            final(self)@ == old(self)@.marked(actor),
    {
        let slot: ActivitySlot = match self.slots.get(&actor.slot) {
            Some(slot) => *slot,
            None => return,
        };
        if slot.actor == actor {
            let next = if slot.version == u64::MAX {
                ActivitySlot {
                    actor: slot.actor,
                    version: slot.version,
                    overflow: true,
                    observer: slot.observer,
                }
            } else {
                ActivitySlot {
                    actor: slot.actor,
                    version: slot.version + 1,
                    overflow: slot.overflow,
                    observer: slot.observer,
                }
            };
            let _prior = self.slots.insert(actor.slot, next);
        }
        let _added = self.dirty.insert(actor.slot);
    }

    /// Takes the observers of the marked slots, which are owed a wake.
    pub fn notify_marked(&mut self) -> (r: Vec<u64>)
        requires
            old(self).wf(),
        ensures
            final(self).wf(),
            final(self)@ == old(self)@.flushed(),
            r@ == old(self)@.observers_of(ordered::sorted(old(self)@.dirty)),
    {
        let dirty = self.dirty.to_vec();
        let ghost before = self@;
        let mut woken: Vec<u64> = Vec::new();
        let mut i: usize = 0;
        proof {
            self.dirty.lemma_listing();
            assert(dirty@.take(0) =~= Seq::<u32>::empty());
        }
        while i < dirty.len()
            invariant
                self.wf(),
                i <= dirty.len(),
                before == old(self)@,
                ordered::ascending(dirty@),
                dirty@.to_set() == before.dirty,
                self.slots@.dom() == before.slots.dom(),
                forall|s: u32| #[trigger]
                    self.slots@.dom().contains(s) ==> self.slots@[s] == (if dirty@.take(
                        i as int,
                    ).contains(s) {
                        ActivitySlot { observer: None, ..before.slots[s] }
                    } else {
                        before.slots[s]
                    }),
                woken@ == before.observers_of(dirty@.take(i as int)),
            decreases dirty.len() - i,
        {
            let at: u32 = dirty[i];
            proof {
                assert(dirty@.take(i + 1).drop_last() =~= dirty@.take(i as int));
                assert(dirty@.take(i + 1) =~= dirty@.take(i as int).push(at));
                ordered::lemma_ascending_distinct(dirty@);
                assert(!dirty@.take(i as int).contains(at)) by {
                    if dirty@.take(i as int).contains(at) {
                        let j = dirty@.take(i as int).index_of(at);
                        assert(dirty@[j] == at);
                    }
                }
                assert forall|s: u32| #[trigger]
                    dirty@.take(i + 1).contains(s) <==> s == at || dirty@.take(i as int).contains(
                    s,
                ) by {
                    if dirty@.take(i as int).contains(s) {
                        let j = dirty@.take(i as int).index_of(s);
                        assert(dirty@.take(i + 1)[j] == s);
                    }
                    if s == at {
                        assert(dirty@.take(i + 1)[i as int] == s);
                    }
                }
            }
            let slot: Option<ActivitySlot> = match self.slots.get(&at) {
                Some(slot) => Some(*slot),
                None => None,
            };
            match slot {
                Some(slot) => {
                    match slot.observer {
                        Some(observer) => {
                            woken.push(observer);
                        },
                        None => {},
                    }
                    let bare = ActivitySlot {
                        actor: slot.actor,
                        version: slot.version,
                        overflow: slot.overflow,
                        observer: None,
                    };
                    let _prior = self.slots.insert(at, bare);
                    assert(self.slots@.dom() =~= before.slots.dom());
                },
                None => {},
            }
            i += 1;
        }
        self.dirty = OrdSet::new();
        proof {
            assert(dirty@.take(i as int) =~= dirty@);
            self.dirty.lemma_listing();
            assert forall|s: u32| dirty@.contains(s) <==> #[trigger] before.dirty.contains(s) by {
                assert(dirty@.to_set().contains(s) <==> dirty@.contains(s));
            }
            assert(self.slots@ =~= before.flushed().slots);
        }
        woken
    }
}

/// Marking one actor never moves the version of another.
pub proof fn marks_are_isolated(view: ActivityView, actor: ActorRef, other: ActorRef)
    requires
        other.slot != actor.slot,
    ensures
        view.marked(actor).slots.dom().contains(other.slot) == view.slots.dom().contains(other.slot),
        view.slots.dom().contains(other.slot) ==> view.marked(actor).slots[other.slot]
            == view.slots[other.slot],
{
}

/// A mark that an actor sees changes what it shows, so an observer that looked
/// before the change never waits past it.
pub proof fn a_mark_is_seen(view: ActivityView, actor: ActorRef, observed: u64)
    requires
        view.slots.dom().contains(actor.slot),
        view.slots[actor.slot].actor == actor,
        view.shown(actor) == Ok::<u64, Error>(observed),
    ensures
        view.marked(actor).reports(actor, observed),
{
}

/// A poll waits as long as what it observed is what there is; then the one who
/// waits is kept, in place of the one who waited before. Otherwise it answers at
/// once and keeps nobody.
pub proof fn a_poll_waits_while_nothing_changes(
    v: ActivityView,
    actor: ActorRef,
    observed: u64,
    incoming: u64,
)
    requires
        v.slots.dom().contains(actor.slot),
        v.slots[actor.slot].actor == actor,
    ensures
        ({
            let slot = v.slots[actor.slot];
            let n = v.polled(actor, observed, incoming);
            let gone = v.poll_retires(actor, observed, incoming);
            &&& v.reports(actor, observed) <==> slot.overflow || slot.version != observed
            &&& slot.overflow ==> n.shown(actor) == Err::<u64, Error>(Error::LimitExceeded)
            &&& !slot.overflow ==> n.shown(actor) == Ok::<u64, Error>(slot.version)
            &&& slot.overflow || slot.version != observed ==> n == v && gone is None
            &&& !slot.overflow && slot.version == observed ==> {
                &&& n.slots[actor.slot].observer == Some(incoming)
                &&& n.slots[actor.slot].version == slot.version
                &&& n.dirty == v.dirty
                &&& slot.observer is None || slot.observer == Some(incoming) ==> gone is None
                &&& slot.observer matches Some(former) ==> former != incoming ==> gone == Some(
                    (Retired { observer: former, wake: false }),
                )
            }
            &&& forall|s: u32|
                s != actor.slot && v.slots.dom().contains(s) ==> n.slots.dom().contains(s)
                    && #[trigger] n.slots[s] == v.slots[s]
        }),
{
}

/// An actor that takes over a slot starts over, and who watched the former holder
/// is woken.
pub proof fn a_new_holder_starts_over(v: ActivityView, actor: ActorRef, observed: u64)
    requires
        v.slots.dom().contains(actor.slot) ==> v.slots[actor.slot].actor != actor,
    ensures
        ({
            let n = v.seated(actor);
            let slot = n.slots[actor.slot];
            &&& slot.actor == actor
            &&& slot.version == 1
            &&& !slot.overflow
            &&& slot.observer is None
            &&& v.slots.dom().contains(actor.slot) ==> {
                &&& v.reports(actor, observed)
                &&& !n.dirty.contains(actor.slot)
                &&& v.slots[actor.slot].observer is None ==> v.unseated(actor) is None
                &&& v.slots[actor.slot].observer matches Some(former) ==> v.unseated(actor) == Some(
                    (Retired { observer: former, wake: true }),
                )
            }
            &&& !v.slots.dom().contains(actor.slot) ==> v.unseated(actor) is None && (v.reports(
                actor,
                observed,
            ) <==> observed != 1)
        }),
{
}

/// Who waits for an actor is told of its next mark, once.
pub proof fn who_waits_is_told_once(v: ActivityView, actor: ActorRef, observer: u64)
    requires
        v.slots.dom().contains(actor.slot),
        v.slots[actor.slot].actor == actor,
        v.slots[actor.slot].observer == Some(observer),
        v.dirty.finite(),
    ensures
        ({
            let n = v.marked(actor);
            &&& n.observers_of(ordered::sorted(n.dirty)).contains(observer)
            &&& n.flushed().slots[actor.slot].observer is None
            &&& n.flushed().dirty == Set::<u32>::empty()
            &&& n.flushed().slots[actor.slot].version == n.slots[actor.slot].version
            &&& v.slots[actor.slot].version < u64::MAX ==> n.slots[actor.slot].version
                == v.slots[actor.slot].version + 1
            &&& v.slots[actor.slot].version == u64::MAX ==> n.slots[actor.slot].overflow
            &&& n.reports(actor, v.slots[actor.slot].version)
        }),
{
    let n = v.marked(actor);
    ordered::lemma_sorted_exists(n.dirty);
    let list = ordered::sorted(n.dirty);
    assert(list.to_set().contains(actor.slot));
    let k = list.index_of(actor.slot);
    lemma_observer_told(n, list, k, observer);
}

proof fn lemma_observer_told(v: ActivityView, slots: Seq<u32>, k: int, observer: u64)
    requires
        0 <= k < slots.len(),
        v.slots.dom().contains(slots[k]),
        v.slots[slots[k]].observer == Some(observer),
    ensures
        v.observers_of(slots).contains(observer),
    decreases slots.len(),
{
    let all = v.observers_of(slots);
    let rest = v.observers_of(slots.drop_last());
    if k == slots.len() - 1 {
        assert(all[all.len() - 1] == observer);
    } else {
        lemma_observer_told(v, slots.drop_last(), k, observer);
        let i = rest.index_of(observer);
        assert(all[i] == observer);
    }
}

} // verus!
