use vstd::prelude::*;

use crate::Notification;
use crate::is_terminal;
use crate::terminated;
use crate::valid_history;
use crate::lemma_valid_push;
use crate::observer::Observer;

verus! {

/// The sequence of `Next` notifications that carries each item of `items`.
pub open spec fn nexts_of<T, E>(items: Seq<T>) -> Seq<Notification<T, E>> {
    items.map_values(|x: T| Notification::<T, E>::Next(x))
}

/// The observers a registry holds, with the vacated slots dropped and
/// registration order kept.
pub open spec fn compact<O>(slots: Seq<Option<O>>) -> Seq<O>
    decreases slots.len(),
{
    if slots.len() == 0 {
        Seq::empty()
    } else {
        compact(slots.drop_last()) + match slots.last() {
            Some(o) => seq![o],
            None => Seq::empty(),
        }
    }
}

/// Subject fan-out across one batch of pushed items: a registered observer
/// receives exactly those items, in push order; a vacated slot stays vacated.
pub open spec fn fan_out<T, E, O: Observer<T, E>>(
    before: Option<O>,
    after: Option<O>,
    items: Seq<T>,
) -> bool {
    match before {
        None => after is None,
        Some(o) => {
            &&& after is Some
            &&& after->0.inv()
            &&& after->0.history() == o.history() + nexts_of::<T, E>(items)
        },
    }
}

proof fn lemma_nexts_of_snoc<T, E>(items: Seq<T>, k: int)
    requires
        0 <= k < items.len(),
    ensures
        nexts_of::<T, E>(items.take(k + 1)) == nexts_of::<T, E>(items.take(k)).push(
            Notification::Next(items[k]),
        ),
{
    assert(items.take(k + 1) =~= items.take(k).push(items[k]));
    assert(nexts_of::<T, E>(items.take(k).push(items[k])) =~= nexts_of::<T, E>(
        items.take(k),
    ).push(Notification::Next(items[k])));
}

/// How one registry slot changes when a notification is forwarded: a vacated
/// slot stays vacated; a registered observer receives exactly that
/// notification, appended to its history.
pub open spec fn slot_advanced<T, E, O: Observer<T, E>>(
    before: Option<O>,
    after: Option<O>,
    n: Notification<T, E>,
) -> bool {
    match before {
        None => after is None,
        Some(o) => {
            &&& after is Some
            &&& after->0.inv()
            &&& after->0.history() == o.history().push(n)
        },
    }
}

enum TerminalState<E> {
    Live,
    Completed,
    Errored(E),
}

/// A cancellation handle for one registration in a `Subject`.
///
/// Release it through `Subject::release` at the subject that issued it.
/// Releasing is idempotent: once the handle is inactive, further releases
/// change nothing.
pub struct SubjectSubscription {
    slot: usize,
    active: bool,
}

impl SubjectSubscription {
    /// Whether this handle still represents a registered interest.
    pub closed spec fn is_active(&self) -> bool {
        self.active
    }

    /// The registry slot this handle refers to.
    pub closed spec fn slot_index(&self) -> int {
        self.slot as int
    }
}

/// A multicast hub: a producer pushes notifications in, and every currently
/// registered observer receives each of them, in registration order.
///
/// The subject holds a registry of observer slots and a terminal flag. Once a
/// terminal notification has been pushed, the subject is silent forever:
/// further pushes are no-ops, and the registry has been emptied. The late
/// subscriber policy is silence — subscribing to a terminated subject
/// registers nothing, never notifies the observer, and hands the observer
/// straight back with an inert handle.
pub struct Subject<T, E, O: Observer<T, E>> {
    registry: Vec<Option<O>>,
    state: TerminalState<E>,
    received: Ghost<Seq<Notification<T, E>>>,
}

impl<T: Copy, E: Copy, O: Observer<T, E>> Subject<T, E, O> {
    /// The registry: one slot per subscription issued while live, `None`
    /// where the subscription has been released.
    pub closed spec fn slots(&self) -> Seq<Option<O>> {
        self.registry@
    }

    /// The notifications pushed into the subject and accepted, in order.
    pub closed spec fn received(&self) -> Seq<Notification<T, E>> {
        self.received@
    }

    /// Whether the subject has not yet received a terminal notification.
    pub closed spec fn live(&self) -> bool {
        self.state is Live
    }

    /// Well-formedness: the terminal flag agrees with the received history,
    /// every registered observer is well formed and still accepts
    /// notifications, and a terminated subject has an empty registry.
    pub closed spec fn wf(&self) -> bool {
        &&& valid_history(self.received@)
        &&& match self.state {
            TerminalState::Live => !terminated(self.received@),
            TerminalState::Completed => self.received@.len() > 0 && self.received@.last()
                == Notification::<T, E>::Completed,
            TerminalState::Errored(e) => self.received@.len() > 0 && self.received@.last()
                == Notification::<T, E>::Error(e),
        }
        &&& forall|i: int|
            0 <= i < self.registry@.len() && self.registry@[i] is Some ==> (
            #[trigger] self.registry@[i])->0.inv() && !terminated(self.registry@[i]->0.history())
        &&& !(self.state is Live) ==> self.registry@.len() == 0
    }

    /// A fresh, live subject with no subscribers and nothing received.
    pub fn new() -> (s: Self)
        ensures
            s.wf(),
            s.live(),
            s.slots() == Seq::<Option<O>>::empty(),
            s.received() == Seq::<Notification<T, E>>::empty(),
    {
        Subject {
            registry: Vec::new(),
            state: TerminalState::Live,
            received: Ghost(Seq::empty()),
        }
    }

    /// Whether the subject still forwards notifications.
    pub fn is_live(&self) -> (r: bool)
        ensures
            r == self.live(),
    {
        match self.state {
            TerminalState::Live => true,
            _ => false,
        }
    }

    /// Register an observer. While the subject is live, the observer takes
    /// the next registry slot and a live handle for it is returned. After
    /// termination the policy is silence: the observer is handed back
    /// unregistered and unnotified, with an inert handle.
    pub fn subscribe(&mut self, observer: O) -> (r: (SubjectSubscription, Option<O>))
        requires
            old(self).wf(),
            observer.inv(),
            !terminated(observer.history()),
        ensures
            final(self).wf(),
            final(self).live() == old(self).live(),
            final(self).received() == old(self).received(),
            old(self).live() ==> {
                &&& final(self).slots() == old(self).slots().push(Some(observer))
                &&& r.0.is_active()
                &&& r.0.slot_index() == old(self).slots().len()
                &&& r.1 is None
            },
            !old(self).live() ==> {
                &&& final(self).slots() == old(self).slots()
                &&& !r.0.is_active()
                &&& r.1 == Some(observer)
            },
    {
        match self.state {
            TerminalState::Live => {
                let slot = self.registry.len();
                self.registry.push(Some(observer));
                (SubjectSubscription { slot, active: true }, None)
            },
            _ => (SubjectSubscription { slot: 0, active: false }, Some(observer)),
        }
    }

    /// Release a subscription: deregister the interest it represents,
    /// exactly once. The first release of a live handle vacates its slot and
    /// hands the removed observer back; any further release — and a release
    /// whose slot is already vacated or gone — changes nothing. The handle is
    /// inactive afterwards either way.
    pub fn release(&mut self, handle: &mut SubjectSubscription) -> (r: Option<O>)
        requires
            old(self).wf(),
        ensures
            final(self).wf(),
            final(self).live() == old(self).live(),
            final(self).received() == old(self).received(),
            !final(handle).is_active(),
            final(handle).slot_index() == old(handle).slot_index(),
            ({
                &&& old(handle).is_active()
                &&& 0 <= old(handle).slot_index() < old(self).slots().len()
                &&& old(self).slots()[old(handle).slot_index()] is Some
            }) ==> {
                &&& r == Some(old(self).slots()[old(handle).slot_index()]->0)
                &&& final(self).slots() == old(self).slots().update(
                    old(handle).slot_index(),
                    None,
                )
            },
            !({
                &&& old(handle).is_active()
                &&& 0 <= old(handle).slot_index() < old(self).slots().len()
                &&& old(self).slots()[old(handle).slot_index()] is Some
            }) ==> {
                &&& r is None
                &&& final(self).slots() == old(self).slots()
            },
    {
        let was_active = handle.active;
        handle.active = false;
        if was_active && handle.slot < self.registry.len() {
            let slot_ref = &mut self.registry[handle.slot];
            let got = slot_ref.take();
            proof {
                if got is None {
                    assert(self.registry@ =~= old(self).registry@);
                } else {
                    assert(self.registry@ =~= old(self).registry@.update(
                        old(handle).slot_index(),
                        None,
                    ));
                }
            }
            got
        } else {
            None
        }
    }

    /// Push the next value. While the subject is live, every currently
    /// registered observer receives it, in registration order; after a
    /// terminal notification this is a no-op that no subscriber observes.
    pub fn push_next(&mut self, item: T)
        requires
            old(self).wf(),
        ensures
            final(self).wf(),
            final(self).live() == old(self).live(),
            final(self).slots().len() == old(self).slots().len(),
            !old(self).live() ==> {
                &&& final(self).slots() == old(self).slots()
                &&& final(self).received() == old(self).received()
            },
            old(self).live() ==> {
                &&& final(self).received() == old(self).received().push(Notification::Next(item))
                &&& forall|i: int|
                    0 <= i < old(self).slots().len() ==> slot_advanced(
                        old(self).slots()[i],
                        #[trigger] final(self).slots()[i],
                        Notification::Next(item),
                    )
            },
    {
        match self.state {
            TerminalState::Live => {
                let ghost old_slots = self.registry@;
                let ghost entry_state = self.state;
                let ghost entry_received = self.received@;
                let mut j: usize = 0;
                while j < self.registry.len()
                    invariant
                        j <= self.registry@.len(),
                        self.registry@.len() == old_slots.len(),
                        self.state == entry_state,
                        self.received@ == entry_received,
                        forall|i: int|
                            0 <= i < j ==> slot_advanced(
                                old_slots[i],
                                #[trigger] self.registry@[i],
                                Notification::<T, E>::Next(item),
                            ),
                        forall|i: int|
                            j <= i < old_slots.len() ==> self.registry@[i] == old_slots[i],
                        forall|i: int|
                            0 <= i < old_slots.len() && old_slots[i] is Some ==> (
                            #[trigger] old_slots[i])->0.inv() && !terminated(
                                old_slots[i]->0.history(),
                            ),
                    decreases self.registry@.len() - j,
                {
                    proof {
                        assert(self.registry@[j as int] == old_slots[j as int]);
                        if old_slots[j as int] is Some {
                            assert(old_slots[j as int]->0.inv());
                        }
                    }
                    let slot_ref = &mut self.registry[j];
                    match slot_ref {
                        Some(obs_ref) => {
                            obs_ref.on_next(item);
                        },
                        None => {},
                    }
                    j += 1;
                }
                self.received = Ghost(self.received@.push(Notification::Next(item)));
                proof {
                    lemma_valid_push(entry_received, Notification::<T, E>::Next(item));
                    assert forall|i: int|
                        0 <= i < self.registry@.len() && self.registry@[i] is Some implies (
                    #[trigger] self.registry@[i])->0.inv() && !terminated(
                        self.registry@[i]->0.history(),
                    ) by {
                        assert(slot_advanced(
                            old_slots[i],
                            self.registry@[i],
                            Notification::<T, E>::Next(item),
                        ));
                        let o = old_slots[i]->0;
                        let h = o.history().push(Notification::<T, E>::Next(item));
                        assert forall|k: int| 0 <= k < h.len() implies !is_terminal(h[k]) by {
                            if k < h.len() - 1 {
                                assert(h[k] == o.history()[k]);
                            }
                        }
                    }
                }
            },
            _ => {},
        }
    }

    /// Forward a terminal notification to every registered observer, in
    /// registration order, vacate the whole registry, and hand the notified
    /// observers back.
    fn drain_registry(registry: &mut Vec<Option<O>>, term: Notification<T, E>) -> (r: Vec<O>)
        requires
            is_terminal(term),
            forall|i: int|
                0 <= i < old(registry)@.len() && old(registry)@[i] is Some ==> (
                #[trigger] old(registry)@[i])->0.inv() && !terminated(
                    old(registry)@[i]->0.history(),
                ),
        ensures
            final(registry)@.len() == 0,
            r@.len() == compact(old(registry)@).len(),
            forall|i: int|
                0 <= i < r@.len() ==> (#[trigger] r@[i]).inv() && r@[i].history() == compact(
                    old(registry)@,
                )[i].history().push(term),
    {
        let mut drained: Vec<O> = Vec::new();
        let ghost old_slots = registry@;
        let mut j: usize = 0;
        while j < registry.len()
            invariant
                j <= registry@.len(),
                registry@.len() == old_slots.len(),
                is_terminal(term),
                forall|i: int| j <= i < old_slots.len() ==> registry@[i] == old_slots[i],
                forall|i: int|
                    0 <= i < old_slots.len() && old_slots[i] is Some ==> (
                    #[trigger] old_slots[i])->0.inv() && !terminated(old_slots[i]->0.history()),
                drained@.len() == compact(old_slots.take(j as int)).len(),
                forall|i: int|
                    0 <= i < drained@.len() ==> (#[trigger] drained@[i]).inv()
                        && drained@[i].history() == compact(old_slots.take(j as int))[i].history()
                        .push(term),
            decreases registry@.len() - j,
        {
            let ghost prev_drained = drained@;
            let slot_ref = &mut registry[j];
            let got = slot_ref.take();
            proof {
                assert(old_slots.take(j + 1) =~= old_slots.take(j as int).push(
                    old_slots[j as int],
                ));
                assert(old_slots.take(j + 1).drop_last() =~= old_slots.take(j as int));
            }
            match got {
                Some(mut o) => {
                    match term {
                        Notification::Completed => o.on_completed(),
                        Notification::Error(e) => o.on_error(e),
                        Notification::Next(_) => {
                            // excluded by this function's requires: the
                            // forwarded notification is terminal
                            proof {
                                assert(false);
                            }
                        },
                    }
                    drained.push(o);
                    proof {
                        let c1 = compact(old_slots.take(j + 1));
                        assert(c1 =~= compact(old_slots.take(j as int)) + seq![
                            old_slots[j as int]->0,
                        ]);
                        assert forall|i: int| 0 <= i < drained@.len() implies (
                        #[trigger] drained@[i]).inv() && drained@[i].history() == c1[i].history()
                            .push(term) by {
                            if i < drained@.len() - 1 {
                                assert(drained@[i] == prev_drained[i]);
                                assert(c1[i] == compact(old_slots.take(j as int))[i]);
                            } else {
                                assert(c1[i] == old_slots[j as int]->0);
                            }
                        }
                    }
                },
                None => {
                    proof {
                        assert(compact(old_slots.take(j + 1)) =~= compact(
                            old_slots.take(j as int),
                        ));
                    }
                },
            }
            j += 1;
        }
        proof {
            assert(old_slots.take(j as int) =~= old_slots);
        }
        registry.clear();
        drained
    }

    /// Push normal completion. While live, every registered observer receives
    /// `Completed`, in registration order; the subject records the terminal
    /// state, empties its registry, and hands the notified observers back.
    /// After a terminal notification this is a no-op.
    pub fn push_completed(&mut self) -> (r: Vec<O>)
        requires
            old(self).wf(),
        ensures
            final(self).wf(),
            !old(self).live() ==> {
                &&& final(self).slots() == old(self).slots()
                &&& final(self).received() == old(self).received()
                &&& final(self).live() == old(self).live()
                &&& r@.len() == 0
            },
            old(self).live() ==> {
                &&& !final(self).live()
                &&& final(self).received() == old(self).received().push(Notification::Completed)
                &&& final(self).slots() == Seq::<Option<O>>::empty()
                &&& r@.len() == compact(old(self).slots()).len()
                &&& forall|i: int|
                    0 <= i < r@.len() ==> (#[trigger] r@[i]).inv() && r@[i].history() == compact(
                        old(self).slots(),
                    )[i].history().push(Notification::Completed)
            },
    {
        match self.state {
            TerminalState::Live => {
                let drained = Self::drain_registry(&mut self.registry, Notification::Completed);
                self.state = TerminalState::Completed;
                proof {
                    lemma_valid_push(self.received@, Notification::<T, E>::Completed);
                }
                self.received = Ghost(self.received@.push(Notification::Completed));
                proof {
                    assert(self.registry@ =~= Seq::<Option<O>>::empty());
                }
                drained
            },
            _ => Vec::new(),
        }
    }

    /// Push a stream failure. While live, every registered observer receives
    /// `Error(error)`, in registration order; the subject records the
    /// terminal state, empties its registry, and hands the notified
    /// observers back. After a terminal notification this is a no-op.
    pub fn push_error(&mut self, error: E) -> (r: Vec<O>)
        requires
            old(self).wf(),
        ensures
            final(self).wf(),
            !old(self).live() ==> {
                &&& final(self).slots() == old(self).slots()
                &&& final(self).received() == old(self).received()
                &&& final(self).live() == old(self).live()
                &&& r@.len() == 0
            },
            old(self).live() ==> {
                &&& !final(self).live()
                &&& final(self).received() == old(self).received().push(
                    Notification::Error(error),
                )
                &&& final(self).slots() == Seq::<Option<O>>::empty()
                &&& r@.len() == compact(old(self).slots()).len()
                &&& forall|i: int|
                    0 <= i < r@.len() ==> (#[trigger] r@[i]).inv() && r@[i].history() == compact(
                        old(self).slots(),
                    )[i].history().push(Notification::Error(error))
            },
    {
        match self.state {
            TerminalState::Live => {
                let drained = Self::drain_registry(&mut self.registry, Notification::Error(error));
                self.state = TerminalState::Errored(error);
                proof {
                    lemma_valid_push(self.received@, Notification::<T, E>::Error(error));
                }
                self.received = Ghost(self.received@.push(Notification::Error(error)));
                proof {
                    assert(self.registry@ =~= Seq::<Option<O>>::empty());
                }
                drained
            },
            _ => Vec::new(),
        }
    }

    /// Push a whole batch of values, in order. Every observer registered when
    /// the call starts receives exactly `items`, in the same order — the
    /// fan-out guarantee: independently subscribed observers all see the same
    /// sequence.
    pub fn push_all(&mut self, items: &Vec<T>)
        requires
            old(self).wf(),
        ensures
            final(self).wf(),
            final(self).live() == old(self).live(),
            final(self).slots().len() == old(self).slots().len(),
            !old(self).live() ==> {
                &&& final(self).slots() == old(self).slots()
                &&& final(self).received() == old(self).received()
            },
            old(self).live() ==> {
                &&& final(self).received() == old(self).received() + nexts_of::<T, E>(items@)
                &&& forall|i: int|
                    0 <= i < old(self).slots().len() ==> fan_out(
                        old(self).slots()[i],
                        #[trigger] final(self).slots()[i],
                        items@,
                    )
            },
    {
        if !self.is_live() {
            return ;
        }
        let ghost s0 = self.slots();
        let ghost r0 = self.received();
        let mut k: usize = 0;
        while k < items.len()
            invariant
                self.wf(),
                self.live(),
                k <= items@.len(),
                self.received() == r0 + nexts_of::<T, E>(items@.take(k as int)),
                self.slots().len() == s0.len(),
                forall|i: int|
                    0 <= i < s0.len() ==> fan_out(
                        s0[i],
                        #[trigger] self.slots()[i],
                        items@.take(k as int),
                    ),
            decreases items@.len() - k,
        {
            let ghost prev_slots = self.slots();
            let ghost prev_received = self.received();
            let x = items[k];
            self.push_next(x);
            proof {
                lemma_nexts_of_snoc::<T, E>(items@, k as int);
                assert(self.received() =~= r0 + nexts_of::<T, E>(items@.take(k + 1)));
                assert forall|i: int| 0 <= i < s0.len() implies fan_out(
                    s0[i],
                    #[trigger] self.slots()[i],
                    items@.take(k + 1),
                ) by {
                    assert(fan_out(s0[i], prev_slots[i], items@.take(k as int)));
                    assert(slot_advanced(
                        prev_slots[i],
                        self.slots()[i],
                        Notification::<T, E>::Next(items@[k as int]),
                    ));
                    if s0[i] is Some {
                        let o = s0[i]->0;
                        assert(self.slots()[i]->0.history() =~= o.history() + nexts_of::<T, E>(
                            items@.take(k + 1),
                        ));
                    }
                }
            }
            k += 1;
        }
        proof {
            assert(items@.take(items@.len() as int) =~= items@);
        }
    }
}

/// A subject is itself an observer: a producer can push into it through the
/// same interface every other observer offers. Its received history is the
/// sequence of notifications pushed while it was live.
impl<T: Copy, E: Copy, O: Observer<T, E>> Observer<T, E> for Subject<T, E, O> {
    type Config = ();

    open spec fn inv(&self) -> bool {
        self.wf()
    }

    open spec fn config(&self) -> () {
        ()
    }

    open spec fn history(&self) -> Seq<Notification<T, E>> {
        self.received()
    }

    fn on_next(&mut self, item: T) {
        proof {
            if !(self.state is Live) {
                assert(is_terminal(self.received@[self.received@.len() - 1]));
            }
        }
        self.push_next(item);
    }

    fn on_error(&mut self, error: E) {
        proof {
            if !(self.state is Live) {
                assert(is_terminal(self.received@[self.received@.len() - 1]));
            }
        }
        let _ = self.push_error(error);
    }

    fn on_completed(&mut self) {
        proof {
            if !(self.state is Live) {
                assert(is_terminal(self.received@[self.received@.len() - 1]));
            }
        }
        let _ = self.push_completed();
    }
}

} // verus!
