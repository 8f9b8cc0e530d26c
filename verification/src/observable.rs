use vstd::prelude::*;

use crate::Notification;
use crate::UncancellableSubscription;
use crate::complete_emission;
use crate::is_terminal;
use crate::terminated;
use crate::observer::Observer;

verus! {

/// The producer side of the protocol: a capability that accepts an observer
/// and delivers a notification sequence to it.
///
/// Every implementation in this crate is a cold, synchronous source: each
/// call to `subscribe` runs an independent production to completion before it
/// returns, so the source may be subscribed to any number of times. The
/// observer is taken by value, driven, and handed back together with the
/// subscription; since production has already finished when `subscribe`
/// returns, the subscription is always inert. A hot, deferred producer with a
/// live registry is `Subject`, which has a subscribe capability of its own.
pub trait Observable<T, E>: Sized {
    /// The cancellation handle a subscription returns.
    type Subscription;

    /// Source-specific well-formedness: what must hold of the source itself
    /// before it can be subscribed to — for an operator over a function, for
    /// instance, that the function accepts every value the upstream may hand
    /// it.
    spec fn wf(&self) -> bool;

    /// Which complete notification sequences one subscription may deliver.
    /// For deterministic sources this admits exactly one sequence; for an
    /// operator over an arbitrary function it relates the emission to the
    /// function's contract.
    spec fn can_emit(&self, emission: Seq<Notification<T, E>>) -> bool;

    /// Deliver one full notification sequence to `observer`, appended to
    /// whatever the observer had already received, and return the observer
    /// together with the cancellation handle.
    fn subscribe<O: Observer<T, E>>(&self, observer: O) -> (r: (O, Self::Subscription))
        requires
            self.wf(),
            observer.inv(),
            !terminated(observer.history()),
        ensures
            r.0.inv(),
            r.0.config() == observer.config(),
            r.0.history().len() > observer.history().len(),
            r.0.history().take(observer.history().len() as int) == observer.history(),
            self.can_emit(r.0.history().skip(observer.history().len() as int)),
            complete_emission(r.0.history().skip(observer.history().len() as int)),
    ;
}

/// The sequence a finite value source delivers: one `Next` per item, in
/// order, then `Completed`.
pub open spec fn items_emission<T, E>(items: Seq<T>) -> Seq<Notification<T, E>> {
    items.map_values(|x: T| Notification::<T, E>::Next(x)).push(Notification::Completed)
}

/// Observable implementation for a vector of items.
///
/// Upon subscription, this pushes every item in order and then completes.
/// The returned subscription is not cancellable: the stream completes before
/// the call to `subscribe` returns. The source is cold: each subscription
/// replays the same items.
impl<T: Copy, E> Observable<T, E> for Vec<T> {
    type Subscription = UncancellableSubscription;

    open spec fn wf(&self) -> bool {
        true
    }

    open spec fn can_emit(&self, emission: Seq<Notification<T, E>>) -> bool {
        emission == items_emission::<T, E>(self@)
    }

    fn subscribe<O: Observer<T, E>>(&self, observer: O) -> (r: (O, UncancellableSubscription)) {
        let mut obs = observer;
        let ghost base = obs.history();
        let ghost c0 = obs.config();
        let mut i: usize = 0;
        while i < self.len()
            invariant
                obs.inv(),
                obs.config() == c0,
                i <= self.len(),
                !terminated(base),
                obs.history().len() == base.len() + i,
                forall|k: int| 0 <= k < base.len() ==> obs.history()[k] == base[k],
                forall|k: int|
                    0 <= k < i ==> obs.history()[base.len() + k] == Notification::<T, E>::Next(
                        self@[k],
                    ),
            decreases self.len() - i,
        {
            proof {
                assert forall|k: int| 0 <= k < obs.history().len() implies !is_terminal(
                    obs.history()[k],
                ) by {
                    if k < base.len() {
                        assert(obs.history()[k] == base[k]);
                    } else {
                        let k2 = k - base.len();
                        assert(obs.history()[base.len() + k2] == Notification::<T, E>::Next(
                            self@[k2],
                        ));
                    }
                }
            }
            obs.on_next(self[i]);
            i += 1;
        }
        proof {
            assert forall|k: int| 0 <= k < obs.history().len() implies !is_terminal(
                obs.history()[k],
            ) by {
                if k < base.len() {
                    assert(obs.history()[k] == base[k]);
                } else {
                    let k2 = k - base.len();
                    assert(obs.history()[base.len() + k2] == Notification::<T, E>::Next(
                        self@[k2],
                    ));
                }
            }
        }
        obs.on_completed();
        proof {
            let em = items_emission::<T, E>(self@);
            assert(obs.history() =~= base + em);
            assert(obs.history().take(base.len() as int) =~= base);
            assert(obs.history().skip(base.len() as int) =~= em);
        }
        (obs, UncancellableSubscription)
    }
}

/// Observable implementation for `Result`.
///
/// Upon subscription, this pushes either the success value and completes, or
/// fails the stream with the error. The returned subscription is not
/// cancellable: the stream ends before the call to `subscribe` returns.
impl<T: Copy, E: Copy> Observable<T, E> for Result<T, E> {
    type Subscription = UncancellableSubscription;

    open spec fn wf(&self) -> bool {
        true
    }

    open spec fn can_emit(&self, emission: Seq<Notification<T, E>>) -> bool {
        match *self {
            Ok(v) => emission == seq![
                Notification::<T, E>::Next(v),
                Notification::<T, E>::Completed,
            ],
            Err(e) => emission == seq![Notification::<T, E>::Error(e)],
        }
    }

    fn subscribe<O: Observer<T, E>>(&self, observer: O) -> (r: (O, UncancellableSubscription)) {
        let mut obs = observer;
        let ghost base = obs.history();
        match self {
            Ok(item) => {
                obs.on_next(*item);
                proof {
                    assert(!terminated(obs.history()));
                }
                obs.on_completed();
                proof {
                    let em = seq![
                        Notification::<T, E>::Next(*item),
                        Notification::<T, E>::Completed,
                    ];
                    assert(obs.history() =~= base + em);
                    assert(obs.history().take(base.len() as int) =~= base);
                    assert(obs.history().skip(base.len() as int) =~= em);
                }
            },
            Err(error) => {
                obs.on_error(*error);
                proof {
                    let em = seq![Notification::<T, E>::Error(*error)];
                    assert(obs.history() =~= base + em);
                    assert(obs.history().take(base.len() as int) =~= base);
                    assert(obs.history().skip(base.len() as int) =~= em);
                }
            },
        }
        (obs, UncancellableSubscription)
    }
}

} // verus!
