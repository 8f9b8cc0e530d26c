use core::marker::PhantomData;
use vstd::prelude::*;

use crate::Notification;
use crate::UncancellableSubscription;
use crate::complete_emission;
use crate::is_terminal;
use crate::terminated;
use crate::valid_history;
use crate::observable::Observable;
use crate::observer::Observer;

verus! {

/// The relation between what a map stage receives and what it forwards:
/// every value is replaced by an output the function's contract admits for
/// it; terminal notifications pass through unchanged.
pub open spec fn map_rel<T, U, E, F: Fn(T) -> U>(
    f: F,
    ins: Seq<Notification<T, E>>,
    outs: Seq<Notification<U, E>>,
) -> bool
    decreases ins.len(),
{
    if ins.len() == 0 {
        outs.len() == 0
    } else {
        outs.len() > 0 && match ins.last() {
            Notification::Next(x) => {
                &&& outs.last() is Next
                &&& f.ensures((x,), outs.last()->Next_0)
                &&& map_rel(f, ins.drop_last(), outs.drop_last())
            },
            Notification::Error(e) => {
                &&& outs.last() == Notification::<U, E>::Error(e)
                &&& map_rel(f, ins.drop_last(), outs.drop_last())
            },
            Notification::Completed => {
                &&& outs.last() == Notification::<U, E>::Completed
                &&& map_rel(f, ins.drop_last(), outs.drop_last())
            },
        }
    }
}

/// The per-subscription observer a map stage plants between a source and the
/// downstream observer: it forwards every notification, with values sent
/// through the function.
#[verifier::reject_recursive_types(T)]
#[verifier::reject_recursive_types(U)]
pub struct MapObserver<T, U, E, D: Observer<U, E>, F: Fn(T) -> U> {
    /// The downstream observer everything is forwarded to.
    pub down: D,
    /// The function applied to each value.
    pub f: F,
    /// What this stage has received.
    pub received: Ghost<Seq<Notification<T, E>>>,
    /// The downstream history at the moment this stage was created.
    pub base: Ghost<Seq<Notification<U, E>>>,
    /// What this stage has forwarded downstream.
    pub forwarded: Ghost<Seq<Notification<U, E>>>,
}

impl<T, U, E, D: Observer<U, E>, F: Fn(T) -> U> MapObserver<T, U, E, D, F> {
    /// A fresh stage in front of `down`, which must still accept
    /// notifications; the function must accept every value of its input
    /// type.
    pub fn new(down: D, f: F) -> (r: Self)
        requires
            down.inv(),
            !terminated(down.history()),
            forall|x: T| f.requires((x,)),
        ensures
            r.inv(),
            r.history() == Seq::<Notification<T, E>>::empty(),
            r.down == down,
            r.f == f,
            r.base@ == down.history(),
    {
        let ghost b = down.history();
        let r = MapObserver {
            down,
            f,
            received: Ghost(Seq::empty()),
            base: Ghost(b),
            forwarded: Ghost(Seq::empty()),
        };
        proof {
            assert(r.down.history() =~= r.base@ + r.forwarded@);
        }
        r
    }

    /// Take the stage apart and hand the downstream observer back.
    pub fn into_inner(self) -> (r: D)
        ensures
            r == self.down,
    {
        self.down
    }
}

impl<T, U, E, D: Observer<U, E>, F: Fn(T) -> U> Observer<T, E> for MapObserver<T, U, E, D, F> {
    type Config = (F, Seq<Notification<U, E>>, D::Config);

    open spec fn config(&self) -> (F, Seq<Notification<U, E>>, D::Config) {
        (self.f, self.base@, self.down.config())
    }

    open spec fn inv(&self) -> bool {
        &&& self.down.inv()
        &&& !terminated(self.base@)
        &&& self.down.history() == self.base@ + self.forwarded@
        &&& map_rel(self.f, self.received@, self.forwarded@)
        &&& (!terminated(self.received@) ==> !terminated(self.forwarded@))
        &&& forall|x: T| self.f.requires((x,))
    }

    open spec fn history(&self) -> Seq<Notification<T, E>> {
        self.received@
    }

    fn on_next(&mut self, item: T) {
        proof {
            assert forall|k: int| 0 <= k < self.down.history().len() implies !is_terminal(
                self.down.history()[k],
            ) by {
                if k < self.base@.len() {
                    assert(self.down.history()[k] == self.base@[k]);
                } else {
                    assert(self.down.history()[k] == self.forwarded@[k - self.base@.len()]);
                }
            }
        }
        let out = (self.f)(item);
        self.down.on_next(out);
        proof {
            let ins = self.received@.push(Notification::Next(item));
            let outs = self.forwarded@.push(Notification::Next(out));
            assert(ins.drop_last() =~= self.received@);
            assert(outs.drop_last() =~= self.forwarded@);
            assert(map_rel(self.f, ins, outs));
            assert((self.base@ + self.forwarded@).push(Notification::Next(out)) =~= self.base@
                + outs);
            self.received = Ghost(ins);
            self.forwarded = Ghost(outs);
            assert forall|k: int| 0 <= k < outs.len() implies !is_terminal(outs[k]) by {
                if k < outs.len() - 1 {
                    assert(outs[k] == self.forwarded@.subrange(0, self.forwarded@.len() as int)[k]);
                }
            }
        }
    }

    fn on_error(&mut self, error: E) {
        proof {
            assert forall|k: int| 0 <= k < self.down.history().len() implies !is_terminal(
                self.down.history()[k],
            ) by {
                if k < self.base@.len() {
                    assert(self.down.history()[k] == self.base@[k]);
                } else {
                    assert(self.down.history()[k] == self.forwarded@[k - self.base@.len()]);
                }
            }
        }
        self.down.on_error(error);
        proof {
            let ins = self.received@.push(Notification::Error(error));
            let outs = self.forwarded@.push(Notification::Error(error));
            assert(ins.drop_last() =~= self.received@);
            assert(outs.drop_last() =~= self.forwarded@);
            assert(map_rel(self.f, ins, outs));
            assert((self.base@ + self.forwarded@).push(Notification::<U, E>::Error(error))
                =~= self.base@ + outs);
            self.received = Ghost(ins);
            self.forwarded = Ghost(outs);
        }
    }

    fn on_completed(&mut self) {
        proof {
            assert forall|k: int| 0 <= k < self.down.history().len() implies !is_terminal(
                self.down.history()[k],
            ) by {
                if k < self.base@.len() {
                    assert(self.down.history()[k] == self.base@[k]);
                } else {
                    assert(self.down.history()[k] == self.forwarded@[k - self.base@.len()]);
                }
            }
        }
        self.down.on_completed();
        proof {
            let ins = self.received@.push(Notification::Completed);
            let outs = self.forwarded@.push(Notification::Completed);
            assert(ins.drop_last() =~= self.received@);
            assert(outs.drop_last() =~= self.forwarded@);
            assert(map_rel(self.f, ins, outs));
            assert((self.base@ + self.forwarded@).push(Notification::<U, E>::Completed)
                =~= self.base@ + outs);
            self.received = Ghost(ins);
            self.forwarded = Ghost(outs);
        }
    }
}

/// The map operator as an observable: on subscription it plants a fresh
/// `MapObserver` in front of the subscriber and subscribes that stage to the
/// source, so each subscriber gets an independent run of the source with
/// every value sent through the function.
#[verifier::reject_recursive_types(T)]
#[verifier::reject_recursive_types(U)]
pub struct MapObservable<T, U, E, S: Observable<T, E>, F: Fn(T) -> U + Copy> {
    /// The upstream source.
    pub source: S,
    /// The function applied to each value.
    pub f: F,
    /// Carries the item and error types of the stream.
    pub marker: PhantomData<(T, U, E)>,
}

impl<T, U, E, S: Observable<T, E>, F: Fn(T) -> U + Copy> Observable<U, E> for MapObservable<
    T,
    U,
    E,
    S,
    F,
> {
    type Subscription = S::Subscription;

    open spec fn wf(&self) -> bool {
        &&& self.source.wf()
        &&& forall|x: T| self.f.requires((x,))
    }

    open spec fn can_emit(&self, emission: Seq<Notification<U, E>>) -> bool {
        exists|up: Seq<Notification<T, E>>|
            #[trigger] self.source.can_emit(up) && map_rel(self.f, up, emission)
    }

    fn subscribe<O: Observer<U, E>>(&self, observer: O) -> (r: (O, S::Subscription)) {
        let ghost base = observer.history();
        let node = MapObserver::new(observer, self.f);
        let (node, sub) = self.source.subscribe(node);
        let ghost up = node.received@;
        let ghost em = node.forwarded@;
        proof {
            assert(node.history().skip(0) =~= up);
            assert(self.source.can_emit(up));
            assert(complete_emission(up));
            assert(map_rel(self.f, up, em));
            lemma_map_rel_shape(self.f, up, em);
            assert(node.down.history() =~= base + em);
            assert(node.down.history().take(base.len() as int) =~= base);
            assert(node.down.history().skip(base.len() as int) =~= em);
        }
        let down = node.into_inner();
        (down, sub)
    }
}

/// What the shape of a received sequence forces of a mapped one: same
/// length, values stay values, terminals stay terminal. In particular a
/// complete emission maps to a complete emission.
proof fn lemma_map_rel_shape<T, U, E, F: Fn(T) -> U>(
    f: F,
    ins: Seq<Notification<T, E>>,
    outs: Seq<Notification<U, E>>,
)
    requires
        map_rel(f, ins, outs),
    ensures
        outs.len() == ins.len(),
        forall|i: int| 0 <= i < ins.len() ==> is_terminal(#[trigger] outs[i]) == is_terminal(
            ins[i],
        ),
        complete_emission(ins) ==> complete_emission(outs),
    decreases ins.len(),
{
    if ins.len() > 0 {
        lemma_map_rel_shape(f, ins.drop_last(), outs.drop_last());
        assert forall|i: int| 0 <= i < ins.len() implies is_terminal(#[trigger] outs[i])
            == is_terminal(ins[i]) by {
            if i < ins.len() - 1 {
                assert(outs.drop_last()[i] == outs[i]);
                assert(ins.drop_last()[i] == ins[i]);
            }
        }
        if complete_emission(ins) {
            assert forall|i: int| 0 <= i < outs.len() - 1 implies outs[i] is Next by {
                assert(ins[i] is Next);
                assert(!is_terminal(outs[i]));
            }
        }
    }
}

/// The relation between what a filter stage receives and what it forwards:
/// a value passes exactly when the predicate's contract admits `true` for
/// the outcome observed; terminal notifications pass through unchanged.
pub open spec fn filter_rel<T, E, P: Fn(T) -> bool>(
    p: P,
    ins: Seq<Notification<T, E>>,
    outs: Seq<Notification<T, E>>,
) -> bool
    decreases ins.len(),
{
    if ins.len() == 0 {
        outs.len() == 0
    } else {
        match ins.last() {
            Notification::Next(x) => {
                ||| {
                    &&& p.ensures((x,), true)
                    &&& outs.len() > 0
                    &&& outs.last() == Notification::<T, E>::Next(x)
                    &&& filter_rel(p, ins.drop_last(), outs.drop_last())
                }
                ||| {
                    &&& p.ensures((x,), false)
                    &&& filter_rel(p, ins.drop_last(), outs)
                }
            },
            Notification::Error(e) => {
                &&& outs.len() > 0
                &&& outs.last() == Notification::<T, E>::Error(e)
                &&& filter_rel(p, ins.drop_last(), outs.drop_last())
            },
            Notification::Completed => {
                &&& outs.len() > 0
                &&& outs.last() == Notification::<T, E>::Completed
                &&& filter_rel(p, ins.drop_last(), outs.drop_last())
            },
        }
    }
}

/// The per-subscription observer a filter stage plants between a source and
/// the downstream observer: values the predicate rejects are dropped,
/// everything else is forwarded unchanged.
#[verifier::reject_recursive_types(T)]
pub struct FilterObserver<T, E, D: Observer<T, E>, P: Fn(T) -> bool> {
    /// The downstream observer passing values are forwarded to.
    pub down: D,
    /// The predicate each value must pass.
    pub p: P,
    /// What this stage has received.
    pub received: Ghost<Seq<Notification<T, E>>>,
    /// The downstream history at the moment this stage was created.
    pub base: Ghost<Seq<Notification<T, E>>>,
    /// What this stage has forwarded downstream.
    pub forwarded: Ghost<Seq<Notification<T, E>>>,
}

impl<T: Copy, E, D: Observer<T, E>, P: Fn(T) -> bool> FilterObserver<T, E, D, P> {
    /// A fresh stage in front of `down`, which must still accept
    /// notifications; the predicate must accept every value of its input
    /// type.
    pub fn new(down: D, p: P) -> (r: Self)
        requires
            down.inv(),
            !terminated(down.history()),
            forall|x: T| p.requires((x,)),
        ensures
            r.inv(),
            r.history() == Seq::<Notification<T, E>>::empty(),
            r.down == down,
            r.p == p,
            r.base@ == down.history(),
    {
        let ghost b = down.history();
        let r = FilterObserver {
            down,
            p,
            received: Ghost(Seq::empty()),
            base: Ghost(b),
            forwarded: Ghost(Seq::empty()),
        };
        proof {
            assert(r.down.history() =~= r.base@ + r.forwarded@);
        }
        r
    }

    /// Take the stage apart and hand the downstream observer back.
    pub fn into_inner(self) -> (r: D)
        ensures
            r == self.down,
    {
        self.down
    }
}

impl<T: Copy, E, D: Observer<T, E>, P: Fn(T) -> bool> Observer<T, E> for FilterObserver<
    T,
    E,
    D,
    P,
> {
    type Config = (P, Seq<Notification<T, E>>, D::Config);

    open spec fn config(&self) -> (P, Seq<Notification<T, E>>, D::Config) {
        (self.p, self.base@, self.down.config())
    }

    open spec fn inv(&self) -> bool {
        &&& self.down.inv()
        &&& !terminated(self.base@)
        &&& self.down.history() == self.base@ + self.forwarded@
        &&& filter_rel(self.p, self.received@, self.forwarded@)
        &&& (!terminated(self.received@) ==> !terminated(self.forwarded@))
        &&& forall|x: T| self.p.requires((x,))
    }

    open spec fn history(&self) -> Seq<Notification<T, E>> {
        self.received@
    }

    fn on_next(&mut self, item: T) {
        let keep = (self.p)(item);
        let ghost ins = self.received@.push(Notification::Next(item));
        proof {
            assert(ins.drop_last() =~= self.received@);
        }
        if keep {
            proof {
                assert forall|k: int| 0 <= k < self.down.history().len() implies !is_terminal(
                    self.down.history()[k],
                ) by {
                    if k < self.base@.len() {
                        assert(self.down.history()[k] == self.base@[k]);
                    } else {
                        assert(self.down.history()[k] == self.forwarded@[k - self.base@.len()]);
                    }
                }
            }
            self.down.on_next(item);
            proof {
                let outs = self.forwarded@.push(Notification::Next(item));
                assert(outs.drop_last() =~= self.forwarded@);
                assert(ins.last() == Notification::<T, E>::Next(item));
                assert(self.p.ensures((item,), true));
                assert(filter_rel(self.p, ins, outs));
                assert((self.base@ + self.forwarded@).push(Notification::<T, E>::Next(item))
                    =~= self.base@ + outs);
                self.received = Ghost(ins);
                self.forwarded = Ghost(outs);
                assert forall|k: int| 0 <= k < outs.len() implies !is_terminal(outs[k]) by {
                    if k < outs.len() - 1 {
                        assert(outs[k] == outs.drop_last()[k]);
                    }
                }
            }
        } else {
            proof {
                assert(ins.last() == Notification::<T, E>::Next(item));
                assert(self.p.ensures((item,), false));
                assert(filter_rel(self.p, ins, self.forwarded@));
                self.received = Ghost(ins);
            }
        }
    }

    fn on_error(&mut self, error: E) {
        proof {
            assert forall|k: int| 0 <= k < self.down.history().len() implies !is_terminal(
                self.down.history()[k],
            ) by {
                if k < self.base@.len() {
                    assert(self.down.history()[k] == self.base@[k]);
                } else {
                    assert(self.down.history()[k] == self.forwarded@[k - self.base@.len()]);
                }
            }
        }
        self.down.on_error(error);
        proof {
            let ins = self.received@.push(Notification::Error(error));
            let outs = self.forwarded@.push(Notification::Error(error));
            assert(ins.drop_last() =~= self.received@);
            assert(outs.drop_last() =~= self.forwarded@);
            assert(filter_rel(self.p, ins, outs));
            assert((self.base@ + self.forwarded@).push(Notification::<T, E>::Error(error))
                =~= self.base@ + outs);
            self.received = Ghost(ins);
            self.forwarded = Ghost(outs);
        }
    }

    fn on_completed(&mut self) {
        proof {
            assert forall|k: int| 0 <= k < self.down.history().len() implies !is_terminal(
                self.down.history()[k],
            ) by {
                if k < self.base@.len() {
                    assert(self.down.history()[k] == self.base@[k]);
                } else {
                    assert(self.down.history()[k] == self.forwarded@[k - self.base@.len()]);
                }
            }
        }
        self.down.on_completed();
        proof {
            let ins = self.received@.push(Notification::Completed);
            let outs = self.forwarded@.push(Notification::Completed);
            assert(ins.drop_last() =~= self.received@);
            assert(outs.drop_last() =~= self.forwarded@);
            assert(filter_rel(self.p, ins, outs));
            assert((self.base@ + self.forwarded@).push(Notification::<T, E>::Completed)
                =~= self.base@ + outs);
            self.received = Ghost(ins);
            self.forwarded = Ghost(outs);
        }
    }
}

/// The filter operator as an observable: each subscriber gets an independent
/// run of the source with the values the predicate rejects dropped.
#[verifier::reject_recursive_types(T)]
pub struct FilterObservable<T, E, S: Observable<T, E>, P: Fn(T) -> bool + Copy> {
    /// The upstream source.
    pub source: S,
    /// The predicate each value must pass.
    pub p: P,
    /// Carries the error type of the stream.
    pub marker: PhantomData<(T, E)>,
}

impl<T: Copy, E, S: Observable<T, E>, P: Fn(T) -> bool + Copy> Observable<T, E> for FilterObservable<
    T,
    E,
    S,
    P,
> {
    type Subscription = S::Subscription;

    open spec fn wf(&self) -> bool {
        &&& self.source.wf()
        &&& forall|x: T| self.p.requires((x,))
    }

    open spec fn can_emit(&self, emission: Seq<Notification<T, E>>) -> bool {
        exists|up: Seq<Notification<T, E>>|
            #[trigger] self.source.can_emit(up) && filter_rel(self.p, up, emission)
    }

    fn subscribe<O: Observer<T, E>>(&self, observer: O) -> (r: (O, S::Subscription)) {
        let ghost base = observer.history();
        let node = FilterObserver::new(observer, self.p);
        let (node, sub) = self.source.subscribe(node);
        let ghost up = node.received@;
        let ghost em = node.forwarded@;
        proof {
            assert(node.history().skip(0) =~= up);
            assert(self.source.can_emit(up));
            assert(complete_emission(up));
            assert(filter_rel(self.p, up, em));
            lemma_filter_rel_shape(self.p, up, em);
            assert(node.down.history() =~= base + em);
            assert(node.down.history().take(base.len() as int) =~= base);
            assert(node.down.history().skip(base.len() as int) =~= em);
        }
        let down = node.into_inner();
        (down, sub)
    }
}

/// What the shape of a received sequence forces of a filtered one: a run of
/// values filters to a run of values, and a complete emission filters to a
/// complete emission.
proof fn lemma_filter_rel_shape<T, E, P: Fn(T) -> bool>(
    p: P,
    ins: Seq<Notification<T, E>>,
    outs: Seq<Notification<T, E>>,
)
    requires
        filter_rel(p, ins, outs),
    ensures
        (forall|i: int| 0 <= i < ins.len() ==> ins[i] is Next) ==> (forall|i: int|
            0 <= i < outs.len() ==> outs[i] is Next),
        complete_emission(ins) ==> complete_emission(outs),
    decreases ins.len(),
{
    if ins.len() > 0 {
        let prev = ins.drop_last();
        assert(forall|i: int| 0 <= i < prev.len() ==> prev[i] == ins[i]);
        match ins.last() {
            Notification::Next(x) => {
                if p.ensures((x,), true) && outs.len() > 0 && outs.last() == Notification::<
                    T,
                    E,
                >::Next(x) && filter_rel(p, prev, outs.drop_last()) {
                    lemma_filter_rel_shape(p, prev, outs.drop_last());
                    if forall|i: int| 0 <= i < ins.len() ==> ins[i] is Next {
                        assert forall|i: int| 0 <= i < outs.len() implies outs[i] is Next by {
                            if i < outs.len() - 1 {
                                assert(outs[i] == outs.drop_last()[i]);
                            }
                        }
                    }
                } else {
                    lemma_filter_rel_shape(p, prev, outs);
                }
            },
            _ => {
                lemma_filter_rel_shape(p, prev, outs.drop_last());
                if complete_emission(ins) {
                    assert(forall|i: int| 0 <= i < prev.len() ==> prev[i] is Next);
                    assert forall|i: int| 0 <= i < outs.len() - 1 implies outs[i] is Next by {
                        assert(outs[i] == outs.drop_last()[i]);
                    }
                }
            },
        }
    }
}

/// The run of values a history carries: the whole history while no terminal
/// notification has arrived, everything before the terminal one after it.
pub open spec fn values_of<T, E>(h: Seq<Notification<T, E>>) -> Seq<Notification<T, E>> {
    if terminated(h) {
        h.drop_last()
    } else {
        h
    }
}

/// What a take stage forwards, as a function of what it has received: the
/// first `n` values followed by its own completion once the source offers at
/// least `n` of them, the whole received sequence otherwise.
pub open spec fn take_emission<T, E>(n: nat, ins: Seq<Notification<T, E>>) -> Seq<
    Notification<T, E>,
> {
    if values_of(ins).len() >= n {
        values_of(ins).take(n as int).push(Notification::Completed)
    } else {
        ins
    }
}

/// Over any run of values long enough — `n` or more `Next` notifications and
/// no terminal — a take stage forwards exactly the first `n` values followed
/// by one completion, whatever arrives beyond them.
pub proof fn lemma_take_bounds<T, E>(n: nat, ins: Seq<Notification<T, E>>)
    requires
        !terminated(ins),
        ins.len() >= n,
    ensures
        take_emission(n, ins) == ins.take(n as int).push(Notification::<T, E>::Completed),
        take_emission(n, ins).len() == n + 1,
{
}

/// The per-subscription observer a take stage plants between a source and
/// the downstream observer: it forwards the first `n` values, then forwards
/// one completion of its own and drops everything that still arrives.
pub struct TakeObserver<T, E, D: Observer<T, E>> {
    /// The downstream observer.
    pub down: D,
    /// How many more values will be forwarded.
    pub remaining: usize,
    /// Whether the downstream stream has been ended by this stage.
    pub done: bool,
    /// What this stage has received.
    pub received: Ghost<Seq<Notification<T, E>>>,
    /// The downstream history at the moment this stage was created.
    pub base: Ghost<Seq<Notification<T, E>>>,
    /// The number of values this stage was asked to let through.
    pub limit: Ghost<nat>,
}

impl<T, E, D: Observer<T, E>> TakeObserver<T, E, D> {
    /// A fresh stage in front of `down` that will let `count` values
    /// through. With `count` zero the downstream stream is completed here
    /// and now, before any value arrives.
    pub fn new(down: D, count: usize) -> (r: Self)
        requires
            down.inv(),
            !terminated(down.history()),
        ensures
            r.inv(),
            r.history() == Seq::<Notification<T, E>>::empty(),
            r.base@ == down.history(),
            r.limit@ == count as nat,
            r.down.config() == down.config(),
            count == 0 ==> r.done && r.down.history() == down.history().push(
                Notification::<T, E>::Completed,
            ),
            count > 0 ==> !r.done && r.down == down,
    {
        let ghost b = down.history();
        if count == 0 {
            let mut d = down;
            d.on_completed();
            let r = TakeObserver {
                down: d,
                remaining: 0,
                done: true,
                received: Ghost(Seq::empty()),
                base: Ghost(b),
                limit: Ghost(0nat),
            };
            proof {
                assert(values_of(r.received@) =~= Seq::<Notification<T, E>>::empty());
                assert(take_emission(0nat, r.received@) =~= Seq::<Notification<
                    T,
                    E,
                >>::empty().push(Notification::Completed));
                assert(r.down.history() =~= r.base@ + take_emission(0nat, r.received@));
            }
            r
        } else {
            let r = TakeObserver {
                down,
                remaining: count,
                done: false,
                received: Ghost(Seq::empty()),
                base: Ghost(b),
                limit: Ghost(count as nat),
            };
            proof {
                assert(!terminated(r.received@));
                assert(values_of(r.received@) =~= r.received@);
                assert(r.down.history() =~= r.base@ + take_emission(count as nat, r.received@));
            }
            r
        }
    }

    /// Whether this stage has already ended the downstream stream: once it
    /// has, nothing that still arrives is forwarded, and a cooperative
    /// producer can stop pushing.
    pub fn is_done(&self) -> (r: bool)
        ensures
            r == self.done,
    {
        self.done
    }

    /// Take the stage apart and hand the downstream observer back.
    pub fn into_inner(self) -> (r: D)
        ensures
            r == self.down,
    {
        self.down
    }
}

impl<T, E, D: Observer<T, E>> Observer<T, E> for TakeObserver<T, E, D> {
    type Config = (nat, Seq<Notification<T, E>>, D::Config);

    open spec fn config(&self) -> (nat, Seq<Notification<T, E>>, D::Config) {
        (self.limit@, self.base@, self.down.config())
    }

    open spec fn inv(&self) -> bool {
        &&& self.down.inv()
        &&& !terminated(self.base@)
        &&& valid_history(self.received@)
        &&& self.down.history() == self.base@ + take_emission(self.limit@, self.received@)
        &&& self.done == (values_of(self.received@).len() >= self.limit@ || terminated(
            self.received@,
        ))
        &&& (!self.done ==> self.remaining == self.limit@ - self.received@.len())
    }

    open spec fn history(&self) -> Seq<Notification<T, E>> {
        self.received@
    }

    fn on_next(&mut self, item: T) {
        proof {
            assert(values_of(self.received@) =~= self.received@);
        }
        let ghost ins = self.received@.push(Notification::Next(item));
        proof {
            crate::lemma_valid_push(self.received@, Notification::<T, E>::Next(item));
            assert(values_of(ins) =~= ins);
        }
        if !self.done {
            proof {
                let em = take_emission(self.limit@, self.received@);
                assert(em =~= self.received@);
                assert forall|k: int| 0 <= k < self.down.history().len() implies !is_terminal(
                    self.down.history()[k],
                ) by {
                    if k < self.base@.len() {
                        assert(self.down.history()[k] == self.base@[k]);
                    } else {
                        assert(self.down.history()[k] == em[k - self.base@.len()]);
                    }
                }
            }
            self.down.on_next(item);
            self.remaining = self.remaining - 1;
            if self.remaining == 0 {
                proof {
                    assert forall|k: int| 0 <= k < self.down.history().len() implies !is_terminal(
                        self.down.history()[k],
                    ) by {
                        if k < self.base@.len() {
                            assert(self.down.history()[k] == self.base@[k]);
                        } else if k < self.base@.len() + self.received@.len() {
                            assert(self.down.history()[k] == self.received@[k - self.base@.len()]);
                        } else {
                            assert(self.down.history()[k] == Notification::<T, E>::Next(item));
                        }
                    }
                }
                self.down.on_completed();
                self.done = true;
                proof {
                    self.received = Ghost(ins);
                    assert(ins.len() == self.limit@);
                    assert(values_of(ins).take(self.limit@ as int) =~= ins);
                    assert(self.down.history() =~= self.base@ + take_emission(
                        self.limit@,
                        ins,
                    ));
                }
            } else {
                proof {
                    self.received = Ghost(ins);
                    assert(take_emission(self.limit@, ins) =~= ins);
                    assert(self.down.history() =~= self.base@ + ins);
                }
            }
        } else {
            proof {
                let em_old = take_emission(self.limit@, self.received@);
                self.received = Ghost(ins);
                assert(values_of(ins).take(self.limit@ as int) =~= values_of(
                    self.received@,
                ).take(self.limit@ as int));
                assert(take_emission(self.limit@, ins) =~= em_old);
            }
        }
    }

    fn on_error(&mut self, error: E) {
        let ghost ins = self.received@.push(Notification::Error(error));
        proof {
            crate::lemma_valid_push(self.received@, Notification::<T, E>::Error(error));
            assert(values_of(self.received@) =~= self.received@);
            assert(values_of(ins) =~= self.received@);
        }
        if !self.done {
            proof {
                let em = take_emission(self.limit@, self.received@);
                assert(em =~= self.received@);
                assert forall|k: int| 0 <= k < self.down.history().len() implies !is_terminal(
                    self.down.history()[k],
                ) by {
                    if k < self.base@.len() {
                        assert(self.down.history()[k] == self.base@[k]);
                    } else {
                        assert(self.down.history()[k] == em[k - self.base@.len()]);
                    }
                }
            }
            self.down.on_error(error);
            self.done = true;
            proof {
                self.received = Ghost(ins);
                assert(take_emission(self.limit@, ins) =~= ins);
                assert(self.down.history() =~= self.base@ + ins);
            }
        } else {
            proof {
                let em_old = take_emission(self.limit@, self.received@);
                self.received = Ghost(ins);
                assert(values_of(ins).take(self.limit@ as int) =~= values_of(
                    self.received@,
                ).take(self.limit@ as int));
                assert(take_emission(self.limit@, ins) =~= em_old);
            }
        }
    }

    fn on_completed(&mut self) {
        let ghost ins = self.received@.push(Notification::Completed);
        proof {
            crate::lemma_valid_push(self.received@, Notification::<T, E>::Completed);
            assert(values_of(self.received@) =~= self.received@);
            assert(values_of(ins) =~= self.received@);
        }
        if !self.done {
            proof {
                let em = take_emission(self.limit@, self.received@);
                assert(em =~= self.received@);
                assert forall|k: int| 0 <= k < self.down.history().len() implies !is_terminal(
                    self.down.history()[k],
                ) by {
                    if k < self.base@.len() {
                        assert(self.down.history()[k] == self.base@[k]);
                    } else {
                        assert(self.down.history()[k] == em[k - self.base@.len()]);
                    }
                }
            }
            self.down.on_completed();
            self.done = true;
            proof {
                self.received = Ghost(ins);
                assert(take_emission(self.limit@, ins) =~= ins);
                assert(self.down.history() =~= self.base@ + ins);
            }
        } else {
            proof {
                let em_old = take_emission(self.limit@, self.received@);
                self.received = Ghost(ins);
                assert(values_of(ins).take(self.limit@ as int) =~= values_of(
                    self.received@,
                ).take(self.limit@ as int));
                assert(take_emission(self.limit@, ins) =~= em_old);
            }
        }
    }
}

/// A take stage forwards a complete emission for every complete received
/// sequence.
proof fn lemma_take_emission_complete<T, E>(n: nat, ins: Seq<Notification<T, E>>)
    requires
        complete_emission(ins),
    ensures
        complete_emission(take_emission(n, ins)),
{
    assert(terminated(ins));
    let vals = values_of(ins);
    if vals.len() >= n {
        let em = vals.take(n as int).push(Notification::<T, E>::Completed);
        assert(is_terminal(em.last()));
        assert forall|i: int| 0 <= i < em.len() - 1 implies em[i] is Next by {
            assert(em[i] == vals[i]);
            assert(vals[i] == ins[i]);
        }
    }
}

/// The take operator as an observable: each subscriber receives the first
/// `count` values of an independent run of the source, then one completion.
/// Whatever the source still produces past that point inside the same
/// synchronous run is dropped by the stage; with `count` zero the stream is
/// completed without touching the source at all. The subscription handed
/// back is inert (the stage releases its interest in the source itself), so
/// this observable's own handle is uncancellable.
#[verifier::reject_recursive_types(T)]
pub struct TakeObservable<T, E, S: Observable<T, E>> {
    /// The upstream source.
    pub source: S,
    /// How many values each subscriber receives at most.
    pub count: usize,
    /// Carries the item and error types of the stream.
    pub marker: PhantomData<(T, E)>,
}

impl<T, E, S: Observable<T, E>> Observable<T, E> for TakeObservable<T, E, S> {
    type Subscription = UncancellableSubscription;

    open spec fn wf(&self) -> bool {
        self.source.wf()
    }

    open spec fn can_emit(&self, emission: Seq<Notification<T, E>>) -> bool {
        if self.count == 0 {
            emission == seq![Notification::<T, E>::Completed]
        } else {
            exists|up: Seq<Notification<T, E>>|
                #[trigger] self.source.can_emit(up) && emission == take_emission(
                    self.count as nat,
                    up,
                )
        }
    }

    fn subscribe<O: Observer<T, E>>(&self, observer: O) -> (r: (O, UncancellableSubscription)) {
        let ghost base = observer.history();
        if self.count == 0 {
            let mut obs = observer;
            obs.on_completed();
            proof {
                let em = seq![Notification::<T, E>::Completed];
                assert(obs.history() =~= base + em);
                assert(obs.history().take(base.len() as int) =~= base);
                assert(obs.history().skip(base.len() as int) =~= em);
            }
            (obs, UncancellableSubscription)
        } else {
            let node = TakeObserver::new(observer, self.count);
            let (node, _sub) = self.source.subscribe(node);
            let ghost up = node.received@;
            let ghost em = take_emission(self.count as nat, up);
            proof {
                assert(node.history().skip(0) =~= up);
                assert(self.source.can_emit(up));
                assert(complete_emission(up));
                lemma_take_emission_complete(self.count as nat, up);
                assert(node.down.history() =~= base + em);
                assert(node.down.history().take(base.len() as int) =~= base);
                assert(node.down.history().skip(base.len() as int) =~= em);
            }
            let down = node.into_inner();
            (down, UncancellableSubscription)
        }
    }
}

/// What a skip stage forwards, as a function of what it has received:
/// everything after the first `n` values — so nothing at all until more than
/// `n` values (or a terminal notification) have arrived.
pub open spec fn skip_emission<T, E>(n: nat, ins: Seq<Notification<T, E>>) -> Seq<
    Notification<T, E>,
> {
    if values_of(ins).len() < n {
        ins.skip(values_of(ins).len() as int)
    } else {
        ins.skip(n as int)
    }
}

/// A skip stage forwards a complete emission for every complete received
/// sequence.
proof fn lemma_skip_emission_complete<T, E>(n: nat, ins: Seq<Notification<T, E>>)
    requires
        complete_emission(ins),
    ensures
        complete_emission(skip_emission(n, ins)),
{
    assert(terminated(ins));
    let vals = values_of(ins);
    let k: int = if vals.len() < n {
        vals.len() as int
    } else {
        n as int
    };
    let em = ins.skip(k);
    assert(em.len() == ins.len() - k);
    assert(em.last() == ins.last());
    assert forall|i: int| 0 <= i < em.len() - 1 implies em[i] is Next by {
        assert(em[i] == ins[k + i]);
    }
}

/// The per-subscription observer a skip stage plants between a source and
/// the downstream observer: it drops the first `n` values and forwards
/// everything after them, terminal notifications included.
pub struct SkipObserver<T, E, D: Observer<T, E>> {
    /// The downstream observer.
    pub down: D,
    /// How many more values will be dropped.
    pub to_skip: usize,
    /// What this stage has received.
    pub received: Ghost<Seq<Notification<T, E>>>,
    /// The downstream history at the moment this stage was created.
    pub base: Ghost<Seq<Notification<T, E>>>,
    /// The number of values this stage was asked to drop.
    pub limit: Ghost<nat>,
}

impl<T, E, D: Observer<T, E>> SkipObserver<T, E, D> {
    /// A fresh stage in front of `down` that will drop the first `count`
    /// values.
    pub fn new(down: D, count: usize) -> (r: Self)
        requires
            down.inv(),
            !terminated(down.history()),
        ensures
            r.inv(),
            r.history() == Seq::<Notification<T, E>>::empty(),
            r.base@ == down.history(),
            r.limit@ == count as nat,
            r.down == down,
    {
        let ghost b = down.history();
        let r = SkipObserver {
            down,
            to_skip: count,
            received: Ghost(Seq::empty()),
            base: Ghost(b),
            limit: Ghost(count as nat),
        };
        proof {
            assert(skip_emission(count as nat, r.received@) =~= Seq::<Notification<
                T,
                E,
            >>::empty());
            assert(r.down.history() =~= r.base@ + skip_emission(count as nat, r.received@));
        }
        r
    }

    /// Take the stage apart and hand the downstream observer back.
    pub fn into_inner(self) -> (r: D)
        ensures
            r == self.down,
    {
        self.down
    }
}

impl<T, E, D: Observer<T, E>> Observer<T, E> for SkipObserver<T, E, D> {
    type Config = (nat, Seq<Notification<T, E>>, D::Config);

    open spec fn config(&self) -> (nat, Seq<Notification<T, E>>, D::Config) {
        (self.limit@, self.base@, self.down.config())
    }

    open spec fn inv(&self) -> bool {
        &&& self.down.inv()
        &&& !terminated(self.base@)
        &&& valid_history(self.received@)
        &&& self.down.history() == self.base@ + skip_emission(self.limit@, self.received@)
        &&& self.to_skip == (if values_of(self.received@).len() >= self.limit@ {
            0int
        } else {
            self.limit@ - values_of(self.received@).len()
        })
    }

    open spec fn history(&self) -> Seq<Notification<T, E>> {
        self.received@
    }

    fn on_next(&mut self, item: T) {
        let ghost ins = self.received@.push(Notification::Next(item));
        proof {
            crate::lemma_valid_push(self.received@, Notification::<T, E>::Next(item));
            assert(values_of(self.received@) =~= self.received@);
            assert(values_of(ins) =~= ins);
        }
        if self.to_skip > 0 {
            self.to_skip = self.to_skip - 1;
            proof {
                let em_old = skip_emission(self.limit@, self.received@);
                assert(em_old =~= Seq::<Notification<T, E>>::empty());
                self.received = Ghost(ins);
                assert(skip_emission(self.limit@, ins) =~= Seq::<Notification<T, E>>::empty());
                assert(self.down.inv());
                assert(self.down.history() == self.base@ + skip_emission(
                    self.limit@,
                    self.received@,
                ));
                assert(valid_history(self.received@));
                assert(self.to_skip == (if values_of(self.received@).len() >= self.limit@ {
                    0int
                } else {
                    self.limit@ - values_of(self.received@).len()
                }));
            }
        } else {
            proof {
                let em = skip_emission(self.limit@, self.received@);
                assert(em =~= self.received@.skip(self.limit@ as int));
                assert forall|k: int| 0 <= k < self.down.history().len() implies !is_terminal(
                    self.down.history()[k],
                ) by {
                    if k < self.base@.len() {
                        assert(self.down.history()[k] == self.base@[k]);
                    } else {
                        assert(self.down.history()[k] == em[k - self.base@.len()]);
                        assert(em[k - self.base@.len()] == self.received@[k - self.base@.len()
                            + self.limit@]);
                    }
                }
            }
            self.down.on_next(item);
            proof {
                let ghost prev = self.received@;
                self.received = Ghost(ins);
                assert(ins.drop_last() =~= prev);
                assert(skip_emission(self.limit@, ins) =~= ins.skip(self.limit@ as int));
                assert((self.base@ + prev.skip(self.limit@ as int)).push(
                    Notification::<T, E>::Next(item),
                ) =~= self.base@ + ins.skip(self.limit@ as int));
                assert(self.down.history() == self.base@ + skip_emission(self.limit@, ins));
            }
        }
    }

    fn on_error(&mut self, error: E) {
        proof {
            self.lemma_down_open();
        }
        self.down.on_error(error);
        proof {
            let ins = self.received@.push(Notification::Error(error));
            self.received = Ghost(ins);
            lemma_skip_step_terminal(self.limit@, ins);
            assert(self.down.history() =~= self.base@ + skip_emission(self.limit@, ins));
        }
    }

    fn on_completed(&mut self) {
        proof {
            self.lemma_down_open();
        }
        self.down.on_completed();
        proof {
            let ins = self.received@.push(Notification::Completed);
            self.received = Ghost(ins);
            lemma_skip_step_terminal(self.limit@, ins);
            assert(self.down.history() =~= self.base@ + skip_emission(self.limit@, ins));
        }
    }
}

impl<T, E, D: Observer<T, E>> SkipObserver<T, E, D> {
    /// The downstream may still be written to while this stage has not
    /// terminated: its history is the base plus a run of forwarded values.
    proof fn lemma_down_open(&self)
        requires
            self.inv(),
            !terminated(self.received@),
        ensures
            !terminated(self.down.history()),
    {
        let em = skip_emission(self.limit@, self.received@);
        assert(values_of(self.received@) =~= self.received@);
        assert forall|k: int| 0 <= k < self.down.history().len() implies !is_terminal(
            self.down.history()[k],
        ) by {
            if k < self.base@.len() {
                assert(self.down.history()[k] == self.base@[k]);
            } else {
                assert(self.down.history()[k] == em[k - self.base@.len()]);
                if self.received@.len() < self.limit@ {
                    assert(em =~= self.received@.skip(self.received@.len() as int));
                } else {
                    assert(em[k - self.base@.len()] == self.received@[k - self.base@.len()
                        + self.limit@]);
                }
            }
        }
    }
}

/// How a skip stage's emission grows when a terminal notification arrives on
/// a not yet terminated received sequence: it is forwarded as is.
proof fn lemma_skip_step_terminal<T, E>(n: nat, ins: Seq<Notification<T, E>>)
    requires
        ins.len() > 0,
        is_terminal(ins.last()),
        !terminated(ins.drop_last()),
    ensures
        skip_emission(n, ins) == skip_emission(n, ins.drop_last()).push(ins.last()),
{
    let prev = ins.drop_last();
    assert(values_of(prev) =~= prev);
    assert(values_of(ins) =~= prev);
    if prev.len() < n {
        assert(skip_emission(n, prev) =~= Seq::<Notification<T, E>>::empty());
        assert(skip_emission(n, ins) =~= seq![ins.last()]);
        assert(skip_emission(n, ins) =~= skip_emission(n, prev).push(ins.last()));
    } else {
        assert(skip_emission(n, ins) =~= skip_emission(n, prev).push(ins.last()));
    }
}

/// The skip operator as an observable: each subscriber receives an
/// independent run of the source with the first `count` values removed.
#[verifier::reject_recursive_types(T)]
pub struct SkipObservable<T, E, S: Observable<T, E>> {
    /// The upstream source.
    pub source: S,
    /// How many leading values each subscriber is spared.
    pub count: usize,
    /// Carries the item and error types of the stream.
    pub marker: PhantomData<(T, E)>,
}

impl<T, E, S: Observable<T, E>> Observable<T, E> for SkipObservable<T, E, S> {
    type Subscription = S::Subscription;

    open spec fn wf(&self) -> bool {
        self.source.wf()
    }

    open spec fn can_emit(&self, emission: Seq<Notification<T, E>>) -> bool {
        exists|up: Seq<Notification<T, E>>|
            #[trigger] self.source.can_emit(up) && emission == skip_emission(
                self.count as nat,
                up,
            )
    }

    fn subscribe<O: Observer<T, E>>(&self, observer: O) -> (r: (O, S::Subscription)) {
        let ghost base = observer.history();
        let node = SkipObserver::new(observer, self.count);
        let (node, sub) = self.source.subscribe(node);
        let ghost up = node.received@;
        let ghost em = skip_emission(self.count as nat, up);
        proof {
            assert(node.history().skip(0) =~= up);
            assert(self.source.can_emit(up));
            assert(complete_emission(up));
            lemma_skip_emission_complete(self.count as nat, up);
            assert(node.down.history() =~= base + em);
            assert(node.down.history().take(base.len() as int) =~= base);
            assert(node.down.history().skip(base.len() as int) =~= em);
        }
        let down = node.into_inner();
        (down, sub)
    }
}

/// What a merge arm forwards: everything it receives except a completion,
/// which is withheld so the merge completes once, after all its sources
/// have.
pub open spec fn arm_emission<T, E>(h: Seq<Notification<T, E>>) -> Seq<Notification<T, E>> {
    if h.len() > 0 && h.last() is Completed {
        h.drop_last()
    } else {
        h
    }
}

/// The observer a merge plants in front of one of its sources: values and
/// failures are forwarded to the shared downstream, completions are
/// withheld.
pub struct MergeArm<T, E, D: Observer<T, E>> {
    /// The downstream observer shared by the merge.
    pub down: D,
    /// Whether this arm has forwarded a failure.
    pub errored: bool,
    /// What this arm has received.
    pub received: Ghost<Seq<Notification<T, E>>>,
    /// The downstream history at the moment this arm was created.
    pub base: Ghost<Seq<Notification<T, E>>>,
}

impl<T, E, D: Observer<T, E>> MergeArm<T, E, D> {
    /// A fresh arm in front of `down`.
    pub fn new(down: D) -> (r: Self)
        requires
            down.inv(),
            !terminated(down.history()),
        ensures
            r.inv(),
            r.history() == Seq::<Notification<T, E>>::empty(),
            r.down == down,
            r.base@ == down.history(),
            !r.errored,
    {
        let ghost b = down.history();
        let r = MergeArm { down, errored: false, received: Ghost(Seq::empty()), base: Ghost(b) };
        proof {
            assert(arm_emission(r.received@) =~= Seq::<Notification<T, E>>::empty());
            assert(r.down.history() =~= r.base@ + arm_emission(r.received@));
        }
        r
    }

    /// Take the arm apart and hand the downstream observer back.
    pub fn into_inner(self) -> (r: D)
        ensures
            r == self.down,
    {
        self.down
    }
}

impl<T, E, D: Observer<T, E>> Observer<T, E> for MergeArm<T, E, D> {
    type Config = (Seq<Notification<T, E>>, D::Config);

    open spec fn config(&self) -> (Seq<Notification<T, E>>, D::Config) {
        (self.base@, self.down.config())
    }

    open spec fn inv(&self) -> bool {
        &&& self.down.inv()
        &&& !terminated(self.base@)
        &&& valid_history(self.received@)
        &&& self.down.history() == self.base@ + arm_emission(self.received@)
        &&& self.errored == (self.received@.len() > 0 && self.received@.last() is Error)
    }

    open spec fn history(&self) -> Seq<Notification<T, E>> {
        self.received@
    }

    fn on_next(&mut self, item: T) {
        let ghost ins = self.received@.push(Notification::Next(item));
        proof {
            crate::lemma_valid_push(self.received@, Notification::<T, E>::Next(item));
            let em = arm_emission(self.received@);
            assert(em =~= self.received@);
            assert forall|k: int| 0 <= k < self.down.history().len() implies !is_terminal(
                self.down.history()[k],
            ) by {
                if k < self.base@.len() {
                    assert(self.down.history()[k] == self.base@[k]);
                } else {
                    assert(self.down.history()[k] == em[k - self.base@.len()]);
                }
            }
        }
        self.down.on_next(item);
        proof {
            let ghost prev = self.received@;
            self.received = Ghost(ins);
            assert(arm_emission(ins) =~= ins);
            assert((self.base@ + prev).push(Notification::<T, E>::Next(item)) =~= self.base@
                + ins);
            assert(self.down.history() == self.base@ + arm_emission(ins));
        }
    }

    fn on_error(&mut self, error: E) {
        let ghost ins = self.received@.push(Notification::Error(error));
        proof {
            crate::lemma_valid_push(self.received@, Notification::<T, E>::Error(error));
            let em = arm_emission(self.received@);
            assert(em =~= self.received@);
            assert forall|k: int| 0 <= k < self.down.history().len() implies !is_terminal(
                self.down.history()[k],
            ) by {
                if k < self.base@.len() {
                    assert(self.down.history()[k] == self.base@[k]);
                } else {
                    assert(self.down.history()[k] == em[k - self.base@.len()]);
                }
            }
        }
        self.down.on_error(error);
        self.errored = true;
        proof {
            let ghost prev = self.received@;
            self.received = Ghost(ins);
            assert(arm_emission(ins) =~= ins);
            assert((self.base@ + prev).push(Notification::<T, E>::Error(error)) =~= self.base@
                + ins);
            assert(self.down.history() == self.base@ + arm_emission(ins));
        }
    }

    fn on_completed(&mut self) {
        let ghost ins = self.received@.push(Notification::Completed);
        proof {
            crate::lemma_valid_push(self.received@, Notification::<T, E>::Completed);
            let prev = self.received@;
            self.received = Ghost(ins);
            assert(arm_emission(ins) =~= prev);
            assert(arm_emission(prev) =~= prev);
            assert(self.down.history() == self.base@ + arm_emission(ins));
        }
    }
}

/// The merge of two sources: one subscription drives both sources in turn,
/// forwards every value of each, and completes once after both have
/// completed. The first failure is forwarded immediately and ends the merge:
/// the remaining source is then never subscribed. Because each source here
/// produces synchronously, the first source's whole run precedes the
/// second's; within each source the order of its values is preserved.
#[verifier::reject_recursive_types(T)]
pub struct Merge2Observable<T, E, S1: Observable<T, E>, S2: Observable<T, E>> {
    /// The source drained first.
    pub first: S1,
    /// The source drained second.
    pub second: S2,
    /// Carries the item and error types of the stream.
    pub marker: PhantomData<(T, E)>,
}

impl<T, E, S1: Observable<T, E>, S2: Observable<T, E>> Observable<T, E> for Merge2Observable<
    T,
    E,
    S1,
    S2,
> {
    type Subscription = UncancellableSubscription;

    open spec fn wf(&self) -> bool {
        &&& self.first.wf()
        &&& self.second.wf()
    }

    open spec fn can_emit(&self, emission: Seq<Notification<T, E>>) -> bool {
        exists|em1: Seq<Notification<T, E>>|
            #[trigger] self.first.can_emit(em1) && complete_emission(em1) && if em1.last()
                is Error {
                emission == em1
            } else {
                exists|em2: Seq<Notification<T, E>>|
                    #[trigger] self.second.can_emit(em2) && complete_emission(em2) && emission
                        == em1.drop_last() + em2
            }
    }

    fn subscribe<O: Observer<T, E>>(&self, observer: O) -> (r: (O, UncancellableSubscription)) {
        let ghost base = observer.history();
        let arm1 = MergeArm::new(observer);
        let (arm1, _s1) = self.first.subscribe(arm1);
        let ghost em1 = arm1.received@;
        proof {
            assert(arm1.history().skip(0) =~= em1);
            assert(self.first.can_emit(em1));
            assert(complete_emission(em1));
        }
        if arm1.errored {
            let down = arm1.into_inner();
            proof {
                assert(arm_emission(em1) =~= em1);
                assert(down.history() =~= base + em1);
                assert(down.history().take(base.len() as int) =~= base);
                assert(down.history().skip(base.len() as int) =~= em1);
            }
            return (down, UncancellableSubscription);
        }
        let down = arm1.into_inner();
        let ghost base2 = down.history();
        proof {
            assert(em1.last() is Completed);
            assert(arm_emission(em1) =~= em1.drop_last());
            assert(base2 =~= base + em1.drop_last());
            assert forall|k: int| 0 <= k < base2.len() implies !is_terminal(base2[k]) by {
                if k < base.len() {
                    assert(base2[k] == base[k]);
                } else {
                    assert(base2[k] == em1.drop_last()[k - base.len()]);
                    assert(em1[k - base.len()] is Next);
                }
            }
        }
        let arm2 = MergeArm::new(down);
        let (arm2, _s2) = self.second.subscribe(arm2);
        let ghost em2 = arm2.received@;
        proof {
            assert(arm2.history().skip(0) =~= em2);
            assert(self.second.can_emit(em2));
            assert(complete_emission(em2));
        }
        let errored2 = arm2.errored;
        let mut down = arm2.into_inner();
        let ghost em = em1.drop_last() + em2;
        proof {
            assert(em.last() == em2.last());
            assert forall|k: int| 0 <= k < em.len() - 1 implies em[k] is Next by {
                if k < em1.len() - 1 {
                    assert(em[k] == em1.drop_last()[k]);
                    assert(em1[k] is Next);
                } else {
                    assert(em[k] == em2[k - (em1.len() - 1)]);
                }
            }
        }
        if errored2 {
            proof {
                assert(arm_emission(em2) =~= em2);
                assert(down.history() =~= base2 + em2);
                assert(down.history() =~= base + em);
                assert(down.history().take(base.len() as int) =~= base);
                assert(down.history().skip(base.len() as int) =~= em);
            }
            (down, UncancellableSubscription)
        } else {
            proof {
                assert(em2.last() is Completed);
                assert(arm_emission(em2) =~= em2.drop_last());
                let h = down.history();
                assert(h =~= base2 + em2.drop_last());
                assert forall|k: int| 0 <= k < h.len() implies !is_terminal(h[k]) by {
                    if k < base2.len() {
                        assert(h[k] == base2[k]);
                    } else {
                        assert(h[k] == em2.drop_last()[k - base2.len()]);
                        assert(em2[k - base2.len()] is Next);
                    }
                }
            }
            down.on_completed();
            proof {
                assert(em2 =~= em2.drop_last().push(Notification::<T, E>::Completed));
                assert(down.history() =~= (base2 + em2.drop_last()).push(
                    Notification::<T, E>::Completed,
                ));
                assert(down.history() =~= base + em);
                assert(down.history().take(base.len() as int) =~= base);
                assert(down.history().skip(base.len() as int) =~= em);
            }
            (down, UncancellableSubscription)
        }
    }
}

} // verus!
