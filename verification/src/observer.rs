use vstd::prelude::*;

use crate::Notification;
use crate::terminated;

verus! {

/// The consumer side of the protocol: a capability that receives a sequence
/// of notifications, pushed one call at a time.
///
/// `history()` is the abstract record of everything the observer has received
/// so far, and `inv()` is the observer's own well-formedness condition. A
/// producer may deliver a notification only while the history is not yet
/// terminated; under that discipline every history an observer can ever hold
/// is a valid one (see `lemma_protocol_invariant`).
pub trait Observer<T, E>: Sized {
    /// The delivery-invariant part of the observer: whatever configuration —
    /// a function, a counter limit, a recorded starting point — stays fixed
    /// while notifications arrive. Deliveries may change anything else, but
    /// never this.
    type Config;

    /// Observer-specific well-formedness, established at construction and
    /// preserved by every delivery.
    spec fn inv(&self) -> bool;

    /// The delivery-invariant part of this observer's state.
    spec fn config(&self) -> Self::Config;

    /// The notifications this observer has received, in delivery order.
    spec fn history(&self) -> Seq<Notification<T, E>>;

    /// Deliver the next value of the stream.
    fn on_next(&mut self, item: T)
        requires
            old(self).inv(),
            !terminated(old(self).history()),
        ensures
            final(self).inv(),
            final(self).history() == old(self).history().push(Notification::Next(item)),
            final(self).config() == old(self).config(),
    ;

    /// Deliver a stream failure; the stream ends with it.
    fn on_error(&mut self, error: E)
        requires
            old(self).inv(),
            !terminated(old(self).history()),
        ensures
            final(self).inv(),
            final(self).history() == old(self).history().push(Notification::Error(error)),
            final(self).config() == old(self).config(),
    ;

    /// Deliver normal completion; the stream ends with it.
    fn on_completed(&mut self)
        requires
            old(self).inv(),
            !terminated(old(self).history()),
        ensures
            final(self).inv(),
            final(self).history() == old(self).history().push(Notification::Completed),
            final(self).config() == old(self).config(),
    ;
}

/// An observer that simply records every notification it receives, in order.
/// It is the leaf of an operator chain: subscribe one, let the producers run,
/// then read the log back.
pub struct CollectingObserver<T, E> {
    log: Vec<Notification<T, E>>,
}

impl<T, E> CollectingObserver<T, E> {
    /// A fresh observer with an empty log.
    pub fn new() -> (r: Self)
        ensures
            r.inv(),
            r.history() == Seq::<Notification<T, E>>::empty(),
    {
        CollectingObserver { log: Vec::new() }
    }

    /// The notifications received so far.
    pub fn log(&self) -> (r: &Vec<Notification<T, E>>)
        ensures
            r@ == self.history(),
    {
        &self.log
    }

    /// Give up the observer and keep what it recorded.
    pub fn into_log(self) -> (r: Vec<Notification<T, E>>)
        ensures
            r@ == self.history(),
    {
        self.log
    }
}

impl<T, E> Observer<T, E> for CollectingObserver<T, E> {
    type Config = ();

    closed spec fn inv(&self) -> bool {
        true
    }

    closed spec fn config(&self) -> () {
        ()
    }

    closed spec fn history(&self) -> Seq<Notification<T, E>> {
        self.log@
    }

    fn on_next(&mut self, item: T) {
        self.log.push(Notification::Next(item));
    }

    fn on_error(&mut self, error: E) {
        self.log.push(Notification::Error(error));
    }

    fn on_completed(&mut self) {
        self.log.push(Notification::Completed);
    }
}

} // verus!
