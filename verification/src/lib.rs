//! A push-based reactive-stream core: observables deliver sequences of
//! notifications to observers, subjects multicast one producer to many
//! independently cancellable consumers, and operators compose new observables
//! from existing ones while preserving the delivery protocol.
//!
//! The protocol is the heart of the crate: an observer receives zero or more
//! `Next` notifications, followed by at most one terminal notification
//! (`Error` or `Completed`), and nothing after that. Every producer in this
//! crate is verified against that invariant.

use vstd::prelude::*;

mod generate;
mod observable;
mod observer;
mod subject;
mod transform;

pub use generate::ErrorObservable;
pub use generate::GenerateError;
pub use generate::RangeObservable;
pub use generate::error;
pub use generate::range;
pub use generate::range_emission;
pub use observable::Observable;
pub use observable::items_emission;
pub use observer::CollectingObserver;
pub use observer::Observer;
pub use subject::Subject;
pub use subject::SubjectSubscription;
pub use subject::compact;
pub use subject::fan_out;
pub use subject::nexts_of;
pub use subject::slot_advanced;
pub use transform::MapObservable;
pub use transform::MapObserver;
pub use transform::map_rel;
pub use transform::FilterObservable;
pub use transform::FilterObserver;
pub use transform::filter_rel;
pub use transform::TakeObserver;
pub use transform::lemma_take_bounds;
pub use transform::take_emission;
pub use transform::values_of;
pub use transform::TakeObservable;
pub use transform::SkipObservable;
pub use transform::SkipObserver;
pub use transform::skip_emission;
pub use transform::Merge2Observable;
pub use transform::MergeArm;
pub use transform::arm_emission;

verus! {

/// A single event delivered to an observer: a value, a stream failure, or
/// normal completion. The two non-`Next` variants are terminal: at most one
/// of them ever appears in a delivery history, and only as its last element.
#[derive(Clone, Copy, PartialEq, Eq, Structural, Debug)]
pub enum Notification<T, E> {
    /// The next value of the stream.
    Next(T),
    /// The stream failed; no further notifications follow.
    Error(E),
    /// The stream finished normally; no further notifications follow.
    Completed,
}

/// A notification that ends a stream: `Error` or `Completed`.
pub open spec fn is_terminal<T, E>(n: Notification<T, E>) -> bool {
    !(n is Next)
}

/// A delivery history that has already received a terminal notification.
pub open spec fn terminated<T, E>(h: Seq<Notification<T, E>>) -> bool {
    exists|i: int| 0 <= i < h.len() && is_terminal(h[i])
}

/// The histories the delivery protocol can produce: a terminal notification
/// may stand only in the last position.
pub open spec fn valid_history<T, E>(h: Seq<Notification<T, E>>) -> bool {
    forall|i: int| 0 <= i < h.len() - 1 ==> h[i] is Next
}

/// A complete synchronous emission: what one finished production run hands an
/// observer. It holds at least the terminal notification, the terminal
/// notification is its last element, and everything before it is a `Next`.
pub open spec fn complete_emission<T, E>(em: Seq<Notification<T, E>>) -> bool {
    &&& em.len() > 0
    &&& is_terminal(em.last())
    &&& forall|i: int| 0 <= i < em.len() - 1 ==> em[i] is Next
}

/// How many terminal notifications a history holds.
pub open spec fn terminal_count<T, E>(h: Seq<Notification<T, E>>) -> nat
    decreases h.len(),
{
    if h.len() == 0 {
        0
    } else {
        terminal_count(h.drop_last()) + if is_terminal(h.last()) {
            1nat
        } else {
            0nat
        }
    }
}

proof fn lemma_all_next_count_zero<T, E>(h: Seq<Notification<T, E>>)
    requires
        forall|i: int| 0 <= i < h.len() ==> h[i] is Next,
    ensures
        terminal_count(h) == 0,
    decreases h.len(),
{
    if h.len() > 0 {
        lemma_all_next_count_zero(h.drop_last());
    }
}

/// Appending one notification to a live (not yet terminated) valid history
/// keeps it valid; the result is terminated exactly when the appended
/// notification is terminal. This is the step every verified producer takes.
pub proof fn lemma_valid_push<T, E>(h: Seq<Notification<T, E>>, n: Notification<T, E>)
    requires
        valid_history(h),
        !terminated(h),
    ensures
        valid_history(h.push(n)),
        terminated(h.push(n)) == is_terminal(n),
{
    let p = h.push(n);
    assert(forall|i: int| 0 <= i < p.len() - 1 ==> p[i] == h[i]);
    if is_terminal(n) {
        assert(is_terminal(p[p.len() - 1]));
    } else {
        assert(forall|i: int| 0 <= i < p.len() ==> p[i] is Next);
    }
}

/// The protocol invariant: across any notification sequence a verified
/// producer delivers, at most one terminal call is received, and no `Next`
/// notification stands after a terminal one.
pub proof fn lemma_protocol_invariant<T, E>(h: Seq<Notification<T, E>>)
    requires
        valid_history(h),
    ensures
        terminal_count(h) <= 1,
        forall|i: int, j: int| 0 <= i < j < h.len() && is_terminal(h[i]) ==> !(h[j] is Next),
{
    if h.len() > 0 {
        lemma_all_next_count_zero(h.drop_last());
    }
    assert forall|i: int, j: int|
        0 <= i < j < h.len() && is_terminal(h[i]) implies !(h[j] is Next) by {
        assert(h[i] is Next);
    }
}

/// What one subscription leaves behind: a complete emission delivered to an
/// observer whose history was valid and not yet terminated makes a history
/// that is still valid — and now terminated, so nothing more can follow.
/// Together with `lemma_protocol_invariant` this says that an observer fed
/// by any producer of this crate receives at most one terminal notification
/// and no value after it.
pub proof fn lemma_emission_extends_validly<T, E>(
    h: Seq<Notification<T, E>>,
    em: Seq<Notification<T, E>>,
)
    requires
        valid_history(h),
        !terminated(h),
        complete_emission(em),
    ensures
        valid_history(h + em),
        terminated(h + em),
{
    let w = h + em;
    assert forall|i: int| 0 <= i < w.len() - 1 implies w[i] is Next by {
        if i < h.len() {
            assert(w[i] == h[i]);
            assert(!is_terminal(h[i]));
        } else {
            assert(w[i] == em[i - h.len()]);
        }
    }
    assert(is_terminal(w[w.len() - 1]));
}

/// A subscription for a stream that finished before `subscribe` returned:
/// there is no registered interest left to cancel, so dropping or keeping
/// the handle has no effect.
pub struct UncancellableSubscription;

} // verus!
