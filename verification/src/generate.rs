use vstd::prelude::*;

use crate::Notification;
use crate::UncancellableSubscription;
use crate::is_terminal;
use crate::terminated;
use crate::observable::Observable;
use crate::observer::Observer;

verus! {

/// The error raised when building a generated observable fails before any
/// stream exists: the requested configuration itself is invalid. This is
/// deliberately distinct from the stream's own error type, which flows
/// through `on_error` as data.
#[derive(Clone, Copy, PartialEq, Eq, Structural, Debug)]
pub enum GenerateError {
    /// The end of the requested range does not fit in the value type.
    RangeOverflow,
}

/// An observable that fails immediately: upon subscription it pushes one
/// `on_error` carrying the given error and nothing else.
pub struct ErrorObservable<E> {
    /// The error every subscriber receives.
    pub error: E,
}

/// Build an observable that fails immediately with `error`.
pub fn error<E>(err: E) -> (r: ErrorObservable<E>)
    ensures
        r.error == err,
{
    ErrorObservable { error: err }
}

impl<T, E: Copy> Observable<T, E> for ErrorObservable<E> {
    type Subscription = UncancellableSubscription;

    open spec fn wf(&self) -> bool {
        true
    }

    open spec fn can_emit(&self, emission: Seq<Notification<T, E>>) -> bool {
        emission == seq![Notification::<T, E>::Error(self.error)]
    }

    fn subscribe<O: Observer<T, E>>(&self, observer: O) -> (r: (O, UncancellableSubscription)) {
        let mut obs = observer;
        let ghost base = obs.history();
        obs.on_error(self.error);
        proof {
            let em = seq![Notification::<T, E>::Error(self.error)];
            assert(obs.history() =~= base + em);
            assert(obs.history().take(base.len() as int) =~= base);
            assert(obs.history().skip(base.len() as int) =~= em);
        }
        (obs, UncancellableSubscription)
    }
}

/// The sequence a counting source delivers: `count` consecutive values from
/// `start` up, then completion.
pub open spec fn range_emission<E>(start: u64, count: u64) -> Seq<Notification<u64, E>> {
    Seq::new(count as nat, |i: int| Notification::<u64, E>::Next((start + i) as u64)).push(
        Notification::Completed,
    )
}

/// A generated observable that counts: upon subscription it pushes `count`
/// consecutive values starting at `start`, then completes. Cold: every
/// subscriber gets its own full run.
pub struct RangeObservable {
    /// The first value pushed.
    pub start: u64,
    /// How many values are pushed.
    pub count: u64,
}

/// Build a counting observable from its configuration. Generation fails —
/// with a configuration error, not a stream error — exactly when the end of
/// the range would not fit in the value type.
pub fn range(start: u64, count: u64) -> (r: Result<RangeObservable, GenerateError>)
    ensures
        start + count <= u64::MAX ==> (r matches Ok(src) && src.start == start && src.count
            == count),
        start + count > u64::MAX ==> r == Result::<RangeObservable, GenerateError>::Err(
            GenerateError::RangeOverflow,
        ),
{
    if count <= u64::MAX - start {
        Ok(RangeObservable { start, count })
    } else {
        Err(GenerateError::RangeOverflow)
    }
}

impl<E> Observable<u64, E> for RangeObservable {
    type Subscription = UncancellableSubscription;

    open spec fn wf(&self) -> bool {
        self.start + self.count <= u64::MAX
    }

    open spec fn can_emit(&self, emission: Seq<Notification<u64, E>>) -> bool {
        emission == range_emission::<E>(self.start, self.count)
    }

    fn subscribe<O: Observer<u64, E>>(&self, observer: O) -> (r: (O, UncancellableSubscription)) {
        let mut obs = observer;
        let ghost base = obs.history();
        let ghost c0 = obs.config();
        let mut i: u64 = 0;
        while i < self.count
            invariant
                obs.inv(),
                obs.config() == c0,
                i <= self.count,
                self.start + self.count <= u64::MAX,
                !terminated(base),
                obs.history().len() == base.len() + i,
                forall|k: int| 0 <= k < base.len() ==> obs.history()[k] == base[k],
                forall|k: int|
                    0 <= k < i ==> (#[trigger] obs.history()[base.len() + k])
                        == Notification::<u64, E>::Next((self.start + k) as u64),
            decreases self.count - i,
        {
            proof {
                assert forall|k: int| 0 <= k < obs.history().len() implies !is_terminal(
                    obs.history()[k],
                ) by {
                    if k < base.len() {
                        assert(obs.history()[k] == base[k]);
                    } else {
                        let k2 = k - base.len();
                        assert(obs.history()[base.len() + k2] == Notification::<u64, E>::Next(
                            (self.start + k2) as u64,
                        ));
                    }
                }
            }
            obs.on_next(self.start + i);
            i = i + 1;
        }
        proof {
            assert forall|k: int| 0 <= k < obs.history().len() implies !is_terminal(
                obs.history()[k],
            ) by {
                if k < base.len() {
                    assert(obs.history()[k] == base[k]);
                } else {
                    let k2 = k - base.len();
                    assert(obs.history()[base.len() + k2] == Notification::<u64, E>::Next(
                        (self.start + k2) as u64,
                    ));
                }
            }
        }
        let ghost pre = obs.history();
        obs.on_completed();
        proof {
            let em = range_emission::<E>(self.start, self.count);
            assert forall|j: int| 0 <= j < obs.history().len() implies obs.history()[j] == (base
                + em)[j] by {
                if j < base.len() {
                    assert(obs.history()[j] == pre[j]);
                    assert(pre[j] == base[j]);
                } else if j < obs.history().len() - 1 {
                    let k2 = j - base.len();
                    assert(obs.history()[j] == pre[j]);
                    assert(pre[base.len() + k2] == Notification::<u64, E>::Next(
                        (self.start + k2) as u64,
                    ));
                    assert(em[k2] == Notification::<u64, E>::Next((self.start + k2) as u64));
                } else {
                    assert(obs.history()[j] == Notification::<u64, E>::Completed);
                }
            }
            assert(obs.history() =~= base + em);
            assert(obs.history().take(base.len() as int) =~= base);
            assert(obs.history().skip(base.len() as int) =~= em);
        }
        (obs, UncancellableSubscription)
    }
}

} // verus!
