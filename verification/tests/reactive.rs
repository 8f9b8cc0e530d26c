use std::marker::PhantomData;

use rx::CollectingObserver;
use rx::ErrorObservable;
use rx::FilterObservable;
use rx::GenerateError;
use rx::MapObservable;
use rx::Merge2Observable;
use rx::Notification;
use rx::Observable;
use rx::Observer;
use rx::SkipObservable;
use rx::Subject;
use rx::TakeObservable;
use rx::TakeObserver;
use rx::error;
use rx::range;

fn n(x: u64) -> Notification<u64, u8> {
    Notification::Next(x)
}

#[test]
fn vec_source_delivers_items_then_completes() {
    let source: Vec<u64> = vec![1, 2, 3];
    let obs = CollectingObserver::<u64, u8>::new();
    let (obs, _sub) = source.subscribe(obs);
    let log = obs.into_log();
    assert_eq!(log, vec![n(1), n(2), n(3), Notification::Completed]);
}

#[test]
fn empty_vec_source_completes_immediately() {
    let source: Vec<u64> = vec![];
    let obs = CollectingObserver::<u64, u8>::new();
    let (obs, _sub) = source.subscribe(obs);
    assert_eq!(obs.log().as_slice(), &[Notification::Completed]);
}

#[test]
fn vec_source_is_cold_and_resubscribable() {
    let source: Vec<u64> = vec![7];
    let (a, _s1) = source.subscribe(CollectingObserver::<u64, u8>::new());
    let (b, _s2) = source.subscribe(CollectingObserver::<u64, u8>::new());
    assert_eq!(a.log(), b.log());
    assert_eq!(a.into_log(), vec![n(7), Notification::Completed]);
}

#[test]
fn result_ok_yields_next_then_completed() {
    let source: Result<u64, u8> = Ok(42);
    let (obs, _sub) = source.subscribe(CollectingObserver::<u64, u8>::new());
    assert_eq!(obs.into_log(), vec![n(42), Notification::Completed]);
}

#[test]
fn result_err_yields_error_and_no_next() {
    let source: Result<u64, u8> = Err(9);
    let (obs, _sub) = source.subscribe(CollectingObserver::<u64, u8>::new());
    assert_eq!(obs.into_log(), vec![Notification::Error(9)]);
}

#[test]
fn subject_fans_out_same_sequence_to_all_observers() {
    let mut subject: Subject<u64, u8, CollectingObserver<u64, u8>> = Subject::new();
    let (mut h1, none1) = subject.subscribe(CollectingObserver::new());
    let (mut h2, none2) = subject.subscribe(CollectingObserver::new());
    let (mut h3, none3) = subject.subscribe(CollectingObserver::new());
    assert!(none1.is_none() && none2.is_none() && none3.is_none());
    subject.push_all(&vec![10, 20, 30]);
    let o1 = subject.release(&mut h1).unwrap();
    let o2 = subject.release(&mut h2).unwrap();
    let o3 = subject.release(&mut h3).unwrap();
    let expected = vec![n(10), n(20), n(30)];
    assert_eq!(o1.log().as_slice(), expected.as_slice());
    assert_eq!(o2.log().as_slice(), expected.as_slice());
    assert_eq!(o3.log().as_slice(), expected.as_slice());
}

#[test]
fn subject_post_terminal_pushes_are_silent() {
    let mut subject: Subject<u64, u8, CollectingObserver<u64, u8>> = Subject::new();
    let (_h, _) = subject.subscribe(CollectingObserver::new());
    subject.push_next(1);
    let drained = subject.push_completed();
    assert_eq!(drained.len(), 1);
    assert_eq!(
        drained[0].log().as_slice(),
        &[n(1), Notification::Completed]
    );
    assert!(!subject.is_live());
    // Further pushes are no-ops observed by nobody.
    subject.push_next(2);
    let drained_again = subject.push_completed();
    assert!(drained_again.is_empty());
    // Late subscribers are never notified: the observer comes straight back.
    let (late_handle, back) = subject.subscribe(CollectingObserver::new());
    let late = back.expect("a terminated subject registers nobody");
    assert!(late.log().is_empty());
    let mut late_handle = late_handle;
    assert!(subject.release(&mut late_handle).is_none());
}

#[test]
fn subject_error_terminates_all_observers() {
    let mut subject: Subject<u64, u8, CollectingObserver<u64, u8>> = Subject::new();
    let (_h, _) = subject.subscribe(CollectingObserver::new());
    subject.push_next(5);
    let drained = subject.push_error(77);
    assert_eq!(drained.len(), 1);
    assert_eq!(
        drained[0].log().as_slice(),
        &[n(5), Notification::Error(77)]
    );
    assert!(!subject.is_live());
}

#[test]
fn releasing_a_subscription_twice_equals_releasing_it_once() {
    let mut subject: Subject<u64, u8, CollectingObserver<u64, u8>> = Subject::new();
    let (mut h1, _) = subject.subscribe(CollectingObserver::new());
    let (mut h2, _) = subject.subscribe(CollectingObserver::new());
    let first = subject.release(&mut h1);
    assert!(first.is_some());
    let second = subject.release(&mut h1);
    assert!(second.is_none());
    // The other registration is untouched: it still receives pushes.
    subject.push_next(4);
    let o2 = subject.release(&mut h2).unwrap();
    assert_eq!(o2.log().as_slice(), &[n(4)]);
}

#[test]
fn released_observer_stops_receiving() {
    let mut subject: Subject<u64, u8, CollectingObserver<u64, u8>> = Subject::new();
    let (mut h1, _) = subject.subscribe(CollectingObserver::new());
    let (mut h2, _) = subject.subscribe(CollectingObserver::new());
    subject.push_next(1);
    let o1 = subject.release(&mut h1).unwrap();
    subject.push_next(2);
    let o2 = subject.release(&mut h2).unwrap();
    assert_eq!(o1.log().as_slice(), &[n(1)]);
    assert_eq!(o2.log().as_slice(), &[n(1), n(2)]);
}

#[test]
fn map_then_filter_yields_six_and_eight() {
    let source: Vec<u64> = vec![1, 2, 3, 4];
    let mapped = MapObservable {
        source,
        f: |x: u64| x * 2,
        marker: PhantomData,
    };
    let filtered = FilterObservable {
        source: mapped,
        p: |x: u64| x > 4,
        marker: PhantomData,
    };
    let (obs, _sub) = filtered.subscribe(CollectingObserver::<u64, u8>::new());
    assert_eq!(obs.into_log(), vec![n(6), n(8), Notification::Completed]);
}

#[test]
fn map_forwards_error_unchanged() {
    let source: Result<u64, u8> = Err(3);
    let mapped = MapObservable {
        source,
        f: |x: u64| x + 1,
        marker: PhantomData,
    };
    let (obs, _sub) = mapped.subscribe(CollectingObserver::<u64, u8>::new());
    assert_eq!(obs.into_log(), vec![Notification::Error(3)]);
}

#[test]
fn filter_that_rejects_everything_still_completes() {
    let source: Vec<u64> = vec![1, 2, 3];
    let filtered = FilterObservable {
        source,
        p: |_x: u64| false,
        marker: PhantomData,
    };
    let (obs, _sub) = filtered.subscribe(CollectingObserver::<u64, u8>::new());
    assert_eq!(obs.into_log(), vec![Notification::Completed]);
}

#[test]
fn take_two_from_unbounded_run_yields_two_then_completion() {
    let mut node = TakeObserver::new(CollectingObserver::<u64, u8>::new(), 2);
    let mut pushed: u64 = 0;
    // An unbounded producer that cooperates with cancellation: it keeps
    // pushing until the stage reports it is done.
    for i in 0..1000u64 {
        if node.is_done() {
            break;
        }
        node.on_next(i);
        pushed += 1;
    }
    assert_eq!(pushed, 2);
    let log = node.into_inner().into_log();
    assert_eq!(log, vec![n(0), n(1), Notification::Completed]);
}

#[test]
fn take_stage_drops_everything_after_it_is_done() {
    let mut node = TakeObserver::new(CollectingObserver::<u64, u8>::new(), 1);
    node.on_next(10);
    assert!(node.is_done());
    node.on_next(11);
    node.on_next(12);
    let log = node.into_inner().into_log();
    assert_eq!(log, vec![n(10), Notification::Completed]);
}

#[test]
fn take_zero_completes_without_consulting_the_source() {
    let source: Vec<u64> = vec![1, 2, 3];
    let taken = TakeObservable {
        source,
        count: 0,
        marker: PhantomData,
    };
    let (obs, _sub) = taken.subscribe(CollectingObserver::<u64, u8>::new());
    assert_eq!(obs.into_log(), vec![Notification::Completed]);
}

#[test]
fn take_over_finite_source_truncates() {
    let source: Vec<u64> = vec![1, 2, 3];
    let taken = TakeObservable {
        source,
        count: 2,
        marker: PhantomData,
    };
    let (obs, _sub) = taken.subscribe(CollectingObserver::<u64, u8>::new());
    assert_eq!(obs.into_log(), vec![n(1), n(2), Notification::Completed]);
}

#[test]
fn skip_drops_the_first_values() {
    let source: Vec<u64> = vec![1, 2, 3, 4];
    let skipped = SkipObservable {
        source,
        count: 2,
        marker: PhantomData,
    };
    let (obs, _sub) = skipped.subscribe(CollectingObserver::<u64, u8>::new());
    assert_eq!(obs.into_log(), vec![n(3), n(4), Notification::Completed]);
}

#[test]
fn skip_more_than_available_still_completes() {
    let source: Vec<u64> = vec![1, 2];
    let skipped = SkipObservable {
        source,
        count: 5,
        marker: PhantomData,
    };
    let (obs, _sub) = skipped.subscribe(CollectingObserver::<u64, u8>::new());
    assert_eq!(obs.into_log(), vec![Notification::Completed]);
}

#[test]
fn merge_of_two_finite_sources_yields_all_items_and_one_completion() {
    let first: Vec<u64> = vec![1, 2];
    let second: Vec<u64> = vec![3];
    let merged = Merge2Observable {
        first,
        second,
        marker: PhantomData,
    };
    let (obs, _sub) = merged.subscribe(CollectingObserver::<u64, u8>::new());
    let log = obs.into_log();
    // All three items arrive, order within each source preserved, and
    // exactly one completion closes the stream.
    let values: Vec<u64> = log
        .iter()
        .filter_map(|e| match e {
            Notification::Next(x) => Some(*x),
            _ => None,
        })
        .collect();
    let mut sorted = values.clone();
    sorted.sort();
    assert_eq!(sorted, vec![1, 2, 3]);
    assert_eq!(log.len(), 4);
    assert_eq!(log[3], Notification::Completed);
    let pos1 = values.iter().position(|&x| x == 1).unwrap();
    let pos2 = values.iter().position(|&x| x == 2).unwrap();
    assert!(pos1 < pos2);
}

#[test]
fn merge_forwards_the_first_error_immediately() {
    let first: ErrorObservable<u8> = error(13);
    let second: Vec<u64> = vec![3];
    let merged = Merge2Observable {
        first,
        second,
        marker: PhantomData,
    };
    let (obs, _sub) = merged.subscribe(CollectingObserver::<u64, u8>::new());
    assert_eq!(obs.into_log(), vec![Notification::Error(13)]);
}

#[test]
fn range_generates_consecutive_values() {
    let source = range(5, 3).unwrap();
    let (obs, _sub) = source.subscribe(CollectingObserver::<u64, u8>::new());
    assert_eq!(
        obs.into_log(),
        vec![n(5), n(6), n(7), Notification::Completed]
    );
}

#[test]
fn range_overflow_is_a_setup_error_not_a_stream_error() {
    let built = range(u64::MAX, 2);
    match built {
        Err(e) => assert_eq!(e, GenerateError::RangeOverflow),
        Ok(_) => panic!("range accepted an overflowing configuration"),
    }
}

#[test]
fn error_source_fails_immediately() {
    let source: ErrorObservable<u8> = error(42);
    let (obs, _sub) = source.subscribe(CollectingObserver::<u64, u8>::new());
    assert_eq!(obs.into_log(), vec![Notification::Error(42)]);
}

#[test]
fn every_delivered_history_obeys_the_protocol() {
    // One chain of each operator kind; whatever it delivers must hold at
    // most one terminal notification, placed last.
    let source: Vec<u64> = vec![1, 2, 3, 4, 5];
    let mapped = MapObservable {
        source,
        f: |x: u64| x * 3,
        marker: PhantomData,
    };
    let filtered = FilterObservable {
        source: mapped,
        p: |x: u64| x % 2 == 1,
        marker: PhantomData,
    };
    let taken = TakeObservable {
        source: filtered,
        count: 2,
        marker: PhantomData,
    };
    let (obs, _sub) = taken.subscribe(CollectingObserver::<u64, u8>::new());
    let log = obs.into_log();
    let terminals = log
        .iter()
        .filter(|e| !matches!(e, Notification::Next(_)))
        .count();
    assert!(terminals <= 1);
    for (i, e) in log.iter().enumerate() {
        if !matches!(e, Notification::Next(_)) {
            assert_eq!(i, log.len() - 1);
        }
    }
    assert_eq!(log, vec![n(3), n(9), Notification::Completed]);
}

#[test]
fn subject_can_stand_at_the_end_of_a_source() {
    // A subject is itself an observer: a source can be drained into it.
    let mut subject: Subject<u64, u8, CollectingObserver<u64, u8>> = Subject::new();
    let (mut h, _) = subject.subscribe(CollectingObserver::new());
    subject.push_next(99);
    let o = subject.release(&mut h).unwrap();
    assert_eq!(o.log().as_slice(), &[n(99)]);
    let source: Vec<u64> = vec![1];
    let (subject, _sub) = source.subscribe(subject);
    // The source completed the subject: it is terminal for all time.
    assert!(!subject.is_live());
}
