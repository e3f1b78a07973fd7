use std::cell::Cell;

use river::river::interleave;
use river::river::CancelSignal;
use river::river::Event;
use river::river::NeverCancel;
use river::river::IntFn;
use river::river::IntKernels;
use river::river::PipelineState;
use river::river::Recorder;
use river::river::RiverCore;
use river::river::SourceItem;
use river::river::SubscriptionHandle;

struct Never;

impl CancelSignal for Never {
    fn aborted(&mut self) -> bool {
        false
    }
}

/// Reports cancellation from the `after`-th question on.
struct AbortAfter {
    asked: Cell<usize>,
    after: usize,
}

impl CancelSignal for AbortAfter {
    fn aborted(&mut self) -> bool {
        let n = self.asked.get();
        self.asked.set(n + 1);
        n >= self.after
    }
}

fn nexts(events: &[Event<i64>]) -> Vec<i64> {
    events
        .iter()
        .filter_map(|e| match e {
            Event::Next(v) => Some(*v),
            _ => None,
        })
        .collect()
}

#[test]
fn filter_then_map_scenario() {
    let positive = IntFn::Above(0);
    let double = IntFn::Scale(2);
    let p = RiverCore::new().filter(&positive).map(&double);
    let mut rec = Recorder::new();
    let sub = p.observe(&IntKernels, vec![-1, 2, -3, 4], &mut rec, &mut Never);
    assert_eq!(rec.events(), &vec![Event::Next(4), Event::Next(8), Event::Complete]);
    assert!(!sub.is_active());
    assert_eq!(sub.id.len(), 36);
}

#[test]
fn map_leaves_the_base_pipeline_alone() {
    let double = IntFn::Scale(2);
    let base: RiverCore<IntFn, i64> = RiverCore::new();
    let p = base.map(&double);
    assert_eq!(base.stage_count(), 0);
    assert_eq!(p.stage_count(), 1);
    let longer = p.map(&double);
    assert_eq!(p.stage_count(), 1);
    assert_eq!(longer.stage_count(), 2);
    let mut state = longer.start();
    assert_eq!(longer.apply_operators(&mut state, &IntKernels, 3), Some(12));
    let mut state = p.start();
    assert_eq!(p.apply_operators(&mut state, &IntKernels, 3), Some(6));
}

#[test]
fn failing_transform_drops_the_value() {
    let big = IntFn::Scale(i64::MAX);
    let p = RiverCore::new().map(&big);
    let mut rec = Recorder::new();
    p.observe(&IntKernels, vec![1, 2, 0], &mut rec, &mut Never);
    assert_eq!(rec.events(), &vec![Event::Next(i64::MAX), Event::Next(0), Event::Complete]);
}

#[test]
fn predicate_used_as_transform_fails() {
    let above = IntFn::Above(0);
    let scale = IntFn::Scale(3);
    let p = RiverCore::new().map(&above);
    let mut state = p.start();
    assert_eq!(p.apply_operators(&mut state, &IntKernels, 5), None);
    let q = RiverCore::new().filter(&scale);
    let mut state = q.start();
    assert_eq!(q.apply_operators(&mut state, &IntKernels, 5), None);
}

#[test]
fn fork_partitions_values() {
    let even_ish = IntFn::Below(10);
    let (small, large) = RiverCore::new().fork(&even_ish);
    let mut a = Recorder::new();
    let mut b = Recorder::new();
    small.observe(&IntKernels, vec![1, 15, 9, 10, 30], &mut a, &mut Never);
    large.observe(&IntKernels, vec![1, 15, 9, 10, 30], &mut b, &mut Never);
    assert_eq!(nexts(a.events()), vec![1, 9]);
    assert_eq!(nexts(b.events()), vec![15, 10, 30]);
}

#[test]
fn merge_takes_turns() {
    let plus = IntFn::Offset(100);
    let left: RiverCore<IntFn, i64> = RiverCore::new();
    let right = RiverCore::new().map(&plus);
    let merged = left.merge(&right);
    let mut rec = Recorder::new();
    let sub = merged.observe(&IntKernels, vec![1, 2, 3, 4], vec![5, 6], &mut rec, &mut Never);
    assert_eq!(nexts(rec.events()), vec![1, 105, 2, 106, 3, 4]);
    assert_eq!(rec.events().last(), Some(&Event::Complete));
    assert!(!sub.is_active());
}

#[test]
fn interleave_orders_by_turns() {
    assert_eq!(interleave(vec![1], vec![7, 8, 9]), vec![(true, 1), (false, 7), (false, 8), (false, 9)]);
    assert_eq!(interleave(Vec::<i32>::new(), vec![]), vec![]);
}

#[test]
fn windowed_aggregate_waits_for_a_full_window() {
    let p: RiverCore<IntFn, i64> = RiverCore::new().windowed_aggregate(3, "sum");
    let mut rec = Recorder::new();
    p.observe(&IntKernels, vec![1, 2, 3, 4, 10], &mut rec, &mut Never);
    assert_eq!(nexts(rec.events()), vec![6, 9, 17]);
}

#[test]
fn windowed_max_min_and_unknown() {
    let p: RiverCore<IntFn, i64> = RiverCore::new().windowed_aggregate(2, "max");
    let mut rec = Recorder::new();
    p.observe(&IntKernels, vec![5, 1, 7, 3], &mut rec, &mut Never);
    assert_eq!(nexts(rec.events()), vec![5, 7, 7]);
    let q: RiverCore<IntFn, i64> = RiverCore::new().windowed_aggregate(2, "min");
    let mut rec = Recorder::new();
    q.observe(&IntKernels, vec![5, 1, 7, 3], &mut rec, &mut Never);
    assert_eq!(nexts(rec.events()), vec![1, 1, 3]);
    let u: RiverCore<IntFn, i64> = RiverCore::new().windowed_aggregate(1, "median");
    let mut rec = Recorder::new();
    u.observe(&IntKernels, vec![5, 1], &mut rec, &mut Never);
    assert_eq!(rec.events(), &vec![Event::Complete]);
}

#[test]
fn named_kernel_and_unknown_kernel() {
    let three = 3i64;
    let p: RiverCore<IntFn, i64> = RiverCore::new().map_wasm("scale", &three);
    let mut state = p.start();
    assert_eq!(p.apply_operators(&mut state, &IntKernels, 7), Some(21));
    let q: RiverCore<IntFn, i64> = RiverCore::new().map_wasm("f32x_map_mul_add", &three);
    let mut state = q.start();
    assert_eq!(q.apply_operators(&mut state, &IntKernels, 7), None);
}

#[test]
fn unsubscribed_receives_nothing() {
    let p: RiverCore<IntFn, i64> = RiverCore::new();
    let mut sub = SubscriptionHandle::new();
    let mut state = p.start();
    let mut rec = Recorder::new();
    p.pump(&mut sub, &mut state, &IntKernels, false, SourceItem::Value(1), &mut rec);
    assert!(sub.is_active());
    sub.unsubscribe();
    assert!(!sub.is_active());
    p.pump(&mut sub, &mut state, &IntKernels, false, SourceItem::Value(2), &mut rec);
    p.pump(&mut sub, &mut state, &IntKernels, false, SourceItem::Done, &mut rec);
    assert_eq!(rec.events(), &vec![Event::Next(1)]);
    assert!(!sub.is_active());
}

#[test]
fn signal_stops_the_drain_without_completion() {
    let p: RiverCore<IntFn, i64> = RiverCore::new();
    let mut rec = Recorder::new();
    let mut signal = AbortAfter { asked: Cell::new(0), after: 2 };
    let sub = p.observe(&IntKernels, vec![1, 2, 3, 4], &mut rec, &mut signal);
    assert_eq!(rec.events(), &vec![Event::Next(1), Event::Next(2)]);
    assert!(!sub.is_active());
}

#[test]
fn signal_firing_at_the_end_withholds_completion() {
    let p: RiverCore<IntFn, i64> = RiverCore::new();
    let mut rec = Recorder::new();
    let mut signal = AbortAfter { asked: Cell::new(0), after: 2 };
    p.observe(&IntKernels, vec![1, 2], &mut rec, &mut signal);
    assert_eq!(rec.events(), &vec![Event::Next(1), Event::Next(2)]);
    let mut fired = AbortAfter { asked: Cell::new(0), after: 0 };
    let mut rec = Recorder::new();
    p.observe(&IntKernels, vec![], &mut rec, &mut fired);
    assert!(rec.events().is_empty());
}

#[test]
fn merged_drain_stops_at_the_signal() {
    let left: RiverCore<IntFn, i64> = RiverCore::new();
    let right: RiverCore<IntFn, i64> = RiverCore::new();
    let merged = left.merge(&right);
    let mut rec = Recorder::new();
    let mut signal = AbortAfter { asked: Cell::new(0), after: 3 };
    merged.observe(&IntKernels, vec![1, 2], vec![7, 8], &mut rec, &mut signal);
    assert_eq!(nexts(rec.events()), vec![1, 7, 2]);
    assert!(!rec.events().contains(&Event::Complete));
}

#[test]
fn source_failures_and_rescue() {
    let recover = IntFn::Offset(1000);
    let plain: RiverCore<IntFn, i64> = RiverCore::new();
    let mut state = plain.start();
    let mut rec = Recorder::new();
    assert!(plain.deliver(&mut state, &IntKernels, SourceItem::Failure(3), &mut rec));
    let rescued = plain.rescue(&recover);
    assert!(rescued.has_rescue());
    assert!(!plain.has_rescue());
    assert!(rescued.deliver(&mut state, &IntKernels, SourceItem::Failure(3), &mut rec));
    let failing = IntFn::Above(0);
    let broken = plain.rescue(&failing);
    assert!(broken.deliver(&mut state, &IntKernels, SourceItem::Failure(4), &mut rec));
    assert_eq!(
        rec.events(),
        &vec![Event::Error(3), Event::Error(3), Event::Next(1003), Event::Error(4)]
    );
}

#[test]
fn terminate_on_error_stops_even_with_rescue() {
    let recover = IntFn::Offset(1);
    let p: RiverCore<IntFn, i64> = RiverCore::new().rescue(&recover).terminate_on_error();
    assert!(p.terminates_on_error());
    let mut sub = SubscriptionHandle::new();
    let mut state = p.start();
    let mut rec = Recorder::new();
    p.pump(&mut sub, &mut state, &IntKernels, false, SourceItem::Failure(1), &mut rec);
    assert!(!sub.is_active());
    p.pump(&mut sub, &mut state, &IntKernels, false, SourceItem::Value(5), &mut rec);
    assert_eq!(rec.events(), &vec![Event::Error(1), Event::Next(2)]);
}

#[test]
fn aborted_signal_cancels_the_step() {
    let p: RiverCore<IntFn, i64> = RiverCore::new();
    let mut sub = SubscriptionHandle::new();
    let mut state: PipelineState<i64> = p.start();
    let mut rec = Recorder::new();
    p.pump(&mut sub, &mut state, &IntKernels, true, SourceItem::Value(1), &mut rec);
    assert!(!sub.is_active());
    assert!(rec.events().is_empty());
}

#[test]
fn never_cancel_drains_everything() {
    let keep = IntFn::Below(3);
    let p = RiverCore::new().filter(&keep);
    let mut rec = Recorder::new();
    p.observe(&IntKernels, vec![1, 5, 2], &mut rec, &mut NeverCancel::new());
    assert_eq!(rec.events(), &vec![Event::Next(1), Event::Next(2), Event::Complete]);
}

#[test]
fn empty_source_completes() {
    let p: RiverCore<IntFn, i64> = RiverCore::new();
    let mut rec = Recorder::new();
    p.observe(&IntKernels, vec![], &mut rec, &mut Never);
    assert_eq!(rec.events(), &vec![Event::Complete]);
}

#[test]
fn subscription_ids_differ() {
    let a = SubscriptionHandle::new();
    let b = SubscriptionHandle::new();
    assert_ne!(a.id, b.id);
    assert_eq!(a.id.len(), 36);
}
