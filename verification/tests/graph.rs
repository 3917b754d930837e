use std::rc::Rc;
use turbosloth::{
    Cache, EvalStep, EvalTracker, InvalidationTrigger, Lazy, LazyPayload, OpaqueLazy, RunContext, TypedCache,
};

type TestCache = Cache<u32, ()>;

fn connect(cache: &mut TestCache, bytes: &[u8]) -> (Lazy<u32>, usize) {
    let mut lazy = Lazy::from_worker_writes(&vec![bytes.to_vec()], 7, "Node");
    let mut top = RunContext::detached();
    let node = match lazy.begin_eval(cache, &mut top) {
        EvalStep::Build(tracker) => {
            let node = tracker.current_ref;
            cache.finish_eval(tracker, Ok(0));
            node
        }
        EvalStep::Ready(node) => node,
    };
    (lazy, node)
}

/// Builds `reader` so that it reads each of `deps` (all already connected).
fn rebuild_reading(cache: &mut TestCache, reader: &mut Lazy<u32>, deps: &mut [&mut Lazy<u32>], value: u32) {
    let mut top = RunContext::detached();
    if let OpaqueLazy::Cached(n) = reader.inner {
        cache.invalidate(n);
    }
    match reader.begin_eval(cache, &mut top) {
        EvalStep::Build(tracker) => {
            let mut child = RunContext::for_build(tracker);
            for dep in deps.iter_mut() {
                if let EvalStep::Build(t) = dep.begin_eval(cache, &mut child) {
                    cache.finish_eval(t, Ok(1));
                }
            }
            let tracker = child.tracker.unwrap();
            assert!(cache.check_tracker(&tracker));
            cache.finish_eval(tracker, Ok(value));
        }
        EvalStep::Ready(_) => panic!("an invalidated payload is rebuilt"),
    }
}

#[test]
fn invalidation_follows_chains_of_readers() {
    let mut cache: TestCache = Cache::create();
    let (mut a, na) = connect(&mut cache, b"a");
    let (mut b, nb) = connect(&mut cache, b"b");
    let (mut c, nc) = connect(&mut cache, b"c");
    let (d, nd) = connect(&mut cache, b"d");
    rebuild_reading(&mut cache, &mut b, &mut [&mut a], 2);
    rebuild_reading(&mut cache, &mut c, &mut [&mut b], 3);
    assert!(a.is_up_to_date(&cache) && b.is_up_to_date(&cache) && c.is_up_to_date(&cache));
    cache.invalidate(na);
    assert!(cache.payloads[na].rebuild_pending);
    assert!(cache.payloads[nb].rebuild_pending);
    assert!(cache.payloads[nc].rebuild_pending);
    assert!(!cache.payloads[nd].rebuild_pending, "an unrelated payload is untouched");
    assert!(d.is_up_to_date(&cache));
}

#[test]
fn invalidating_a_reader_leaves_what_it_read_alone() {
    let mut cache: TestCache = Cache::create();
    let (mut a, na) = connect(&mut cache, b"a");
    let (mut b, nb) = connect(&mut cache, b"b");
    rebuild_reading(&mut cache, &mut b, &mut [&mut a], 2);
    cache.invalidate(nb);
    assert!(cache.payloads[nb].rebuild_pending);
    assert!(!cache.payloads[na].rebuild_pending);
}

#[test]
fn a_payload_with_two_readers_invalidates_both() {
    let mut cache: TestCache = Cache::create();
    let (mut a, na) = connect(&mut cache, b"a");
    let (mut b, nb) = connect(&mut cache, b"b");
    let (mut c, nc) = connect(&mut cache, b"c");
    rebuild_reading(&mut cache, &mut b, &mut [&mut a], 2);
    rebuild_reading(&mut cache, &mut c, &mut [&mut a], 3);
    let mut readers = cache.payloads[na].build_record.reverse_dependencies.clone();
    readers.sort();
    assert_eq!(readers, vec![nb, nc]);
    cache.invalidate(na);
    assert!(cache.payloads[nb].rebuild_pending && cache.payloads[nc].rebuild_pending);
}

#[test]
fn dead_readers_are_skipped_and_forgotten() {
    let mut cache: TestCache = Cache::create();
    let (mut a, na) = connect(&mut cache, b"a");
    let (mut b, nb) = connect(&mut cache, b"b");
    rebuild_reading(&mut cache, &mut b, &mut [&mut a], 2);
    b.release(&mut cache);
    assert!(!cache.payloads[nb].alive);
    assert_eq!(cache.payloads[na].build_record.reverse_dependencies, vec![nb]);
    let pending_before = cache.payloads[nb].rebuild_pending;
    cache.invalidate(na);
    assert_eq!(cache.payloads[nb].rebuild_pending, pending_before, "a dead reader is not reached");
    // Rebuilding `a` forgets its dead reader.
    let mut top = RunContext::detached();
    match a.begin_eval(&mut cache, &mut top) {
        EvalStep::Build(tracker) => assert!(cache.finish_eval(tracker, Ok(9))),
        EvalStep::Ready(_) => panic!("invalidated"),
    }
    assert!(cache.payloads[na].build_record.reverse_dependencies.is_empty());
    assert_eq!(cache.artifact(na).as_ref().unwrap().as_ref().unwrap(), &9);
}

#[test]
fn a_trigger_of_a_dead_payload_does_nothing() {
    let mut cache: TestCache = Cache::create();
    let (a, na) = connect(&mut cache, b"a");
    let trigger = InvalidationTrigger { node: na };
    a.release(&mut cache);
    assert!(!cache.payloads[na].alive);
    cache.payloads[na].rebuild_pending = false;
    trigger.fire(&mut cache);
    assert!(!cache.payloads[na].rebuild_pending);
    let beyond = InvalidationTrigger { node: 99 };
    beyond.fire(&mut cache);
    assert_eq!(cache.num_payloads(), 1);
}

#[test]
fn a_cloned_handle_keeps_the_payload_alive() {
    let mut cache: TestCache = Cache::create();
    let (a, na) = connect(&mut cache, b"a");
    let copy = a.clone_in(&mut cache);
    assert_eq!(cache.payloads[na].handles, 2);
    assert_eq!(copy.identity(), a.identity());
    a.release(&mut cache);
    assert!(cache.payloads[na].alive);
    copy.release(&mut cache);
    assert!(!cache.payloads[na].alive);
}

#[test]
fn a_new_connection_after_the_drop_gets_a_fresh_payload() {
    let mut cache: TestCache = Cache::create();
    let (a, na) = connect(&mut cache, b"a");
    let identity = cache.payloads[na].identity;
    a.release(&mut cache);
    let fresh = cache.get_or_insert_with(7, identity);
    assert_ne!(fresh, na);
    assert!(cache.payloads[fresh].rebuild_pending);
    assert!(cache.artifact(fresh).is_none());
    assert_eq!(cache.payloads[fresh].handles, 1);
    let again = cache.get_or_insert_with(7, identity);
    assert_eq!(again, fresh);
    assert_eq!(cache.payloads[fresh].handles, 2);
    let other_type = cache.get_or_insert_with(8, identity);
    assert_ne!(other_type, fresh);
}

#[test]
fn register_dependency_counts_each_payload_once() {
    let mut cache: TestCache = Cache::create();
    let (_a, na) = connect(&mut cache, b"a");
    let (_b, nb) = connect(&mut cache, b"b");
    let mut ctx = RunContext::for_build(EvalTracker::new(nb));
    ctx.register_dependency(&mut cache, na);
    ctx.register_dependency(&mut cache, na);
    assert_eq!(ctx.tracker.as_ref().unwrap().dependencies, vec![na]);
    assert_eq!(cache.payloads[na].handles, 2);
    let mut top = RunContext::detached();
    top.register_dependency(&mut cache, na);
    assert!(top.tracker.is_none());
    assert_eq!(cache.payloads[na].handles, 2);
    assert_eq!(ctx.get_invalidation_trigger().node, nb);
}

#[test]
fn eval_tracker_records_a_set() {
    let mut cache: TestCache = Cache::create();
    let (_a, na) = connect(&mut cache, b"a");
    let (_b, nb) = connect(&mut cache, b"b");
    let (_c, nc) = connect(&mut cache, b"c");
    let mut tracker = EvalTracker::new(nc);
    assert!(tracker.register_dependency(&cache, na));
    assert!(tracker.register_dependency(&cache, nb));
    assert!(!tracker.register_dependency(&cache, na));
    assert_eq!(tracker.dependencies, vec![na, nb]);
    assert_eq!(tracker.current_ref, nc);
}

#[test]
fn dependencies_are_a_set_keyed_by_worker_identity() {
    let mut cache: TestCache = Cache::create();
    let (_a, na) = connect(&mut cache, b"a");
    let (_c, nc) = connect(&mut cache, b"c");
    // The same worker identity under another value type is another payload.
    let identity = cache.payloads[na].identity;
    let other = cache.get_or_insert_with(8, identity);
    assert_ne!(other, na);
    let mut ctx = RunContext::for_build(EvalTracker::new(nc));
    ctx.register_dependency(&mut cache, na);
    ctx.register_dependency(&mut cache, other);
    assert_eq!(ctx.tracker.as_ref().unwrap().dependencies, vec![na], "an equal identity is recorded once");
    assert_eq!(cache.payloads[other].handles, 1, "the second payload is not held by the run");
}

#[test]
fn a_new_build_is_compared_with_the_last_by_worker_identity() {
    let mut cache: TestCache = Cache::create();
    let (_a, na) = connect(&mut cache, b"a");
    let (_c, nc) = connect(&mut cache, b"c");
    let identity = cache.payloads[na].identity;
    let other = cache.get_or_insert_with(8, identity);
    let first = cache.set_new_build_result(nc, Ok(1), vec![na]);
    assert_eq!(first.added_deps, vec![na]);
    let second = cache.set_new_build_result(nc, Ok(2), vec![other]);
    assert!(second.added_deps.is_empty(), "a payload of an identity already read is not added");
    assert!(second.removed_deps.is_empty(), "nor is the payload it replaces removed");
    assert_eq!(cache.payloads[nc].build_record.dependencies, vec![other]);
}

#[test]
fn check_tracker_rejects_what_finish_eval_cannot_take() {
    let mut cache: TestCache = Cache::create();
    let (_a, na) = connect(&mut cache, b"a");
    let (_b, nb) = connect(&mut cache, b"b");
    let unheld_run = EvalTracker::new(na);
    assert!(cache.check_tracker(&unheld_run), "the handle of `a` covers the run's reference");
    let mut duplicate = EvalTracker::new(na);
    duplicate.dependencies = vec![nb, nb];
    assert!(!cache.check_tracker(&duplicate));
    let mut outside = EvalTracker::new(na);
    outside.dependencies = vec![5];
    assert!(!cache.check_tracker(&outside));
    assert!(!cache.check_tracker(&EvalTracker::new(17)));
    let mut overdrawn = EvalTracker::new(na);
    overdrawn.dependencies = vec![na];
    assert!(!cache.check_tracker(&overdrawn), "`a` holds one reference, not two");
    assert!(cache.has_handle_room(3));
    cache.payloads[na].handles = u64::MAX - 1;
    assert!(!cache.has_handle_room(3));
    assert!(cache.has_handle_room(1));
}

#[test]
fn payloads_compare_by_worker_identity() {
    let p: LazyPayload<u32, ()> = LazyPayload::new(5, 1);
    let q: LazyPayload<u32, ()> = LazyPayload::new(5, 2);
    let r: LazyPayload<u32, ()> = LazyPayload::new(6, 1);
    assert!(p == q);
    assert!(p != r);
    let copy = p.unbuilt_copy();
    assert_eq!((copy.identity, copy.type_key, copy.handles, copy.alive), (5, 1, 0, false));
    assert!(copy.rebuild_pending && copy.build_record.artifact.is_none());
    assert!(TypedCache::new().values.is_empty());
}

#[test]
fn an_isolated_handle_is_never_up_to_date() {
    let cache: TestCache = Cache::create();
    let lazy: Lazy<u32> = Lazy::new(1, 2, "Isolated");
    assert!(!lazy.is_up_to_date(&cache));
    assert!(lazy.is_stale(&cache));
    assert!(!OpaqueLazy::Isolated.is_up_to_date(&cache));
    assert_eq!(lazy.identity(), 1);
    assert_eq!(lazy.debug_name, "Isolated");
}

#[test]
fn a_dead_payload_drops_its_artifact() {
    let mut cache: Cache<Rc<u32>, ()> = Cache::create();
    let value = Rc::new(5u32);
    let mut lazy: Lazy<Rc<u32>> = Lazy::from_worker_writes(&vec![b"v".to_vec()], 7, "Value");
    let mut top = RunContext::detached();
    let node = match lazy.begin_eval(&mut cache, &mut top) {
        EvalStep::Build(tracker) => {
            let node = tracker.current_ref;
            cache.finish_eval(tracker, Ok(value.clone()));
            node
        }
        EvalStep::Ready(_) => panic!("a fresh payload is built"),
    };
    assert_eq!(Rc::strong_count(&value), 2);
    lazy.release(&mut cache);
    assert!(!cache.payloads[node].alive);
    assert!(cache.artifact(node).is_none());
    assert_eq!(Rc::strong_count(&value), 1);
}

#[test]
fn a_dependency_keeps_its_build_record_while_a_reader_is_alive() {
    let mut cache: TestCache = Cache::create();
    let (mut a, na) = connect(&mut cache, b"a");
    let (mut b, nb) = connect(&mut cache, b"b");
    rebuild_reading(&mut cache, &mut b, &mut [&mut a], 2);
    a.release(&mut cache);
    assert!(cache.payloads[na].alive);
    assert_eq!(cache.artifact(na).as_ref().unwrap().as_ref().unwrap(), &0);
    assert_eq!(cache.payloads[nb].build_record.dependencies, vec![na]);
    b.release(&mut cache);
    assert!(!cache.payloads[na].alive && !cache.payloads[nb].alive);
    assert!(cache.artifact(na).is_none());
    assert!(cache.artifact(nb).is_none());
    assert!(cache.payloads[nb].build_record.dependencies.is_empty());
}

#[test]
fn storing_the_same_dependencies_again_reports_no_change() {
    let mut cache: TestCache = Cache::create();
    let (_a, na) = connect(&mut cache, b"a");
    let (_b, nb) = connect(&mut cache, b"b");
    let (_c, nc) = connect(&mut cache, b"c");
    let first = cache.set_new_build_result(na, Ok(1), vec![nb, nc]);
    assert_eq!(first.added_deps, vec![nb, nc]);
    assert!(first.removed_deps.is_empty());
    let second = cache.set_new_build_result(na, Ok(2), vec![nc, nb]);
    assert!(second.added_deps.is_empty());
    assert!(second.removed_deps.is_empty());
    assert_eq!(cache.payloads[na].build_record.dependencies, vec![nc, nb]);
    let third = cache.set_new_build_result(na, Ok(3), vec![nc]);
    assert!(third.added_deps.is_empty());
    assert_eq!(third.removed_deps, vec![nb]);
}

#[test]
fn a_payload_that_read_itself_stays_alive_and_cached() {
    let mut cache: TestCache = Cache::create();
    let (mut a, na) = connect(&mut cache, b"a");
    let identity = cache.payloads[na].identity;
    cache.invalidate(na);
    let mut top = RunContext::detached();
    match a.begin_eval(&mut cache, &mut top) {
        EvalStep::Build(tracker) => {
            let mut child = RunContext::for_build(tracker);
            match a.begin_eval(&mut cache, &mut child) {
                EvalStep::Ready(n) => assert_eq!(n, na),
                EvalStep::Build(_) => panic!("a running payload is not pending"),
            }
            assert!(cache.finish_eval(child.tracker.unwrap(), Ok(5)));
        }
        EvalStep::Ready(_) => panic!("an invalidated payload is rebuilt"),
    }
    assert_eq!(cache.payloads[na].build_record.dependencies, vec![na]);
    assert!(!cache.invalidation_terminates(na));
    a.release(&mut cache);
    assert_eq!(cache.payloads[na].handles, 0);
    assert!(cache.payloads[na].alive, "reading itself keeps the payload alive");
    assert_eq!(cache.get_or_insert_with(7, identity), na);
}

#[test]
fn two_payloads_that_read_each_other_keep_each_other_alive() {
    let mut cache: TestCache = Cache::create();
    let (mut a, na) = connect(&mut cache, b"a");
    let (mut b, nb) = connect(&mut cache, b"b");
    rebuild_reading(&mut cache, &mut b, &mut [&mut a], 2);
    assert!(cache.invalidation_terminates(na));
    // Rebuild `a` reading `b`, while `b` is up to date; invalidate `a` during the run.
    cache.payloads[na].rebuild_pending = true;
    let mut top = RunContext::detached();
    match a.begin_eval(&mut cache, &mut top) {
        EvalStep::Build(tracker) => {
            let mut child = RunContext::for_build(tracker);
            assert!(matches!(b.begin_eval(&mut cache, &mut child), EvalStep::Ready(_)));
            InvalidationTrigger { node: na }.fire(&mut cache);
            assert!(cache.payloads[na].rebuild_pending && cache.payloads[nb].rebuild_pending);
            let tracker = child.tracker.unwrap();
            assert!(!cache.finish_eval(tracker, Ok(3)), "invalidating a cycle of readers never ends");
        }
        EvalStep::Ready(_) => panic!("a pending payload is rebuilt"),
    }
    assert!(!cache.invalidation_terminates(na));
    assert!(!cache.invalidation_terminates(nb));
    a.release(&mut cache);
    b.release(&mut cache);
    assert!(cache.payloads[na].alive && cache.payloads[nb].alive);
    assert_eq!(cache.artifact(na).as_ref().unwrap().as_ref().unwrap(), &3);
}

#[test]
fn invalidation_of_a_chain_ends() {
    let mut cache: TestCache = Cache::create();
    let (mut a, na) = connect(&mut cache, b"a");
    let (mut b, nb) = connect(&mut cache, b"b");
    let (mut c, _nc) = connect(&mut cache, b"c");
    rebuild_reading(&mut cache, &mut b, &mut [&mut a], 2);
    rebuild_reading(&mut cache, &mut c, &mut [&mut a, &mut b], 3);
    assert!(cache.invalidation_terminates(na));
    assert!(cache.invalidation_terminates(nb));
}

#[test]
fn a_rebuild_reading_another_payload_of_the_same_identity_leaves_the_readers_alone() {
    let mut cache: TestCache = Cache::create();
    let (mut a, na) = connect(&mut cache, b"a");
    let (mut c, nc) = connect(&mut cache, b"c");
    rebuild_reading(&mut cache, &mut c, &mut [&mut a], 2);
    let mut q = Lazy::from_worker_writes(&vec![b"a".to_vec()], 8, "Other");
    let mut top = RunContext::detached();
    let nq = match q.begin_eval(&mut cache, &mut top) {
        EvalStep::Build(tracker) => {
            let n = tracker.current_ref;
            assert!(cache.finish_eval(tracker, Ok(0)));
            n
        }
        EvalStep::Ready(_) => panic!("a fresh payload is built"),
    };
    assert_ne!(nq, na);
    rebuild_reading(&mut cache, &mut c, &mut [&mut q], 4);
    assert_eq!(cache.payloads[nc].build_record.dependencies, vec![nq]);
    assert_eq!(cache.payloads[na].build_record.reverse_dependencies, vec![nc]);
    assert!(cache.payloads[nq].build_record.reverse_dependencies.is_empty());
    cache.invalidate(nq);
    assert!(!cache.payloads[nc].rebuild_pending, "the reader is not reached through the new payload");
    cache.invalidate(na);
    assert!(cache.payloads[nc].rebuild_pending, "but still through the one it no longer reads");
}
