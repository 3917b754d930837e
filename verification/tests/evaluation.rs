use turbosloth::{Cache, EvalStep, Lazy, LazyIdentity, NodeId, OpaqueLazy, RunContext};

type TestCache = Cache<i32, String>;

const INT_TYPE: u64 = 1;

/// What `#[derive(Hash)]` on `Add { a: i32, b: i32 }` writes: one chunk per field.
fn add_writes(a: i32, b: i32) -> Vec<Vec<u8>> {
    vec![a.to_ne_bytes().to_vec(), b.to_ne_bytes().to_vec()]
}

fn add(a: i32, b: i32) -> Lazy<i32> {
    Lazy::from_worker_writes(&add_writes(a, b), INT_TYPE, "Add")
}

fn named(bytes: &[u8], debug_name: &'static str) -> Lazy<i32> {
    Lazy::from_worker_writes(&vec![bytes.to_vec()], INT_TYPE, debug_name)
}

fn node_of(lazy: &Lazy<i32>) -> NodeId {
    match lazy.inner {
        OpaqueLazy::Cached(n) => n,
        OpaqueLazy::Isolated => panic!("not connected"),
    }
}

/// Evaluates `lazy` in `ctx`, running `worker` when the payload must be built.
fn eval<F>(cache: &mut TestCache, lazy: &mut Lazy<i32>, ctx: &mut RunContext, worker: F) -> Result<i32, String>
where
    F: FnOnce(&mut TestCache, &mut RunContext) -> Result<i32, String>,
{
    assert!(cache.has_handle_room(3));
    match lazy.begin_eval(cache, ctx) {
        EvalStep::Build(tracker) => {
            let mut child = RunContext::for_build(tracker);
            let result = worker(cache, &mut child);
            let artifact = lazy.build_artifact(result);
            let tracker = child.tracker.unwrap();
            assert!(cache.check_tracker(&tracker));
            assert!(cache.finish_eval(tracker, artifact));
        }
        EvalStep::Ready(_) => {}
    }
    match cache.artifact(node_of(lazy)) {
        Some(Ok(value)) => Ok(*value),
        Some(Err(error)) => Err(error.message()),
        None => panic!("no artifact"),
    }
}

#[test]
fn equal_workers_share_one_payload_and_run_once() {
    let mut cache: TestCache = Cache::create();
    let mut runs = 0;
    let mut add1 = add(5, 7);
    let mut add2 = add(5, 7);
    let mut top = RunContext::detached();
    assert_eq!(eval(&mut cache, &mut add1, &mut top, |_, _| { runs += 1; Ok(5 + 7) }), Ok(12));
    let mut add3 = add2.clone_in(&mut cache);
    assert_eq!(eval(&mut cache, &mut add2, &mut top, |_, _| { runs += 1; Ok(5 + 7) }), Ok(12));
    assert_eq!(eval(&mut cache, &mut add3, &mut top, |_, _| { runs += 1; Ok(5 + 7) }), Ok(12));
    let mut add4 = add(5, 7);
    assert_eq!(eval(&mut cache, &mut add4, &mut top, |_, _| { runs += 1; Ok(5 + 7) }), Ok(12));
    assert_eq!(runs, 1);
    assert_eq!(node_of(&add1), node_of(&add2));
    assert_eq!(node_of(&add1), node_of(&add3));
    assert_eq!(node_of(&add1), node_of(&add4));
    assert_eq!(cache.payloads[node_of(&add1)].handles, 4);

    let mut other = add(5, 8);
    assert_eq!(eval(&mut cache, &mut other, &mut top, |_, _| { runs += 1; Ok(5 + 8) }), Ok(13));
    assert_eq!(runs, 2);
    assert_ne!(node_of(&other), node_of(&add1));
    assert_eq!(cache.num_payloads(), 2);
}

#[test]
fn dropping_every_handle_removes_the_payload() {
    let mut cache: TestCache = Cache::create();
    let mut runs = 0;
    let mut top = RunContext::detached();
    let mut add1 = add(5, 7);
    let mut add2 = add(5, 7);
    eval(&mut cache, &mut add1, &mut top, |_, _| { runs += 1; Ok(12) }).unwrap();
    eval(&mut cache, &mut add2, &mut top, |_, _| { runs += 1; Ok(12) }).unwrap();
    let first = node_of(&add1);
    add1.release(&mut cache);
    assert!(cache.payloads[first].alive);
    assert_eq!(cache.artifact(first).as_ref().unwrap().as_ref().unwrap(), &12);
    add2.release(&mut cache);
    assert!(!cache.payloads[first].alive);
    assert_eq!(cache.payloads[first].handles, 0);
    assert!(cache.artifact(first).is_none(), "a dead payload lets go of its artifact");

    let mut again = add(5, 7);
    assert_eq!(eval(&mut cache, &mut again, &mut top, |_, _| { runs += 1; Ok(12) }), Ok(12));
    assert_eq!(runs, 2);
    assert_ne!(node_of(&again), first);
}

#[test]
fn chained_evaluation_records_dependencies() {
    let mut cache: TestCache = Cache::create();
    let mut op1_runs = 0;
    let mut op2_runs = 0;
    let mut op1 = named(&[1u8, 0, 0, 0], "Op1");
    let mut op12 = named(&[2u8, 1, 0, 0, 0], "Op2");
    let mut top = RunContext::detached();
    let value = eval(&mut cache, &mut op12, &mut top, |cache, ctx| {
        op2_runs += 1;
        let inner = eval(cache, &mut op1, ctx, |_, _| {
            op1_runs += 1;
            Ok(1 * 10)
        })?;
        Ok(inner + 7)
    });
    assert_eq!(value, Ok(17));
    let n1 = node_of(&op1);
    let n2 = node_of(&op12);
    assert_eq!(cache.payloads[n2].build_record.dependencies, vec![n1]);
    assert_eq!(cache.payloads[n1].build_record.reverse_dependencies, vec![n2]);
    assert!(cache.payloads[n1].build_record.dependencies.is_empty());
    assert_eq!((op1_runs, op2_runs), (1, 1));
    // The dependency holds its own handle and the reader's edge.
    assert_eq!(cache.payloads[n1].handles, 1);
    op1.release(&mut cache);
    assert!(cache.payloads[n1].alive, "still read by an alive payload");
    op12.release(&mut cache);
    assert!(!cache.payloads[n1].alive);
    assert!(!cache.payloads[n2].alive);
}

#[test]
fn invalidation_reaches_every_reader() {
    let mut cache: TestCache = Cache::create();
    let mut forble_runs = 0;
    let mut borble_runs = 0;
    let mut trigger = None;
    let mut forble = named(&vec![70u8], "Forble");
    let mut boop = named(&vec![66u8, 70], "Borble");
    let mut top = RunContext::detached();
    for _ in 0..2 {
        let value = eval(&mut cache, &mut boop, &mut top, |cache, ctx| {
            borble_runs += 1;
            let forble_value = eval(cache, &mut forble, ctx, |_, ctx| {
                forble_runs += 1;
                trigger = Some(ctx.get_invalidation_trigger());
                Ok(40)
            })?;
            Ok(forble_value + 2)
        });
        assert_eq!(value, Ok(42));
    }
    assert_eq!((forble_runs, borble_runs), (1, 1));
    assert!(boop.is_up_to_date(&cache));
    assert!(forble.is_up_to_date(&cache));

    trigger.as_ref().unwrap().fire(&mut cache);
    assert!(forble.is_stale(&cache));
    assert!(boop.is_stale(&cache));

    let value = eval(&mut cache, &mut boop, &mut top, |cache, ctx| {
        borble_runs += 1;
        let forble_value = eval(cache, &mut forble, ctx, |_, _| {
            forble_runs += 1;
            Ok(50)
        })?;
        Ok(forble_value + 2)
    });
    assert_eq!(value, Ok(52));
    assert_eq!((forble_runs, borble_runs), (2, 2));
    assert!(boop.is_up_to_date(&cache));
}

#[test]
fn up_to_date_follows_connection_and_invalidation() {
    let mut cache: TestCache = Cache::create();
    let mut lines = named(b"examples/filewatch.rs", "CountLinesInFile");
    assert!(!lines.is_up_to_date(&cache));
    assert!(lines.is_stale(&cache));
    let mut top = RunContext::detached();
    let mut trigger = None;
    eval(&mut cache, &mut lines, &mut top, |_, ctx| {
        trigger = Some(ctx.get_invalidation_trigger());
        Ok(52)
    })
    .unwrap();
    assert!(lines.is_up_to_date(&cache));
    trigger.unwrap().fire(&mut cache);
    assert!(!lines.is_up_to_date(&cache));
    let opaque = lines.into_opaque();
    assert!(!opaque.is_up_to_date(&cache));
}

#[test]
fn invalidation_during_a_run_keeps_the_result_stale() {
    let mut cache: TestCache = Cache::create();
    let mut leaf = named(&vec![1u8], "Leaf");
    let mut reader = named(&vec![2u8], "Reader");
    let mut top = RunContext::detached();
    let mut leaf_trigger = None;
    eval(&mut cache, &mut reader, &mut top, |cache, ctx| {
        eval(cache, &mut leaf, ctx, |_, ctx| {
            leaf_trigger = Some(ctx.get_invalidation_trigger());
            Ok(1)
        })
    })
    .unwrap();
    let mut runs = 0;
    leaf_trigger.unwrap().fire(&mut cache);
    // Rebuild the reader; while the leaf rebuilds, its trigger fires again.
    let value = eval(&mut cache, &mut reader, &mut top, |cache, ctx| {
        eval(cache, &mut leaf, ctx, |cache, ctx| {
            runs += 1;
            ctx.get_invalidation_trigger().fire(cache);
            Ok(2)
        })
    });
    assert_eq!(value, Ok(2));
    assert_eq!(runs, 1);
    assert!(leaf.is_stale(&cache));
    assert!(reader.is_stale(&cache));
}

#[test]
fn a_rebuild_moves_reverse_edges() {
    let mut cache: TestCache = Cache::create();
    let mut x = named(&vec![b'x'], "X");
    let mut y = named(&vec![b'y'], "Y");
    let mut reader = named(&vec![b'r'], "Reader");
    let mut top = RunContext::detached();
    let mut reader_trigger = None;
    eval(&mut cache, &mut reader, &mut top, |cache, ctx| {
        reader_trigger = Some(ctx.get_invalidation_trigger());
        eval(cache, &mut x, ctx, |_, _| Ok(1))
    })
    .unwrap();
    let (nx, nr) = (node_of(&x), node_of(&reader));
    assert_eq!(cache.payloads[nx].build_record.reverse_dependencies, vec![nr]);
    reader_trigger.unwrap().fire(&mut cache);
    eval(&mut cache, &mut reader, &mut top, |cache, ctx| eval(cache, &mut y, ctx, |_, _| Ok(2))).unwrap();
    let ny = node_of(&y);
    assert!(cache.payloads[nx].build_record.reverse_dependencies.is_empty());
    assert_eq!(cache.payloads[ny].build_record.reverse_dependencies, vec![nr]);
    assert_eq!(cache.payloads[nr].build_record.dependencies, vec![ny]);
    // Invalidating the old dependency no longer reaches the reader.
    cache.invalidate(nx);
    assert!(reader.is_up_to_date(&cache));
    cache.invalidate(ny);
    assert!(reader.is_stale(&cache));
}

#[test]
fn a_failed_worker_yields_a_tagged_error() {
    let mut cache: TestCache = Cache::create();
    let mut failing = add(1, 2);
    let mut top = RunContext::detached();
    let result = eval(&mut cache, &mut failing, &mut top, |_, _| Err("boom".to_string()));
    assert_eq!(result, Err("A turbosloth LazyWorker \"Add\" failed".to_string()));
    match cache.artifact(node_of(&failing)) {
        Some(Err(error)) => {
            assert_eq!(error.source(), "boom");
            assert_eq!(error.worker_debug_name, "Add");
        }
        _ => panic!("expected an error artifact"),
    }
}

#[test]
fn worker_identity_is_the_wyhash_digest_of_its_writes() {
    assert_eq!(add_writes(5, 7).lazy_identity(), 3238685431137971790);
    assert_eq!(add_writes(5, 8).lazy_identity(), 16546829937450372300);
    assert_eq!(add(5, 7).identity(), 3238685431137971790);
    assert_eq!(vec![vec![0u8, 1, 2]].lazy_identity(), 7373020978086944029);
    // Write boundaries count: the same bytes in other chunks give other identities.
    assert_eq!(vec![vec![0u8], vec![1, 2]].lazy_identity(), 7538214850477203951);
    assert_eq!(vec![vec![0u8, 1], vec![2]].lazy_identity(), 6462054651140387640);
    assert_eq!(Vec::<Vec<u8>>::new().lazy_identity(), 0);
    assert_eq!(vec![Vec::<u8>::new()].lazy_identity(), 17969918002310452037);
    let long: Vec<u8> = (0u8..40).collect();
    assert_eq!(vec![long].lazy_identity(), 312031452566692100);
}
