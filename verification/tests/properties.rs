use reactor::reactive::expr::Expr;
use reactor::reactive::expr::ReactiveExpr;
use reactor::reactive::value::ReactiveValue;
use reactor::reactive::Reactive;
use reactor::reactive::ReactiveData;
use reactor::Reactor;
use reactor::ReactorError;

fn source(r: &mut Reactor, value: u64) -> usize {
    let v = ReactiveData::new_value(value, r);
    let id = Reactive::uuid(&v);
    r.register(v);
    id
}

fn derived(r: &mut Reactor, expr: Expr) -> usize {
    let e = ReactiveData::new_expr(expr, r);
    let id = Reactive::uuid(&e);
    r.register(e);
    id
}

#[test]
fn idempotent_subscription() {
    let mut r = Reactor::new();
    let a = source(&mut r, 7);
    let d = derived(&mut r, Expr::Get(a));
    assert_eq!(r.subscriber_count(a), 0);
    r.subscribe(a, d);
    r.subscribe(a, d);
    r.subscribe(a, d);
    assert_eq!(r.subscriber_count(a), 1);
    // One write dirties the single subscriber once; more subscriptions of
    // the same pair would not have changed anything.
    assert_eq!(r.seek(d), Some(7));
    assert!(r.is_clean(d));
    assert!(r.write(a, 8).is_ok());
    assert!(!r.is_clean(d));
    assert_eq!(r.subscriber_count(a), 1);
}

#[test]
fn subscribe_unregistered_is_noop() {
    let mut r = Reactor::new();
    let a = source(&mut r, 1);
    // An identity never minted: no edge forms, nothing fails.
    r.subscribe(99, a);
    assert_eq!(r.subscriber_count(99), 0);
    // A minted but unregistered identity: still no edge.
    let ghost_node = ReactiveValue::new(5, &mut r);
    r.subscribe(ghost_node.uuid, a);
    assert_eq!(r.subscriber_count(ghost_node.uuid), 0);
}

#[test]
fn laziness() {
    let mut r = Reactor::new();
    let a = source(&mut r, 3);
    let d = derived(&mut r, Expr::Add(a, a));
    // Never read: the rule has not run.
    assert_eq!(r.recompute_count(d), Some(0));
    assert!(!r.is_clean(d));
    // Writes invalidate but never recompute.
    assert!(r.write(a, 4).is_ok());
    assert_eq!(r.recompute_count(d), Some(0));
    r.subscribe(a, d);
    assert_eq!(r.recompute_count(d), Some(0));
    // Only the first read runs the rule.
    assert_eq!(r.seek(d), Some(8));
    assert_eq!(r.recompute_count(d), Some(1));
}

#[test]
fn memoization() {
    let mut r = Reactor::new();
    let a = source(&mut r, 10);
    let d = derived(&mut r, Expr::Add(a, a));
    let first = r.seek(d);
    let second = r.seek(d);
    assert_eq!(first, Some(20));
    assert_eq!(second, first);
    // The rule ran exactly once across both reads.
    assert_eq!(r.recompute_count(d), Some(1));
}

#[test]
fn propagation() {
    let mut r = Reactor::new();
    let a = source(&mut r, 1);
    let b = derived(&mut r, Expr::Add(a, a));
    let c = derived(&mut r, Expr::Add(b, b));
    assert_eq!(r.seek(c), Some(4));
    assert!(r.write(a, 2).is_ok());
    // Both b and c recompute on the next read of c.
    assert_eq!(r.seek(c), Some(8));
    assert_eq!(r.recompute_count(b), Some(2));
    assert_eq!(r.recompute_count(c), Some(2));
    // Reading c twice with no intervening write recomputes neither.
    assert_eq!(r.seek(c), Some(8));
    assert_eq!(r.recompute_count(b), Some(2));
    assert_eq!(r.recompute_count(c), Some(2));
}

#[test]
fn diamond_dependency() {
    let mut r = Reactor::new();
    let a = source(&mut r, 3);
    let b1 = derived(&mut r, Expr::Add(a, a));
    let b2 = derived(&mut r, Expr::Get(a));
    let c = derived(&mut r, Expr::Add(b1, b2));
    assert_eq!(r.seek(c), Some(9));
    assert!(r.write(a, 5).is_ok());
    // One write, one read: both arms are fresh, never a stale mix.
    assert_eq!(r.seek(c), Some(15));
    assert_eq!(r.recompute_count(b1), Some(2));
    assert_eq!(r.recompute_count(b2), Some(2));
    assert_eq!(r.recompute_count(c), Some(2));
}

#[test]
fn fatal_on_illegal_dirty() {
    let mut r = Reactor::new();
    let a = source(&mut r, 42);
    let res = r.mark_dirty(a);
    assert_eq!(res, Err(ReactorError::SourceMarkedDirty { uuid: a }));
    // The failed call left the reactor untouched.
    assert!(r.is_clean(a));
    assert_eq!(r.seek(a), Some(42));
}

#[test]
fn mark_dirty_on_derived() {
    let mut r = Reactor::new();
    let a = source(&mut r, 6);
    let d = derived(&mut r, Expr::Get(a));
    assert_eq!(r.seek(d), Some(6));
    assert!(r.is_clean(d));
    assert!(r.mark_dirty(d).is_ok());
    assert!(!r.is_clean(d));
    assert_eq!(r.seek(d), Some(6));
    assert_eq!(r.recompute_count(d), Some(2));
}

#[test]
fn broadcast_reaching_a_source_is_fatal() {
    let mut r = Reactor::new();
    let s1 = source(&mut r, 1);
    let s2 = source(&mut r, 2);
    // Subscribing a source as a sink is accepted by the registry, but the
    // next broadcast reaches it and must abort naming it.
    r.subscribe(s1, s2);
    let res = r.write(s1, 9);
    assert_eq!(res, Err(ReactorError::SourceMarkedDirty { uuid: s2 }));
}

#[test]
fn fatal_write_still_invalidates_derived_subscribers() {
    let mut r = Reactor::new();
    let s1 = source(&mut r, 1);
    let s2 = source(&mut r, 2);
    let d = derived(&mut r, Expr::Get(s1));
    assert_eq!(r.seek(d), Some(1));
    r.subscribe(s1, s2);
    let res = r.write(s1, 9);
    assert_eq!(res, Err(ReactorError::SourceMarkedDirty { uuid: s2 }));
    // The fatal error aborted only the source marking: the stored value and
    // the invalidation of the derived subscriber still went through, and the
    // reactor stays fully usable.
    assert!(!r.is_clean(d));
    assert_eq!(r.seek(d), Some(9));
    assert!(r.write(s2, 5).is_ok());
    assert_eq!(r.seek(s2), Some(5));
}

#[test]
fn scenario_sum() {
    let mut r = Reactor::new();
    let a = source(&mut r, 1);
    let b = source(&mut r, 1);
    let sum = derived(&mut r, Expr::Add(a, b));
    assert_eq!(r.seek(sum), Some(2));
    assert!(r.write(a, 5).is_ok());
    assert_eq!(r.seek(sum), Some(6));
    // The summation rule ran exactly twice in total.
    assert_eq!(r.recompute_count(sum), Some(2));
}

#[test]
fn unregistered_identities_are_noops() {
    let mut r = Reactor::new();
    assert_eq!(r.seek(0), None);
    assert_eq!(r.read(3, 4), None);
    assert!(r.write(7, 1).is_ok());
    assert!(r.mark_dirty(5).is_ok());
    assert_eq!(r.recompute_count(0), None);
    assert!(!r.is_clean(0));
}

#[test]
fn register_is_idempotent() {
    let mut r = Reactor::new();
    let a = ReactiveValue::new(11, &mut r);
    let a_id = a.uuid;
    r.register(ReactiveData::Value(a));
    // Registering the same identity again changes nothing.
    let twin = ReactiveData::Value(ReactiveValue { uuid: a_id, value: 99 });
    r.register(twin);
    assert_eq!(r.seek(a_id), Some(11));
}

#[test]
fn read_subscribes_its_reader() {
    let mut r = Reactor::new();
    let a = source(&mut r, 2);
    let d = derived(&mut r, Expr::Get(a));
    // A derived read discovers its subscription automatically.
    assert_eq!(r.seek(d), Some(2));
    assert_eq!(r.subscriber_count(a), 1);
    // An explicit read subscribes the given reader.
    let other = derived(&mut r, Expr::Const(0));
    assert_eq!(r.read(a, other), Some(2));
    assert_eq!(r.subscriber_count(a), 2);
}

#[test]
fn node_capability_reports() {
    let mut r = Reactor::new();
    let v = ReactiveValue::new(1, &mut r);
    assert!(Reactive::is_clean(&v));
    assert!(!Reactive::is_dirty(&v));
    let v_id = Reactive::uuid(&v);
    r.register(ReactiveData::Value(v));
    let e = ReactiveExpr::new(Expr::Get(v_id), &mut r);
    assert!(Reactive::is_dirty(&e));
    assert_eq!(Reactive::uuid(&e), v_id + 1);
    r.register(ReactiveData::Expr(e));
}

#[test]
fn wrapping_addition() {
    let mut r = Reactor::new();
    let a = source(&mut r, u64::MAX);
    let b = source(&mut r, 2);
    let sum = derived(&mut r, Expr::Add(a, b));
    assert_eq!(r.seek(sum), Some(1));
}
