use reactor::reactive::expr::Expr;
use reactor::reactive::expr::ReactiveExpr;
use reactor::reactive::value::ReactiveValue;
use reactor::reactive::ReactiveData;
use reactor::Reactor;

#[test]
fn simple_value() {
    let mut r = Reactor::new();
    let v = ReactiveValue::new(40, &mut r);
    let v_id = v.uuid;
    r.register(ReactiveData::Value(v));
    let reader = ReactiveValue::new(1, &mut r);
    let reader_id = reader.uuid;
    r.register(ReactiveData::Value(reader));
    assert!(r.write(v_id, 89).is_ok());
    assert!(r.read(v_id, reader_id) == Some(89));
}

#[test]
fn data_reactive_sum() {
    let mut r = Reactor::new();
    let a = ReactiveValue::new(1, &mut r);
    let b = ReactiveValue::new(1, &mut r);
    let sum = ReactiveExpr::new(Expr::Add(a.uuid, b.uuid), &mut r);
    r.register(ReactiveData::Value(a));
    r.register(ReactiveData::Value(b));
    r.register(ReactiveData::Expr(sum));
}

#[test]
fn expr_reactive_sum() {
    let mut react = Reactor::new();
    let a = ReactiveValue::new(1, &mut react);
    let b = ReactiveValue::new(1, &mut react);
    let a_id = a.uuid;
    let b_id = b.uuid;
    react.register(ReactiveData::Value(a));
    react.register(ReactiveData::Value(b));
    let sum = ReactiveExpr::new(Expr::Add(a_id, b_id), &mut react);
    let sum_id = sum.uuid;
    react.register(ReactiveData::Expr(sum));
    assert_eq!(react.seek(sum_id), Some(2));
    assert!(react.write(a_id, 2).is_ok());
    assert_eq!(react.seek(sum_id), Some(3));
}

#[test]
fn create_value() {
    let mut r = Reactor::new();
    let a = ReactiveValue::new(89, &mut r);
    let a_id = a.uuid;
    r.register(ReactiveData::Value(a));
    let b = ReactiveValue::new(1, &mut r);
    r.register(ReactiveData::Value(b));
    assert_eq!(r.seek(a_id), Some(89));
}
