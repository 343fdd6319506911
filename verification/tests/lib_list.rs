use cordy::stdlib::lib_list::{head, init, last, list_index, list_slice, pop, push, reversed, sum, tail};
use cordy::vm::error::RuntimeError;
use cordy::vm::value::Value;

fn ints(xs: &[i64]) -> Vec<Value> {
    xs.iter().map(|x| Value::Int(*x)).collect()
}

fn as_ints(v: Result<Value, RuntimeError>) -> Vec<i64> {
    match v {
        Ok(Value::List(xs)) | Ok(Value::LinkedSet(xs)) => xs.into_iter().map(|x| match x {
            Value::Int(i) => i,
            other => panic!("not an int: {:?}", other),
        }).collect(),
        other => panic!("not a list: {:?}", other),
    }
}

fn slice(xs: &[i64], low: Value, high: Value, step: Value) -> Vec<i64> {
    as_ints(list_slice(Value::List(ints(xs)), low, high, step))
}

#[test]
fn indexing() {
    assert!(matches!(list_index(ints(&[1, 2, 3]), 0), Ok(Value::Int(1))));
    assert!(matches!(list_index(ints(&[1, 2, 3]), -1), Ok(Value::Int(3))));
    assert!(matches!(list_index(ints(&[1, 2, 3]), 3), Err(RuntimeError::ValueErrorIndexOutOfBounds(3, 3))));
    assert!(matches!(list_index(ints(&[1, 2, 3]), -4), Err(RuntimeError::ValueErrorIndexOutOfBounds(-4, 3))));
}

#[test]
fn slicing() {
    let xs = [0, 1, 2, 3, 4];
    assert_eq!(slice(&xs, Value::Nil, Value::Nil, Value::Nil), vec![0, 1, 2, 3, 4]);
    assert_eq!(slice(&xs, Value::Int(1), Value::Int(3), Value::Nil), vec![1, 2]);
    assert_eq!(slice(&xs, Value::Int(1), Value::Nil, Value::Int(2)), vec![1, 3]);
    assert_eq!(slice(&xs, Value::Nil, Value::Nil, Value::Int(-1)), vec![4, 3, 2, 1, 0]);
    assert_eq!(slice(&xs, Value::Int(-2), Value::Nil, Value::Nil), vec![3, 4]);
    assert_eq!(slice(&xs, Value::Int(3), Value::Int(0), Value::Int(-2)), vec![3, 1]);
    assert_eq!(slice(&xs, Value::Int(10), Value::Int(20), Value::Nil), Vec::<i64>::new());
    assert!(matches!(list_slice(Value::List(ints(&xs)), Value::Nil, Value::Nil, Value::Int(0)), Err(RuntimeError::ValueErrorStepCannotBeZero)));
    assert!(matches!(list_slice(Value::Int(1), Value::Nil, Value::Nil, Value::Nil), Err(RuntimeError::TypeErrorArgMustBeSliceable(Value::Int(1)))));
    match list_slice(Value::List(ints(&xs)), Value::Bool(true), Value::Nil, Value::Nil) {
        Err(RuntimeError::TypeErrorSliceArgMustBeInt(name, Value::Bool(true))) => assert_eq!(name, "low"),
        other => panic!("unexpected: {:?}", other),
    }
}

#[test]
fn summing() {
    assert!(matches!(sum(ints(&[1, 2, 3])), Ok(Value::Int(6))));
    assert!(matches!(sum(vec![]), Ok(Value::Int(0))));
    assert!(matches!(sum(vec![Value::Int(1), Value::Nil]), Err(RuntimeError::TypeErrorArgMustBeInt(Value::Nil))));
}

#[test]
fn ends_of_lists() {
    assert!(matches!(last(Value::List(ints(&[1, 2]))), Ok(Value::Int(2))));
    assert!(matches!(head(Value::List(ints(&[1, 2]))), Ok(Value::Int(1))));
    assert!(matches!(head(Value::List(vec![])), Ok(Value::Nil)));
    assert!(matches!(last(Value::Int(1)), Err(RuntimeError::TypeErrorArgMustBeIterable(Value::Int(1)))));
    assert_eq!(as_ints(init(Value::List(ints(&[1, 2, 3])))), vec![1, 2]);
    assert_eq!(as_ints(tail(Value::List(ints(&[1, 2, 3])))), vec![2, 3]);
    assert_eq!(as_ints(reversed(ints(&[1, 2, 3]))), vec![3, 2, 1]);
}

#[test]
fn popping_and_pushing() {
    match pop(Value::List(ints(&[1, 2]))) {
        Ok((Value::Int(2), rest)) => assert_eq!(as_ints(Ok(rest)), vec![1]),
        other => panic!("unexpected: {:?}", other),
    }
    assert!(matches!(pop(Value::List(vec![])), Err(RuntimeError::ValueErrorValueMustBeNonEmpty)));
    assert_eq!(as_ints(push(Value::Int(3), Value::List(ints(&[1, 2])))), vec![1, 2, 3]);
    assert_eq!(as_ints(push(Value::Int(2), Value::LinkedSet(ints(&[1, 2])))), vec![1, 2]);
    assert_eq!(as_ints(push(Value::Int(3), Value::LinkedSet(ints(&[1, 2])))), vec![1, 2, 3]);
    assert!(matches!(push(Value::Int(1), Value::Nil), Err(RuntimeError::TypeErrorArgMustBeIterable(Value::Nil))));
}

#[test]
fn equality_is_structural() {
    let a = Value::List(vec![Value::Int(1), Value::Str(String::from("x"))]);
    let b = Value::List(vec![Value::Int(1), Value::Str(String::from("x"))]);
    let c = Value::List(vec![Value::Int(1)]);
    assert!(a.equals(&b));
    assert!(!a.equals(&c));
    assert!(!Value::Int(1).equals(&Value::Bool(true)));
}

#[test]
fn filtering_and_folding_by_given_results() {
    use_filter_and_reduce();
}

fn use_filter_and_reduce() {
    let ints = |xs: &[i64]| xs.iter().map(|x| Value::Int(*x)).collect::<Vec<Value>>();
    let kept = cordy::stdlib::lib_list::filter_kept(ints(&[1, 2, 3, 4]), vec![false, true, true, false]).unwrap();
    assert!(kept.equals(&Value::List(ints(&[2, 3]))));
    assert!(cordy::stdlib::lib_list::filter_kept(ints(&[1, 2]), vec![true]).is_none());
    let folded = cordy::stdlib::lib_list::reduce_folded(ints(&[1, 2, 3]), ints(&[3, 6])).unwrap().unwrap();
    assert!(folded.equals(&Value::Int(6)));
    let single = cordy::stdlib::lib_list::reduce_folded(ints(&[7]), ints(&[])).unwrap().unwrap();
    assert!(single.equals(&Value::Int(7)));
    assert!(matches!(cordy::stdlib::lib_list::reduce_folded(ints(&[]), ints(&[])), Some(Err(RuntimeError::ValueErrorValueMustBeNonEmpty))));
    assert!(cordy::stdlib::lib_list::reduce_folded(ints(&[1, 2]), ints(&[])).is_none());
}
