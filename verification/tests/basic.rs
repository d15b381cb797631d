use std::cell::Cell;
use std::rc::Rc;

use meccano::Constructor;
use meccano::Context;
use meccano::Duplicable;
use meccano::ResolutionError;
use meccano::Rules;

const TY_I32: u64 = 1;
const TY_A: u64 = 10;
const TY_B: u64 = 11;

#[derive(Clone)]
struct Value(i32);

impl Duplicable for Value {
    fn dup(&self) -> Value {
        self.clone()
    }
}

#[derive(Clone)]
enum Ctor {
    Int(i32),
    Counting(Rc<Cell<i32>>, i32),
}

impl Constructor<Value> for Ctor {
    fn construct(&self, _ctx: &mut Context<Value, Ctor>) -> Result<Value, ResolutionError> {
        match self {
            Ctor::Int(v) => Ok(Value(*v)),
            Ctor::Counting(counter, v) => {
                counter.set(counter.get() + 1);
                Ok(Value(*v))
            },
        }
    }
}

#[test]
fn it_works() {
    println!("test started");
    let mut rules: Rules<Value, Ctor> = Rules::new();
    rules.add(TY_I32, "".to_string(), Ctor::Int(32));
    rules.add(TY_I32, "".to_string(), Ctor::Int(33));
    let mut context = rules.commit();
    match context.get(TY_I32, "") {
        Ok(Value(v)) => assert_eq!(v, 33),
        Err(_) => panic!("resolution failed"),
    }
}

#[test]
fn memoization_constructs_once() {
    let counter = Rc::new(Cell::new(0));
    let mut rules: Rules<Value, Ctor> = Rules::new();
    rules.add(TY_I32, "counted".to_string(), Ctor::Counting(counter.clone(), 7));
    let mut ctx = rules.commit();
    assert_eq!(counter.get(), 0);
    let first = ctx.get(TY_I32, "counted");
    assert!(matches!(first, Ok(Value(7))));
    assert_eq!(counter.get(), 1);
    let second = ctx.get(TY_I32, "counted");
    assert!(matches!(second, Ok(Value(7))));
    assert_eq!(counter.get(), 1);
}

#[test]
fn name_scoping_is_per_type() {
    let mut rules: Rules<Value, Ctor> = Rules::new();
    rules.add(TY_A, "x".to_string(), Ctor::Int(1));
    rules.add(TY_B, "x".to_string(), Ctor::Int(2));
    let mut ctx = rules.commit();
    assert!(matches!(ctx.get(TY_A, "x"), Ok(Value(1))));
    assert!(matches!(ctx.get(TY_B, "x"), Ok(Value(2))));
    // Resolving under one tag leaves the other untouched and distinct.
    assert!(matches!(ctx.get(TY_A, "x"), Ok(Value(1))));
}

#[test]
fn missing_label_error() {
    let mut rules: Rules<Value, Ctor> = Rules::new();
    rules.add(TY_A, "present".to_string(), Ctor::Int(1));
    let mut ctx = rules.commit();
    assert!(matches!(ctx.get(TY_A, "missing"), Err(ResolutionError::UnknownLabel)));
}

#[test]
fn missing_type_error() {
    let mut rules: Rules<Value, Ctor> = Rules::new();
    rules.add(TY_A, "present".to_string(), Ctor::Int(1));
    let mut ctx = rules.commit();
    assert!(matches!(ctx.get(TY_B, "present"), Err(ResolutionError::UnknownType)));
    assert!(matches!(ctx.get(TY_B, "anything"), Err(ResolutionError::UnknownType)));
}
