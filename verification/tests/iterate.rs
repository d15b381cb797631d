use std::cell::Cell;
use std::rc::Rc;

use meccano::Constructor;
use meccano::Context;
use meccano::Duplicable;
use meccano::ResolutionError;
use meccano::Rules;

const TY_I32: u64 = 1;
const TY_I64: u64 = 2;

#[derive(Clone)]
struct Value(i32);

impl Duplicable for Value {
    fn dup(&self) -> Value {
        self.clone()
    }
}

#[derive(Clone)]
enum Ctor {
    Int(i32),
    Counting(Rc<Cell<i32>>, i32),
}

impl Constructor<Value> for Ctor {
    fn construct(&self, _ctx: &mut Context<Value, Ctor>) -> Result<Value, ResolutionError> {
        match self {
            Ctor::Int(v) => Ok(Value(*v)),
            Ctor::Counting(counter, v) => {
                counter.set(counter.get() + 1);
                Ok(Value(*v))
            },
        }
    }
}

#[test]
fn iterate() {
    let mut builder: Rules<Value, Ctor> = Rules::new();
    builder.add(TY_I32, "value".to_string(), Ctor::Int(365));
    builder.add(TY_I32, "otherValue".to_string(), Ctor::Int(365));
    let ctx = builder.commit();
    let keys = ctx.keys(TY_I32);
    assert_eq!(keys, vec!["otherValue".to_string(), "value".to_string()]);
    let i64keys = ctx.keys(TY_I64);
    assert_eq!(i64keys.len(), 0);
}

#[test]
fn iteration_triggers_no_construction() {
    let counter = Rc::new(Cell::new(0));
    let mut builder: Rules<Value, Ctor> = Rules::new();
    builder.add(TY_I32, "a".to_string(), Ctor::Counting(counter.clone(), 1));
    builder.add(TY_I32, "b".to_string(), Ctor::Counting(counter.clone(), 2));
    let ctx = builder.commit();
    let keys = ctx.keys(TY_I32);
    assert_eq!(keys, vec!["a".to_string(), "b".to_string()]);
    assert_eq!(counter.get(), 0);
}

#[test]
fn reregistration_replaces() {
    let mut builder: Rules<Value, Ctor> = Rules::new();
    builder.add(TY_I32, "value".to_string(), Ctor::Int(1));
    builder.add(TY_I32, "value".to_string(), Ctor::Int(2));
    let mut ctx = builder.commit();
    // One key, one binding: the later registration replaced the earlier.
    assert_eq!(ctx.keys(TY_I32).len(), 1);
    assert!(matches!(ctx.get(TY_I32, "value"), Ok(Value(2))));
}
