use std::sync::Arc;

use meccano::Constructor;
use meccano::Context;
use meccano::Duplicable;
use meccano::ResolutionError;
use meccano::Rules;

const TY_LIST: u64 = 1;
const TY_HEAD: u64 = 2;
const TY_TAIL: u64 = 3;

struct List {
    next: Arc<List>,
}

struct Head {
    tail: Arc<Tail>,
}

struct Tail {
    head: Arc<Head>,
}

#[derive(Clone)]
enum Value {
    List(Arc<List>),
    Head(Arc<Head>),
    Tail(Arc<Tail>),
}

impl Duplicable for Value {
    fn dup(&self) -> Value {
        self.clone()
    }
}

#[derive(Clone)]
enum Ctor {
    MakeList,
    MakeHead,
    MakeTail,
}

impl Constructor<Value> for Ctor {
    fn construct(&self, ctx: &mut Context<Value, Ctor>) -> Result<Value, ResolutionError> {
        match self {
            Ctor::MakeList => match ctx.get(TY_LIST, "")? {
                Value::List(next) => Ok(Value::List(Arc::new(List { next }))),
                _ => panic!("unexpected value kind"),
            },
            Ctor::MakeHead => match ctx.get(TY_TAIL, "")? {
                Value::Tail(tail) => Ok(Value::Head(Arc::new(Head { tail }))),
                _ => panic!("unexpected value kind"),
            },
            Ctor::MakeTail => match ctx.get(TY_HEAD, "")? {
                Value::Head(head) => Ok(Value::Tail(Arc::new(Tail { head }))),
                _ => panic!("unexpected value kind"),
            },
        }
    }
}

#[test]
fn short_circuit() {
    let mut builder: Rules<Value, Ctor> = Rules::new();
    builder.add(TY_LIST, "".to_string(), Ctor::MakeList);
    let mut ctx = builder.commit();
    let short = ctx.get(TY_LIST, "");
    assert!(matches!(short, Err(ResolutionError::CyclicDependency)));
}

#[test]
fn cycle() {
    let mut builder: Rules<Value, Ctor> = Rules::new();
    builder.add(TY_HEAD, "".to_string(), Ctor::MakeHead);
    builder.add(TY_TAIL, "".to_string(), Ctor::MakeTail);
    let mut ctx = builder.commit();
    let head = ctx.get(TY_HEAD, "");
    assert!(matches!(head, Err(ResolutionError::CyclicDependency)));
}

#[test]
fn failed_construction_leaves_no_cache() {
    let mut builder: Rules<Value, Ctor> = Rules::new();
    builder.add(TY_LIST, "".to_string(), Ctor::MakeList);
    let mut ctx = builder.commit();
    let first = ctx.get(TY_LIST, "");
    assert!(matches!(first, Err(ResolutionError::CyclicDependency)));
    // The failed binding is left unconstructed, so the same request fails
    // the same way again instead of answering from a half-built cache.
    let second = ctx.get(TY_LIST, "");
    assert!(matches!(second, Err(ResolutionError::CyclicDependency)));
}
