use std::sync::Arc;

use meccano::Constructor;
use meccano::Context;
use meccano::Duplicable;
use meccano::ResolutionError;
use meccano::Rules;

const TY_I32: u64 = 1;
const TY_DEPENDENCY: u64 = 2;
const TY_DEPENDENT: u64 = 3;
const TY_UNUSED: u64 = 4;
const TY_I64: u64 = 5;

struct Dependency {
    value: i32,
}

#[derive(Clone)]
struct Dependent {
    dependency: Arc<Dependency>,
}

#[derive(Clone)]
enum Value {
    Int(i32),
    Dep(Arc<Dependency>),
    Dependent(Dependent),
}

impl Duplicable for Value {
    fn dup(&self) -> Value {
        self.clone()
    }
}

#[derive(Clone)]
enum Ctor {
    Int(i32),
    MakeDependency,
    MakeDependent,
}

impl Constructor<Value> for Ctor {
    fn construct(&self, ctx: &mut Context<Value, Ctor>) -> Result<Value, ResolutionError> {
        match self {
            Ctor::Int(v) => Ok(Value::Int(*v)),
            Ctor::MakeDependency => match ctx.get(TY_I32, "value")? {
                Value::Int(v) => Ok(Value::Dep(Arc::new(Dependency { value: v }))),
                _ => panic!("unexpected value kind"),
            },
            Ctor::MakeDependent => match ctx.get(TY_DEPENDENCY, "")? {
                Value::Dep(d) => Ok(Value::Dependent(Dependent { dependency: d })),
                _ => panic!("unexpected value kind"),
            },
        }
    }
}

#[test]
fn chain() {
    let mut builder: Rules<Value, Ctor> = Rules::new();
    builder.add(TY_DEPENDENT, "".to_string(), Ctor::MakeDependent);
    builder.add(TY_DEPENDENCY, "".to_string(), Ctor::MakeDependency);
    builder.add(TY_I32, "value".to_string(), Ctor::Int(365));
    let mut ctx = builder.commit();
    let val = ctx.get(TY_I32, "value");
    assert!(matches!(val, Ok(Value::Int(365))));
    let dependent = ctx.get(TY_DEPENDENT, "");
    match dependent {
        Ok(Value::Dependent(d)) => assert_eq!(d.dependency.value, 365),
        _ => panic!("dependent did not resolve"),
    }
}

#[test]
fn init_is_lazy() {
    let mut builder: Rules<Value, Ctor> = Rules::new();
    builder.add(TY_DEPENDENT, "".to_string(), Ctor::MakeDependent);
    builder.add(TY_DEPENDENCY, "".to_string(), Ctor::MakeDependency);
    builder.add(TY_I32, "other_value".to_string(), Ctor::Int(365));
    // must not fail: nothing is requested from the context
    let _ctx = builder.commit();
}

#[test]
fn unresoved_label() {
    let mut builder: Rules<Value, Ctor> = Rules::new();
    builder.add(TY_DEPENDENT, "".to_string(), Ctor::MakeDependent);
    builder.add(TY_DEPENDENCY, "".to_string(), Ctor::MakeDependency);
    builder.add(TY_I32, "other_value".to_string(), Ctor::Int(365));
    let mut ctx = builder.commit();
    let dependent = ctx.get(TY_DEPENDENT, "");
    assert!(matches!(dependent, Err(ResolutionError::UnknownLabel)));
}

#[test]
fn unresoved_type() {
    let mut builder: Rules<Value, Ctor> = Rules::new();
    builder.add(TY_DEPENDENT, "".to_string(), Ctor::MakeDependent);
    // The dependency is registered under a different type tag than the one
    // the dependent's constructor requests.
    builder.add(TY_UNUSED, "".to_string(), Ctor::MakeDependency);
    builder.add(TY_I32, "value".to_string(), Ctor::Int(365));
    let mut ctx = builder.commit();
    let dependent = ctx.get(TY_DEPENDENT, "");
    assert!(matches!(dependent, Err(ResolutionError::UnknownType)));
}

#[test]
fn has_contains() {
    let mut builder: Rules<Value, Ctor> = Rules::new();
    builder.add(TY_DEPENDENT, "".to_string(), Ctor::MakeDependent);
    builder.add(TY_DEPENDENCY, "".to_string(), Ctor::MakeDependency);
    builder.add(TY_I32, "value".to_string(), Ctor::Int(365));
    let ctx = builder.commit();
    assert!(ctx.contains(TY_DEPENDENCY, ""));
    assert!(ctx.contains(TY_DEPENDENT, ""));
    assert!(!ctx.contains(TY_UNUSED, ""));
    assert!(ctx.contains(TY_I32, "value"));
    assert!(!ctx.contains(TY_I32, "other_value"));
    assert!(!ctx.contains(TY_I64, "value"));
}
