use std::sync::Arc;

use meccano::Constructor;
use meccano::Context;
use meccano::Duplicable;
use meccano::ResolutionError;
use meccano::Rules;

const TY_MULTIPLIER: u64 = 1;

trait Multiplier: Send + Sync {
    fn multiplicate(&self, arg: i32) -> i32;
}

struct ByFactor {
    factor: i32,
}

impl Multiplier for ByFactor {
    fn multiplicate(&self, arg: i32) -> i32 {
        arg * self.factor
    }
}

#[derive(Clone)]
struct Value(Arc<dyn Multiplier>);

impl Duplicable for Value {
    fn dup(&self) -> Value {
        self.clone()
    }
}

#[derive(Clone)]
enum Ctor {
    Doubler,
}

impl Constructor<Value> for Ctor {
    fn construct(&self, _ctx: &mut Context<Value, Ctor>) -> Result<Value, ResolutionError> {
        match self {
            Ctor::Doubler => Ok(Value(Arc::new(ByFactor { factor: 2 }))),
        }
    }
}

#[test]
fn trait_object() {
    let mut builder: Rules<Value, Ctor> = Rules::new();
    builder.add(TY_MULTIPLIER, "".to_string(), Ctor::Doubler);
    let mut ctx = builder.commit();
    let m = ctx.get(TY_MULTIPLIER, "");
    match m {
        Ok(Value(m)) => assert_eq!(m.multiplicate(100), 200),
        Err(_) => panic!("resolution failed"),
    }
}
