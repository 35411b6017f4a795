//! Conversions into values.
#[allow(unused_imports)]
use edikt::error::{EditError, EvalError};
#[allow(unused_imports)]
use edikt::float::{Arith, Float, FloatFacts, FloatNeed};
#[allow(unused_imports)]
use edikt::model::{
    BinOp, CommentKind, Commented, CommentedNode, Comments, Expr, Step, Value,
};

#[allow(dead_code)]
fn number(x: f64) -> Float {
    Float { bits: x.to_bits(), text: x.to_string() }
}

#[allow(dead_code)]
fn fl(x: f64) -> Value {
    Value::Float(number(x))
}

/// Work out a floating-point result the library asked for.
#[allow(dead_code)]
fn supply(facts: &mut FloatFacts, need: &FloatNeed) {
    match need {
        FloatNeed::Parse(t) => {
            let x = match t.strip_prefix("0x") {
                Some(h) => u128::from_str_radix(h, 16).ok().map(|n| n as f64),
                None => t.parse::<f64>().ok(),
            };
            facts.parsed.push((t.clone(), x.map(number)));
        }
        FloatNeed::Compute(op, a, b) => {
            let (x, y) = (f64::from_bits(*a), f64::from_bits(*b));
            let r = match op {
                Arith::Add => x + y,
                Arith::Sub => x - y,
                Arith::Mul => x * y,
                Arith::Div => x / y,
                Arith::Rem => x % y,
            };
            facts.computed.push((*op, *a, *b, number(r)));
        }
    }
}

#[allow(dead_code)]
fn parse_expr(src: &str) -> Result<Expr, edikt::parser::ParseError> {
    let mut facts = FloatFacts::new();
    loop {
        match edikt::parser::parse(src, &facts) {
            Err(e) => match &e.need {
                Some(need) => supply(&mut facts, need),
                None => return Err(e),
            },
            Ok(x) => return Ok(x),
        }
    }
}

#[allow(dead_code)]
fn eval(expr: &Expr, input: &Value) -> Result<Vec<Value>, EvalError> {
    let mut facts = FloatFacts::new();
    loop {
        match edikt::eval::eval(expr, input, &facts) {
            Err(e) => match &e.need {
                Some(need) => supply(&mut facts, need),
                None => return Err(e),
            },
            Ok(x) => return Ok(x),
        }
    }
}

fn object(members: Vec<(&str, Value)>) -> Value {
    Value::Object(members.into_iter().map(|(k, v)| (k.to_string(), v)).collect())
}

#[test]
fn builds_scalars_and_empties() {
    assert_eq!(Value::from(None::<i64>), Value::Null);
    assert_eq!(Value::from(true), Value::Bool(true));
    assert_eq!(Value::from(42), Value::Int(42));
    assert_eq!(Value::from(number(2.5)), fl(2.5));
    assert_eq!(Value::from("s"), Value::Str("s".into()));
    assert_eq!(Value::from(Vec::<Value>::new()).to_json(), "[]");
    assert_eq!(object(vec![]).to_json(), "{}");
}

#[test]
fn object_keys_preserve_insertion_order() {
    let v = object(vec![("z", 1.into()), ("a", 2.into()), ("m", 3.into())]);
    assert_eq!(v.to_json(), r#"{"z":1,"a":2,"m":3}"#);
}

#[test]
fn integer_widths_all_convert() {
    assert_eq!(Value::from(1_i8), Value::Int(1));
    assert_eq!(Value::from(-300_i16), Value::Int(-300));
    assert_eq!(Value::from(1_u32), Value::Int(1));
    assert_eq!(Value::from(-1_isize), Value::Int(-1));
    assert_eq!(Value::from(200_u8), Value::Int(200));
    assert_eq!(Value::from(60000_u16), Value::Int(60000));
    assert_eq!(Value::from(number(1.5_f32 as f64)), fl(1.5));
}

#[test]
fn options_and_lists_convert() {
    let some: Option<i64> = Some(7);
    let none: Option<i64> = None;
    let v = object(vec![
        ("some", some.into()),
        ("none", none.into()),
        ("xs", vec![1_i64, 2].into()),
        ("ys", vec!["a", "b"].into()),
    ]);
    assert_eq!(v.to_json(), r#"{"some":7,"none":null,"xs":[1,2],"ys":["a","b"]}"#);
}

#[test]
fn identical_is_finer_than_equal() {
    assert_eq!(Value::Int(1), fl(1.0));
    assert!(!Value::Int(1).identical(&fl(1.0)));
    assert!(fl(f64::NAN).identical(&fl(f64::NAN)));
    let a = Value::from(vec![Value::Null, Value::from("x")]);
    assert!(a.identical(&a.clone()));
    let b = object(vec![("a", 1.into()), ("b", 2.into())]);
    let c = object(vec![("b", 2.into()), ("a", 1.into())]);
    assert!(!b.identical(&c));
}
