//! The value model.
#[allow(unused_imports)]
use edikt::error::{EditError, EvalError};
#[allow(unused_imports)]
use edikt::float::{Arith, Float, FloatFacts, FloatNeed};
#[allow(unused_imports)]
use edikt::model::{
    BinOp, CommentKind, Commented, CommentedNode, Comments, Expr, Step, Value,
};
#[allow(unused_imports)]
use std::cmp::Ordering;

#[allow(dead_code)]
fn number(x: f64) -> Float {
    Float { bits: x.to_bits(), text: x.to_string() }
}

#[allow(dead_code)]
fn fl(x: f64) -> Value {
    Value::Float(number(x))
}

/// Work out a floating-point result the library asked for.
#[allow(dead_code)]
fn supply(facts: &mut FloatFacts, need: &FloatNeed) {
    match need {
        FloatNeed::Parse(t) => {
            let x = match t.strip_prefix("0x") {
                Some(h) => u128::from_str_radix(h, 16).ok().map(|n| n as f64),
                None => t.parse::<f64>().ok(),
            };
            facts.parsed.push((t.clone(), x.map(number)));
        }
        FloatNeed::Compute(op, a, b) => {
            let (x, y) = (f64::from_bits(*a), f64::from_bits(*b));
            let r = match op {
                Arith::Add => x + y,
                Arith::Sub => x - y,
                Arith::Mul => x * y,
                Arith::Div => x / y,
                Arith::Rem => x % y,
            };
            facts.computed.push((*op, *a, *b, number(r)));
        }
    }
}

#[allow(dead_code)]
fn parse(src: &str) -> Result<Expr, edikt::parser::ParseError> {
    let mut facts = FloatFacts::new();
    loop {
        match edikt::parser::parse(src, &facts) {
            Err(e) => match &e.need {
                Some(need) => supply(&mut facts, need),
                None => return Err(e),
            },
            Ok(x) => return Ok(x),
        }
    }
}

#[allow(dead_code)]
fn eval(expr: &Expr, input: &Value) -> Result<Vec<Value>, EvalError> {
    let mut facts = FloatFacts::new();
    loop {
        match edikt::eval::eval(expr, input, &facts) {
            Err(e) => match &e.need {
                Some(need) => supply(&mut facts, need),
                None => return Err(e),
            },
            Ok(x) => return Ok(x),
        }
    }
}

fn arr(v: &[Value]) -> Value {
    Value::Array(v.to_vec())
}
fn obj(pairs: &[(&str, Value)]) -> Value {
    Value::Object(
        pairs
            .iter()
            .map(|(k, v)| (k.to_string(), v.clone()))
            .collect(),
    )
}

#[test]
fn total_order_across_types() {
    // jq's ordering: null < bool < number < string < array < object.
    let ladder = [
        Value::Null,
        Value::Bool(false),
        Value::Bool(true),
        Value::Int(-1),
        fl(2.5),
        Value::Str("a".into()),
        arr(&[Value::Int(1)]),
        obj(&[("k", Value::Int(1))]),
    ];
    for i in 0..ladder.len() {
        for j in 0..ladder.len() {
            let want: Ordering = i.cmp(&j);
            // Equal ranks (the two bools, two numbers) compare by value, so
            // only assert the strict cross-rank orderings here.
            if want != Ordering::Equal {
                assert_eq!(
                    ladder[i].order(&ladder[j]),
                    want,
                    "{:?} vs {:?}",
                    ladder[i],
                    ladder[j]
                );
            }
        }
    }
}

#[test]
fn numbers_compare_across_int_and_float() {
    assert!(Value::Int(1).value_eq(&fl(1.0)));
    assert_eq!(Value::Int(2).order(&fl(2.5)), Ordering::Less);
    assert_eq!(fl(3.0).order(&Value::Int(3)), Ordering::Equal);
    assert_eq!(Value::Int(1).as_double(), Some(1.0f64.to_bits()));
    assert_eq!(Value::Str("x".into()).as_double(), None);
}

#[test]
fn arrays_and_objects_order_structurally() {
    // Arrays compare element-wise, then by length.
    assert_eq!(
        arr(&[Value::Int(1), Value::Int(2)]).order(&arr(&[Value::Int(1), Value::Int(3)])),
        Ordering::Less
    );
    assert_eq!(
        arr(&[Value::Int(1)]).order(&arr(&[Value::Int(1), Value::Int(0)])),
        Ordering::Less
    );
    // Objects compare by sorted keys, then values at those keys.
    assert_eq!(
        obj(&[("a", Value::Int(1))]).order(&obj(&[("b", Value::Int(1))])),
        Ordering::Less
    );
    assert_eq!(
        obj(&[("a", Value::Int(1))]).order(&obj(&[("a", Value::Int(2))])),
        Ordering::Less
    );
    // Key order doesn't affect equality.
    assert!(
        obj(&[("a", Value::Int(1)), ("b", Value::Int(2))])
            .value_eq(&obj(&[("b", Value::Int(2)), ("a", Value::Int(1))]))
    );
}

#[test]
fn raw_string_and_truthiness() {
    assert_eq!(fl(1.0).to_raw_string(), "1");
    assert_eq!(fl(1.5).to_raw_string(), "1.5");
    assert_eq!(Value::Null.to_raw_string(), "null");
    assert_eq!(Value::Bool(true).to_raw_string(), "true");
    assert_eq!(arr(&[Value::Int(1)]).to_raw_string(), "[1]");
    assert_eq!(obj(&[("a", Value::Int(1))]).to_raw_string(), "{\"a\":1}");
    // Only false and null are falsy (jq).
    assert!(Value::Int(0).is_truthy());
    assert!(Value::Str("".into()).is_truthy());
    assert!(!Value::Bool(false).is_truthy());
    assert!(!Value::Null.is_truthy());
}

#[test]
fn json_encoding_escapes_and_floats() {
    assert_eq!(
        Value::Str("a\"b\\c\n\t\r".into()).to_json(),
        "\"a\\\"b\\\\c\\n\\t\\r\""
    );
    // A control char below 0x20 becomes a \u escape.
    assert_eq!(Value::Str("\u{0001}".into()).to_json(), "\"\\u0001\"");
    // Integral floats print without a decimal point; fractional keep it.
    assert_eq!(fl(42.0).to_json(), "42");
    assert_eq!(fl(2.5).to_json(), "2.5");
    assert_eq!(
        obj(&[("n", Value::Null), ("xs", arr(&[Value::Bool(true)]))]).to_json(),
        "{\"n\":null,\"xs\":[true]}"
    );
    assert_eq!(arr(&[]).to_json(), "[]");
}

#[test]
fn type_names() {
    assert_eq!(Value::Null.type_label(), "null");
    assert_eq!(Value::Bool(true).type_label(), "boolean");
    assert_eq!(Value::Int(1).type_label(), "number");
    assert_eq!(fl(1.0).type_label(), "number");
    assert_eq!(Value::Str("x".into()).type_label(), "string");
    assert_eq!(arr(&[]).type_label(), "array");
    assert_eq!(obj(&[]).type_label(), "object");
}
