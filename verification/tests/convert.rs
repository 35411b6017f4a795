//! Conversion helpers.
#[allow(unused_imports)]
use edikt::error::{EditError, EvalError};
#[allow(unused_imports)]
use edikt::float::{Arith, Float, FloatFacts, FloatNeed};
#[allow(unused_imports)]
use edikt::model::{
    BinOp, CommentKind, Commented, CommentedNode, Comments, Expr, Step, Value,
};
#[allow(unused_imports)]
use edikt::convert::{flatten, has_array, has_nesting, to_pretty_json};

#[allow(dead_code)]
fn number(x: f64) -> Float {
    Float { bits: x.to_bits(), text: x.to_string() }
}

#[allow(dead_code)]
fn fl(x: f64) -> Value {
    Value::Float(number(x))
}

/// Work out a floating-point result the library asked for.
#[allow(dead_code)]
fn supply(facts: &mut FloatFacts, need: &FloatNeed) {
    match need {
        FloatNeed::Parse(t) => {
            let x = match t.strip_prefix("0x") {
                Some(h) => u128::from_str_radix(h, 16).ok().map(|n| n as f64),
                None => t.parse::<f64>().ok(),
            };
            facts.parsed.push((t.clone(), x.map(number)));
        }
        FloatNeed::Compute(op, a, b) => {
            let (x, y) = (f64::from_bits(*a), f64::from_bits(*b));
            let r = match op {
                Arith::Add => x + y,
                Arith::Sub => x - y,
                Arith::Mul => x * y,
                Arith::Div => x / y,
                Arith::Rem => x % y,
            };
            facts.computed.push((*op, *a, *b, number(r)));
        }
    }
}

#[allow(dead_code)]
fn parse(src: &str) -> Result<Expr, edikt::parser::ParseError> {
    let mut facts = FloatFacts::new();
    loop {
        match edikt::parser::parse(src, &facts) {
            Err(e) => match &e.need {
                Some(need) => supply(&mut facts, need),
                None => return Err(e),
            },
            Ok(x) => return Ok(x),
        }
    }
}

#[allow(dead_code)]
fn eval(expr: &Expr, input: &Value) -> Result<Vec<Value>, EvalError> {
    let mut facts = FloatFacts::new();
    loop {
        match edikt::eval::eval(expr, input, &facts) {
            Err(e) => match &e.need {
                Some(need) => supply(&mut facts, need),
                None => return Err(e),
            },
            Ok(x) => return Ok(x),
        }
    }
}

#[test]
fn flatten_to_dotted_keys() {
    let v = Value::Object(vec![
        ("a".into(), Value::Object(vec![("b".into(), Value::Int(1))])),
        (
            "c".into(),
            Value::Array(vec![Value::Str("x".into()), Value::Str("y".into())]),
        ),
    ]);
    assert_eq!(
        flatten(&v),
        vec![
            ("a.b".to_string(), "1".to_string()),
            ("c.0".to_string(), "x".to_string()),
            ("c.1".to_string(), "y".to_string()),
        ]
    );
}

#[test]
fn pretty_json_indents() {
    let v = Value::Object(vec![(
        "a".into(),
        Value::Array(vec![Value::Int(1), Value::Int(2)]),
    )]);
    assert_eq!(to_pretty_json(&v), "{\n  \"a\": [\n    1,\n    2\n  ]\n}\n");
    assert_eq!(to_pretty_json(&Value::Object(vec![])), "{}\n");
}

#[test]
fn feature_detection() {
    let nested = Value::Object(vec![("a".into(), Value::Object(vec![]))]);
    assert!(has_nesting(&nested));
    assert!(!has_nesting(&Value::Object(vec![(
        "a".into(),
        Value::Int(1)
    )])));
    assert!(has_array(&Value::Object(vec![(
        "a".into(),
        Value::Array(vec![])
    )])));
}
