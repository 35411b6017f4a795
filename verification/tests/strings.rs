//! String builtins.
#[allow(unused_imports)]
use edikt::error::{EditError, EvalError};
#[allow(unused_imports)]
use edikt::float::{Arith, Float, FloatFacts, FloatNeed};
#[allow(unused_imports)]
use edikt::model::{
    BinOp, CommentKind, Commented, CommentedNode, Comments, Expr, Step, Value,
};
#[allow(unused_imports)]
use edikt::strings::{build, capture, find, join, split, substitute};

#[allow(dead_code)]
fn number(x: f64) -> Float {
    Float { bits: x.to_bits(), text: x.to_string() }
}

#[allow(dead_code)]
fn fl(x: f64) -> Value {
    Value::Float(number(x))
}

/// Work out a floating-point result the library asked for.
#[allow(dead_code)]
fn supply(facts: &mut FloatFacts, need: &FloatNeed) {
    match need {
        FloatNeed::Parse(t) => {
            let x = match t.strip_prefix("0x") {
                Some(h) => u128::from_str_radix(h, 16).ok().map(|n| n as f64),
                None => t.parse::<f64>().ok(),
            };
            facts.parsed.push((t.clone(), x.map(number)));
        }
        FloatNeed::Compute(op, a, b) => {
            let (x, y) = (f64::from_bits(*a), f64::from_bits(*b));
            let r = match op {
                Arith::Add => x + y,
                Arith::Sub => x - y,
                Arith::Mul => x * y,
                Arith::Div => x / y,
                Arith::Rem => x % y,
            };
            facts.computed.push((*op, *a, *b, number(r)));
        }
    }
}

#[allow(dead_code)]
fn parse(src: &str) -> Result<Expr, edikt::parser::ParseError> {
    let mut facts = FloatFacts::new();
    loop {
        match edikt::parser::parse(src, &facts) {
            Err(e) => match &e.need {
                Some(need) => supply(&mut facts, need),
                None => return Err(e),
            },
            Ok(x) => return Ok(x),
        }
    }
}

#[allow(dead_code)]
fn eval(expr: &Expr, input: &Value) -> Result<Vec<Value>, EvalError> {
    let mut facts = FloatFacts::new();
    loop {
        match edikt::eval::eval(expr, input, &facts) {
            Err(e) => match &e.need {
                Some(need) => supply(&mut facts, need),
                None => return Err(e),
            },
            Ok(x) => return Ok(x),
        }
    }
}

#[test]
fn test_and_flags() {
    assert_eq!(edikt::strings::test("Hello", "^h", "i").unwrap(), Value::Bool(true));
    assert_eq!(edikt::strings::test("Hello", "^h", "").unwrap(), Value::Bool(false));
    assert!(build("(", "").is_err());
    assert!(build("a", "q").is_err());
}

#[test]
fn match_objects_use_char_offsets() {
    let m = find("héllo world", "w(o)rld", "").unwrap();
    assert_eq!(m.len(), 1);
    let Value::Object(o) = &m[0] else { panic!() };
    assert_eq!(o[0], ("offset".into(), Value::Int(6))); // chars, not bytes
    assert_eq!(o[1], ("length".into(), Value::Int(5)));
    assert_eq!(o[2], ("string".into(), Value::Str("world".into())));
    let Value::Array(caps) = &o[3].1 else {
        panic!()
    };
    let Value::Object(c) = &caps[0] else { panic!() };
    assert_eq!(c[2], ("string".into(), Value::Str("o".into())));
}

#[test]
fn global_match_streams() {
    assert_eq!(find("a1b2", r"\d", "").unwrap().len(), 1);
    assert_eq!(find("a1b2", r"\d", "g").unwrap().len(), 2);
    assert!(find("abc", r"\d", "g").unwrap().is_empty());
}

#[test]
fn capture_named_groups() {
    let c = capture("v1.2", r"v(?<major>\d+)\.(?<minor>\d+)", "").unwrap();
    assert_eq!(
        c,
        vec![Value::Object(vec![
            ("major".into(), Value::Str("1".into())),
            ("minor".into(), Value::Str("2".into())),
        ])]
    );
}

#[test]
fn sub_first_and_global_with_refs() {
    assert_eq!(
        substitute("v1.2.3", r"^v", "", "").unwrap(),
        Value::Str("1.2.3".into())
    );
    assert_eq!(
        substitute("a-b-c", "-", "_", "g").unwrap(),
        Value::Str("a_b_c".into())
    );
    assert_eq!(
        substitute("port=80", r"(?<k>\w+)=(?<v>\w+)", "$v:$k", "").unwrap(),
        Value::Str("80:port".into())
    );
}

#[test]
fn split_literal_and_regex() {
    assert_eq!(
        split("a:b:c", ":", None).unwrap(),
        Value::Array(vec![
            Value::Str("a".into()),
            Value::Str("b".into()),
            Value::Str("c".into()),
        ])
    );
    assert_eq!(
        split("a1b22c", r"\d+", Some("")).unwrap(),
        Value::Array(vec![
            Value::Str("a".into()),
            Value::Str("b".into()),
            Value::Str("c".into()),
        ])
    );
}

#[test]
fn join_scalars() {
    let items = vec![
        Value::Str("a".into()),
        Value::Int(1),
        Value::Null,
        Value::Bool(true),
    ];
    assert_eq!(join(&items, "-").unwrap(), Value::Str("a-1--true".into()));
    assert!(join(&vec![Value::Array(vec![])], "-").is_err());
}
