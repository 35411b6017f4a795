//! The mutation driver.
#[allow(unused_imports)]
use edikt::error::{EditError, EvalError};
#[allow(unused_imports)]
use edikt::float::{Arith, Float, FloatFacts, FloatNeed};
#[allow(unused_imports)]
use edikt::model::{
    BinOp, CommentKind, Commented, CommentedNode, Comments, Expr, Step, Value,
};
#[allow(unused_imports)]
use edikt::document::Document;
#[allow(unused_imports)]
use edikt::mutate::apply_mutation;

#[allow(dead_code)]
fn number(x: f64) -> Float {
    Float { bits: x.to_bits(), text: x.to_string() }
}

#[allow(dead_code)]
fn fl(x: f64) -> Value {
    Value::Float(number(x))
}

/// Work out a floating-point result the library asked for.
#[allow(dead_code)]
fn supply(facts: &mut FloatFacts, need: &FloatNeed) {
    match need {
        FloatNeed::Parse(t) => {
            let x = match t.strip_prefix("0x") {
                Some(h) => u128::from_str_radix(h, 16).ok().map(|n| n as f64),
                None => t.parse::<f64>().ok(),
            };
            facts.parsed.push((t.clone(), x.map(number)));
        }
        FloatNeed::Compute(op, a, b) => {
            let (x, y) = (f64::from_bits(*a), f64::from_bits(*b));
            let r = match op {
                Arith::Add => x + y,
                Arith::Sub => x - y,
                Arith::Mul => x * y,
                Arith::Div => x / y,
                Arith::Rem => x % y,
            };
            facts.computed.push((*op, *a, *b, number(r)));
        }
    }
}

#[allow(dead_code)]
fn parse(src: &str) -> Result<Expr, edikt::parser::ParseError> {
    let mut facts = FloatFacts::new();
    loop {
        match edikt::parser::parse(src, &facts) {
            Err(e) => match &e.need {
                Some(need) => supply(&mut facts, need),
                None => return Err(e),
            },
            Ok(x) => return Ok(x),
        }
    }
}

#[allow(dead_code)]
fn eval(expr: &Expr, input: &Value) -> Result<Vec<Value>, EvalError> {
    let mut facts = FloatFacts::new();
    loop {
        match edikt::eval::eval(expr, input, &facts) {
            Err(e) => match &e.need {
                Some(need) => supply(&mut facts, need),
                None => return Err(e),
            },
            Ok(x) => return Ok(x),
        }
    }
}

fn json(text: &str) -> Value {
    edikt::jsonc::parse(text, &FloatFacts::new()).unwrap().to_value()
}

/// The value after a mutation of a document that holds `doc`.
fn run(doc: Value, expr: &str) -> Result<Value, EditError> {
    let mut m = edikt::jsonc::parse(&doc.to_json(), &FloatFacts::new()).unwrap();
    apply_mutation(&mut m, &parse(expr).unwrap(), &FloatFacts::new())?;
    Ok(m.to_value())
}

#[test]
fn dispatches_every_mutation_form() {
    let doc = || json(r#"{"a": 1, "xs": [1, 2], "s": "x"}"#);
    let with = |a: Value, xs: Value, s: Value| Value::Object(vec![("a".into(), a), ("xs".into(), xs), ("s".into(), s)]);
    let ok = |e: &str| run(doc(), e).unwrap();
    assert_eq!(ok(".a = .xs[1]"), with(json("2"), json("[1, 2]"), json("\"x\"")));
    assert_eq!(ok(".a |= . + 5"), with(json("6"), json("[1, 2]"), json("\"x\"")));
    assert_eq!(ok(".s += \"y\""), with(json("1"), json("[1, 2]"), json("\"xy\"")));
    assert_eq!(
        ok(".xs[] |= . * 10"),
        with(json("1"), json("[10, 20]"), json("\"x\""))
    );
    assert_eq!(ok(".xs[] += 1"), with(json("1"), json("[2, 3]"), json("\"x\"")));
    assert_eq!(ok(".xs[] = 0"), with(json("1"), json("[0, 0]"), json("\"x\"")));
    assert_eq!(
        ok(".a = 5 | .s = \"z\""),
        with(json("5"), json("[1, 2]"), json("\"z\""))
    );
    assert_eq!(ok("del(.a)"), json(r#"{"xs": [1, 2], "s": "x"}"#));
    assert_eq!(
        ok("(.xs[] | select(. == 2)) = 9"),
        with(json("1"), json("[1, 9]"), json("\"x\""))
    );
}

#[test]
fn misses_and_non_mutations_error() {
    let doc = json(r#"{"xs": []}"#);
    let err = |e: &str| run(doc.clone(), e).unwrap_err().to_string();
    assert_eq!(err(".nope |= 1"), "path not found");
    assert_eq!(err(".nope += 1"), "path not found");
    assert_eq!(err(".xs[] = 1"), "cannot create through `[]`");
    assert_eq!(
        err(".a"),
        "expected an assignment (`path = value`) or `del(path)`"
    );
    assert_eq!(err("del(.a; .b)"), "del(...) takes one path argument");
    assert_eq!(
        err(".a = .xs[]"),
        "right side of the assignment produced no value"
    );
    // An update over an empty expansion is a no-op, jq-shaped.
    assert_eq!(run(doc.clone(), ".xs[] |= 1").unwrap(), doc);
}
