//! Assignment through `select` in JSONC.
#[allow(unused_imports)]
use edikt::error::{EditError, EvalError};
#[allow(unused_imports)]
use edikt::float::{Arith, Float, FloatFacts, FloatNeed};
#[allow(unused_imports)]
use edikt::model::{
    BinOp, CommentKind, Commented, CommentedNode, Comments, Expr, Step, Value,
};
#[allow(unused_imports)]
use edikt::document::Document;

#[allow(dead_code)]
fn number(x: f64) -> Float {
    Float { bits: x.to_bits(), text: x.to_string() }
}

#[allow(dead_code)]
fn fl(x: f64) -> Value {
    Value::Float(number(x))
}

/// Work out a floating-point result the library asked for.
#[allow(dead_code)]
fn supply(facts: &mut FloatFacts, need: &FloatNeed) {
    match need {
        FloatNeed::Parse(t) => {
            let x = match t.strip_prefix("0x") {
                Some(h) => u128::from_str_radix(h, 16).ok().map(|n| n as f64),
                None => t.parse::<f64>().ok(),
            };
            facts.parsed.push((t.clone(), x.map(number)));
        }
        FloatNeed::Compute(op, a, b) => {
            let (x, y) = (f64::from_bits(*a), f64::from_bits(*b));
            let r = match op {
                Arith::Add => x + y,
                Arith::Sub => x - y,
                Arith::Mul => x * y,
                Arith::Div => x / y,
                Arith::Rem => x % y,
            };
            facts.computed.push((*op, *a, *b, number(r)));
        }
    }
}

#[allow(dead_code)]
fn parse_expr(src: &str) -> Result<Expr, edikt::parser::ParseError> {
    let mut facts = FloatFacts::new();
    loop {
        match edikt::parser::parse(src, &facts) {
            Err(e) => match &e.need {
                Some(need) => supply(&mut facts, need),
                None => return Err(e),
            },
            Ok(x) => return Ok(x),
        }
    }
}

#[allow(dead_code)]
fn eval(expr: &Expr, input: &Value) -> Result<Vec<Value>, EvalError> {
    let mut facts = FloatFacts::new();
    loop {
        match edikt::eval::eval(expr, input, &facts) {
            Err(e) => match &e.need {
                Some(need) => supply(&mut facts, need),
                None => return Err(e),
            },
            Ok(x) => return Ok(x),
        }
    }
}

fn edit_doc(src: &str, expr: &str) -> (Result<(), EditError>, String) {
    let mut facts = FloatFacts::new();
    let e = parse_expr(expr).unwrap();
    loop {
        let mut doc = match edikt::jsonc::parse(src, &facts) {
            Err(e) => match &e.need {
                Some(need) => {
                    supply(&mut facts, need);
                    continue;
                }
                None => panic!("parse {src:?}: {e:?}"),
            },
            Ok(d) => d,
        };
        match edikt::jsonc::apply(&mut doc, &e, &facts) {
            Err(e) => match &e.need {
                Some(need) => supply(&mut facts, need),
                None => return (Err(e), doc.to_source()),
            },
            Ok(()) => return (Ok(()), doc.to_source()),
        }
    }
}

fn edit(src: &str, expr: &str) -> String {
    let (r, out) = edit_doc(src, expr);
    r.unwrap();
    out
}

#[allow(dead_code)]
fn read(src: &str, path: &str) -> Vec<Value> {
    let facts = FloatFacts::new();
    let _ = &facts;
    eval(&parse_expr(path).unwrap(), &edikt::jsonc::parse(src, &facts).unwrap().to_value()).unwrap()
}

const REGISTRY: &str = r#"{
  // Registered plugins.
  "plugins": [
    { "id": "fmt", "enabled": true, "version": "1.2.0" }, // formatter
    {
      // the linter is pinned
      "id": "lint",
      "enabled": false,
      "version": "0.9.1",
    },
    {
      "id": "test",
      "version": "2.0.0" /* bumped */,
      "enabled": true,
    },
  ],
}
"#;

/// The `(before, after)` pairs of lines that differ, for a same-length edit.
fn changed(before: &str, after: &str) -> Vec<(String, String)> {
    let (b, a): (Vec<_>, Vec<_>) = (before.lines().collect(), after.lines().collect());
    assert_eq!(b.len(), a.len(), "line count changed:\n{after}");
    b.iter()
        .zip(&a)
        .filter(|(x, y)| x != y)
        .map(|(x, y)| (x.to_string(), y.to_string()))
        .collect()
}

fn pairs(p: &[(&str, &str)]) -> Vec<(String, String)> {
    p.iter()
        .map(|(a, b)| (a.to_string(), b.to_string()))
        .collect()
}

#[test]
fn one_match_in_a_compact_and_an_expanded_element() {
    let out = edit(
        REGISTRY,
        r#"(.plugins[] | select(.id == "lint") | .enabled) = true"#,
    );
    assert_eq!(
        changed(REGISTRY, &out),
        pairs(&[(r#"      "enabled": false,"#, r#"      "enabled": true,"#)])
    );
    let out = edit(
        REGISTRY,
        r#"(.plugins[] | select(.id == "fmt") | .version) = "1.3.0""#,
    );
    assert_eq!(
        changed(REGISTRY, &out),
        pairs(&[(
            r#"    { "id": "fmt", "enabled": true, "version": "1.2.0" }, // formatter"#,
            r#"    { "id": "fmt", "enabled": true, "version": "1.3.0" }, // formatter"#
        )])
    );
}

#[test]
fn multiple_matches_and_a_nested_predicate() {
    let out = edit(
        REGISTRY,
        r#"(.plugins[] | select(.enabled) | .version) |= "v" + ."#,
    );
    assert_eq!(
        changed(REGISTRY, &out),
        pairs(&[
            (
                r#"    { "id": "fmt", "enabled": true, "version": "1.2.0" }, // formatter"#,
                r#"    { "id": "fmt", "enabled": true, "version": "v1.2.0" }, // formatter"#
            ),
            (
                r#"      "version": "2.0.0" /* bumped */,"#,
                r#"      "version": "v2.0.0" /* bumped */,"#
            ),
        ])
    );
    // A select whose predicate is itself a pipe, then a second select.
    let out = edit(
        REGISTRY,
        r#"(.plugins[] | select(.id | startswith("t")) | select(.enabled) | .enabled) = false"#,
    );
    assert_eq!(
        changed(REGISTRY, &out),
        pairs(&[(r#"      "enabled": true,"#, r#"      "enabled": false,"#)])
    );
}

#[test]
fn zero_matches_is_a_byte_identical_no_op() {
    for expr in [
        r#"(.plugins[] | select(.id == "nope") | .enabled) = true"#,
        r#"(.plugins[] | select(.id == "nope") | .version) += "x""#,
        r#"del(.plugins[] | select(.id == "nope"))"#,
    ] {
        assert_eq!(edit(REGISTRY, expr), REGISTRY, "{expr}");
    }
}

#[test]
fn del_through_select_matches_the_hand_typed_indices() {
    let out = edit(REGISTRY, r#"del(.plugins[] | select(.enabled))"#);
    assert_eq!(out, edit(REGISTRY, "del(.plugins[2]) | del(.plugins[0])"));
    assert!(out.contains("the linter is pinned"), "{out}");
    assert!(
        !out.contains("\"fmt\"") && !out.contains("\"test\""),
        "{out}"
    );
}
