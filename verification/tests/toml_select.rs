//! Assignment through `select` in TOML.
#[allow(unused_imports)]
use edikt::error::{EditError, EvalError};
#[allow(unused_imports)]
use edikt::float::{Arith, Float, FloatFacts, FloatNeed};
#[allow(unused_imports)]
use edikt::model::{
    BinOp, CommentKind, Commented, CommentedNode, Comments, Expr, Step, Value,
};
#[allow(unused_imports)]
use edikt::document::Document;

#[allow(dead_code)]
fn number(x: f64) -> Float {
    Float { bits: x.to_bits(), text: x.to_string() }
}

#[allow(dead_code)]
fn fl(x: f64) -> Value {
    Value::Float(number(x))
}

/// Work out a floating-point result the library asked for.
#[allow(dead_code)]
fn supply(facts: &mut FloatFacts, need: &FloatNeed) {
    match need {
        FloatNeed::Parse(t) => {
            let x = match t.strip_prefix("0x") {
                Some(h) => u128::from_str_radix(h, 16).ok().map(|n| n as f64),
                None => t.parse::<f64>().ok(),
            };
            facts.parsed.push((t.clone(), x.map(number)));
        }
        FloatNeed::Compute(op, a, b) => {
            let (x, y) = (f64::from_bits(*a), f64::from_bits(*b));
            let r = match op {
                Arith::Add => x + y,
                Arith::Sub => x - y,
                Arith::Mul => x * y,
                Arith::Div => x / y,
                Arith::Rem => x % y,
            };
            facts.computed.push((*op, *a, *b, number(r)));
        }
    }
}

#[allow(dead_code)]
fn parse_expr(src: &str) -> Result<Expr, edikt::parser::ParseError> {
    let mut facts = FloatFacts::new();
    loop {
        match edikt::parser::parse(src, &facts) {
            Err(e) => match &e.need {
                Some(need) => supply(&mut facts, need),
                None => return Err(e),
            },
            Ok(x) => return Ok(x),
        }
    }
}

#[allow(dead_code)]
fn eval(expr: &Expr, input: &Value) -> Result<Vec<Value>, EvalError> {
    let mut facts = FloatFacts::new();
    loop {
        match edikt::eval::eval(expr, input, &facts) {
            Err(e) => match &e.need {
                Some(need) => supply(&mut facts, need),
                None => return Err(e),
            },
            Ok(x) => return Ok(x),
        }
    }
}

fn edit_doc(src: &str, expr: &str) -> (Result<(), EditError>, String) {
    let mut facts = FloatFacts::new();
    let e = parse_expr(expr).unwrap();
    loop {
        let mut doc = edikt::toml::parse(src).unwrap();
        match edikt::toml::apply(&mut doc, &e, &facts) {
            Err(e) => match &e.need {
                Some(need) => supply(&mut facts, need),
                None => return (Err(e), doc.to_source()),
            },
            Ok(()) => return (Ok(()), doc.to_source()),
        }
    }
}

fn edit(src: &str, expr: &str) -> String {
    let (r, out) = edit_doc(src, expr);
    r.unwrap();
    out
}

#[allow(dead_code)]
fn read(src: &str, path: &str) -> Vec<Value> {
    let facts = FloatFacts::new();
    let _ = &facts;
    eval(&parse_expr(path).unwrap(), &edikt::toml::parse(src).unwrap().to_value()).unwrap()
}

const BINS: &str = r#"# Two programs.
[[bin]]
name = "server"   # the daemon
path = "src/server.rs"

[[bin]]
name = "cli"
path = "src/cli.rs"
features = ["a", "b", "c"]
"#;

/// The `(before, after)` pairs of lines that differ, for a same-length edit.
fn changed(before: &str, after: &str) -> Vec<(String, String)> {
    let (b, a): (Vec<_>, Vec<_>) = (before.lines().collect(), after.lines().collect());
    assert_eq!(b.len(), a.len(), "line count changed:\n{after}");
    b.iter()
        .zip(&a)
        .filter(|(x, y)| x != y)
        .map(|(x, y)| (x.to_string(), y.to_string()))
        .collect()
}

fn pairs(p: &[(&str, &str)]) -> Vec<(String, String)> {
    p.iter()
        .map(|(a, b)| (a.to_string(), b.to_string()))
        .collect()
}

#[test]
fn assign_update_and_add_through_select() {
    let out = edit(
        BINS,
        r#"(.bin[] | select(.name == "cli") | .path) = "src/main.rs""#,
    );
    assert_eq!(
        changed(BINS, &out),
        pairs(&[(r#"path = "src/cli.rs""#, r#"path = "src/main.rs""#)])
    );

    // `|=` keeps the trailing comment on the matched line.
    let out = edit(
        BINS,
        r#"(.bin[] | select(.name == "server") | .name) |= . + "d""#,
    );
    assert_eq!(
        changed(BINS, &out),
        pairs(&[(
            r#"name = "server"   # the daemon"#,
            r#"name = "serverd"   # the daemon"#
        )])
    );

    // Multiple matches, and a nested select into an inline array.
    let out = edit(
        BINS,
        r#"(.bin[] | select(.path | startswith("src/")) | .path) |= ltrimstr("src/")"#,
    );
    assert_eq!(
        changed(BINS, &out),
        pairs(&[
            (r#"path = "src/server.rs""#, r#"path = "server.rs""#),
            (r#"path = "src/cli.rs""#, r#"path = "cli.rs""#),
        ])
    );
    let out = edit(
        BINS,
        r#"(.bin[] | select(has("features")) | .features[] | select(. == "b")) = "B""#,
    );
    assert_eq!(
        changed(BINS, &out),
        pairs(&[(
            r#"features = ["a", "b", "c"]"#,
            r#"features = ["a", "B", "c"]"#
        )])
    );
}

#[test]
fn select_assign_zero_matches_is_a_byte_identical_no_op() {
    for expr in [
        r#"(.bin[] | select(.name == "nope") | .path) = "x""#,
        r#"del(.bin[] | select(.name == "nope"))"#,
    ] {
        assert_eq!(edit(BINS, expr), BINS, "{expr}");
    }
}

#[test]
fn del_through_select_matches_the_hand_typed_index() {
    let out = edit(BINS, r#"del(.bin[] | select(.name == "server"))"#);
    assert_eq!(out, edit(BINS, "del(.bin[0])"));
    assert!(!out.contains("server"), "{out}");
    assert!(out.contains("name = \"cli\""), "{out}");
}
