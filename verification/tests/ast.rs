//! Expressions and paths.
#[allow(unused_imports)]
use edikt::error::{EditError, EvalError};
#[allow(unused_imports)]
use edikt::float::{Arith, Float, FloatFacts, FloatNeed};
#[allow(unused_imports)]
use edikt::model::{
    BinOp, CommentKind, Commented, CommentedNode, Comments, Expr, Step, Value,
};
#[allow(unused_imports)]
use edikt::ast::render_path;

#[allow(dead_code)]
fn number(x: f64) -> Float {
    Float { bits: x.to_bits(), text: x.to_string() }
}

#[allow(dead_code)]
fn fl(x: f64) -> Value {
    Value::Float(number(x))
}

/// Work out a floating-point result the library asked for.
#[allow(dead_code)]
fn supply(facts: &mut FloatFacts, need: &FloatNeed) {
    match need {
        FloatNeed::Parse(t) => {
            let x = match t.strip_prefix("0x") {
                Some(h) => u128::from_str_radix(h, 16).ok().map(|n| n as f64),
                None => t.parse::<f64>().ok(),
            };
            facts.parsed.push((t.clone(), x.map(number)));
        }
        FloatNeed::Compute(op, a, b) => {
            let (x, y) = (f64::from_bits(*a), f64::from_bits(*b));
            let r = match op {
                Arith::Add => x + y,
                Arith::Sub => x - y,
                Arith::Mul => x * y,
                Arith::Div => x / y,
                Arith::Rem => x % y,
            };
            facts.computed.push((*op, *a, *b, number(r)));
        }
    }
}

#[allow(dead_code)]
fn parse(src: &str) -> Result<Expr, edikt::parser::ParseError> {
    let mut facts = FloatFacts::new();
    loop {
        match edikt::parser::parse(src, &facts) {
            Err(e) => match &e.need {
                Some(need) => supply(&mut facts, need),
                None => return Err(e),
            },
            Ok(x) => return Ok(x),
        }
    }
}

#[allow(dead_code)]
fn eval(expr: &Expr, input: &Value) -> Result<Vec<Value>, EvalError> {
    let mut facts = FloatFacts::new();
    loop {
        match edikt::eval::eval(expr, input, &facts) {
            Err(e) => match &e.need {
                Some(need) => supply(&mut facts, need),
                None => return Err(e),
            },
            Ok(x) => return Ok(x),
        }
    }
}

#[test]
fn renders_paths() {
    assert_eq!(render_path(&[]), ".");
    assert_eq!(
        render_path(&[Step::Field("a".into()), Step::Field("b".into())]),
        ".a.b"
    );
    assert_eq!(
        render_path(&[Step::Field("arr".into()), Step::Index(0)]),
        ".arr[0]"
    );
    assert_eq!(
        render_path(&[Step::Field("xs".into()), Step::Iterate]),
        ".xs[]"
    );
    // A dotted key can't be a bare identifier - bracket-quote it.
    assert_eq!(render_path(&[Step::Field("a.b".into())]), ".[\"a.b\"]");
    // The comment step renders back to its accessor form.
    assert_eq!(
        render_path(&[Step::Field("a".into()), Step::Comment(CommentKind::Head)]),
        ".a.#"
    );
    assert_eq!(
        render_path(&[Step::Comment(CommentKind::Inline)]),
        ".#.inline"
    );
}

fn p(src: &str) -> Expr {
    parse(src).unwrap()
}

#[test]
fn is_mutation_covers_every_arm() {
    assert!(p(".a = 1").is_mutation());
    assert!(p(".a |= . + 1").is_mutation());
    assert!(p(".a += 1").is_mutation());
    assert!(p("del(.a)").is_mutation());
    // Mutation nested inside each recursive form.
    assert!(p(".a = 1 | .b").is_mutation()); // Pipe
    assert!(p(".a = 1, .b").is_mutation()); // Comma
    assert!(p("[.a = 1]").is_mutation()); // Collect
    assert!(p("{k: (.a = 1)}").is_mutation()); // ObjectConstruct
    assert!(p("select(.a = 1)").is_mutation()); // Call args
    // Pure queries are not mutations.
    assert!(!p(".a.b[0]").is_mutation());
    assert!(!p("1 + 2").is_mutation());
    assert!(!p("keys").is_mutation());
    assert!(!p("-.a").is_mutation());
}

#[test]
fn has_comment_covers_every_arm() {
    assert!(p(".a.#").has_comment());
    assert!(p("comments").has_comment());
    assert!(p(".a.# | ascii_upcase").has_comment()); // Pipe
    assert!(p(".a.# // \"x\"").has_comment()); // Alternative
    assert!(p(".a.#, .b").has_comment()); // Comma
    assert!(p("[.a.#]").has_comment()); // Collect
    assert!(p("select(.a.#)").has_comment()); // Call args
    assert!(p(".a.# == \"x\"").has_comment()); // Binary
    assert!(!p("-.a").has_comment()); // Neg, no comment
    assert!(!p(".a.b").has_comment());
}

#[test]
fn as_path_only_for_plain_paths() {
    assert!(p(".a.b").as_path().is_some());
    assert!(p("1 + 2").as_path().is_none());
    assert!(p("keys").as_path().is_none());
}
