//! Comment wrapping.
#[allow(unused_imports)]
use edikt::error::{EditError, EvalError};
#[allow(unused_imports)]
use edikt::float::{Arith, Float, FloatFacts, FloatNeed};
#[allow(unused_imports)]
use edikt::model::{
    BinOp, CommentKind, Commented, CommentedNode, Comments, Expr, Step, Value,
};
#[allow(unused_imports)]
use edikt::wrap::{wrap_comment, wrap_width};

#[allow(dead_code)]
fn number(x: f64) -> Float {
    Float { bits: x.to_bits(), text: x.to_string() }
}

#[allow(dead_code)]
fn fl(x: f64) -> Value {
    Value::Float(number(x))
}

/// Work out a floating-point result the library asked for.
#[allow(dead_code)]
fn supply(facts: &mut FloatFacts, need: &FloatNeed) {
    match need {
        FloatNeed::Parse(t) => {
            let x = match t.strip_prefix("0x") {
                Some(h) => u128::from_str_radix(h, 16).ok().map(|n| n as f64),
                None => t.parse::<f64>().ok(),
            };
            facts.parsed.push((t.clone(), x.map(number)));
        }
        FloatNeed::Compute(op, a, b) => {
            let (x, y) = (f64::from_bits(*a), f64::from_bits(*b));
            let r = match op {
                Arith::Add => x + y,
                Arith::Sub => x - y,
                Arith::Mul => x * y,
                Arith::Div => x / y,
                Arith::Rem => x % y,
            };
            facts.computed.push((*op, *a, *b, number(r)));
        }
    }
}

#[allow(dead_code)]
fn parse(src: &str) -> Result<Expr, edikt::parser::ParseError> {
    let mut facts = FloatFacts::new();
    loop {
        match edikt::parser::parse(src, &facts) {
            Err(e) => match &e.need {
                Some(need) => supply(&mut facts, need),
                None => return Err(e),
            },
            Ok(x) => return Ok(x),
        }
    }
}

#[allow(dead_code)]
fn eval(expr: &Expr, input: &Value) -> Result<Vec<Value>, EvalError> {
    let mut facts = FloatFacts::new();
    loop {
        match edikt::eval::eval(expr, input, &facts) {
            Err(e) => match &e.need {
                Some(need) => supply(&mut facts, need),
                None => return Err(e),
            },
            Ok(x) => return Ok(x),
        }
    }
}

#[test]
fn width_clamps_to_the_band() {
    assert_eq!(wrap_width("PORT=8080\n"), 80); // narrow -> floor
    assert_eq!(wrap_width(&format!("{}\n", "x".repeat(90))), 90); // tracks
    assert_eq!(wrap_width(&format!("{}\n", "x".repeat(200))), 100); // ceiling
    assert_eq!(wrap_width(""), 80); // empty -> floor
}

#[test]
fn wraps_greedily_to_the_budget() {
    // width 20, indent 0, delim "# " (2) -> budget 18.
    let out = wrap_comment("the quick brown fox jumps", 20, 0, 2);
    assert_eq!(out, vec!["the quick brown", "fox jumps"]);
}

#[test]
fn long_word_overflows_not_breaks() {
    let out = wrap_comment("see https://example.com/a/very/long/path now", 30, 0, 2);
    // The URL is longer than the 28-col budget but stays on its own line.
    assert_eq!(
        out,
        vec!["see", "https://example.com/a/very/long/path", "now"]
    );
}

#[test]
fn empty_text_is_one_empty_line() {
    assert_eq!(wrap_comment("", 80, 0, 2), vec![String::new()]);
}
