//! Line endings and the byte-order mark.
#[allow(unused_imports)]
use edikt::error::{EditError, EvalError};
#[allow(unused_imports)]
use edikt::float::{Arith, Float, FloatFacts, FloatNeed};
#[allow(unused_imports)]
use edikt::model::{
    BinOp, CommentKind, Commented, CommentedNode, Comments, Expr, Step, Value,
};
#[allow(unused_imports)]
use edikt::text::{dominant, eol_inserted, restore_endings, split_bom, to_eol, with_bom};

#[allow(dead_code)]
fn number(x: f64) -> Float {
    Float { bits: x.to_bits(), text: x.to_string() }
}

#[allow(dead_code)]
fn fl(x: f64) -> Value {
    Value::Float(number(x))
}

/// Work out a floating-point result the library asked for.
#[allow(dead_code)]
fn supply(facts: &mut FloatFacts, need: &FloatNeed) {
    match need {
        FloatNeed::Parse(t) => {
            let x = match t.strip_prefix("0x") {
                Some(h) => u128::from_str_radix(h, 16).ok().map(|n| n as f64),
                None => t.parse::<f64>().ok(),
            };
            facts.parsed.push((t.clone(), x.map(number)));
        }
        FloatNeed::Compute(op, a, b) => {
            let (x, y) = (f64::from_bits(*a), f64::from_bits(*b));
            let r = match op {
                Arith::Add => x + y,
                Arith::Sub => x - y,
                Arith::Mul => x * y,
                Arith::Div => x / y,
                Arith::Rem => x % y,
            };
            facts.computed.push((*op, *a, *b, number(r)));
        }
    }
}

#[allow(dead_code)]
fn parse(src: &str) -> Result<Expr, edikt::parser::ParseError> {
    let mut facts = FloatFacts::new();
    loop {
        match edikt::parser::parse(src, &facts) {
            Err(e) => match &e.need {
                Some(need) => supply(&mut facts, need),
                None => return Err(e),
            },
            Ok(x) => return Ok(x),
        }
    }
}

#[allow(dead_code)]
fn eval(expr: &Expr, input: &Value) -> Result<Vec<Value>, EvalError> {
    let mut facts = FloatFacts::new();
    loop {
        match edikt::eval::eval(expr, input, &facts) {
            Err(e) => match &e.need {
                Some(need) => supply(&mut facts, need),
                None => return Err(e),
            },
            Ok(x) => return Ok(x),
        }
    }
}

#[test]
fn dominant_counts_lines() {
    assert_eq!(dominant("a\r\nb\r\nc\n"), "\r\n");
    assert_eq!(dominant("a\r\nb\nc\n"), "\n");
    assert_eq!(dominant("a\r\nb\n"), "\n", "a tie is LF");
    assert_eq!(dominant("no breaks"), "\n");
}

#[test]
fn to_eol_is_idempotent() {
    assert_eq!(to_eol("a\nb\n", "\r\n"), "a\r\nb\r\n");
    assert_eq!(to_eol("a\r\nb\n", "\r\n"), "a\r\nb\r\n");
    assert_eq!(to_eol("a\nb\n", "\n"), "a\nb\n");
}

#[test]
fn eol_inserted_touches_only_new_text() {
    // Appending before the closing bracket of a CRLF array.
    assert_eq!(
        eol_inserted("[\r\n  1\r\n]", "[\r\n  1,\n  2\r\n]", "\r\n"),
        "[\r\n  1,\r\n  2\r\n]"
    );
    // An original bare LF next to the insertion is left alone.
    assert_eq!(
        eol_inserted("[\n  1\r\n]", "[\n  1,\n  2\r\n]", "\r\n"),
        "[\n  1,\r\n  2\r\n]"
    );
    assert_eq!(eol_inserted("[1]", "[1, 2]", "\r\n"), "[1, 2]");
    assert_eq!(eol_inserted("a\n", "a\nb\n", "\n"), "a\nb\n");
}

#[test]
fn bom_round_trips() {
    let (bom, rest) = split_bom("\u{FEFF}a=1\n");
    assert!(bom);
    assert_eq!(rest, "a=1\n");
    assert_eq!(with_bom(bom, rest.to_string()), "\u{FEFF}a=1\n");
    assert_eq!(split_bom("a"), (false, "a"));
}

#[test]
fn restore_uniform() {
    assert_eq!(restore_endings("a\nb\n", "a\nc\n"), "a\nc\n");
    assert_eq!(
        restore_endings("a\r\nb\r\n", "a\nb\nc\n"),
        "a\r\nb\r\nc\r\n"
    );
    // Never doubles a CR the output already has.
    assert_eq!(restore_endings("a\r\n", "a\r\nb\n"), "a\r\nb\r\n");
    // An unterminated last line stays unterminated.
    assert_eq!(restore_endings("a\r\nb", "a\nb"), "a\r\nb");
}

#[test]
fn restore_mixed_keeps_each_lines_ending() {
    let orig = "a\r\nb\nc\r\nd\r\n";
    // Identity.
    assert_eq!(restore_endings(orig, "a\nb\nc\nd\n"), orig);
    // A changed or inserted line takes the dominant ending.
    assert_eq!(
        restore_endings(orig, "a\nB\nnew\nc\nd\n"),
        "a\r\nB\r\nnew\r\nc\r\nd\r\n"
    );
    assert_eq!(restore_endings(orig, "x\nb\nc\nd\n"), "x\r\nb\nc\r\nd\r\n");
    // A deleted line takes nothing else's ending with it.
    assert_eq!(restore_endings(orig, "a\nb\nd\n"), "a\r\nb\nd\r\n");
}
