//! Placing own-line comments.
#[allow(unused_imports)]
use edikt::error::{EditError, EvalError};
#[allow(unused_imports)]
use edikt::float::{Arith, Float, FloatFacts, FloatNeed};
#[allow(unused_imports)]
use edikt::model::{
    BinOp, CommentKind, Commented, CommentedNode, Comments, Expr, Step, Value,
};
#[allow(unused_imports)]
use edikt::line_comment::{place_line_comment, sanitize_comment_line, LineComment};

#[allow(dead_code)]
fn number(x: f64) -> Float {
    Float { bits: x.to_bits(), text: x.to_string() }
}

#[allow(dead_code)]
fn fl(x: f64) -> Value {
    Value::Float(number(x))
}

/// Work out a floating-point result the library asked for.
#[allow(dead_code)]
fn supply(facts: &mut FloatFacts, need: &FloatNeed) {
    match need {
        FloatNeed::Parse(t) => {
            let x = match t.strip_prefix("0x") {
                Some(h) => u128::from_str_radix(h, 16).ok().map(|n| n as f64),
                None => t.parse::<f64>().ok(),
            };
            facts.parsed.push((t.clone(), x.map(number)));
        }
        FloatNeed::Compute(op, a, b) => {
            let (x, y) = (f64::from_bits(*a), f64::from_bits(*b));
            let r = match op {
                Arith::Add => x + y,
                Arith::Sub => x - y,
                Arith::Mul => x * y,
                Arith::Div => x / y,
                Arith::Rem => x % y,
            };
            facts.computed.push((*op, *a, *b, number(r)));
        }
    }
}

#[allow(dead_code)]
fn parse(src: &str) -> Result<Expr, edikt::parser::ParseError> {
    let mut facts = FloatFacts::new();
    loop {
        match edikt::parser::parse(src, &facts) {
            Err(e) => match &e.need {
                Some(need) => supply(&mut facts, need),
                None => return Err(e),
            },
            Ok(x) => return Ok(x),
        }
    }
}

#[allow(dead_code)]
fn eval(expr: &Expr, input: &Value) -> Result<Vec<Value>, EvalError> {
    let mut facts = FloatFacts::new();
    loop {
        match edikt::eval::eval(expr, input, &facts) {
            Err(e) => match &e.need {
                Some(need) => supply(&mut facts, need),
                None => return Err(e),
            },
            Ok(x) => return Ok(x),
        }
    }
}

const HASH: LineComment = LineComment {
    markers: &["#"],
    delim: "# ",
};

fn place(src: &str, line: usize, head: bool, text: Option<&str>) -> String {
    place_line_comment(src, line, head, "", &HASH, text)
}

#[test]
fn line_comment_style() {
    let s = LineComment {
        markers: &["#", "!"],
        delim: "# ",
    };
    assert!(s.is_comment_line("  ! x"));
    assert!(!s.is_comment_line("a # x"));
    assert_eq!(s.strip_marker("#!# text "), "text");
    assert_eq!(sanitize_comment_line("a\r\nb"), "a  b");
    assert_eq!(s.comment_text("  ## hi  "), Some("hi".to_string()));
    assert_eq!(s.comment_text("a = 1"), None);
    let lines = ["one".to_string(), "two\nthree".to_string()];
    assert_eq!(s.block(&lines, "  "), "  # one\n  # two three\n");
}

#[test]
fn block_takes_the_target_lines_ending() {
    assert_eq!(
        place("A=1\r\nB=2\r\n", 1, true, Some("x")),
        "A=1\r\n# x\r\nB=2\r\n"
    );
    assert_eq!(
        place("A=1\r\nB=2\r\n", 0, false, Some("x")),
        "A=1\r\n# x\r\nB=2\r\n"
    );
    assert_eq!(
        place("A=1\nB=2\r\n", 0, true, Some("x")),
        "# x\nA=1\nB=2\r\n"
    );
}

#[test]
fn foot_below_an_unterminated_last_line_starts_its_own_line() {
    // Used to glue the comment onto the value: `A=1# x`.
    assert_eq!(place("A=1", 0, false, Some("x")), "A=1\n# x");
    assert_eq!(
        place("A=1\r\nB=2", 1, false, Some("x")),
        "A=1\r\nB=2\r\n# x"
    );
    // Replacing an unterminated trailing foot keeps the missing newline.
    assert_eq!(place("A=1\n# old", 0, false, Some("x")), "A=1\n# x");
    // Deleting it too.
    assert_eq!(place("A=1\n# old", 0, false, None), "A=1");
    // A terminated file stays terminated.
    assert_eq!(place("A=1\n", 0, false, Some("x")), "A=1\n# x\n");
}
