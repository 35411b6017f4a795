//! Quote styles in TOML.
#[allow(unused_imports)]
use edikt::error::{EditError, EvalError};
#[allow(unused_imports)]
use edikt::float::{Arith, Float, FloatFacts, FloatNeed};
#[allow(unused_imports)]
use edikt::model::{
    BinOp, CommentKind, Commented, CommentedNode, Comments, Expr, Step, Value,
};
#[allow(unused_imports)]
use edikt::document::Document;

#[allow(dead_code)]
fn number(x: f64) -> Float {
    Float { bits: x.to_bits(), text: x.to_string() }
}

#[allow(dead_code)]
fn fl(x: f64) -> Value {
    Value::Float(number(x))
}

/// Work out a floating-point result the library asked for.
#[allow(dead_code)]
fn supply(facts: &mut FloatFacts, need: &FloatNeed) {
    match need {
        FloatNeed::Parse(t) => {
            let x = match t.strip_prefix("0x") {
                Some(h) => u128::from_str_radix(h, 16).ok().map(|n| n as f64),
                None => t.parse::<f64>().ok(),
            };
            facts.parsed.push((t.clone(), x.map(number)));
        }
        FloatNeed::Compute(op, a, b) => {
            let (x, y) = (f64::from_bits(*a), f64::from_bits(*b));
            let r = match op {
                Arith::Add => x + y,
                Arith::Sub => x - y,
                Arith::Mul => x * y,
                Arith::Div => x / y,
                Arith::Rem => x % y,
            };
            facts.computed.push((*op, *a, *b, number(r)));
        }
    }
}

#[allow(dead_code)]
fn parse_expr(src: &str) -> Result<Expr, edikt::parser::ParseError> {
    let mut facts = FloatFacts::new();
    loop {
        match edikt::parser::parse(src, &facts) {
            Err(e) => match &e.need {
                Some(need) => supply(&mut facts, need),
                None => return Err(e),
            },
            Ok(x) => return Ok(x),
        }
    }
}

#[allow(dead_code)]
fn eval(expr: &Expr, input: &Value) -> Result<Vec<Value>, EvalError> {
    let mut facts = FloatFacts::new();
    loop {
        match edikt::eval::eval(expr, input, &facts) {
            Err(e) => match &e.need {
                Some(need) => supply(&mut facts, need),
                None => return Err(e),
            },
            Ok(x) => return Ok(x),
        }
    }
}

fn edit_doc(src: &str, expr: &str) -> (Result<(), EditError>, String) {
    let mut facts = FloatFacts::new();
    let e = parse_expr(expr).unwrap();
    loop {
        let mut doc = edikt::toml::parse(src).unwrap();
        match edikt::toml::apply(&mut doc, &e, &facts) {
            Err(e) => match &e.need {
                Some(need) => supply(&mut facts, need),
                None => return (Err(e), doc.to_source()),
            },
            Ok(()) => return (Ok(()), doc.to_source()),
        }
    }
}

fn edit(src: &str, expr: &str) -> String {
    let (r, out) = edit_doc(src, expr);
    r.unwrap();
    out
}

#[allow(dead_code)]
fn read(src: &str, path: &str) -> Vec<Value> {
    let facts = FloatFacts::new();
    let _ = &facts;
    eval(&parse_expr(path).unwrap(), &edikt::toml::parse(src).unwrap().to_value()).unwrap()
}

#[test]
fn quote_style_set_keeps_or_falls_back_from_the_old_style() {
    let s = |x: &str| Value::Str(x.into());
    let cases: &[(&str, &str, Value, &str)] = &[
        // Each style keeps itself.
        ("a = 'old'\n", ".a", s("new"), "a = 'new'\n"),
        ("a = \"old\"\n", ".a", s("new"), "a = \"new\"\n"),
        ("a = '''old'''\n", ".a", s("new"), "a = '''new'''\n"),
        (
            "a = \"\"\"old\"\"\"\n",
            ".a",
            s("new"),
            "a = \"\"\"new\"\"\"\n",
        ),
        // A basic string escapes rather than switching to a literal.
        (
            "a = \"old\"\n",
            ".a",
            s("say \"hi\" \\ bye"),
            "a = \"say \\\"hi\\\" \\\\ bye\"\n",
        ),
        (
            "a = \"old\"\n",
            ".a",
            s("x\ny\u{1}"),
            "a = \"x\\ny\\u0001\"\n",
        ),
        ("a = \"old\"\n", ".a", s("café"), "a = \"café\"\n"),
        // A literal holds backslashes and double quotes as they are.
        (
            "a = 'old'\n",
            ".a",
            s("C:\\dir \"x\""),
            "a = 'C:\\dir \"x\"'\n",
        ),
        // ... but not `'`, a line break, or a control character: basic then.
        ("a = 'old'\n", ".a", s("it's"), "a = \"it's\"\n"),
        (
            "a = 'old'\n",
            ".a",
            s("two\nlines"),
            "a = \"two\\nlines\"\n",
        ),
        ("a = 'old'\n", ".a", s("del\u{7f}"), "a = \"del\\u007F\"\n"),
        // Multi-line literal holds line breaks; `'''`, a trailing `'`, or a
        // leading newline (which TOML trims) fall back to multi-line basic.
        ("a = '''old'''\n", ".a", s("x\ny"), "a = '''x\ny'''\n"),
        (
            "a = '''old'''\n",
            ".a",
            s("a'''b"),
            "a = \"\"\"a'''b\"\"\"\n",
        ),
        (
            "a = '''old'''\n",
            ".a",
            s("\nlead"),
            "a = \"\"\"\\nlead\"\"\"\n",
        ),
        // Multi-line basic keeps raw line breaks and escapes the rest.
        (
            "a = \"\"\"old\"\"\"\n",
            ".a",
            s("x\n\"y\""),
            "a = \"\"\"x\n\\\"y\\\"\"\"\"\n",
        ),
        // Only strings carry a quote style.
        ("a = 'old'\n", ".a", Value::Int(5), "a = 5\n"),
        ("a = \"old\"\n", ".a", Value::Bool(true), "a = true\n"),
        // An inline comment and spacing survive.
        (
            "a = 'old'   # keep\n",
            ".a",
            s("new"),
            "a = 'new'   # keep\n",
        ),
        // Inline tables and array elements too, and an element keeps its
        // own spacing.
        (
            "t = { x = 'y', z = \"w\" }\n",
            ".t.x",
            s("n"),
            "t = { x = 'n', z = \"w\" }\n",
        ),
        ("a = [ 'x', 'y' ]\n", ".a[1]", s("n"), "a = [ 'x', 'n' ]\n"),
        ("a = [ \"x\", 1 ]\n", ".a[0]", s("n"), "a = [ \"n\", 1 ]\n"),
        // A table key under a header.
        (
            "[pkg]\nname = 'old' # n\n",
            ".pkg.name",
            s("new"),
            "[pkg]\nname = 'new' # n\n",
        ),
    ];
    for (src, path, value, want) in cases {
        let expr = format!("{path} = {}", value.to_json());
        let got = edit(src, &expr);
        assert_eq!(&got, want, "{src:?} with `{expr}`");
        assert_eq!(
            read(&got, path),
            vec![value.clone()],
            "{got:?} must read `{path}` back as {value:?}"
        );
    }
}

#[test]
fn quote_style_update_assign_keeps_the_style() {
    assert_eq!(edit("a = 'v1'\n", ".a |= . + \"x\""), "a = 'v1x'\n");
}
