//! String spellings in KDL.
#[allow(unused_imports)]
use edikt::error::{EditError, EvalError};
#[allow(unused_imports)]
use edikt::float::{Arith, Float, FloatFacts, FloatNeed};
#[allow(unused_imports)]
use edikt::model::{
    BinOp, CommentKind, Commented, CommentedNode, Comments, Expr, Step, Value,
};
#[allow(unused_imports)]
use edikt::document::Document;

#[allow(dead_code)]
fn number(x: f64) -> Float {
    Float { bits: x.to_bits(), text: x.to_string() }
}

#[allow(dead_code)]
fn fl(x: f64) -> Value {
    Value::Float(number(x))
}

/// Work out a floating-point result the library asked for.
#[allow(dead_code)]
fn supply(facts: &mut FloatFacts, need: &FloatNeed) {
    match need {
        FloatNeed::Parse(t) => {
            let x = match t.strip_prefix("0x") {
                Some(h) => u128::from_str_radix(h, 16).ok().map(|n| n as f64),
                None => t.parse::<f64>().ok(),
            };
            facts.parsed.push((t.clone(), x.map(number)));
        }
        FloatNeed::Compute(op, a, b) => {
            let (x, y) = (f64::from_bits(*a), f64::from_bits(*b));
            let r = match op {
                Arith::Add => x + y,
                Arith::Sub => x - y,
                Arith::Mul => x * y,
                Arith::Div => x / y,
                Arith::Rem => x % y,
            };
            facts.computed.push((*op, *a, *b, number(r)));
        }
    }
}

#[allow(dead_code)]
fn parse_expr(src: &str) -> Result<Expr, edikt::parser::ParseError> {
    let mut facts = FloatFacts::new();
    loop {
        match edikt::parser::parse(src, &facts) {
            Err(e) => match &e.need {
                Some(need) => supply(&mut facts, need),
                None => return Err(e),
            },
            Ok(x) => return Ok(x),
        }
    }
}

#[allow(dead_code)]
fn eval(expr: &Expr, input: &Value) -> Result<Vec<Value>, EvalError> {
    let mut facts = FloatFacts::new();
    loop {
        match edikt::eval::eval(expr, input, &facts) {
            Err(e) => match &e.need {
                Some(need) => supply(&mut facts, need),
                None => return Err(e),
            },
            Ok(x) => return Ok(x),
        }
    }
}

fn edit_doc(src: &str, expr: &str) -> (Result<(), EditError>, String) {
    let mut facts = FloatFacts::new();
    let e = parse_expr(expr).unwrap();
    loop {
        let mut doc = match edikt::kdl_doc::parse(src, &facts) {
            Err(e) => match &e.need {
                Some(need) => {
                    supply(&mut facts, need);
                    continue;
                }
                None => panic!("parse {src:?}: {e:?}"),
            },
            Ok(d) => d,
        };
        match edikt::kdl_doc::apply(&mut doc, &e, &facts) {
            Err(e) => match &e.need {
                Some(need) => supply(&mut facts, need),
                None => return (Err(e), doc.to_source()),
            },
            Ok(()) => return (Ok(()), doc.to_source()),
        }
    }
}

fn edit(src: &str, expr: &str) -> String {
    let (r, out) = edit_doc(src, expr);
    r.unwrap();
    out
}

#[allow(dead_code)]
fn read(src: &str, path: &str) -> Vec<Value> {
    let facts = FloatFacts::new();
    let _ = &facts;
    eval(&parse_expr(path).unwrap(), &edikt::kdl_doc::parse(src, &facts).unwrap().to_value()).unwrap()
}

#[test]
fn set_keeps_or_falls_back_from_the_old_style() {
    let s = |x: &str| Value::Str(x.into());
    let cases: &[(&str, &str, Value, &str)] = &[
        // Each spelling keeps itself.
        ("a \"old\"\n", ".a", s("new"), "a \"new\"\n"),
        ("a old\n", ".a", s("new"), "a new\n"),
        ("a #\"old\"#\n", ".a", s("new"), "a #\"new\"#\n"),
        ("a ##\"old\"##\n", ".a", s("new"), "a ##\"new\"##\n"),
        // Raw strings hold quotes and backslashes verbatim, adding a `#` only
        // when the value contains the closing delimiter.
        (
            "a #\"old\"#\n",
            ".a",
            s("C:\\ \"x\""),
            "a #\"C:\\ \"x\"\"#\n",
        ),
        ("a #\"old\"#\n", ".a", s("x\"#y"), "a ##\"x\"#y\"##\n"),
        // A line break or a disallowed code point can't go in a one-line raw
        // string: quoted, escaped.
        ("a #\"old\"#\n", ".a", s("x\ny"), "a \"x\\ny\"\n"),
        ("a #\"old\"#\n", ".a", s("x\u{1}"), "a \"x\\u{1}\"\n"),
        // An identifier string stays bare only while the value is a valid
        // identifier; otherwise it is quoted.
        ("a old\n", ".a", s("two words"), "a \"two words\"\n"),
        ("a old\n", ".a", s("true"), "a \"true\"\n"),
        ("a old\n", ".a", s("5"), "a \"5\"\n"),
        ("a old\n", ".a", s(""), "a \"\"\n"),
        // A quoted string stays quoted even when the value could be bare, and
        // escapes what it must.
        (
            "a \"old\"\n",
            ".a",
            s("say \"hi\" \\"),
            "a \"say \\\"hi\\\" \\\\\"\n",
        ),
        (
            "a \"old\"\n",
            ".a",
            s("t\tn\n\u{7f}\u{feff}"),
            "a \"t\\tn\\n\\u{7f}\\u{feff}\"\n",
        ),
        ("a \"old\"\n", ".a", s("café"), "a \"café\"\n"),
        // A multi-line string has no one-line form to keep: quoted.
        ("a \"\"\"\n  old\n  \"\"\"\n", ".a", s("new"), "a \"new\"\n"),
        // Properties and the other arguments of a row.
        ("d x=\"q\" y=bare\n", ".d.x", s("n"), "d x=\"n\" y=bare\n"),
        ("d x=\"q\" y=bare\n", ".d.y", s("n"), "d x=\"q\" y=n\n"),
        (
            "d x=\"q\" y=bare\n",
            ".d.y",
            s("n m"),
            "d x=\"q\" y=\"n m\"\n",
        ),
        ("a \"x\" y\n", ".a[1]", s("n"), "a \"x\" n\n"),
        ("a \"x\" y\n", ".a[0]", s("n"), "a \"n\" y\n"),
        // Only strings carry a quote style.
        ("a \"old\"\n", ".a", Value::Int(5), "a 5\n"),
        ("a #\"old\"#\n", ".a", Value::Bool(true), "a #true\n"),
    ];
    for (src, path, value, want) in cases {
        let expr = format!("{path} = {}", value.to_json());
        let got = edit(src, &expr);
        assert_eq!(&got, want, "{src:?} with `{expr}`");
        assert_eq!(
            read(&got, path),
            vec![value.clone()],
            "{got:?} must read `{path}` back as {value:?}"
        );
    }
}
