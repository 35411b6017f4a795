//! Quote styles in JSON5.
#[allow(unused_imports)]
use edikt::error::{EditError, EvalError};
#[allow(unused_imports)]
use edikt::float::{Arith, Float, FloatFacts, FloatNeed};
#[allow(unused_imports)]
use edikt::model::{
    BinOp, CommentKind, Commented, CommentedNode, Comments, Expr, Step, Value,
};
#[allow(unused_imports)]
use edikt::document::Document;

#[allow(dead_code)]
fn number(x: f64) -> Float {
    Float { bits: x.to_bits(), text: x.to_string() }
}

#[allow(dead_code)]
fn fl(x: f64) -> Value {
    Value::Float(number(x))
}

/// Work out a floating-point result the library asked for.
#[allow(dead_code)]
fn supply(facts: &mut FloatFacts, need: &FloatNeed) {
    match need {
        FloatNeed::Parse(t) => {
            let x = match t.strip_prefix("0x") {
                Some(h) => u128::from_str_radix(h, 16).ok().map(|n| n as f64),
                None => t.parse::<f64>().ok(),
            };
            facts.parsed.push((t.clone(), x.map(number)));
        }
        FloatNeed::Compute(op, a, b) => {
            let (x, y) = (f64::from_bits(*a), f64::from_bits(*b));
            let r = match op {
                Arith::Add => x + y,
                Arith::Sub => x - y,
                Arith::Mul => x * y,
                Arith::Div => x / y,
                Arith::Rem => x % y,
            };
            facts.computed.push((*op, *a, *b, number(r)));
        }
    }
}

#[allow(dead_code)]
fn parse_expr(src: &str) -> Result<Expr, edikt::parser::ParseError> {
    let mut facts = FloatFacts::new();
    loop {
        match edikt::parser::parse(src, &facts) {
            Err(e) => match &e.need {
                Some(need) => supply(&mut facts, need),
                None => return Err(e),
            },
            Ok(x) => return Ok(x),
        }
    }
}

#[allow(dead_code)]
fn eval(expr: &Expr, input: &Value) -> Result<Vec<Value>, EvalError> {
    let mut facts = FloatFacts::new();
    loop {
        match edikt::eval::eval(expr, input, &facts) {
            Err(e) => match &e.need {
                Some(need) => supply(&mut facts, need),
                None => return Err(e),
            },
            Ok(x) => return Ok(x),
        }
    }
}

fn edit_doc(src: &str, expr: &str) -> (Result<(), EditError>, String) {
    let mut facts = FloatFacts::new();
    let e = parse_expr(expr).unwrap();
    loop {
        let mut doc = match edikt::jsonc::parse(src, &facts) {
            Err(e) => match &e.need {
                Some(need) => {
                    supply(&mut facts, need);
                    continue;
                }
                None => panic!("parse {src:?}: {e:?}"),
            },
            Ok(d) => d,
        };
        match edikt::jsonc::apply(&mut doc, &e, &facts) {
            Err(e) => match &e.need {
                Some(need) => supply(&mut facts, need),
                None => return (Err(e), doc.to_source()),
            },
            Ok(()) => return (Ok(()), doc.to_source()),
        }
    }
}

fn edit(src: &str, expr: &str) -> String {
    let (r, out) = edit_doc(src, expr);
    r.unwrap();
    out
}

#[allow(dead_code)]
fn read(src: &str, path: &str) -> Vec<Value> {
    let facts = FloatFacts::new();
    let _ = &facts;
    eval(&parse_expr(path).unwrap(), &edikt::jsonc::parse(src, &facts).unwrap().to_value()).unwrap()
}

#[test]
fn set_keeps_the_old_quote_style() {
    let s = |x: &str| Value::Str(x.into());
    let src = "{\n  a: 'old', // keep\n  b: \"old\",\n  l: ['x', \"y\"],\n}\n";
    let with = |line: &str, to: &str| src.replacen(line, to, 1);
    let cases: &[(&str, Value, String)] = &[
        (".a", s("new"), with("'old'", "'new'")),
        (".b", s("new"), with("\"old\"", "\"new\"")),
        // Single quotes escape `'` and leave `"` bare; double quotes the reverse.
        (".a", s("it's"), with("'old'", "'it\\'s'")),
        (".a", s("say \"hi\""), with("'old'", "'say \"hi\"'")),
        (".b", s("it's"), with("\"old\"", "\"it's\"")),
        // Everything else escapes as in JSON.
        (
            ".a",
            s("x\ny\\z\t\u{1}"),
            with("'old'", "'x\\ny\\\\z\\t\\u0001'"),
        ),
        (".a", s("café"), with("'old'", "'café'")),
        // Array elements too.
        (".l[0]", s("n"), with("'x'", "'n'")),
        (".l[1]", s("n"), with("\"y\"", "\"n\"")),
        // Only strings carry a quote style.
        (".a", Value::Int(5), with("'old'", "5")),
        (".a", Value::Null, with("'old'", "null")),
    ];
    for (path, value, want) in cases {
        let expr = format!("{path} = {}", value.to_json());
        let got = edit(src, &expr);
        assert_eq!(&got, want, "`{expr}`");
        assert_eq!(read(&got, path), vec![value.clone()], "{got:?}");
    }
}

#[test]
fn update_assign_keeps_the_style() {
    assert_eq!(edit("{a: 'v1'}", ".a |= . + \"x\""), "{a: 'v1x'}");
}
