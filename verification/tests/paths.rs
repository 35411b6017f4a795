//! Path expressions.
#[allow(unused_imports)]
use edikt::error::{EditError, EvalError};
#[allow(unused_imports)]
use edikt::float::{Arith, Float, FloatFacts, FloatNeed};
#[allow(unused_imports)]
use edikt::model::{
    BinOp, CommentKind, Commented, CommentedNode, Comments, Expr, Step, Value,
};
#[allow(unused_imports)]
use edikt::ast::render_path;
#[allow(unused_imports)]
use edikt::document::Document;
#[allow(unused_imports)]
use edikt::paths::{eval_paths, lower_mutation};

#[allow(dead_code)]
fn number(x: f64) -> Float {
    Float { bits: x.to_bits(), text: x.to_string() }
}

#[allow(dead_code)]
fn fl(x: f64) -> Value {
    Value::Float(number(x))
}

/// Work out a floating-point result the library asked for.
#[allow(dead_code)]
fn supply(facts: &mut FloatFacts, need: &FloatNeed) {
    match need {
        FloatNeed::Parse(t) => {
            let x = match t.strip_prefix("0x") {
                Some(h) => u128::from_str_radix(h, 16).ok().map(|n| n as f64),
                None => t.parse::<f64>().ok(),
            };
            facts.parsed.push((t.clone(), x.map(number)));
        }
        FloatNeed::Compute(op, a, b) => {
            let (x, y) = (f64::from_bits(*a), f64::from_bits(*b));
            let r = match op {
                Arith::Add => x + y,
                Arith::Sub => x - y,
                Arith::Mul => x * y,
                Arith::Div => x / y,
                Arith::Rem => x % y,
            };
            facts.computed.push((*op, *a, *b, number(r)));
        }
    }
}

#[allow(dead_code)]
fn parse(src: &str) -> Result<Expr, edikt::parser::ParseError> {
    let mut facts = FloatFacts::new();
    loop {
        match edikt::parser::parse(src, &facts) {
            Err(e) => match &e.need {
                Some(need) => supply(&mut facts, need),
                None => return Err(e),
            },
            Ok(x) => return Ok(x),
        }
    }
}

#[allow(dead_code)]
fn eval(expr: &Expr, input: &Value) -> Result<Vec<Value>, EvalError> {
    let mut facts = FloatFacts::new();
    loop {
        match edikt::eval::eval(expr, input, &facts) {
            Err(e) => match &e.need {
                Some(need) => supply(&mut facts, need),
                None => return Err(e),
            },
            Ok(x) => return Ok(x),
        }
    }
}

fn json(text: &str) -> Value {
    edikt::jsonc::parse(text, &FloatFacts::new()).unwrap().to_value()
}

fn paths(expr: &str, doc: &Value) -> Vec<String> {
    eval_paths(&parse(expr).unwrap(), doc, &FloatFacts::new())
        .unwrap()
        .iter()
        .map(|p| render_path(p))
        .collect()
}

fn items() -> Value {
    json(
        r#"{
        "items": [
            {"id": "a", "n": 1, "tags": ["x"]},
            {"id": "b", "n": 2, "tags": ["x", "y"]},
            {"id": "c", "n": 3, "tags": []}
        ]
    }"#,
    )
}

#[test]
fn select_resolves_to_matching_indices() {
    let doc = items();
    assert_eq!(
        paths(r#".items[] | select(.id == "b") | .n"#, &doc),
        vec![".items[1].n"]
    );
    // Multiple matches, in document order.
    assert_eq!(
        paths(".items[] | select(.n >= 2)", &doc),
        vec![".items[1]", ".items[2]"]
    );
    // Zero matches.
    assert!(paths(r#".items[] | select(.id == "zz")"#, &doc).is_empty());
    // Nested select: a select inside a select's sub-path.
    assert_eq!(
        paths(
            r#".items[] | select(.n > 1) | .tags[] | select(. == "y")"#,
            &doc
        ),
        vec![".items[1].tags[1]"]
    );
    // Comma composes streams.
    assert_eq!(
        paths(".items[0].n, .items[2].id", &doc),
        vec![".items[0].n", ".items[2].id"]
    );
}

#[test]
fn misses_resolve_like_a_query() {
    let doc = items();
    // A missing key still has a path (so `=` can create it) ...
    assert_eq!(
        paths(r#".items[] | select(.id == "a") | .new"#, &doc),
        vec![".items[0].new"]
    );
    assert_eq!(paths(".nope.deeper", &doc), vec![".nope.deeper"]);
    // ... but iterating something missing is nothing.
    assert!(paths(".nope[] | select(.id == 1)", &doc).is_empty());
    // Negative indices normalize to the element they name.
    assert_eq!(paths(".items[-1]", &doc), vec![".items[2]"]);
    // Type errors propagate, as in a query.
    assert!(eval_paths(&parse(".items[0].id[]").unwrap(), &doc, &FloatFacts::new()).is_err());
    assert!(eval_paths(&parse(".items.x").unwrap(), &doc, &FloatFacts::new()).is_err());
    // Not a path expression.
    assert!(eval_paths(&parse(".items | length").unwrap(), &doc, &FloatFacts::new()).is_err());
    assert!(eval_paths(&parse("1").unwrap(), &doc, &FloatFacts::new()).is_err());
}

#[test]
fn lowering_assign_update_add_and_del() {
    let doc = items();
    let low = |e: &str| lower_mutation(&parse(e).unwrap(), &doc, &FloatFacts::new()).unwrap();
    // A plain path is not lowered.
    assert!(low(".items[1].n = 5").is_none());
    assert!(low(".items[].n = 5").is_none());
    assert!(low(".items").is_none());
    // `=`: RHS evaluated once, against the whole document.
    assert_eq!(
        low(r#"(.items[] | select(.id == "b") | .n) = .items[0].n"#),
        Some(vec![parse(".items[1].n = 1").unwrap()])
    );
    // `+=`: likewise, per match.
    assert_eq!(
        low("(.items[] | select(.n > 1) | .n) += 10"),
        Some(vec![
            parse(".items[1].n += 10").unwrap(),
            parse(".items[2].n += 10").unwrap(),
        ])
    );
    // `|=`: RHS kept, so each update sees its own value.
    assert_eq!(
        low(r#"(.items[] | select(.id == "c") | .n) |= . * 2"#),
        Some(vec![parse(".items[2].n |= . * 2").unwrap()])
    );
    // `del`: back to front.
    assert_eq!(
        low("del(.items[] | select(.n != 2))"),
        Some(vec![
            parse("del(.items[2])").unwrap(),
            parse("del(.items[0])").unwrap(),
        ])
    );
    // Zero matches lowers to nothing (and doesn't need the RHS).
    assert_eq!(
        low(r#"(.items[] | select(.id == "zz") | .n) = .missing"#),
        Some(vec![])
    );
}

#[test]
fn value_level_assignment_through_select() {
    let doc = items();
    let one = |e: &str| {
        let mut r = eval(&parse(e).unwrap(), &doc).unwrap();
        assert_eq!(r.len(), 1, "{e:?}");
        r.remove(0)
    };
    let ns = |v: &Value| eval(&parse("[.items[].n]").unwrap(), v).unwrap();
    assert_eq!(
        ns(&one(r#"(.items[] | select(.id == "b") | .n) = 5"#)),
        vec![json("[1, 5, 3]")]
    );
    assert_eq!(
        ns(&one("(.items[] | select(.n > 1) | .n) |= . * 10")),
        vec![json("[1, 20, 30]")]
    );
    assert_eq!(
        ns(&one("(.items[] | select(.n < 3) | .n) += 1")),
        vec![json("[2, 3, 3]")]
    );
    assert_eq!(
        ns(&one("del(.items[] | select(.n != 2))")),
        vec![json("[2]")]
    );
    // Zero matches: the document is unchanged.
    assert_eq!(one(r#"(.items[] | select(.id == "zz") | .n) = 5"#), doc);
    // Still not a path.
    assert!(eval(&parse("(.items | length) = 1").unwrap(), &doc).is_err());
}

#[test]
fn path_builtin_outputs_jq_path_arrays() {
    let doc = items();
    let r = eval(
        &parse(r#"path(.items[] | select(.id == "b"))"#).unwrap(),
        &doc,
    )
    .unwrap();
    assert_eq!(r, vec![json(r#"["items", 1]"#)]);
    let r = eval(&parse("[path(.items[].id)] | length").unwrap(), &doc).unwrap();
    assert_eq!(r, vec![json("3")]);
    assert_eq!(
        eval(&parse("path(.)").unwrap(), &doc).unwrap(),
        vec![json("[]")]
    );
}
