//! The expression parser.
#[allow(unused_imports)]
use edikt::error::{EditError, EvalError};
#[allow(unused_imports)]
use edikt::float::{Arith, Float, FloatFacts, FloatNeed};
#[allow(unused_imports)]
use edikt::model::{
    BinOp, CommentKind, Commented, CommentedNode, Comments, Expr, Step, Value,
};
#[allow(unused_imports)]
use edikt::parser::hyphenated_key;

#[allow(dead_code)]
fn number(x: f64) -> Float {
    Float { bits: x.to_bits(), text: x.to_string() }
}

#[allow(dead_code)]
fn fl(x: f64) -> Value {
    Value::Float(number(x))
}

/// Work out a floating-point result the library asked for.
#[allow(dead_code)]
fn supply(facts: &mut FloatFacts, need: &FloatNeed) {
    match need {
        FloatNeed::Parse(t) => {
            let x = match t.strip_prefix("0x") {
                Some(h) => u128::from_str_radix(h, 16).ok().map(|n| n as f64),
                None => t.parse::<f64>().ok(),
            };
            facts.parsed.push((t.clone(), x.map(number)));
        }
        FloatNeed::Compute(op, a, b) => {
            let (x, y) = (f64::from_bits(*a), f64::from_bits(*b));
            let r = match op {
                Arith::Add => x + y,
                Arith::Sub => x - y,
                Arith::Mul => x * y,
                Arith::Div => x / y,
                Arith::Rem => x % y,
            };
            facts.computed.push((*op, *a, *b, number(r)));
        }
    }
}

#[allow(dead_code)]
fn parse(src: &str) -> Result<Expr, edikt::parser::ParseError> {
    let mut facts = FloatFacts::new();
    loop {
        match edikt::parser::parse(src, &facts) {
            Err(e) => match &e.need {
                Some(need) => supply(&mut facts, need),
                None => return Err(e),
            },
            Ok(x) => return Ok(x),
        }
    }
}

#[allow(dead_code)]
fn eval(expr: &Expr, input: &Value) -> Result<Vec<Value>, EvalError> {
    let mut facts = FloatFacts::new();
    loop {
        match edikt::eval::eval(expr, input, &facts) {
            Err(e) => match &e.need {
                Some(need) => supply(&mut facts, need),
                None => return Err(e),
            },
            Ok(x) => return Ok(x),
        }
    }
}

fn p(s: &str) -> Expr {
    parse(s).unwrap_or_else(|e| panic!("parse `{s}`: {e:?}"))
}

#[test]
fn identity() {
    assert_eq!(p("."), Expr::Path(vec![]));
}

#[test]
fn doc_select_parses() {
    // `^dN | body`, `^dN.body`, and a bare `^dN` (identity body).
    assert_eq!(
        p("^d0 | .kind"),
        Expr::DocSelect(0, Box::new(Expr::Path(vec![Step::Field("kind".into())])))
    );
    assert_eq!(
        p("^d2.spec"),
        Expr::DocSelect(2, Box::new(Expr::Path(vec![Step::Field("spec".into())])))
    );
    assert_eq!(p("^d1"), Expr::DocSelect(1, Box::new(Expr::Path(vec![]))));
    // It scopes an assignment, and reports as a mutation.
    assert!(p("^d0 | .replicas = 3").is_mutation());
}

#[test]
fn doc_select_bad_index_errors() {
    assert!(parse("^dfoo | .x").is_err());
    assert!(parse("^x").is_err());
    assert!(parse("^ | .x").is_err());
}

#[test]
fn dotted_path() {
    assert_eq!(
        p(".a.b"),
        Expr::Path(vec![Step::Field("a".into()), Step::Field("b".into())])
    );
}

#[test]
fn index_and_iterate() {
    assert_eq!(
        p(".arr[0][]"),
        Expr::Path(vec![
            Step::Field("arr".into()),
            Step::Index(0),
            Step::Iterate
        ])
    );
    assert_eq!(
        p(".x[-1]"),
        Expr::Path(vec![Step::Field("x".into()), Step::Index(-1)])
    );
}

#[test]
fn quoted_field() {
    assert_eq!(
        p(r#"."weird key""#),
        Expr::Path(vec![Step::Field("weird key".into())])
    );
}

#[test]
fn literals() {
    assert_eq!(p("true"), Expr::Literal(Value::Bool(true)));
    assert_eq!(p("null"), Expr::Literal(Value::Null));
    assert_eq!(p("42"), Expr::Literal(Value::Int(42)));
    assert_eq!(p("1.5"), Expr::Literal(fl(1.5)));
    assert_eq!(p(r#""hi""#), Expr::Literal(Value::Str("hi".into())));
}

#[test]
fn arithmetic_precedence() {
    // 1 + 2 * 3  ==  1 + (2 * 3)
    assert_eq!(
        p("1 + 2 * 3"),
        Expr::Binary(
            BinOp::Add,
            Box::new(Expr::Literal(Value::Int(1))),
            Box::new(Expr::Binary(
                BinOp::Mul,
                Box::new(Expr::Literal(Value::Int(2))),
                Box::new(Expr::Literal(Value::Int(3))),
            )),
        )
    );
}

#[test]
fn pipe_and_select() {
    let e = p(r#".items[] | select(.name == "x")"#);
    match e {
        Expr::Pipe(l, r) => {
            assert_eq!(
                *l,
                Expr::Path(vec![Step::Field("items".into()), Step::Iterate])
            );
            match *r {
                Expr::Call(ref name, ref args) => {
                    assert_eq!(name, "select");
                    assert_eq!(args.len(), 1);
                }
                _ => panic!("expected select call"),
            }
        }
        _ => panic!("expected pipe"),
    }
}

#[test]
fn errors() {
    assert!(parse(".a.").is_ok()); // lenient trailing dot
    assert!(parse("(").is_err());
    assert!(parse(".a b").is_err()); // trailing token
    assert!(parse("@").is_err()); // bad char
}

#[test]
fn comment_accessor() {
    // `#` alone is the head comment.
    assert_eq!(
        p(".foo.#"),
        Expr::Path(vec![
            Step::Field("foo".into()),
            Step::Comment(CommentKind::Head)
        ])
    );
    // `#.head` / `#.inline` / `#.foot` pick a kind.
    assert_eq!(
        p(".foo.#.inline"),
        Expr::Path(vec![
            Step::Field("foo".into()),
            Step::Comment(CommentKind::Inline)
        ])
    );
    assert_eq!(
        p(".a.#.foot"),
        Expr::Path(vec![
            Step::Field("a".into()),
            Step::Comment(CommentKind::Foot)
        ])
    );
    // `.#` at the top is the document comment.
    assert_eq!(p(".#"), Expr::Path(vec![Step::Comment(CommentKind::Head)]));
    // After iteration: `.items[].#`.
    assert_eq!(
        p(".items[].#"),
        Expr::Path(vec![
            Step::Field("items".into()),
            Step::Iterate,
            Step::Comment(CommentKind::Head)
        ])
    );
    // Comment is terminal: nothing may navigate past it.
    assert!(parse(".foo.#.bar").is_err());
}

#[test]
fn object_construct_accepts_toml_equals() {
    // `key = value` (TOML inline-table spelling) and jq's `key: value`
    // both work, even mixed in one literal.
    assert_eq!(
        p(r#"{version = "1", optional: true}"#),
        Expr::ObjectConstruct(vec![
            ("version".into(), Expr::Literal(Value::Str("1".into()))),
            ("optional".into(), Expr::Literal(Value::Bool(true))),
        ])
    );
}

#[test]
fn object_construct_names_both_separators() {
    let e = parse("{a 1}").unwrap_err();
    assert!(e.to_string().contains("expected `:` or `=`"), "got: {e:?}");
}

#[test]
fn hyphen_hint_leaves_real_subtraction_alone() {
    // Query-position subtraction still parses as arithmetic.
    assert_eq!(
        p(".a-b"),
        Expr::Binary(
            BinOp::Sub,
            Box::new(Expr::Path(vec![Step::Field("a".into())])),
            Box::new(Expr::Call("b".into(), vec![]))
        )
    );
    // An LHS that is subtraction-but-not-a-bare-key shape (numeric
    // operand) is not intercepted; it still parses into an Assign for
    // the eval-time "must be a path" check.
    assert!(parse(".a - 1 = 2").is_ok());
    // RHS containing subtraction is untouched.
    p(".x = .a - .b");
}

/// The left of an assignment must be a path, so subtraction cannot occur
/// there and a hyphen is unambiguously part of the key. No quoting needed.
#[test]
fn a_hyphenated_key_assigns_without_quoting() {
    let e = p(r#".dev-dependencies.serde_json = "1.0""#);
    let Expr::Assign(lhs, _) = e else {
        panic!("expected an assignment")
    };
    assert_eq!(
        *lhs,
        Expr::Path(vec![
            Step::Field("dev-dependencies".into()),
            Step::Field("serde_json".into()),
        ])
    );
}

#[test]
fn hyphenated_keys_work_for_every_assignment_operator() {
    for src in [
        r#".package.rust-version = "1.85""#,
        ".lib.crate-type |= 1",
        ".a.b-c += 1",
        ".rust-version = 1",
    ] {
        p(src);
    }
}

#[test]
fn a_multi_hyphen_key_is_one_field() {
    let Expr::Assign(lhs, _) = p(".lib.crate-type-x = 1") else {
        panic!("expected an assignment")
    };
    assert_eq!(
        *lhs,
        Expr::Path(vec![
            Step::Field("lib".into()),
            Step::Field("crate-type-x".into()),
        ])
    );
}

/// Indices and quoted keys still work alongside hyphenated ones.
#[test]
fn a_hyphenated_path_still_takes_indices_and_quoted_keys() {
    p(r#".bin[0].required-features = ["x"]"#);
    p(r#".target."cfg(unix)".dev-dependencies.libc = "0.2""#);
    p(r#".a.b-c[-1] = 1"#);
}

/// Adjacency is the guard. A spaced `-` is an operator, so this is still a
/// subtraction and still an invalid assignment target.
#[test]
fn a_spaced_hyphen_is_not_absorbed_into_a_key() {
    assert!(parse(".a - b = 1").is_err());
}

/// Nothing outside assignment position changed: subtraction still parses.
#[test]
fn queries_are_untouched_by_the_assignment_rule() {
    p(".total - length");
    p(".a - .b");
    p(".count-1");
    p(".a.b.c");
}

/// A query with a hyphenated key remains ambiguous (subtraction is legal
/// there), so it still gets the explanatory error rather than a guess.
#[test]
fn a_hyphenated_key_in_a_query_still_explains_itself() {
    let e = parse(".dev-dependencies.serde_json").unwrap_err();
    assert!(e.to_string().contains("contains `-`"), "{e:?}");
    assert!(e.to_string().contains(r#"."dev-dependencies""#), "{e:?}");
}

#[test]
fn the_scanner_ignores_what_is_not_a_hyphenated_key() {
    assert!(hyphenated_key(".total - length").is_none());
    assert!(hyphenated_key(".count-1").is_none());
    assert!(hyphenated_key(".a.b.c").is_none());
    assert!(hyphenated_key("-").is_none());
    assert!(hyphenated_key("").is_none());
}

#[test]
fn the_scanner_finds_the_key_and_its_offset() {
    assert_eq!(
        hyphenated_key(".dev-dependencies.x"),
        Some(("dev-dependencies".to_string(), 1))
    );
    assert_eq!(
        hyphenated_key(".a-b-c"),
        Some(("a-b-c".to_string(), 1)),
        "multiple hyphens are one key"
    );
}

/// An unrelated syntax error must keep its own message rather than being
/// blamed on a hyphen elsewhere in the expression.
#[test]
fn an_unrelated_error_keeps_its_own_message() {
    let e = parse(".a | ").unwrap_err();
    assert!(!e.msg.contains("contains `-`"), "{}", e.msg);
}
