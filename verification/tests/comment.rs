//! The comment model.
#[allow(unused_imports)]
use edikt::error::{EditError, EvalError};
#[allow(unused_imports)]
use edikt::float::{Arith, Float, FloatFacts, FloatNeed};
#[allow(unused_imports)]
use edikt::model::{
    BinOp, CommentKind, Commented, CommentedNode, Comments, Expr, Step, Value,
};
#[allow(unused_imports)]
use edikt::comment::flatten_commented;

#[allow(dead_code)]
fn number(x: f64) -> Float {
    Float { bits: x.to_bits(), text: x.to_string() }
}

#[allow(dead_code)]
fn fl(x: f64) -> Value {
    Value::Float(number(x))
}

/// Work out a floating-point result the library asked for.
#[allow(dead_code)]
fn supply(facts: &mut FloatFacts, need: &FloatNeed) {
    match need {
        FloatNeed::Parse(t) => {
            let x = match t.strip_prefix("0x") {
                Some(h) => u128::from_str_radix(h, 16).ok().map(|n| n as f64),
                None => t.parse::<f64>().ok(),
            };
            facts.parsed.push((t.clone(), x.map(number)));
        }
        FloatNeed::Compute(op, a, b) => {
            let (x, y) = (f64::from_bits(*a), f64::from_bits(*b));
            let r = match op {
                Arith::Add => x + y,
                Arith::Sub => x - y,
                Arith::Mul => x * y,
                Arith::Div => x / y,
                Arith::Rem => x % y,
            };
            facts.computed.push((*op, *a, *b, number(r)));
        }
    }
}

#[allow(dead_code)]
fn parse(src: &str) -> Result<Expr, edikt::parser::ParseError> {
    let mut facts = FloatFacts::new();
    loop {
        match edikt::parser::parse(src, &facts) {
            Err(e) => match &e.need {
                Some(need) => supply(&mut facts, need),
                None => return Err(e),
            },
            Ok(x) => return Ok(x),
        }
    }
}

#[allow(dead_code)]
fn eval(expr: &Expr, input: &Value) -> Result<Vec<Value>, EvalError> {
    let mut facts = FloatFacts::new();
    loop {
        match edikt::eval::eval(expr, input, &facts) {
            Err(e) => match &e.need {
                Some(need) => supply(&mut facts, need),
                None => return Err(e),
            },
            Ok(x) => return Ok(x),
        }
    }
}

fn commented(head: &[&str], inline: Option<&str>, node: CommentedNode) -> Commented {
    Commented {
        comments: Comments {
            head: head.iter().map(|s| s.to_string()).collect(),
            inline: inline.map(|s| s.to_string()),
            foot: Vec::new(),
        },
        node,
    }
}

#[test]
fn from_value_round_trips_and_is_comment_free() {
    let v = Value::Object(vec![
        ("a".into(), Value::Int(1)),
        ("b".into(), Value::Array(vec![Value::Str("x".into())])),
    ]);
    let c = Commented::from_value(&v);
    assert!(!c.has_comments());
    assert_eq!(c.to_value(), v);
}

#[test]
fn descend_mirrors_eval_paths() {
    let tree = Commented {
        comments: Comments::default(),
        node: CommentedNode::Object(vec![
            (
                "a".into(),
                commented(&["on a"], None, CommentedNode::Scalar(Value::Int(1))),
            ),
            (
                "xs".into(),
                Commented {
                    comments: Comments::default(),
                    node: CommentedNode::Array(vec![
                        Commented::scalar(Value::Int(10)),
                        commented(&[], Some("last"), CommentedNode::Scalar(Value::Int(20))),
                    ]),
                },
            ),
        ]),
    };
    // identity
    assert_eq!(tree.descend(&[]).len(), 1);
    // field
    let a = tree.descend(&[Step::Field("a".into())]);
    assert_eq!(a.len(), 1);
    assert_eq!(a[0].comments.head, vec!["on a"]);
    // negative index
    let last = tree.descend(&[Step::Field("xs".into()), Step::Index(-1)]);
    assert_eq!(last[0].comments.inline.as_deref(), Some("last"));
    // iterate
    assert_eq!(
        tree.descend(&[Step::Field("xs".into()), Step::Iterate])
            .len(),
        2
    );
    // a miss yields nothing, matching the evaluator
    assert!(tree.descend(&[Step::Field("nope".into())]).is_empty());
}

#[test]
fn flatten_carries_comments_to_dotted_keys() {
    let tree = Commented {
        comments: Comments {
            head: vec!["banner".into()],
            inline: None,
            foot: vec!["trailer".into()],
        },
        node: CommentedNode::Object(vec![(
            "a".into(),
            commented(
                &["section"],
                None,
                CommentedNode::Object(vec![(
                    "b".into(),
                    commented(&[], Some("why"), CommentedNode::Scalar(Value::Int(1))),
                )]),
            ),
        )]),
    };
    let flat = flatten_commented(&tree);
    assert_eq!(flat.len(), 1);
    assert_eq!(flat[0].key, "a.b");
    assert_eq!(flat[0].value, "1");
    // banner (root head) + section (container head) land on the first
    // entry; the scalar keeps its inline; root foot lands on the last.
    assert_eq!(flat[0].comments.head, vec!["banner", "section"]);
    assert_eq!(flat[0].comments.inline.as_deref(), Some("why"));
    assert_eq!(flat[0].comments.foot, vec!["trailer"]);
}
