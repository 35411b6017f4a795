//! KDL documents.
#[allow(unused_imports)]
use edikt::error::{EditError, EvalError};
#[allow(unused_imports)]
use edikt::float::{Arith, Float, FloatFacts, FloatNeed};
#[allow(unused_imports)]
use edikt::model::{
    BinOp, CommentKind, Commented, CommentedNode, Comments, Expr, Step, Value,
};
#[allow(unused_imports)]
use edikt::document::Document;

#[allow(dead_code)]
fn number(x: f64) -> Float {
    Float { bits: x.to_bits(), text: x.to_string() }
}

#[allow(dead_code)]
fn fl(x: f64) -> Value {
    Value::Float(number(x))
}

/// Work out a floating-point result the library asked for.
#[allow(dead_code)]
fn supply(facts: &mut FloatFacts, need: &FloatNeed) {
    match need {
        FloatNeed::Parse(t) => {
            let x = match t.strip_prefix("0x") {
                Some(h) => u128::from_str_radix(h, 16).ok().map(|n| n as f64),
                None => t.parse::<f64>().ok(),
            };
            facts.parsed.push((t.clone(), x.map(number)));
        }
        FloatNeed::Compute(op, a, b) => {
            let (x, y) = (f64::from_bits(*a), f64::from_bits(*b));
            let r = match op {
                Arith::Add => x + y,
                Arith::Sub => x - y,
                Arith::Mul => x * y,
                Arith::Div => x / y,
                Arith::Rem => x % y,
            };
            facts.computed.push((*op, *a, *b, number(r)));
        }
    }
}

#[allow(dead_code)]
fn parse_expr(src: &str) -> Result<Expr, edikt::parser::ParseError> {
    let mut facts = FloatFacts::new();
    loop {
        match edikt::parser::parse(src, &facts) {
            Err(e) => match &e.need {
                Some(need) => supply(&mut facts, need),
                None => return Err(e),
            },
            Ok(x) => return Ok(x),
        }
    }
}

#[allow(dead_code)]
fn eval(expr: &Expr, input: &Value) -> Result<Vec<Value>, EvalError> {
    let mut facts = FloatFacts::new();
    loop {
        match edikt::eval::eval(expr, input, &facts) {
            Err(e) => match &e.need {
                Some(need) => supply(&mut facts, need),
                None => return Err(e),
            },
            Ok(x) => return Ok(x),
        }
    }
}

fn edit_doc(src: &str, expr: &str) -> (Result<(), EditError>, String) {
    let mut facts = FloatFacts::new();
    let e = parse_expr(expr).unwrap();
    loop {
        let mut doc = match edikt::kdl_doc::parse(src, &facts) {
            Err(e) => match &e.need {
                Some(need) => {
                    supply(&mut facts, need);
                    continue;
                }
                None => panic!("parse {src:?}: {e:?}"),
            },
            Ok(d) => d,
        };
        match edikt::kdl_doc::apply(&mut doc, &e, &facts) {
            Err(e) => match &e.need {
                Some(need) => supply(&mut facts, need),
                None => return (Err(e), doc.to_source()),
            },
            Ok(()) => return (Ok(()), doc.to_source()),
        }
    }
}

fn edit(src: &str, expr: &str) -> String {
    let (r, out) = edit_doc(src, expr);
    r.unwrap();
    out
}

#[allow(dead_code)]
fn read(src: &str, path: &str) -> Vec<Value> {
    let facts = FloatFacts::new();
    let _ = &facts;
    eval(&parse_expr(path).unwrap(), &edikt::kdl_doc::parse(src, &facts).unwrap().to_value()).unwrap()
}

fn note(src: &str, path: &str, kind: CommentKind, text: &str) -> Result<String, EditError> {
    let mut doc = edikt::kdl_doc::parse(src, &FloatFacts::new()).unwrap();
    let e = parse_expr(path).unwrap();
    doc.set_comment_in_doc(0, e.as_path().unwrap(), kind, text)?;
    Ok(doc.to_source())
}

fn unnote(src: &str, path: &str, kind: CommentKind) -> Result<String, EditError> {
    let mut doc = edikt::kdl_doc::parse(src, &FloatFacts::new()).unwrap();
    let e = parse_expr(path).unwrap();
    doc.delete_comment(e.as_path().unwrap(), kind)?;
    Ok(doc.to_source())
}

fn refusal(src: &str, expr: &str) -> String {
    let (r, out) = edit_doc(src, expr);
    assert_eq!(out, src, "a refused edit changes nothing");
    r.unwrap_err().to_string()
}

#[test]
fn kdl_text_is_kept() {
    for src in [
        "",
        "a 1\n",
        "a 1",
        "// head\na 1 2 x=#true { // brace\n    b \"c\" // inline\n}\n/* foot */\n",
        "a; b 2; c { d 1; e 2 }\n",
        "(ty)node (u8)1 key=(t)\"v\"\n",
        "a 1\r\nb 2\r\n",
    ] {
        let doc = edikt::kdl_doc::parse(src, &FloatFacts::new()).unwrap();
        assert_eq!(doc.to_source(), src, "{src:?}");
    }
    assert!(edikt::kdl_doc::parse("a {", &FloatFacts::new()).is_err());
}

#[test]
fn kdl_values() {
    let src = "a\nb 1\nc 1 2\nd x=1\ne 1 x=2 { f 3; }\nr 1\nr 2\nn #null #true 1.5 \"s\"\n";
    assert_eq!(
        edikt::kdl_doc::parse(src, &FloatFacts::new()).unwrap().to_value().to_json(),
        r#"{"a":null,"b":1,"c":[1,2],"d":{"x":1},"e":{"-":1,"x":2,"f":3},"r":[1,2],"n":[null,true,1.5,"s"]}"#
    );
}

#[test]
fn a_wide_kdl_integer_is_a_float() {
    let mut facts = FloatFacts::new();
    let src = "a 9223372036854775808 -9223372036854775809\n";
    let doc = loop {
        match edikt::kdl_doc::parse(src, &facts) {
            Ok(d) => break d,
            Err(e) => supply(&mut facts, e.need.as_ref().unwrap()),
        }
    };
    assert_eq!(
        doc.to_value(),
        Value::Object(vec![(
            "a".into(),
            Value::Array(vec![fl(9223372036854775808.0), fl(-9223372036854775809.0)])
        )])
    );
    assert_eq!(doc.to_source(), src);
}

#[test]
fn kdl_sets() {
    assert_eq!(edit("a 1 // x\n", ".a = 2"), "a 2 // x\n");
    assert_eq!(edit("a 1\n", ".a = [1, 2]"), "a 1 2\n");
    assert_eq!(edit("a 1 2 3\n", ".a = [4]"), "a 4\n");
    assert_eq!(edit("a 1 2\n", ".a[1] = 9"), "a 1 9\n");
    assert_eq!(edit("a 1 2\n", ".a += [3]"), "a 1 2 3\n");
    assert_eq!(edit("a 1 x=1\n", ".a.x = 2"), "a 1 x=2\n");
    assert_eq!(edit("a 1 x=1\n", ".a.\"-\" = 5"), "a 5 x=1\n");
    assert_eq!(edit("r 1\nr 2\n", ".r[1] = 3"), "r 1\nr 3\n");
    assert_eq!(edit("r 1\nr 2\nz 1\n", ".r = [1, 2, 3]"), "r 1\nr 2 3\nz 1\n".replace("r 2 3", "r 2\nr 3"));
    assert_eq!(edit("a 1\n", ".b = {c: 1, d: {e: [1, 2]}}"), "a 1\nb {\n    c 1\n    d {\n        e 1 2\n    }\n}\n");
    assert_eq!(edit("a {\n  b 1\n}\n", ".a.c = 2"), "a {\n  b 1\n  c 2\n}\n");
    assert_eq!(edit("a { b 1; c 2 }\n", ".a.d = 3"), "a { b 1; c 2; d 3}\n".replace("d 3}", "d 3 }"));
    assert_eq!(edit("a\n", ".a.b = 1"), "a {\n    b 1\n}\n");
    assert_eq!(edit("a 1\r\n", ".b = 2"), "a 1\r\nb 2\r\n");
    assert_eq!(edit("a 1\n", ".b = 1.5"), "a 1\nb 1.5\n");
    assert_eq!(edit("a 1\n", ".a = \"two words\""), "a \"two words\"\n");
    assert_eq!(edit("", ".a = null"), "a\n");
}

#[test]
fn kdl_refusals() {
    assert_eq!(refusal("a 1\n", ".b.c = 1"), "no node `b`");
    assert_eq!(refusal("a { b 1; }\n", ".a = 1"), "replacing the whole body of `a` is not supported; set its keys instead");
    assert_eq!(refusal("a 1\n", ".a.b = 1"), "`a` holds arguments, not children; cannot create `b` inside it");
    assert_eq!(refusal("a 1\n", ".a = {b: 1}"), "a KDL argument/property holds a scalar, not object");
    assert_eq!(refusal("a 1\n", ".a[3] = 1"), "argument index out of range");
    assert_eq!(refusal("a x=1\n", ".a.x.y = 1"), "property `x` is a scalar");
    assert_eq!(refusal("r 1\nr 2\n", ".r = 1"), "`r` is repeated: address one occurrence (.r[i])");
    assert_eq!(refusal("r 1\nr 2\n", ".r.x = 1"), "`r` is repeated: address one occurrence (.r[i])");
    assert_eq!(refusal("r 1\nr 2\n", ".r[5] = 1"), "`r` index out of range");
    assert_eq!(
        refusal("r 1\nr 2\n", ".r = [9]"),
        "replacing the repeated `r` nodes wholesale is not supported; append with `+=` or address one occurrence (.r[i])"
    );
    assert_eq!(refusal("a 1 2\n", ".a[] = 1"), "`[]` in assignment paths is not supported for KDL");
    assert_eq!(refusal("a 1\n", ". = 1"), "cannot set the whole document");
    assert_eq!(refusal("a 1\n", ".[0] = 1"), "KDL assignment paths start with a node name");
    assert_eq!(refusal("a 1\n", "del(.)"), "del(.) is not allowed");
    assert_eq!(refusal("a 1\n", ".z |= 1"), "path not found");
    assert_eq!(refusal("a 1\n", ".b = [[[1]]]"), "a KDL argument/property holds a scalar, not array");
}

#[test]
fn kdl_deletes() {
    assert_eq!(edit("a 1\nb 2\n", "del(.a)"), "b 2\n");
    assert_eq!(edit("a 1 2 3\n", "del(.a[1])"), "a 1 3\n");
    assert_eq!(edit("a 1 2 x=1\n", "del(.a.\"-\")"), "a x=1\n");
    assert_eq!(edit("a 1 x=1\n", "del(.a.x)"), "a 1\n");
    assert_eq!(edit("a {\n    b 1\n    c 2\n}\n", "del(.a.b)"), "a {\n    c 2\n}\n");
    assert_eq!(edit("r 1\nr 2\nr 3\n", "del(.r[1])"), "r 1\nr 3\n");
    assert_eq!(edit("r 1\nr 2\nz 1\n", "del(.r[])"), "z 1\n");
    assert_eq!(edit("a 1 2\n", "del(.a[])"), "a\n");
    for miss in ["del(.z)", "del(.z.q)", "del(.a[9])", "del(.a.q)"] {
        assert_eq!(edit("a 1\n", miss), "a 1\n", "{miss}");
    }
}

#[test]
fn kdl_comments() {
    let src = "// head\na 1 // inline\nb {\n    /* block */\n    c 2\n}\n// foot\n";
    let doc = edikt::kdl_doc::parse(src, &FloatFacts::new()).unwrap();
    assert!(doc.has_comments());
    assert!(!edikt::kdl_doc::parse("url \"https://x\"\n", &FloatFacts::new()).unwrap().has_comments());
    let c = doc.to_commented().unwrap();
    assert_eq!(c.to_value(), doc.to_value());
    let CommentedNode::Object(m) = &c.node else { panic!() };
    assert_eq!(m[0].1.comments.head, vec!["head"]);
    assert_eq!(m[0].1.comments.inline.as_deref(), Some("inline"));
    let CommentedNode::Object(b) = &m[1].1.node else { panic!() };
    assert_eq!(b[0].1.comments.head, vec!["block"]);
    assert_eq!(b[0].1.comments.foot, vec!["foot"]);
}

#[test]
fn kdl_comment_edits() {
    let src = "a 1\nb {\n    c 2\n}\nr 1\nr 2\n";
    assert_eq!(note(src, ".a", CommentKind::Head, "x").unwrap(), src.replace("a 1", "// x\na 1"));
    assert_eq!(note(src, ".a", CommentKind::Inline, "x").unwrap(), src.replace("a 1", "a 1 // x"));
    assert_eq!(note(src, ".b.c", CommentKind::Inline, "x").unwrap(), src.replace("c 2", "c 2 // x"));
    assert_eq!(note(src, ".r[1]", CommentKind::Head, "x").unwrap(), src.replace("r 2", "// x\nr 2"));
    assert_eq!(unnote("// h\na 1 // i\n", ".a", CommentKind::Head).unwrap(), "a 1 // i\n");
    assert_eq!(unnote("// h\na 1 // i\n", ".a", CommentKind::Inline).unwrap(), "// h\na 1 \n");
    for miss in [".z", ".a.z", ".a[1]", ".b[1]", ".b[0][0]", ".r[7]", ".r[0][1]", ".r[0].z"] {
        assert_eq!(unnote(src, miss, CommentKind::Head).unwrap(), src, "{miss}");
    }
    let src_with_entries = "n 1 2 x=3\nm 4 y=5 {\n    c 2\n}\n";
    let childless = "has no child nodes (comments attach to nodes)";
    let refusals = [
        (".n.x", format!("`n` {childless}")),
        (r#".n.["-"]"#, format!("`n` {childless}")),
        (r#".n.["-"][1]"#, format!("`n` {childless}")),
        (".n[0][1]", format!("`n` {childless}")),
        (".n[1]", "`n` index out of range".to_string()),
        (".m.y", "no node `y`".to_string()),
        (r#".m.["-"][0]"#, "no node `-`".to_string()),
    ];
    for (p, msg) in refusals {
        for kind in [CommentKind::Head, CommentKind::Inline] {
            assert_eq!(unnote(src_with_entries, p, kind).unwrap_err().to_string(), msg, "{p}");
        }
    }
    for miss in [".n.z", ".n[2]", r#".n.["-"][2]"#, ".n.x.y", ".m.z", ".m[0][1]"] {
        assert_eq!(unnote(src_with_entries, miss, CommentKind::Head).unwrap(), src_with_entries, "{miss}");
    }
    let err = |p: &str, k: CommentKind| note(src, p, k, "x").unwrap_err().to_string();
    assert_eq!(err(".z", CommentKind::Head), "no node `z`");
    assert_eq!(err(".a.z", CommentKind::Head), "`a` has no child nodes (comments attach to nodes)");
    assert_eq!(err(".r", CommentKind::Head), "`r` is repeated: address one occurrence (.r[i])");
    assert_eq!(err(".r[7]", CommentKind::Head), "`r` index out of range");
    assert_eq!(err(".", CommentKind::Head), "document-level (`.#`) comment editing for KDL is a follow-up");
    assert_eq!(err(".a", CommentKind::Foot), "setting a foot comment isn't supported for KDL yet");
    assert_eq!(
        unnote(src, ".a", CommentKind::Foot).unwrap_err().to_string(),
        "deleting a foot comment isn't supported for KDL yet"
    );
}

#[test]
fn kdl_emits() {
    let v = read("a 1 2\nb { c \"x y\"; d x=1 }\nr { k 1; }\nr { k 2; }\n", ".").remove(0);
    let (text, warnings) = edikt::kdl_doc::emit(&v).unwrap();
    assert_eq!(
        text,
        "a 1 2\nb {\n    c \"x y\"\n    d {\n        x 1\n    }\n}\nr {\n    k 1\n}\nr {\n    k 2\n}\n"
    );
    assert!(warnings.is_empty());
    assert_eq!(
        edikt::kdl_doc::emit(&Value::Int(1)).unwrap_err().to_string(),
        "KDL output requires a top-level object (a document is a list of nodes)"
    );
    let mut c = Commented::from_value(&read("a 1\nb { c 2; }\n", ".").remove(0));
    let CommentedNode::Object(m) = &mut c.node else { panic!() };
    m[0].1.comments.head = vec!["on a".into()];
    let CommentedNode::Object(b) = &mut m[1].1.node else { panic!() };
    b[0].1.comments.head = vec!["on c".into()];
    b[0].1.comments.inline = Some("two".into());
    c.comments.foot = vec!["end".into()];
    let (text, _) = edikt::kdl_doc::emit_commented(&c).unwrap();
    assert_eq!(text, "// on a\na 1\nb {\n    // on c\n    c 2 // two\n}\n// end\n");
}
