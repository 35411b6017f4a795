//! INI documents.
#[allow(unused_imports)]
use edikt::error::{EditError, EvalError};
#[allow(unused_imports)]
use edikt::float::{Arith, Float, FloatFacts, FloatNeed};
#[allow(unused_imports)]
use edikt::model::{
    BinOp, CommentKind, Commented, CommentedNode, Comments, Expr, Step, Value,
};
#[allow(unused_imports)]
use edikt::document::Document;

#[allow(dead_code)]
fn number(x: f64) -> Float {
    Float { bits: x.to_bits(), text: x.to_string() }
}

#[allow(dead_code)]
fn fl(x: f64) -> Value {
    Value::Float(number(x))
}

/// Work out a floating-point result the library asked for.
#[allow(dead_code)]
fn supply(facts: &mut FloatFacts, need: &FloatNeed) {
    match need {
        FloatNeed::Parse(t) => {
            let x = match t.strip_prefix("0x") {
                Some(h) => u128::from_str_radix(h, 16).ok().map(|n| n as f64),
                None => t.parse::<f64>().ok(),
            };
            facts.parsed.push((t.clone(), x.map(number)));
        }
        FloatNeed::Compute(op, a, b) => {
            let (x, y) = (f64::from_bits(*a), f64::from_bits(*b));
            let r = match op {
                Arith::Add => x + y,
                Arith::Sub => x - y,
                Arith::Mul => x * y,
                Arith::Div => x / y,
                Arith::Rem => x % y,
            };
            facts.computed.push((*op, *a, *b, number(r)));
        }
    }
}

#[allow(dead_code)]
fn parse_expr(src: &str) -> Result<Expr, edikt::parser::ParseError> {
    let mut facts = FloatFacts::new();
    loop {
        match edikt::parser::parse(src, &facts) {
            Err(e) => match &e.need {
                Some(need) => supply(&mut facts, need),
                None => return Err(e),
            },
            Ok(x) => return Ok(x),
        }
    }
}

#[allow(dead_code)]
fn eval(expr: &Expr, input: &Value) -> Result<Vec<Value>, EvalError> {
    let mut facts = FloatFacts::new();
    loop {
        match edikt::eval::eval(expr, input, &facts) {
            Err(e) => match &e.need {
                Some(need) => supply(&mut facts, need),
                None => return Err(e),
            },
            Ok(x) => return Ok(x),
        }
    }
}

fn edit_doc(src: &str, expr: &str) -> (Result<(), EditError>, String) {
    let mut facts = FloatFacts::new();
    let e = parse_expr(expr).unwrap();
    loop {
        let mut doc = edikt::ini::parse(src).unwrap();
        match edikt::ini::apply(&mut doc, &e, &facts) {
            Err(e) => match &e.need {
                Some(need) => supply(&mut facts, need),
                None => return (Err(e), doc.to_source()),
            },
            Ok(()) => return (Ok(()), doc.to_source()),
        }
    }
}

fn edit(src: &str, expr: &str) -> String {
    let (r, out) = edit_doc(src, expr);
    r.unwrap();
    out
}

#[allow(dead_code)]
fn read(src: &str, path: &str) -> Vec<Value> {
    let facts = FloatFacts::new();
    let _ = &facts;
    eval(&parse_expr(path).unwrap(), &edikt::ini::parse(src).unwrap().to_value()).unwrap()
}

fn note(src: &str, path: &str, kind: CommentKind, text: &str) -> Result<String, EditError> {
    let mut doc = edikt::ini::parse(src).unwrap();
    let e = parse_expr(path).unwrap();
    doc.set_comment_in_doc(0, e.as_path().unwrap(), kind, text)?;
    Ok(doc.to_source())
}

fn unnote(src: &str, path: &str, kind: CommentKind) -> Result<String, EditError> {
    let mut doc = edikt::ini::parse(src).unwrap();
    let e = parse_expr(path).unwrap();
    doc.delete_comment(e.as_path().unwrap(), kind)?;
    Ok(doc.to_source())
}

fn refusal(src: &str, expr: &str) -> String {
    let (r, out) = edit_doc(src, expr);
    assert_eq!(out, src, "a refused edit changes nothing");
    r.unwrap_err().to_string()
}

#[test]
fn ini_text_is_kept() {
    for src in [
        "",
        "a = 1\n",
        "; top\na=1 ; note\n\n[s]  # header\n  k : v\n\n",
        "[s]\r\nk = v\r\n",
        "\u{FEFF}a = 1\n",
        "a = 1\r\nb = 2\nc=3",
        "k = a;b#c\n",
        "a=1\n[",
    ] {
        assert_eq!(edikt::ini::parse(src).unwrap().to_source(), src, "{src:?}");
    }
}

#[test]
fn ini_values() {
    let v = read("top = 1\n[s]\nk : a b  ; note\nempty =\n[t]\n", ".").remove(0);
    assert_eq!(v.to_json(), r#"{"top":"1","s":{"k":"a b","empty":""},"t":{}}"#);
    for bad in ["nonsense\n", "[s]\nword\n", "[open\n"] {
        let e = edikt::ini::parse(bad).err().unwrap();
        assert_eq!(
            e.to_string(),
            "invalid INI: a line is neither a comment, section, nor key=value",
            "{bad:?}"
        );
    }
}

#[test]
fn ini_sets() {
    let src = "a=1\n\n[s]\nk = v ; note\n\n[t]\n";
    assert_eq!(edit(src, ".a = 2"), src.replace("a=1", "a=2"));
    assert_eq!(edit(src, ".s.k = \"w x\""), src.replace("k = v", "k = w x"));
    assert_eq!(edit(src, ".s.new = true"), src.replace("; note\n", "; note\nnew = true\n"));
    assert_eq!(edit(src, ".b = 3"), src.replace("a=1\n", "a=1\nb = 3\n"));
    assert_eq!(edit(src, ".t.x = 1"), format!("{src}x = 1\n"));
    assert_eq!(edit(src, ".u.x = 1"), format!("{src}\n[u]\nx = 1\n"));
    assert_eq!(edit("", ".u.x = 1"), "[u]\nx = 1\n");
    assert_eq!(edit("[s]\nk = 1", ".s.l = 2"), "[s]\nk = 1\nl = 2\n");
    assert_eq!(edit("[s]\r\nk = 1\r\n", ".s.l = 2"), "[s]\r\nk = 1\r\nl = 2\r\n");
    assert_eq!(edit("k = 1\n", ".k += \"2\""), "k = 12\n");
    // A value that was empty is kept apart from the comment behind it.
    assert_eq!(edit("k=;c\n", ".k = \"x\""), "k=x ;c\n");
    assert_eq!(edit("key = ; note\n", ".key = \"x\""), "key = x ; note\n");
    assert_eq!(read(&edit("key = ; note\n", ".key = \"x\""), ".key"), vec![Value::from("x")]);
    assert_eq!(edit("key = ; note\n", ".key = \"\""), "key = ; note\n");
    assert_eq!(edit("k = 1\n", ".k = null"), "k = null\n");
    assert_eq!(edit("k = 1\n", ".k = 1.5"), "k = 1.5\n");
}

#[test]
fn ini_refusals() {
    let src = "a = 1\n[s]\nk = v\n";
    assert_eq!(refusal(src, ".a = [1]"), "INI is flat and string-only; cannot store an array or object");
    assert_eq!(refusal(src, ".a = {b: 1}"), "INI is flat and string-only; cannot store an array or object");
    assert_eq!(
        refusal(src, ".a = \"x\\ny\""),
        "INI can't hold the value \"x\\ny\": a line break would split the line, and INI has no quoting"
    );
    assert_eq!(
        refusal(src, ".a = \" x\""),
        "INI can't hold the value \" x\": leading or trailing whitespace reads back trimmed, and INI has no quoting"
    );
    for bad in [".a = \";x\"", ".a = \"x #y\""] {
        assert!(refusal(src, bad).contains("starts an inline comment"));
    }
    assert!(refusal(src, ".\" k\" = 1").contains("leading or trailing whitespace reads back trimmed"));
    assert!(refusal(src, ".\"k\\nl\" = 1").contains("a line break would split the line"));
    assert!(refusal(src, ".\";k\" = 1").contains("is a comment"));
    assert!(refusal(src, ".\"[k\" = 1").contains("is a section header"));
    assert!(refusal(src, ".\"k=l\" = 1").contains("would end the key early"));
    assert!(refusal(src, ".\"s]\".k = 1").contains("`]` would close the header early"));
    assert!(refusal(src, ".\"s\\n\".k = 1").contains("a line break would split the header"));
    assert_eq!(refusal(src, ".a.b.c = 1"), "INI paths are `.key` or `.section.key`");
    assert_eq!(refusal(src, ".z |= 1"), "path not found");
    assert!(refusal(src, ".s[] |= 1").contains("`[]` in an assignment is not supported for INI"));
    assert!(refusal(src, ".a[] |= 1").contains("cannot iterate over string"));
}

#[test]
fn ini_deletes() {
    assert_eq!(edit("; h\na = 1\nb = 2\n", "del(.a)"), "; h\nb = 2\n");
    assert_eq!(edit("[s]\nk = 1 ; x\nl = 2\n", "del(.s.k)"), "[s]\nl = 2\n");
    for miss in ["del(.z)", "del(.s.z)", "del(.z.k)", "del(.a.b.c)"] {
        assert_eq!(edit("a = 1\n[s]\n", miss), "a = 1\n[s]\n", "{miss}");
    }
}

#[test]
fn ini_comment_edits() {
    let src = "a = 1\n\n[s]\nk = v\n";
    assert_eq!(note(src, ".a", CommentKind::Head, "x").unwrap(), format!("; x\n{src}"));
    assert_eq!(note(src, ".s.k", CommentKind::Head, "x").unwrap(), src.replace("k =", "; x\nk ="));
    assert_eq!(note(src, ".s.k", CommentKind::Foot, "x").unwrap(), format!("{src}; x\n"));
    assert_eq!(note(src, ".s", CommentKind::Head, "x").unwrap(), src.replace("[s]", "; x\n[s]"));
    assert_eq!(note(src, ".s", CommentKind::Inline, "x").unwrap(), src.replace("[s]", "[s]  ; x"));
    assert_eq!(
        note("a = 1 # old\r\nb = 2\r\n", ".a", CommentKind::Inline, "x").unwrap(),
        "a = 1  ; x\r\nb = 2\r\n"
    );
    assert_eq!(unnote("; h\na = 1 ; i\n", ".a", CommentKind::Head).unwrap(), "a = 1 ; i\n");
    assert_eq!(unnote("; h\na = 1 ; i\n", ".a", CommentKind::Inline).unwrap(), "; h\na = 1\n");
    for miss in [".z", ".s.z"] {
        assert_eq!(unnote(src, miss, CommentKind::Head).unwrap(), src);
    }
    let err = |p: &str| note(src, p, CommentKind::Head, "x").unwrap_err().to_string();
    assert_eq!(err("."), "document-level (`.#`) comment editing for INI is a follow-up");
    assert_eq!(err(".z"), "no key or section `z`");
    assert_eq!(err(".s.z"), "no such entry");
    assert_eq!(err(".s.k.l"), "INI comment paths are `.key`, `.section`, or `.section.key`");
}

#[test]
fn ini_comment_extraction() {
    let src = "; one\n# two\na = 1 ; three\n; four\n[s] # five\nk = v\n; six\n";
    let doc = edikt::ini::parse(src).unwrap();
    assert!(doc.has_comments());
    let c = doc.to_commented().unwrap();
    assert_eq!(c.to_value(), doc.to_value());
    let CommentedNode::Object(m) = &c.node else { panic!() };
    assert_eq!(m[0].1.comments.head, vec!["one", "two"]);
    assert_eq!(m[0].1.comments.inline.as_deref(), Some("three"));
    assert_eq!(m[1].1.comments.head, vec!["four"]);
    assert_eq!(m[1].1.comments.inline.as_deref(), Some("five"));
    let CommentedNode::Object(k) = &m[1].1.node else { panic!() };
    assert_eq!(k[0].1.comments.foot, vec!["six"]);
    let (text, warnings) = edikt::ini::emit_commented(&c).unwrap();
    assert_eq!(text, "; one\n; two\na = 1  ; three\n\n; four\n[s]  ; five\nk = v\n; six\n");
    assert!(warnings.is_empty());
}

#[test]
fn ini_emits() {
    let v = Value::Object(vec![
        ("a".into(), Value::Int(1)),
        ("s".into(), Value::Object(vec![
            ("k".into(), Value::Str("v".into())),
            ("l".into(), Value::Array(vec![Value::Int(1), Value::Bool(true)])),
        ])),
        ("b".into(), fl(1.5)),
    ]);
    let (text, warnings) = edikt::ini::emit(&v).unwrap();
    assert_eq!(text, "a = 1\nb = 1.5\n\n[s]\nk = v\nl.0 = 1\nl.1 = true\n");
    assert_eq!(warnings, vec!["nested/array values were flattened to dotted keys"]);
    assert_eq!(
        edikt::ini::emit(&Value::Int(1)).unwrap_err().to_string(),
        "INI output requires a top-level object"
    );
}
