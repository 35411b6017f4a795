//! JSON documents with comments.
#[allow(unused_imports)]
use edikt::error::{EditError, EvalError};
#[allow(unused_imports)]
use edikt::float::{Arith, Float, FloatFacts, FloatNeed};
#[allow(unused_imports)]
use edikt::model::{
    BinOp, CommentKind, Commented, CommentedNode, Comments, Expr, Step, Value,
};
#[allow(unused_imports)]
use edikt::document::Document;

#[allow(dead_code)]
fn number(x: f64) -> Float {
    Float { bits: x.to_bits(), text: x.to_string() }
}

#[allow(dead_code)]
fn fl(x: f64) -> Value {
    Value::Float(number(x))
}

/// Work out a floating-point result the library asked for.
#[allow(dead_code)]
fn supply(facts: &mut FloatFacts, need: &FloatNeed) {
    match need {
        FloatNeed::Parse(t) => {
            let x = match t.strip_prefix("0x") {
                Some(h) => u128::from_str_radix(h, 16).ok().map(|n| n as f64),
                None => t.parse::<f64>().ok(),
            };
            facts.parsed.push((t.clone(), x.map(number)));
        }
        FloatNeed::Compute(op, a, b) => {
            let (x, y) = (f64::from_bits(*a), f64::from_bits(*b));
            let r = match op {
                Arith::Add => x + y,
                Arith::Sub => x - y,
                Arith::Mul => x * y,
                Arith::Div => x / y,
                Arith::Rem => x % y,
            };
            facts.computed.push((*op, *a, *b, number(r)));
        }
    }
}

#[allow(dead_code)]
fn parse_expr(src: &str) -> Result<Expr, edikt::parser::ParseError> {
    let mut facts = FloatFacts::new();
    loop {
        match edikt::parser::parse(src, &facts) {
            Err(e) => match &e.need {
                Some(need) => supply(&mut facts, need),
                None => return Err(e),
            },
            Ok(x) => return Ok(x),
        }
    }
}

#[allow(dead_code)]
fn eval(expr: &Expr, input: &Value) -> Result<Vec<Value>, EvalError> {
    let mut facts = FloatFacts::new();
    loop {
        match edikt::eval::eval(expr, input, &facts) {
            Err(e) => match &e.need {
                Some(need) => supply(&mut facts, need),
                None => return Err(e),
            },
            Ok(x) => return Ok(x),
        }
    }
}

fn edit_doc(src: &str, expr: &str) -> (Result<(), EditError>, String) {
    let mut facts = FloatFacts::new();
    let e = parse_expr(expr).unwrap();
    loop {
        let mut doc = match edikt::jsonc::parse(src, &facts) {
            Err(e) => match &e.need {
                Some(need) => {
                    supply(&mut facts, need);
                    continue;
                }
                None => panic!("parse {src:?}: {e:?}"),
            },
            Ok(d) => d,
        };
        match edikt::jsonc::apply(&mut doc, &e, &facts) {
            Err(e) => match &e.need {
                Some(need) => supply(&mut facts, need),
                None => return (Err(e), doc.to_source()),
            },
            Ok(()) => return (Ok(()), doc.to_source()),
        }
    }
}

fn edit(src: &str, expr: &str) -> String {
    let (r, out) = edit_doc(src, expr);
    r.unwrap();
    out
}

#[allow(dead_code)]
fn read(src: &str, path: &str) -> Vec<Value> {
    let facts = FloatFacts::new();
    let _ = &facts;
    eval(&parse_expr(path).unwrap(), &edikt::jsonc::parse(src, &facts).unwrap().to_value()).unwrap()
}

fn note(src: &str, path: &str, kind: CommentKind, text: &str) -> Result<String, EditError> {
    let mut doc = edikt::jsonc::parse(src, &FloatFacts::new()).unwrap();
    let e = parse_expr(path).unwrap();
    doc.set_comment_in_doc(0, e.as_path().unwrap(), kind, text)?;
    Ok(doc.to_source())
}

fn unnote(src: &str, path: &str, kind: CommentKind) -> Result<String, EditError> {
    let mut doc = edikt::jsonc::parse(src, &FloatFacts::new()).unwrap();
    let e = parse_expr(path).unwrap();
    doc.delete_comment(e.as_path().unwrap(), kind)?;
    Ok(doc.to_source())
}

fn refusal(src: &str, expr: &str) -> String {
    let (r, out) = edit_doc(src, expr);
    assert_eq!(out, src, "a refused edit changes nothing");
    r.unwrap_err().to_string()
}

fn problem(src: &str) -> String {
    edikt::jsonc::parse(src, &FloatFacts::new()).err().unwrap().to_string()
}

#[test]
fn jsonc_text_is_kept() {
    for src in [
        "1",
        "// top\n{ \"a\": 1, /* x */ \"b\": [1, 2,], }\n// end\n",
        "{\r\n  \"a\": null\r\n}\r\n",
        "\u{FEFF}{}\n",
        "{a: 'x', $b: +1, c: [1, 2]}",
    ] {
        assert_eq!(edikt::jsonc::parse(src, &FloatFacts::new()).unwrap().to_source(), src);
    }
}

#[test]
fn jsonc_values() {
    assert_eq!(
        read("{a: 'it\\'s', \"b\": \"\\u00e9\\ud83d\\n\", c: 0x1F, d: +7, e: -0, f: true}", ".")
            .remove(0).to_json(),
        "{\"a\":\"it's\",\"b\":\"\u{e9}\\n\",\"c\":31,\"d\":7,\"e\":0,\"f\":true}"
    );
    let mut facts = FloatFacts::new();
    let doc = loop {
        match edikt::jsonc::parse("[1.5, .5, 5., 1e3, 0xFFFFFFFFFFFFFFFF, -Infinity, NaN]", &facts) {
            Ok(d) => break d,
            Err(e) => supply(&mut facts, e.need.as_ref().unwrap()),
        }
    };
    let Value::Array(items) = doc.to_value() else { panic!() };
    assert_eq!(
        items[..6],
        [fl(1.5), fl(0.5), fl(5.0), fl(1000.0), fl(18446744073709551615.0), fl(f64::NEG_INFINITY)]
    );
    let Value::Float(n) = &items[6] else { panic!() };
    assert!(f64::from_bits(n.bits).is_nan());
}

#[test]
fn jsonc_problems() {
    assert_eq!(problem(""), "invalid JSONC: no value found");
    assert_eq!(problem("// only\n"), "invalid JSONC: no value found");
    assert!(problem("{\"a\" 1}").contains("line 1, column 6"));
    assert!(problem("[1 2]").starts_with("invalid JSONC at line 1, column 4"));
    assert!(problem("{\n  \"a\": 1\n").contains("(unclosed `{` at line 1, column 1)"));
    assert!(problem("1 2").starts_with("invalid JSONC at line 1, column 3"));
    assert!(problem("{\"a\": @}").starts_with("invalid JSONC at line 1, column 7"));
}

#[test]
fn jsonc_sets() {
    let src = "{\n  // one\n  \"a\": 1, // x\n  \"b\": [1, 2],\n}\n";
    assert_eq!(edit(src, ".a = \"s\""), src.replace("\"a\": 1", "\"a\": \"s\""));
    assert_eq!(edit(src, ".b[-1] = {c: null}"), src.replace("[1, 2]", "[1, {\"c\":null}]"));
    assert_eq!(edit(src, ".c.d = 2"), src.replace("2],\n", "2],\n  \"c\": {\n    \"d\": 2\n  },\n"));
    assert_eq!(edit("{}", ".a.b = 1"), "{\"a\": {\"b\":1}}");
    assert_eq!(edit("{ \"a\": 1 }", ".b = [1, 2]"), "{ \"a\": 1, \"b\": [1,2] }");
    assert_eq!(edit("{\r\n  \"a\": 1\r\n}\r\n", ".b = 2"), "{\r\n  \"a\": 1,\r\n  \"b\": 2\r\n}\r\n");
    assert_eq!(edit("{\n  \"a\": 1 // x\n}", ".b = 2"), "{\n  \"a\": 1, // x\n  \"b\": 2\n}");
    assert_eq!(edit("{a: 1}", ".a = Infinity"), "{a: Infinity}");
    assert_eq!(edit("[1, 2, 3]", ".[] |= . * 2"), "[2, 4, 6]");
    assert_eq!(edit("[1, 2]", ".[] = 0"), "[0, 0]");
    assert_eq!(edit("{\"a\": 1.5}", ".a += 1"), "{\"a\": 2.5}");
    assert_eq!(edit("1", ". = [1]"), "[1]");
}

#[test]
fn jsonc_appends() {
    assert_eq!(edit("[1, 2]", ". += [3]"), "[1, 2, 3]");
    assert_eq!(edit("[1, 2,]", ". += [3]"), "[1, 2, 3,]");
    assert_eq!(edit("[]", ". += [1, 2]"), "[1, 2]");
    assert_eq!(edit("[ ]", ". += [null]"), "[ null ]");
    assert_eq!(edit("[\n]", ". += [1, 2]"), "[\n  1,\n  2\n]");
    assert_eq!(edit("{ }", ".a = 1"), "{ \"a\": 1 }");
    assert_eq!(edit("[ /* c */ ]", ". += [1]"), "[ /* c */ 1 ]");
    assert_eq!(edit("[\n  1, // x\n  2\n]", ". += [3, 4]"), "[\n  1, // x\n  2,\n  3,\n  4\n]");
    assert_eq!(edit("[\n  1,\n]", ". += [2]"), "[\n  1,\n  2,\n]");
    assert_eq!(edit("{\"a\": [1]}", ".a += []"), "{\"a\": [1]}");
}

#[test]
fn jsonc_refusals() {
    let src = "{\"a\": 1, \"l\": [1]}";
    assert_eq!(refusal(src, ".l[4] = 1"), "can only create object keys, not array indices");
    assert_eq!(refusal(src, ".a.b = 1"), "cannot create a key inside a non-object");
    assert_eq!(refusal(src, ".n[0] = 1"), "cannot create array elements by index");
    assert_eq!(refusal(src, ".z |= 1"), "path not found");
    assert_eq!(refusal(src, "del(.)"), "del(.) is not allowed");
    assert!(refusal(src, ".a = NaN").starts_with("cannot write Infinity/NaN here: this document is strict JSON"));
    assert!(refusal(src, ".b = [Infinity]").contains("strict JSON"));
    assert_eq!(refusal("{\"l\": []}", ".l[] = 1"), "cannot create through `[]`");
    assert_eq!(
        refusal(src, ".a"),
        "expected an assignment (`path = value`) or `del(path)`"
    );
}

#[test]
fn jsonc_deletes() {
    assert_eq!(edit("{\n  \"a\": 1,\n  \"b\": 2\n}", "del(.a)"), "{\n  \"b\": 2\n}");
    assert_eq!(edit("{\n  \"a\": 1,\n  \"b\": 2\n}", "del(.b)"), "{\n  \"a\": 1\n}");
    assert_eq!(edit("{\n  \"a\": 1,\n  \"b\": 2,\n}", "del(.b)"), "{\n  \"a\": 1,\n}");
    assert_eq!(edit("[1, 2, 3]", "del(.[0])"), "[2, 3]");
    assert_eq!(edit("[1, 2, 3]", "del(.[-1])"), "[1, 2]");
    // No comma is left dangling, whatever stands in front of the last element.
    assert_eq!(edit("[1, /*c*/ 2]", "del(.[1])"), "[1 /*c*/]");
    assert_eq!(edit("[1, // c\n 2]", "del(.[1])"), "[1 // c\n ]");
    assert_eq!(edit("{\"a\": 1, // c\n \"b\": 2}", "del(.b)"), "{\"a\": 1 // c\n }");
    assert_eq!(edit("[\n  1, // c\n  2\n]", "del(.[1])"), "[\n  1 // c\n]");
    assert_eq!(edit("[\r\n  1, // c\r\n  2\r\n]", "del(.[1])"), "[\r\n  1 // c\r\n]");
    assert_eq!(edit("[1 , 2 , 3]", "del(.[1])"), "[1 , 3]");
    assert_eq!(edit("[1 , 2]", "del(.[0])"), "[2]");
    assert_eq!(edit("[1, 2 /*c*/, 3]", "del(.[1])"), "[1 /*c*/, 3]");
    assert_eq!(edit("{\"a\": [1, 2, 3]}", "del(.a[])"), "{\"a\": []}");
    for miss in ["del(.z)", "del(.a[7])", "del(.z.y)", "del(.a.k)"] {
        assert_eq!(edit("{\"a\": [1]}", miss), "{\"a\": [1]}", "{miss}");
    }
}

#[test]
fn jsonc_comment_edits() {
    let src = "{\n  \"a\": 1,\n  \"b\": [\n    2\n  ]\n}\n";
    assert_eq!(note(src, ".a", CommentKind::Head, "x").unwrap(), src.replace("  \"a\"", "  // x\n  \"a\""));
    assert_eq!(note(src, ".a", CommentKind::Inline, "x").unwrap(), src.replace("1,", "1, // x"));
    assert_eq!(note(src, ".b[0]", CommentKind::Foot, "x").unwrap(), src.replace("    2\n", "    2\n    // x\n"));
    assert_eq!(note(src, ".b[0]", CommentKind::Inline, "x").unwrap(), src.replace("    2\n", "    2 // x\n"));
    let noted = "{\n  // h\n  \"a\": 1 // i\n}\n";
    assert_eq!(unnote(noted, ".a", CommentKind::Head).unwrap(), "{\n  \"a\": 1 // i\n}\n");
    assert_eq!(unnote(noted, ".a", CommentKind::Inline).unwrap(), "{\n  // h\n  \"a\": 1\n}\n");
    assert_eq!(unnote(noted, ".z", CommentKind::Head).unwrap(), noted);
    let err = |s: &str, p: &str, k: CommentKind| note(s, p, k, "x").unwrap_err().to_string();
    assert_eq!(
        err("{\"a\": 1}", ".a", CommentKind::Head),
        "adding a comment to a compact object needs layout expansion (a follow-up)"
    );
    assert_eq!(
        err("{\"a\": 1}", ".a", CommentKind::Inline),
        "adding an inline comment here needs layout expansion (a follow-up)"
    );
    assert_eq!(
        err(src, ".b", CommentKind::Inline),
        "an inline comment on a multi-line value isn't supported yet (a follow-up)"
    );
    assert_eq!(err(src, ".", CommentKind::Head), "document-level (`.#`) comment editing for JSONC is a follow-up");
    assert_eq!(err(src, ".z", CommentKind::Head), "no key `z`");
    assert_eq!(err(src, ".z.y", CommentKind::Head), "path not found");
    assert_eq!(err(src, ".b.y", CommentKind::Head), "comment target is not an object member");
    assert_eq!(err(src, ".[0]", CommentKind::Head), "comment target is not an array element");
    assert_eq!(err(src, ".b[7]", CommentKind::Head), "array index out of range");
    assert_eq!(err(src, ".b[]", CommentKind::Head), "comment paths address object keys or array elements");
}

#[test]
fn jsonc_comment_extraction_and_emission() {
    let src = "// top\n{\n  // head\n  a: 1, // inline\n  \"b\": [\n    2\n    // foot\n  ]\n} // root\n// end\n";
    let doc = edikt::jsonc::parse(src, &FloatFacts::new()).unwrap();
    let c = doc.to_commented().unwrap();
    assert_eq!(c.to_value(), doc.to_value());
    assert_eq!(c.comments.head, vec!["top"]);
    assert_eq!(c.comments.inline.as_deref(), Some("root"));
    assert_eq!(c.comments.foot, vec!["end"]);
    let CommentedNode::Object(m) = &c.node else { panic!() };
    assert_eq!(m[0].0, "a");
    assert_eq!(m[0].1.comments.head, vec!["head"]);
    assert_eq!(
        edikt::jsonc_comments::emit_commented(&c),
        src.replace("a:", "\"a\":")
    );
}

#[test]
fn jsonc_slices_are_the_documents_own_text() {
    let src = "{ \"a\": [ 1, { /* c */ \"k\": 2, } ] }";
    let doc = edikt::jsonc::parse(src, &FloatFacts::new()).unwrap();
    let at = |p: &str| doc.source_slice(parse_expr(p).unwrap().as_path().unwrap());
    assert_eq!(at(".a[1]"), vec!["{ /* c */ \"k\": 2, }"]);
    assert_eq!(at(".a[]"), vec!["1", "{ /* c */ \"k\": 2, }"]);
    assert!(at(".z").is_empty());
    assert_eq!(edikt::jsonc::emit(&Value::from(vec![1i64])), "[\n  1\n]\n");
}

#[test]
fn comment_queries() {
    let src = "{\n  // TODO a\n  \"a\": 1,\n  \"b\": 2 // done\n}\n";
    let c = edikt::jsonc::parse(src, &FloatFacts::new()).unwrap().to_commented().unwrap();
    let q = |e: &str| {
        edikt::comment_query::eval_with_comments(&parse_expr(e).unwrap(), &c, &FloatFacts::new())
            .unwrap()
            .iter()
            .map(|v| v.to_json())
            .collect::<Vec<_>>()
    };
    assert_eq!(q(".a.#"), vec![r#""TODO a""#]);
    assert_eq!(q(".b.#.inline"), vec![r#""done""#]);
    assert_eq!(
        q("comments"),
        vec![
            r#"{"path":".a","kind":"head","text":"TODO a"}"#,
            r#"{"path":".b","kind":"inline","text":"done"}"#,
        ]
    );
    assert_eq!(q("comments | select(.text | test(\"TODO\")) | .path"), vec![r#"".a""#]);
    assert_eq!(q(".a.# | ascii_upcase"), vec![r#""TODO A""#]);
    assert_eq!(q(".b"), vec!["2"]);
    assert!(edikt::comment_query::eval_with_comments(
        &parse_expr(".a + .b.#").unwrap(),
        &c,
        &FloatFacts::new()
    )
    .is_err());
}
