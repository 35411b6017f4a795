//! TOML documents.
#[allow(unused_imports)]
use edikt::error::{EditError, EvalError};
#[allow(unused_imports)]
use edikt::float::{Arith, Float, FloatFacts, FloatNeed};
#[allow(unused_imports)]
use edikt::model::{
    BinOp, CommentKind, Commented, CommentedNode, Comments, Expr, Step, Value,
};
#[allow(unused_imports)]
use edikt::document::Document;

#[allow(dead_code)]
fn number(x: f64) -> Float {
    Float { bits: x.to_bits(), text: x.to_string() }
}

#[allow(dead_code)]
fn fl(x: f64) -> Value {
    Value::Float(number(x))
}

/// Work out a floating-point result the library asked for.
#[allow(dead_code)]
fn supply(facts: &mut FloatFacts, need: &FloatNeed) {
    match need {
        FloatNeed::Parse(t) => {
            let x = match t.strip_prefix("0x") {
                Some(h) => u128::from_str_radix(h, 16).ok().map(|n| n as f64),
                None => t.parse::<f64>().ok(),
            };
            facts.parsed.push((t.clone(), x.map(number)));
        }
        FloatNeed::Compute(op, a, b) => {
            let (x, y) = (f64::from_bits(*a), f64::from_bits(*b));
            let r = match op {
                Arith::Add => x + y,
                Arith::Sub => x - y,
                Arith::Mul => x * y,
                Arith::Div => x / y,
                Arith::Rem => x % y,
            };
            facts.computed.push((*op, *a, *b, number(r)));
        }
    }
}

#[allow(dead_code)]
fn parse_expr(src: &str) -> Result<Expr, edikt::parser::ParseError> {
    let mut facts = FloatFacts::new();
    loop {
        match edikt::parser::parse(src, &facts) {
            Err(e) => match &e.need {
                Some(need) => supply(&mut facts, need),
                None => return Err(e),
            },
            Ok(x) => return Ok(x),
        }
    }
}

#[allow(dead_code)]
fn eval(expr: &Expr, input: &Value) -> Result<Vec<Value>, EvalError> {
    let mut facts = FloatFacts::new();
    loop {
        match edikt::eval::eval(expr, input, &facts) {
            Err(e) => match &e.need {
                Some(need) => supply(&mut facts, need),
                None => return Err(e),
            },
            Ok(x) => return Ok(x),
        }
    }
}

fn edit_doc(src: &str, expr: &str) -> (Result<(), EditError>, String) {
    let mut facts = FloatFacts::new();
    let e = parse_expr(expr).unwrap();
    loop {
        let mut doc = edikt::toml::parse(src).unwrap();
        match edikt::toml::apply(&mut doc, &e, &facts) {
            Err(e) => match &e.need {
                Some(need) => supply(&mut facts, need),
                None => return (Err(e), doc.to_source()),
            },
            Ok(()) => return (Ok(()), doc.to_source()),
        }
    }
}

fn edit(src: &str, expr: &str) -> String {
    let (r, out) = edit_doc(src, expr);
    r.unwrap();
    out
}

#[allow(dead_code)]
fn read(src: &str, path: &str) -> Vec<Value> {
    let facts = FloatFacts::new();
    let _ = &facts;
    eval(&parse_expr(path).unwrap(), &edikt::toml::parse(src).unwrap().to_value()).unwrap()
}

fn note(src: &str, path: &str, kind: CommentKind, text: &str) -> Result<String, EditError> {
    let mut doc = edikt::toml::parse(src).unwrap();
    let e = parse_expr(path).unwrap();
    doc.set_comment_in_doc(0, e.as_path().unwrap(), kind, text)?;
    Ok(doc.to_source())
}

fn unnote(src: &str, path: &str, kind: CommentKind) -> Result<String, EditError> {
    let mut doc = edikt::toml::parse(src).unwrap();
    let e = parse_expr(path).unwrap();
    doc.delete_comment(e.as_path().unwrap(), kind)?;
    Ok(doc.to_source())
}

fn refusal(src: &str, expr: &str) -> String {
    let (r, out) = edit_doc(src, expr);
    assert_eq!(out, src, "a refused edit changes nothing");
    r.unwrap_err().to_string()
}

#[test]
fn toml_text_is_kept() {
    for src in [
        "",
        "a = 1\n",
        "a = 1",
        "# top\n\n[t] # header\n  k = 'v' # inline\n\n[[b]]\nx = 1\n\n[[b]]\nx = 2\n# end\n",
        "a.b = 1\na.c = { x = 1, y = [1, 2,] }\n",
        "a = 1\r\n[t]\r\nb = \"\"\"\r\nx\r\n\"\"\"\r\n",
        "a = 1\r\nb = 2\nc = 3\r\n",
        "\u{FEFF}a = 1\n",
        "d = 1979-05-27T07:32:00Z\nf = 1e3\nh = 0xFF\ni = inf\n",
    ] {
        let doc = edikt::toml::parse(src).unwrap();
        assert_eq!(doc.to_source(), src, "{src:?}");
    }
}

#[test]
fn toml_values() {
    let src = "s = 'x'\ni = 0xFF\nf = 1.5\nb = true\nd = 1979-05-27\na = [1, 'y']\nt = { k = 1 }\n[h]\nz = 2\n[[l]]\nq = 3\n[[l]]\n";
    assert_eq!(
        edikt::toml::parse(src).unwrap().to_value().to_json(),
        r#"{"s":"x","i":255,"f":1.5,"b":true,"d":"1979-05-27","a":[1,"y"],"t":{"k":1},"h":{"z":2},"l":[{"q":3},{}]}"#
    );
    assert!(edikt::toml::parse("a = \n").is_err());
    assert!(edikt::toml::parse("a = 1\na = 2\n").err().unwrap().to_string().contains("duplicate"));
}

#[test]
fn toml_creates_tables_in_the_surrounding_style() {
    assert_eq!(edit("a = 1\n", ".t.k = 2"), "a = 1\n\n[t]\nk = 2\n");
    assert_eq!(
        edit("edition.workspace = true\n", ".version.workspace = true"),
        "edition.workspace = true\nversion.workspace = true\n"
    );
    assert_eq!(edit("t = { a = 1 }\n", ".t.s.k = 2"), "t = { a = 1 , s = { k = 2 } }\n");
    assert_eq!(edit("", ".foo[0] = {a: 1}"), "[[foo]]\na = 1\n");
    assert_eq!(edit("", ".foo[0] = 1"), "foo = [1]\n");
    assert_eq!(edit("[[b]]\nx = 1\n", ".b[1].x = 2"), "[[b]]\nx = 1\n\n[[b]]\nx = 2\n");
    assert_eq!(edit("[[b]]\nx = 1\n", ".b[-1].x = 2"), "[[b]]\nx = 2\n");
    assert_eq!(edit("a = [{ x = 1 }]\n", ".a[0].x = 2"), "a = [{ x = 2 }]\n");
}

#[test]
fn toml_replaces_what_changes_type() {
    assert_eq!(edit("[t]\nk = 1\n", ".t = 5"), "t = 5\n");
    assert_eq!(edit("a = 1 # one\n", ".a = [1, {b: 2}]"), "a = [1, { b = 2 }] # one\n");
    assert_eq!(edit("a = 1\n", ".a = 1.5"), "a = 1.5\n");
    assert_eq!(edit("a = 1\n", ".a = 2.0 + 1.5"), "a = 3.5\n");
    assert_eq!(edit("a = 1\n", ".a = Infinity"), "a = inf\n");
    assert_eq!(edit("a = 1\n", ".a = NaN"), "a = nan\n");
    assert_eq!(edit("", ".a = \"say \\\"hi\\\"\""), "a = 'say \"hi\"'\n");
    assert_eq!(edit("", ".\"two words\" = 1"), "\"two words\" = 1\n");
}

#[test]
fn toml_refusals() {
    assert_eq!(refusal("a = 1\n", ".a = null"), "TOML has no null value");
    assert_eq!(refusal("a = 1\n", ".b = [1, null]"), "TOML has no null value");
    assert_eq!(refusal("a = 1\n", ".a.b = 1"), "`a` is not a table");
    assert_eq!(refusal("a = 1\n", ".a[0] = 1"), "`a` is not an array");
    assert_eq!(refusal("a = 1\n", ".b[0].c = 1"), "`b` does not exist");
    assert_eq!(refusal("a = 1\n", ".a[0].c = 1"), "`a` is not an array");
    assert_eq!(refusal("a = [1]\n", ".a[0].c = 1"), "`a[0]` is not a table");
    assert_eq!(
        refusal("a = [1]\n", ".a[5] = 1"),
        "array index 5 out of range (length 1); append with index 1"
    );
    assert_eq!(
        refusal("a = [1]\n", ".a[-2] = 1"),
        "array index -2 out of range (length 1); append with index 1"
    );
    assert_eq!(refusal("a = [[1]]\n", ".a[0][0] = 2"), "an array index needs an array key before it, e.g. `.foo[0]`");
    assert_eq!(refusal("a = [[{}]]\n", ".a[0][0].k = 2"), "`a[0]` is not a table");
    assert_eq!(refusal("t = { a = 1 }\n", ".t.b[0] = {c: 1}"), "`b` is not an array of tables");
    assert_eq!(refusal("a = 1\n", ". = 1"), "cannot set the whole document");
    assert_eq!(refusal("a = 1\n", ".b |= 1"), "path not found");
}

#[test]
fn toml_deletes() {
    assert_eq!(edit("a = 1 # x\nb = 2\n", "del(.a)"), "b = 2\n");
    assert_eq!(edit("[t]\na = 1\nb = 2\n", "del(.t.b)"), "[t]\na = 1\n");
    assert_eq!(edit("[t]\na = 1\n[u]\nb = 2\n", "del(.t)"), "[u]\nb = 2\n");
    assert_eq!(edit("a = [1, 2, 3]\n", "del(.a[1])"), "a = [1, 3]\n");
    assert_eq!(edit("a = [1, 2, 3]\n", "del(.a[])"), "a = []\n");
    assert_eq!(edit("[[b]]\nx = 1\n\n[[b]]\nx = 2\n", "del(.b[0])"), "\n[[b]]\nx = 2\n");
    assert_eq!(edit("[[b]]\nx = 1\ny = 1\n", "del(.b[0].x)"), "[[b]]\ny = 1\n");
    for miss in ["del(.z)", "del(.a.z)", "del(.a[9])", "del(.z[0].q)"] {
        assert_eq!(edit("a = [1]\n", miss), "a = [1]\n", "{miss}");
    }
    // Nested arrays have no tables on the way, so there is nothing to walk into.
    assert_eq!(edit("m = [[{ k = 1 }]]\n", "del(.m[0][0].k)"), "m = [[{ k = 1 }]]\n");
}

#[test]
fn toml_comment_extraction() {
    let src = "# head\na = 1 # inline\n# t head\n[t] # t inline\nl = [\n  # first\n  1, # one\n  2,\n  # foot\n]\n# trailer\n";
    let c = edikt::toml::parse(src).unwrap().to_commented().unwrap();
    let CommentedNode::Object(m) = &c.node else { panic!() };
    assert_eq!(m[0].1.comments.head, vec!["head"]);
    assert_eq!(m[0].1.comments.inline.as_deref(), Some("inline"));
    assert_eq!(m[1].1.comments.head, vec!["t head"]);
    assert_eq!(m[1].1.comments.inline.as_deref(), Some("t inline"));
    let CommentedNode::Object(t) = &m[1].1.node else { panic!() };
    let CommentedNode::Array(l) = &t[0].1.node else { panic!() };
    assert_eq!(l[0].comments.head, vec!["first"]);
    assert_eq!(l[0].comments.inline.as_deref(), Some("one"));
    assert_eq!(l[1].comments.foot, vec!["foot", "trailer"]);
    assert_eq!(c.to_value(), edikt::toml::parse(src).unwrap().to_value());
}

#[test]
fn toml_comment_edits() {
    let src = "a = 1\n\n[t]\nb = 2\n";
    assert_eq!(note(src, ".a", CommentKind::Head, "x").unwrap(), "# x\na = 1\n\n[t]\nb = 2\n");
    assert_eq!(note(src, ".a", CommentKind::Inline, "x\ny").unwrap(), "a = 1 # x y\n\n[t]\nb = 2\n");
    assert_eq!(note(src, ".t", CommentKind::Head, "x").unwrap(), "a = 1\n\n# x\n[t]\nb = 2\n");
    assert_eq!(note(src, ".t", CommentKind::Inline, "x").unwrap(), "a = 1\n\n[t] # x\nb = 2\n");
    assert_eq!(note(src, ".t.b", CommentKind::Head, "x").unwrap(), "a = 1\n\n[t]\n# x\nb = 2\n");
    assert_eq!(note("t = { k = 1 }\n", ".t", CommentKind::Head, "x").unwrap(), "# x\nt = { k = 1 }\n");
    assert_eq!(unnote("# h\na = 1 # i\n", ".a", CommentKind::Head).unwrap(), "a = 1 # i\n");
    assert_eq!(unnote("# h\na = 1 # i\n", ".a", CommentKind::Inline).unwrap(), "# h\na = 1\n");
    for miss in [".z", ".t.z", ".a.z"] {
        assert_eq!(unnote(src, miss, CommentKind::Head).unwrap(), src);
    }
    let err = |p: &str, k: CommentKind| note(src, p, k, "x").unwrap_err().to_string();
    assert_eq!(err(".z", CommentKind::Head), "no key `z`");
    assert_eq!(err(".a.z", CommentKind::Head), "no table `a`");
    assert_eq!(err(".", CommentKind::Head), "document-level (`.#`) comment editing for TOML is a follow-up");
    assert_eq!(err(".a", CommentKind::Foot), "setting a foot comment isn't supported for TOML yet");
    assert_eq!(err(".a[0].b", CommentKind::Head), "no table `a`");
    assert_eq!(
        note("[[b]]\nx = 1\n", ".b", CommentKind::Inline, "x").unwrap_err().to_string(),
        "`b` has no inline slot"
    );
    assert_eq!(
        note("[[b]]\nx = 1\n", ".b[0].x", CommentKind::Inline, "x").unwrap_err().to_string(),
        "no table `b`"
    );
}

#[test]
fn toml_emits() {
    let v = read("a = 1\n[t]\nb = [1, { c = 2 }]\n[t.u]\nd = 'x'\n", ".").remove(0);
    let (text, warnings) = edikt::toml::emit(&v).unwrap();
    assert_eq!(text, "a = 1\n\n[t]\nb = [1, { c = 2 }]\n\n[t.u]\nd = \"x\"\n");
    assert!(warnings.is_empty());
    assert_eq!(
        edikt::toml::emit(&Value::Int(1)).unwrap_err().to_string(),
        "TOML output requires a table (top-level object)"
    );
    assert_eq!(
        edikt::toml::emit(&Value::Object(vec![("a".into(), Value::Null)])).unwrap_err().to_string(),
        "TOML has no null value"
    );
}

#[test]
fn toml_emits_comments() {
    let src = "# head\na = 1 # inline\nl = [\n  # first\n  1, # one\n  2,\n]\n\n# t head\n[t]\nb = 2\n# end\n";
    let c = edikt::toml::parse(src).unwrap().to_commented().unwrap();
    let (text, warnings) = edikt::toml::emit_commented(&c).unwrap();
    assert_eq!(
        text,
        "# head\na = 1 # inline\nl = [\n  # first\n  1, # one\n  2,\n]\n# t head\n[t]\nb = 2\n# end\n"
    );
    assert!(warnings.is_empty());
    // A comment inside an inline table has no place there.
    let mut c = Commented::from_value(&read("l = [{ k = 1 }]\n", ".").remove(0));
    let CommentedNode::Object(m) = &mut c.node else { panic!() };
    let CommentedNode::Array(l) = &mut m[0].1.node else { panic!() };
    let CommentedNode::Object(k) = &mut l[0].node else { panic!() };
    k[0].1.comments.inline = Some("deep".into());
    let (text, warnings) = edikt::toml::emit_commented(&c).unwrap();
    assert_eq!(text, "l = [\n  # deep\n  { k = 1 },\n]\n");
    assert_eq!(
        warnings,
        vec!["comments inside inline values were moved above their entry (TOML allows none there)"]
    );
}

#[test]
fn toml_foot_lines_stand_above_what_is_written_next() {
    let mut c = Commented::from_value(&read("a = 1\n[t]\nb = 2\n", ".").remove(0));
    let CommentedNode::Object(m) = &mut c.node else { panic!() };
    m[0].1.comments.foot = vec!["below a".into()];
    m[1].1.comments.foot = vec!["below t".into()];
    let (text, _) = edikt::toml::emit_commented(&c).unwrap();
    assert_eq!(text, "a = 1\n# below a\n[t]\nb = 2\n# below t\n");
}

#[test]
fn toml_select_assign() {
    let src = "# bins\n[[bin]]\nname = \"server\"   # the daemon\npath = \"src/server.rs\"\n\n[[bin]]\nname = \"cli\"\npath = \"src/cli.rs\"\n";
    assert_eq!(
        edit(src, r#"(.bin[] | select(.name == "cli") | .path) = "src/main.rs""#),
        src.replace("src/cli.rs", "src/main.rs")
    );
    assert_eq!(
        edit(src, r#"(.bin[] | select(.name == "server") | .name) |= . + "d""#),
        src.replace("\"server\"", "\"serverd\"")
    );
    assert_eq!(edit(src, r#"(.bin[] | select(.name == "nope") | .path) = "x""#), src);
    assert_eq!(
        edit(src, r#"del(.bin[] | select(.name == "server"))"#),
        edit(src, "del(.bin[0])")
    );
}

#[test]
fn toml_features_name_what_it_holds() {
    let doc = edikt::toml::parse("a = 1 # x\n").unwrap();
    assert!(doc.has_comments());
    assert!(!edikt::toml::parse("a = 'v #1'\n").unwrap().has_comments());
    assert!(doc.features().contains(&edikt::feature::Feature::NonFinite));
    assert_eq!(
        edikt::toml::comment_kinds(),
        vec![CommentKind::Head, CommentKind::Inline, CommentKind::Foot]
    );
}

#[test]
fn toml_dates_stay_dates() {
    let src = "d = 1979-05-27 # born\nl = [07:32:00, 'x']\n";
    assert_eq!(edit(src, ".e = 1"), format!("{src}e = 1\n"));
    assert_eq!(edit(src, ".l += [\"y\"]"), "d = 1979-05-27 # born\nl = [07:32:00, 'x', \"y\"]\n");
    assert_eq!(edit("d = 1979-05-27\n", ".d = \"1979-05-28\""), "d = \"1979-05-28\"\n");
    assert_eq!(edit("d = 1979-05-27\n", ".d = .d"), "d = 1979-05-27\n");
}
