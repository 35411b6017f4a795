//! What holds of the library as a whole.
#[allow(unused_imports)]
use edikt::error::{EditError, EvalError};
#[allow(unused_imports)]
use edikt::float::{Arith, Float, FloatFacts, FloatNeed};
#[allow(unused_imports)]
use edikt::model::{
    BinOp, CommentKind, Commented, CommentedNode, Comments, Expr, Step, Value,
};
#[allow(unused_imports)]
use edikt::document::Document;

#[allow(dead_code)]
fn number(x: f64) -> Float {
    Float { bits: x.to_bits(), text: x.to_string() }
}

#[allow(dead_code)]
fn fl(x: f64) -> Value {
    Value::Float(number(x))
}

/// Work out a floating-point result the library asked for.
#[allow(dead_code)]
fn supply(facts: &mut FloatFacts, need: &FloatNeed) {
    match need {
        FloatNeed::Parse(t) => {
            let x = match t.strip_prefix("0x") {
                Some(h) => u128::from_str_radix(h, 16).ok().map(|n| n as f64),
                None => t.parse::<f64>().ok(),
            };
            facts.parsed.push((t.clone(), x.map(number)));
        }
        FloatNeed::Compute(op, a, b) => {
            let (x, y) = (f64::from_bits(*a), f64::from_bits(*b));
            let r = match op {
                Arith::Add => x + y,
                Arith::Sub => x - y,
                Arith::Mul => x * y,
                Arith::Div => x / y,
                Arith::Rem => x % y,
            };
            facts.computed.push((*op, *a, *b, number(r)));
        }
    }
}

#[allow(dead_code)]
fn parse_expr(src: &str) -> Result<Expr, edikt::parser::ParseError> {
    let mut facts = FloatFacts::new();
    loop {
        match edikt::parser::parse(src, &facts) {
            Err(e) => match &e.need {
                Some(need) => supply(&mut facts, need),
                None => return Err(e),
            },
            Ok(x) => return Ok(x),
        }
    }
}

#[allow(dead_code)]
fn eval(expr: &Expr, input: &Value) -> Result<Vec<Value>, EvalError> {
    let mut facts = FloatFacts::new();
    loop {
        match edikt::eval::eval(expr, input, &facts) {
            Err(e) => match &e.need {
                Some(need) => supply(&mut facts, need),
                None => return Err(e),
            },
            Ok(x) => return Ok(x),
        }
    }
}

fn run(expr: &str, json: &str) -> Vec<String> {
    let input = edikt::jsonc::parse(json, &FloatFacts::new()).unwrap().to_value();
    eval(&parse_expr(expr).unwrap(), &input).unwrap().iter().map(|v| v.to_json()).collect()
}

#[test]
fn what_is_assigned_reads_back() {
    let doc = r#"{"a":{"b":1,"c":2}}"#;
    assert_eq!(run(".a.b = 5 | .a.b", doc), ["5"]);
    assert_eq!(run(".a.b = 5 | .a.c", doc), ["2"]);
    assert_eq!(run(".x.y = [] | .x.y", doc), ["[]"]);
}

#[test]
fn what_is_deleted_is_gone() {
    let doc = r#"{"a":{"b":1,"c":2}}"#;
    assert_eq!(run("del(.a.b) | .a.b", doc), Vec::<String>::new());
    assert_eq!(run("del(.z)", doc), [doc]);
    assert_eq!(run("del(.a.z)", doc), [doc]);
}

#[test]
fn keys_come_in_order() {
    assert_eq!(run("keys", r#"{"b":1,"a":2,"c":3}"#), [r#"["a","b","c"]"#]);
}

#[test]
fn order_flips_with_its_sides() {
    let values = [Value::Null, Value::Bool(true), Value::Int(1), fl(1.5), Value::from("x")];
    for a in &values {
        assert_eq!(a.order(a), std::cmp::Ordering::Equal);
        for b in &values {
            assert_eq!(a.order(b), b.order(a).reverse());
        }
    }
}

#[test]
fn lines_and_marks_round_trip() {
    let src = "\u{FEFF}a\r\nb\n\nc";
    let (bom, body) = edikt::text::split_bom(src);
    assert!(bom);
    assert_eq!(edikt::text::with_bom(bom, body.to_string()), src);
    assert_eq!(edikt::lines::split_lines(body), ["a\r\n", "b\n", "\n", "c"]);
    assert_eq!(edikt::lines::concat(&edikt::lines::split_lines(body)), body);
}

#[test]
fn comments_keep_the_value() {
    let src = "# h\nA=1\n# f\n";
    let doc = edikt::env::parse(src).unwrap();
    assert_eq!(doc.to_commented().unwrap().to_value(), doc.to_value());
}

#[test]
fn a_set_value_reads_back_in_every_format() {
    let mut env = edikt::env::parse("A=1\nB=2\n").unwrap();
    env.set("A", &Value::from("x")).unwrap();
    assert!(env.value_at("A").unwrap().identical(&Value::from("x")));
    assert!(env.value_at("B").unwrap().identical(&Value::from("2")));
    let path = |s: &str| parse_expr(s).unwrap().as_path().unwrap().clone();
    let v = Value::from(vec![1i64, 2]);
    let mut json = edikt::jsonc::parse("{\"a\": 1, \"b\": 2}", &FloatFacts::new()).unwrap();
    json.set(&path(".a"), &v).unwrap();
    assert!(json.value_at(&path(".a")).unwrap().identical(&v));
    assert!(json.value_at(&path(".b")).unwrap().identical(&Value::from(2)));
    let mut toml = edikt::toml::parse("a = 1\nb = 2\n").unwrap();
    toml.set(&path(".a"), &v).unwrap();
    assert!(toml.value_at(&path(".a")).unwrap().identical(&v));
    assert!(toml.value_at(&path(".b")).unwrap().identical(&Value::from(2)));
    toml.delete(&path(".a")).unwrap();
    assert!(toml.value_at(&path(".a")).is_none());
    let mut kdl = edikt::kdl_doc::parse("a 1\nb 2\n", &FloatFacts::new()).unwrap();
    kdl.set(&path(".a"), &Value::from("x")).unwrap();
    assert!(kdl.value_at(&path(".a")).unwrap().identical(&Value::from("x")));
    let row = Value::Array(vec![Value::from("x"), Value::Int(2)]);
    kdl.set(&path(".b"), &row).unwrap();
    assert!(kdl.value_at(&path(".b")).unwrap().identical(&row));
    kdl.set(&path(".c"), &row).unwrap();
    assert!(kdl.value_at(&path(".c")).unwrap().identical(&row));
    let mut ini = edikt::ini::parse("[s]\nk = 1\n").unwrap();
    ini.set(&path(".s.k"), &Value::from("x")).unwrap();
    assert!(ini.value_at(&path(".s.k")).unwrap().identical(&Value::from("x")));
}

#[test]
fn comment_edits_keep_the_value() {
    let path = |s: &str| parse_expr(s).unwrap().as_path().unwrap().clone();
    for src in ["# h\nA=1\nB = 2", "A=1\n# f", "A=1\r\n# f\r\nB=2\r\n"] {
        for kind in [CommentKind::Head, CommentKind::Foot] {
            let mut doc = edikt::env::parse(src).unwrap();
            let before = doc.to_value();
            doc.set_comment_in_doc(0, &path(".A"), kind, "two\nlines = 3").unwrap();
            assert!(doc.to_value().identical(&before), "{}", doc.to_source());
            doc.delete_comment(&path(".A"), kind).unwrap();
            assert!(doc.to_value().identical(&before), "{}", doc.to_source());
        }
    }
    for kind in [CommentKind::Head, CommentKind::Inline, CommentKind::Foot] {
        for at in [".a", ".s", ".s.k"] {
            let mut doc = edikt::ini::parse("a = ; x\n[s]\n; n\nk = v ; w").unwrap();
            let before = doc.to_value();
            doc.set_comment_in_doc(0, &path(at), kind, "b = [c]").unwrap();
            assert!(doc.to_value().identical(&before), "{}", doc.to_source());
            doc.delete_comment(&path(at), kind).unwrap();
            assert!(doc.to_value().identical(&before), "{}", doc.to_source());
        }
    }
}

#[test]
fn lines_are_counted_from_the_start() {
    let src = "a\n\u{e9}\nb";
    assert_eq!(edikt::line_comment::line_index(src, 0), 0);
    assert_eq!(edikt::line_comment::line_index(src, 2), 1);
    assert_eq!(edikt::line_comment::line_index(src, 5), 2);
    assert_eq!(edikt::line_comment::line_index(src, 99), 2);
}

fn value(json: &str) -> Value {
    edikt::jsonc::parse(json, &FloatFacts::new()).unwrap().to_value()
}

#[test]
fn a_rendered_path_parses_back() {
    for src in [".", ".a", ".a.b[0]", ".a[-3][]", r#".["two words"].c"#, r#".["q\"\\"]"#, ".true.null"] {
        let e = parse_expr(src).unwrap();
        let steps = e.as_path().unwrap();
        let text = edikt::ast::render_path(steps);
        let back = parse_expr(&text).unwrap();
        assert_eq!(edikt::ast::render_path(back.as_path().unwrap()), text, "{src}");
        assert_eq!(back.as_path().unwrap().len(), steps.len());
    }
    assert_eq!(edikt::ast::render_path(&[Step::Field("a b".into()), Step::Index(-1)]), r#".["a b"][-1]"#);
    let all: String = (' '..='~').collect();
    let text = edikt::ast::render_path(&[Step::Field(all.clone()), Step::Iterate]);
    assert_eq!(text, format!(".[\"{}\"][]", all.replace('\\', "\\\\").replace('"', "\\\"")));
    let back = parse_expr(&text).unwrap();
    assert!(matches!(&back.as_path().unwrap()[0], Step::Field(k) if *k == all));
}

#[test]
fn order_is_transitive_and_goes_by_type() {
    let values = [
        value("null"),
        value("false"),
        value("true"),
        value("-1"),
        fl(0.5),
        value("2"),
        value(r#""a""#),
        value(r#""b""#),
        value("[1]"),
        value("[1, 2]"),
        value(r#"{"a": 1}"#),
        value(r#"{"a": 2}"#),
        value(r#"{"b": 0}"#),
    ];
    for i in 0..values.len() {
        for j in i + 1..values.len() {
            assert_eq!(values[i].order(&values[j]), std::cmp::Ordering::Less, "{i} {j}");
        }
    }
}

#[test]
fn clearing_a_placed_block_gives_the_text_back() {
    let st = edikt::line_comment::LineComment { markers: &["#"], delim: "# " };
    let place = |s: &str, t: usize, head: bool, text: Option<&str>| {
        edikt::line_comment::place_line_comment(s, t, head, "  ", &st, text)
    };
    for src in ["a\nb\nc", "a\r\nb\r\n", "a"] {
        let n = src.split_inclusive('\n').count();
        for t in 0..n {
            for head in [true, false] {
                let p = place(src, t, head, Some("some text"));
                assert_ne!(p, src);
                let more = p.split_inclusive('\n').count() - n;
                let t2 = if head { t + more } else { t };
                assert_eq!(place(&p, t2, head, None), src, "{src:?} {t} {head}");
            }
        }
    }
}

#[test]
fn expanded_paths_yield_the_outputs_one_by_one() {
    let v = value(r#"{"a": [{"x": 1, "y": 2}, {"x": 3}]}"#);
    let e = parse_expr(".a[][]").unwrap();
    let steps = e.as_path().unwrap();
    let outs = eval(&e, &v).unwrap();
    let paths = edikt::eval::expand_iter_paths(steps, &v).unwrap();
    assert_eq!(paths.len(), outs.len());
    for (p, out) in paths.iter().zip(&outs) {
        let one = eval(&parse_expr(&edikt::ast::render_path(p)).unwrap(), &v).unwrap();
        assert_eq!(one.len(), 1);
        assert!(one[0].identical(out));
    }
}

#[test]
fn lowered_deletions_run_back_to_front() {
    let v = value(r#"{"a": [1, 2, 3, 4]}"#);
    let e = parse_expr("del((.a[] | select(. > 1)), .a[2])").unwrap();
    let ms = edikt::paths::lower_mutation(&e, &v, &FloatFacts::new()).unwrap().unwrap();
    let paths: Vec<String> = ms
        .iter()
        .map(|m| match m {
            Expr::Call(_, args) => edikt::ast::render_path(args[0].as_path().unwrap()),
            _ => panic!(),
        })
        .collect();
    assert_eq!(paths, [".a[3]", ".a[2]", ".a[1]"]);
}

#[test]
fn descending_agrees_with_evaluating() {
    let src = "{\n  // n\n  \"a\": [1, {\"b\": 2}], // i\n  \"c\": null\n}";
    let c = edikt::jsonc::parse(src, &FloatFacts::new()).unwrap().to_commented().unwrap();
    for p in [".", ".a", ".a[]", ".a[1].b", ".c.d", ".z"] {
        let e = parse_expr(p).unwrap();
        let outs = eval(&e, &c.to_value()).unwrap();
        let nodes = c.descend(e.as_path().unwrap());
        assert_eq!(nodes.len(), outs.len(), "{p}");
        for (n, out) in nodes.iter().zip(&outs) {
            assert!(n.to_value().identical(out), "{p}");
        }
    }
}

#[test]
fn deleting_from_a_document_agrees_with_deleting_from_its_value() {
    let src = "{ \"a\": [1, /* c */ 2, 3], // d\n  \"b\": { \"k\": null, \"l\": [], } }";
    for p in [".a", ".b", ".a[0]", ".a[1]", ".a[-1]", ".b.k", ".b.l", ".z", ".a[9]"] {
        let mut doc = edikt::jsonc::parse(src, &FloatFacts::new()).unwrap();
        let want = eval(&parse_expr(&format!("del({p})")).unwrap(), &doc.to_value()).unwrap().remove(0);
        doc.delete(parse_expr(p).unwrap().as_path().unwrap()).unwrap();
        assert!(doc.to_value().identical(&want), "{p}");
        let text = doc.to_source();
        let back = edikt::jsonc::parse(&text, &FloatFacts::new());
        assert!(back.unwrap().to_value().identical(&want), "{p}: {text}");
    }
}

#[test]
fn assignments_leave_other_elements() {
    let doc = r#"{"a":[1,{"b":2},3]}"#;
    assert_eq!(run(".a[0] = 9 | .a[1].b", doc), ["2"]);
    assert_eq!(run(".a[1].b = 9 | .a[2]", doc), ["3"]);
}

#[test]
fn a_deleted_kdl_path_is_gone() {
    let path = |s: &str| parse_expr(s).unwrap().as_path().unwrap().clone();
    let mut doc = edikt::kdl_doc::parse("a x=1 {\n    b { c 1; }\n    d 2\n}\n", &FloatFacts::new()).unwrap();
    for p in [".a.b.c", ".a.x", ".a.d", ".a"] {
        assert!(doc.value_at(&path(p)).is_some(), "{p}");
        doc.delete(&path(p)).unwrap();
        assert!(doc.value_at(&path(p)).is_none(), "{p}");
    }
}

#[test]
fn a_replaced_value_parses_back() {
    let mut doc = edikt::jsonc::parse("{ a: 'x', \"b\": [1, 2] }", &FloatFacts::new()).unwrap();
    let path = |s: &str| parse_expr(s).unwrap().as_path().unwrap().clone();
    let v = value(r#"{"k": ["q\"\\\n\u0001", null, -7]}"#);
    doc.set(&path(".b[1]"), &v).unwrap();
    doc.set(&path(".a"), &Value::from("it's")).unwrap();
    let back = edikt::jsonc::parse(&doc.to_source(), &FloatFacts::new()).unwrap();
    assert!(back.to_value().identical(&doc.to_value()));
    assert!(back.value_at(&path(".b[1]")).unwrap().identical(&v));
}

#[test]
fn a_run_of_nodes_takes_the_elements_behind_it() {
    let path = |s: &str| parse_expr(s).unwrap().as_path().unwrap().clone();
    let mut doc = edikt::kdl_doc::parse("r 1\nx 0\nr 2\ny 0\n", &FloatFacts::new()).unwrap();
    let other = Value::Array(vec![Value::Int(1), Value::Int(5), Value::Int(3)]);
    assert!(doc.set(&path(".r"), &other).is_err());
    let all = Value::Array(vec![Value::Int(1), Value::Int(2), Value::Int(3), Value::from("t")]);
    doc.set(&path(".r"), &all).unwrap();
    assert!(doc.value_at(&path(".r")).unwrap().identical(&all));
}

#[test]
fn a_value_set_in_kdl_reads_back() {
    let path = |s: &str| parse_expr(s).unwrap().as_path().unwrap().clone();
    let src = "a 1 2 3\nb 1 2 x=\"p\" {\n    c 1\n}\nr 1\nr {\n    k 1\n}\nr 4 5\nf 0.0\n";
    let set = |p: &str, v: &Value| {
        let mut doc = edikt::kdl_doc::parse(src, &facts_for(&["0.0"])).unwrap();
        doc.set(&path(p), v).unwrap();
        doc.value_at(&path(p)).unwrap()
    };
    let object = value(r#"{"-": [1, 2], "p": "q", "n": {"m": null, "l": [1, "x"]}, "o": [{"a": 1}, {"b": true}]}"#);
    for p in [".z", ".b.z", ".r[1].z"] {
        for v in [object.clone(), fl(2.5), Value::Null, Value::from("s"), value("[1, \"x\"]")] {
            assert!(set(p, &v).identical(&v), "{p}");
        }
    }
    for p in [".a[1]", ".a[-1]", r#".b.["-"][0]"#, r#".b.["-"]"#, ".b.x", ".b.c", ".r[0]", ".r[2][1]", ".r[1].k", ".f"] {
        for v in [fl(2.5), Value::Int(7), Value::Null, Value::Bool(true), Value::from("s")] {
            assert!(set(p, &v).identical(&v), "{p}");
        }
    }
    // KDL does not tell the two zeros apart, so the one that is there stays.
    assert!(set(".f", &fl(-0.0)).identical(&fl(0.0)));
}

#[test]
fn an_object_written_as_kdl_reads_back() {
    let v = value(r#"{"a": 1, "b": {"-": "x", "c": [1, 2]}, "d": [{"e": 1}, "f"], "g": null}"#);
    let (text, _) = edikt::kdl_notes::emit(&v).unwrap();
    let doc = edikt::kdl_doc::parse(&text, &FloatFacts::new()).unwrap();
    assert!(doc.to_value().identical(&v), "{text}");
}

#[test]
fn a_comment_step_inside_a_created_path_is_refused() {
    let mut doc = edikt::jsonc::parse("{}", &FloatFacts::new()).unwrap();
    let steps = vec![Step::Field("a".into()), Step::Comment(CommentKind::Head)];
    assert_eq!(
        doc.set(&steps, &Value::Int(1)).unwrap_err().to_string(),
        "editing comments (`#`): the comment step must end the path and be edited on its own, e.g. `.foo.# = \"text\"`"
    );
}

fn facts_for(texts: &[&str]) -> FloatFacts {
    let mut facts = FloatFacts::new();
    for t in texts {
        supply(&mut facts, &FloatNeed::Parse(t.to_string()));
    }
    facts
}

#[test]
fn an_edited_commented_block_reads_back() {
    let src = "#!/bin/sh\n# /// s\n# a = 1\n# \n#\n# b = 2\n# ///\necho\n";
    let b = edikt::frontmatter::locate(src).unwrap();
    for edited in ["", "a = 1\n", "a = 1\n\n\nb = 3\n", "c = 1\n\nb = 2\n"] {
        let text = edikt::frontmatter::recomment(&b.source, edited);
        let back = edikt::frontmatter::locate(&format!("{}{text}{}", b.prefix, b.suffix)).unwrap();
        assert_eq!((back.block.as_str(), back.source), (edited, text));
        assert_eq!((&back.prefix, &back.suffix), (&b.prefix, &b.suffix));
    }
}

#[test]
fn grown_json_text_parses_back() {
    let path = |s: &str| parse_expr(s).unwrap().as_path().unwrap().clone();
    let same = |doc: &edikt::jsonc::Jsonc| {
        let back = edikt::jsonc::parse(&doc.to_source(), &FloatFacts::new()).unwrap();
        assert!(back.to_value().identical(&doc.to_value()), "{}", doc.to_source());
    };
    let v = value(r#"{"x": [1, {"y": null}], "z": {}}"#);
    for src in [
        "{}",
        "{ // c\n}",
        "{\r\n\r\n\t\"a\": 1 // c\n}",
        "{\r\n  \"a\": 1, // c\r\n}",
        "{\"a\": 1 /* c\n d */ }",
        "{\n/* c */ \"a\": {\n    \"b\": 2 }}",
    ] {
        for p in [".k", ".n.m", ".a", ".a.k"] {
            let mut doc = edikt::jsonc::parse(src, &FloatFacts::new()).unwrap();
            if doc.set(&path(p), &v).is_ok() {
                assert!(doc.value_at(&path(p)).unwrap().identical(&v));
                same(&doc);
            }
        }
    }
    for src in ["[]", "[ ]", "[ // c\n]", "[1 // c\n, 2]", "[\r\n  1, // c\n]", "[\r\n\r\n1 // c\n]", "[1,2,]"] {
        let mut doc = edikt::jsonc::parse(src, &FloatFacts::new()).unwrap();
        doc.append(&path("."), &vec![v.clone(), Value::Null]).unwrap();
        same(&doc);
    }
}
