//! The frontmatter lens.
#[allow(unused_imports)]
use edikt::error::{EditError, EvalError};
#[allow(unused_imports)]
use edikt::float::{Arith, Float, FloatFacts, FloatNeed};
#[allow(unused_imports)]
use edikt::model::{
    BinOp, CommentKind, Commented, CommentedNode, Comments, Expr, Step, Value,
};
#[allow(unused_imports)]
use edikt::document::Document;
#[allow(unused_imports)]
use edikt::frontmatter::{locate, Front, Frontmatter, Inner, ParseError};

#[allow(dead_code)]
fn number(x: f64) -> Float {
    Float { bits: x.to_bits(), text: x.to_string() }
}

#[allow(dead_code)]
fn fl(x: f64) -> Value {
    Value::Float(number(x))
}

/// Work out a floating-point result the library asked for.
#[allow(dead_code)]
fn supply(facts: &mut FloatFacts, need: &FloatNeed) {
    match need {
        FloatNeed::Parse(t) => {
            let x = match t.strip_prefix("0x") {
                Some(h) => u128::from_str_radix(h, 16).ok().map(|n| n as f64),
                None => t.parse::<f64>().ok(),
            };
            facts.parsed.push((t.clone(), x.map(number)));
        }
        FloatNeed::Compute(op, a, b) => {
            let (x, y) = (f64::from_bits(*a), f64::from_bits(*b));
            let r = match op {
                Arith::Add => x + y,
                Arith::Sub => x - y,
                Arith::Mul => x * y,
                Arith::Div => x / y,
                Arith::Rem => x % y,
            };
            facts.computed.push((*op, *a, *b, number(r)));
        }
    }
}

#[allow(dead_code)]
fn parse_expr(src: &str) -> Result<Expr, edikt::parser::ParseError> {
    let mut facts = FloatFacts::new();
    loop {
        match edikt::parser::parse(src, &facts) {
            Err(e) => match &e.need {
                Some(need) => supply(&mut facts, need),
                None => return Err(e),
            },
            Ok(x) => return Ok(x),
        }
    }
}

#[allow(dead_code)]
fn eval(expr: &Expr, input: &Value) -> Result<Vec<Value>, EvalError> {
    let mut facts = FloatFacts::new();
    loop {
        match edikt::eval::eval(expr, input, &facts) {
            Err(e) => match &e.need {
                Some(need) => supply(&mut facts, need),
                None => return Err(e),
            },
            Ok(x) => return Ok(x),
        }
    }
}

/// The text after an edit of the block.
fn src_of(input: &str, expr: &str) -> String {
    let e = parse_expr(expr).unwrap();
    let facts = FloatFacts::new();
    match parse(input).expect("parse frontmatter") {
        Front::Toml(mut d) => {
            d.apply(&e, &facts).expect("apply");
            d.to_source()
        }
        Front::Json(mut d) => {
            d.apply(&e, &facts).expect("apply");
            d.to_source()
        }
        Front::Yaml(_) => panic!("a YAML block"),
    }
}

fn parse(input: &str) -> Result<Front, ParseError> {
    edikt::frontmatter::parse(input, &FloatFacts::new())
}

fn source(d: &Front) -> String {
    match d {
        Front::Toml(d) => d.to_source(),
        Front::Json(d) => d.to_source(),
        Front::Yaml(b) => format!("{}{}{}", b.prefix, b.block, b.suffix),
    }
}

fn inner_format(d: &Front) -> Option<&'static str> {
    match d {
        Front::Toml(d) => d.inner_format(),
        Front::Json(d) => d.inner_format(),
        Front::Yaml(b) => Some(b.lang.name()),
    }
}

fn query(input: &str, path: &str) -> Vec<Value> {
    let v = match parse(input).expect("parse frontmatter") {
        Front::Toml(d) => d.to_value(),
        Front::Json(d) => d.to_value(),
        Front::Yaml(_) => panic!("a YAML block"),
    };
    eval(&parse_expr(path).unwrap(), &v).unwrap()
}

const YAML_DOC: &str = "---\ntitle: Hello\nstatus: Drafted\n---\n# Body\n\nProse here.\n";

#[test]
fn toml_fence() {
    let doc = "+++\ntitle = \"T\"\n+++\nbody\n";
    assert_eq!(
        src_of(doc, r#".title = "U""#),
        "+++\ntitle = \"U\"\n+++\nbody\n"
    );
}

#[test]
fn tagged_json_fence() {
    let doc = "---json\n{\"a\": 1}\n---\nbody\n";
    assert_eq!(query(doc, ".a"), vec![Value::Int(1)]);
    assert_eq!(src_of(doc, ".a = 2"), "---json\n{\"a\": 2}\n---\nbody\n");
}

#[test]
fn bare_brace_json() {
    let doc = "{\n  \"title\": \"Hugo\"\n}\n\nBody text.\n";
    assert_eq!(query(doc, ".title"), vec![Value::Str("Hugo".into())]);
    let out = src_of(doc, r#".title = "Edited""#);
    assert_eq!(out, "{\n  \"title\": \"Edited\"\n}\n\nBody text.\n");
}

#[test]
fn bare_brace_ignores_braces_in_strings() {
    // A `}` inside a string value must not end the block early.
    let doc = "{\"re\": \"a}b\", \"n\": 1}\nbody\n";
    let d = parse(doc).unwrap();
    assert_eq!(source(&d), doc);
    assert_eq!(query(doc, ".n"), vec![Value::Int(1)]);
}

#[test]
fn no_frontmatter_errors() {
    let e = parse("# Just a heading\n\nno block here\n").err().unwrap();
    assert!(e.to_string().contains("no frontmatter block"), "{e:?}");
}

#[test]
fn unterminated_errors() {
    let e = parse("---\ntitle: X\n").err().unwrap();
    assert!(e.to_string().contains("unterminated"), "{e:?}");
}

#[test]
fn unknown_tag_errors() {
    let e = parse("---xml\n<a/>\n---\n").err().unwrap();
    assert!(
        e.to_string()
            .contains("unsupported frontmatter language tag"),
        "{e:?}"
    );
}

#[test]
fn bare_brace_handles_escaped_quote() {
    // An escaped quote inside a JSON string must not end the string early.
    let doc = "{\"s\": \"a\\\"}b\", \"n\": 1}\nbody\n";
    let d = parse(doc).unwrap();
    assert_eq!(source(&d), doc);
    assert_eq!(query(doc, ".n"), vec![Value::Int(1)]);
}

const PEP723: &str = "#!/usr/bin/env -S uv run\n# /// script\n# requires-python = \">=3.11\"\n# dependencies = [\n#   \"requests\",\n# ]\n# ///\n\nimport requests\n";

#[test]
fn commented_round_trips_untouched() {
    let doc = parse(PEP723).unwrap();
    assert_eq!(source(&doc), PEP723, "de-comment/re-comment is identity");
}

#[test]
fn commented_queries_the_block() {
    assert_eq!(
        query(PEP723, r#".["requires-python"]"#),
        vec![Value::Str(">=3.11".into())]
    );
}

#[test]
fn commented_edits_reapply_prefix_body_survives() {
    let out = src_of(PEP723, r#".["requires-python"] = ">=3.12""#);
    assert!(
        out.contains("# requires-python = \">=3.12\""),
        "prefix re-applied: {out}"
    );
    // Shebang, the other block lines, and the Python body are all intact.
    assert!(out.starts_with("#!/usr/bin/env -S uv run\n# /// script\n"));
    assert!(out.ends_with("# ///\n\nimport requests\n"));
    assert!(out.contains("#   \"requests\","), "array line kept: {out}");
}

#[test]
fn reports_inner_format() {
    // A query renders in the block's own format, so the lens must name it.
    assert_eq!(inner_format(&parse(YAML_DOC).unwrap()), Some("yaml"));
    assert_eq!(inner_format(&parse(PEP723).unwrap()), Some("toml"));
    assert_eq!(
        inner_format(&parse("+++\nx = 1\n+++\n").unwrap()),
        Some("toml")
    );
    assert_eq!(
        inner_format(&parse("---json\n{\"a\":1}\n---\n").unwrap()),
        Some("json")
    );
}

#[test]
fn commented_without_shebang() {
    let doc = "# /// script\n# x = 1\n# ///\nbody\n";
    assert_eq!(
        src_of(doc, ".x = 2"),
        "# /// script\n# x = 2\n# ///\nbody\n"
    );
}

#[test]
fn commented_blank_line_round_trips() {
    // A bare `#` blank line inside the block survives an edit elsewhere.
    let doc = "# /// script\n# a = 1\n#\n# b = 2\n# ///\n";
    let out = src_of(doc, ".a = 9");
    assert_eq!(out, "# /// script\n# a = 9\n#\n# b = 2\n# ///\n");
}

#[test]
fn commented_unterminated_errors() {
    let e = parse("# /// script\n# x = 1\n").err().unwrap();
    assert!(e.to_string().contains("unterminated commented"), "{e:?}");
}

#[test]
fn commented_malformed_line_errors() {
    let e = parse("# /// script\nnot a comment\n# ///\n").err().unwrap();
    assert!(e.to_string().contains("malformed commented"), "{e:?}");
}

#[test]
fn bare_triple_slash_is_not_an_opener() {
    // `# ///` with no name is a closer shape; on its own it is not
    // frontmatter, and detection falls through to the fenced path.
    let e = parse("# ///\n# x = 1\n").err().unwrap();
    assert!(e.to_string().contains("no frontmatter block"), "{e:?}");
}

#[test]
fn a_yaml_block_is_handed_back_with_its_surroundings() {
    let doc = "---\nk: 1\n---\n\nBefore rule.\n\n---\n\nAfter rule.\n";
    let b = locate(doc).unwrap();
    assert_eq!(b.prefix, "---\n");
    assert_eq!(b.block, "k: 1\n");
    assert_eq!(b.suffix, "---\n\nBefore rule.\n\n---\n\nAfter rule.\n");
    assert_eq!(b.lang, Inner::Yaml);
    let dots = locate("---\r\ntitle: X\r\n...\r\nbody\r\n").unwrap();
    assert_eq!(dots.prefix, "---\r\n");
    assert_eq!(dots.block, "title: X\r\n");
    assert_eq!(dots.suffix, "...\r\nbody\r\n");
    assert_eq!(source(&parse(YAML_DOC).unwrap()), YAML_DOC);
}

#[test]
fn a_lens_takes_any_document() {
    // The block of a `---` fence read as a flat key-value file.
    let b = locate("---\nA=1\n---\nbody\n").unwrap();
    let inner = edikt::env::parse(&b.block).unwrap();
    let mut d = Frontmatter::new(b, inner);
    let e = parse_expr(r#".A = "2" | .B = "3""#).unwrap();
    d.apply(&e, &FloatFacts::new()).unwrap();
    assert_eq!(d.to_source(), "---\nA=2\nB=3\n---\nbody\n");
}

#[test]
fn comments_go_into_the_block() {
    let doc = "+++\na = 1\n+++\nbody\n";
    let Front::Toml(mut d) = parse(doc).unwrap() else {
        panic!("expected TOML");
    };
    assert!(!d.has_comments());
    let path = vec![Step::Field("a".into())];
    d.set_comment_in_doc(0, &path, CommentKind::Inline, "one").unwrap();
    assert_eq!(d.to_source(), "+++\na = 1 # one\n+++\nbody\n");
    assert!(d.has_comments());
    d.delete_comment(&path, CommentKind::Inline).unwrap();
    assert_eq!(d.to_source(), doc);
}

#[test]
fn a_hash_with_a_space_is_a_blank_line_and_keeps_its_spelling() {
    let doc = "# /// s\n# a = 1\n# \n# b = 2\n#\n#  \n# c = 3\n# \n# ///\n";
    assert_eq!(locate(doc).unwrap().block, "a = 1\n\nb = 2\n\n \nc = 3\n\n");
    assert_eq!(source(&parse(doc).unwrap()), doc);
    assert_eq!(src_of(doc, ".b = 5"), doc.replace("b = 2", "b = 5"));
    assert_eq!(src_of(doc, ".a = 5 | .c = 6"), "# /// s\n# a = 5\n#\n# b = 2\n#\n#  \n# c = 6\n# \n# ///\n");
    assert_eq!(src_of(doc, "del(.b)").lines().nth(2), Some("# "));
}
