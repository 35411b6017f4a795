//! Syntax trees.
use edikt::env_syntax::Sk;
use edikt::float::FloatFacts;
use edikt::ini_syntax::Sk as IniSk;
use edikt::json_syntax::Sk as JsonSk;
use edikt::syntax::{leaf_node, to_source, Builder, Kinds, Lang};

/// The kinds of a tree's children.
fn kinds_below<K: Kinds>(node: &rowan::GreenNodeData) -> Vec<K> {
    node.children()
        .map(|c| match c {
            rowan::NodeOrToken::Node(n) => Lang::<K>::kind_from_raw(n.kind().0),
            rowan::NodeOrToken::Token(t) => Lang::<K>::kind_from_raw(t.kind().0),
        })
        .collect()
}

#[test]
fn kinds_round_trip_through_rowan() {
    let mut b = Builder::new();
    b.start_node(Sk::Root);
    b.trivia(Sk::Ws, "");
    b.trivia(Sk::Ws, "  ");
    b.token(Sk::ValStr, "hi");
    b.finish_node();
    let root = b.finish();
    assert_eq!(root.kind().0, Sk::Root.raw());
    assert_eq!(kinds_below::<Sk>(&root), [Sk::Ws, Sk::ValStr]);
    assert_eq!(to_source(&root), "  hi");
}

#[test]
fn leaf_node_is_empty_for_empty_text() {
    let leaf = leaf_node(Sk::Value, Sk::ValStr, "v");
    assert_eq!((leaf.kind().0, to_source(&leaf)), (Sk::Value.raw(), "v".to_string()));
    let empty = leaf_node(Sk::Value, Sk::ValStr, "");
    assert_eq!(empty.children().count(), 0);
}

#[test]
fn language_kind_mapping_roundtrips() {
    for k in [
        Sk::Ws,
        Sk::Newline,
        Sk::Comment,
        Sk::Key,
        Sk::Sep,
        Sk::ValStr,
        Sk::Error,
        Sk::Value,
        Sk::Entry,
        Sk::Root,
    ] {
        let raw = Lang::<Sk>::kind_to_raw(k);
        assert_eq!(Lang::<Sk>::kind_from_raw(raw), k);
    }
    for k in IniSk::all() {
        assert_eq!(Lang::<IniSk>::kind_from_raw(k.raw()), k);
    }
    for k in JsonSk::all() {
        assert_eq!(Lang::<JsonSk>::kind_from_raw(k.raw()), k);
    }
}

#[test]
fn syntax_accessor_exposes_the_tree() {
    let doc = edikt::env::parse("A=1\n# c\n").unwrap();
    let tree = doc.syntax();
    assert_eq!(to_source(&tree), "A=1\n# c\n");
    assert_eq!(kinds_below::<Sk>(&tree), [Sk::Entry, Sk::Comment, Sk::Newline]);
    let rowan::NodeOrToken::Node(entry) = tree.children().next().unwrap() else { panic!() };
    assert_eq!(kinds_below::<Sk>(entry), [Sk::Key, Sk::Sep, Sk::Value, Sk::Newline]);
}

#[test]
fn ini_trees_have_sections() {
    let src = "a = 1 ; x\n[s]  # y\n\nk=\u{e9}\n[";
    let tree = edikt::ini::parse(src).unwrap().syntax();
    assert_eq!(to_source(&tree), src);
    assert_eq!(kinds_below::<IniSk>(&tree), [IniSk::Section, IniSk::Section, IniSk::Section]);
    let rowan::NodeOrToken::Node(s) = tree.children().nth(1).unwrap() else { panic!() };
    assert_eq!(kinds_below::<IniSk>(s), [IniSk::Header, IniSk::Newline, IniSk::Entry]);
    let rowan::NodeOrToken::Node(h) = s.children().next().unwrap() else { panic!() };
    assert_eq!(
        kinds_below::<IniSk>(h),
        [IniSk::Open, IniSk::Name, IniSk::Close, IniSk::Ws, IniSk::Comment, IniSk::Newline]
    );
}

#[test]
fn json_trees_keep_every_token() {
    let src = "// top\n{ a: [1, 2], /* x */ \"b\": null }\n";
    let tree = edikt::jsonc::parse(src, &FloatFacts::new()).unwrap().syntax();
    assert_eq!(to_source(&tree), src);
    assert_eq!(kinds_below::<JsonSk>(&tree), [JsonSk::LineComment, JsonSk::Ws, JsonSk::Value, JsonSk::Ws]);
    let rowan::NodeOrToken::Node(v) = tree.children().nth(2).unwrap() else { panic!() };
    assert_eq!(kinds_below::<JsonSk>(v), [JsonSk::Object]);
    let rowan::NodeOrToken::Node(o) = v.children().next().unwrap() else { panic!() };
    assert_eq!(
        kinds_below::<JsonSk>(o),
        [JsonSk::LBrace, JsonSk::Ws, JsonSk::Member, JsonSk::Ws, JsonSk::BlockComment, JsonSk::Ws, JsonSk::Member, JsonSk::Ws, JsonSk::RBrace]
    );
    let rowan::NodeOrToken::Node(m) = o.children().nth(2).unwrap() else { panic!() };
    assert_eq!(kinds_below::<JsonSk>(m), [JsonSk::Ident, JsonSk::Colon, JsonSk::Ws, JsonSk::Value, JsonSk::Comma]);
}
