//! How edited TOML is spelled: a string in the quotes of the one it replaces, an
//! appended element in the layout of its array.
use crate::model::{opt_text, vals, Val, Value};
use crate::seqs::Rank;
use crate::strs::{cat, chars_of, code, slice_text, text_of};
use crate::toml_items::{read_string, string_read};
use crate::toml_nodes::{nd_val, table_nd, table_node, value_nd, value_node};
use crate::toml_tree::{decor_in, group_toml_views, nds, with_decor, Dc, Decor, Fill, Fl, Nd, Node};
use crate::value::val_rank;
use vstd::prelude::*;

verus! {

broadcast use group_toml_views;

/// A control character a TOML string can't hold raw (tab is allowed).
pub open spec fn control(c: char) -> bool {
    ((c as int) < 0x20 || c as int == 0x7f) && c != '\t'
}

/// Can a literal string hold the text as it is?
pub open spec fn literal_holds(s: Seq<char>) -> bool {
    forall|i: int| 0 <= i < s.len() ==> #[trigger] s[i] != '\'' && !control(s[i])
}

/// Do three `'` in a row start at `i`?
pub open spec fn triple_at(s: Seq<char>, i: int) -> bool {
    i + 2 < s.len() && s[i] == '\'' && s[i + 1] == '\'' && s[i + 2] == '\''
}

/// Can a multi-line literal string hold the text as it is? It can't contain
/// `'''`, can't end with `'` (it would run into the closing delimiter), can't
/// start with a line break (TOML trims one there), and holds only the newline
/// among the controls.
pub open spec fn long_literal_holds(s: Seq<char>) -> bool {
    (forall|i: int| 0 <= i < s.len() ==> !#[trigger] triple_at(s, i)) && !(s.len() > 0 && s.last()
        == '\'') && !(s.len() > 0 && (s[0] == '\n' || s[0] == '\r')) && (forall|i: int|
        0 <= i < s.len() ==> #[trigger] s[i] == '\n' || !control(s[i]))
}

/// An upper-case hexadecimal digit.
pub open spec fn upper_hex(d: int) -> char {
    if d < 10 {
        (48 + d) as char
    } else {
        (55 + d) as char
    }
}

/// A character of a basic string; `raw` where a newline stays as it is.
pub open spec fn basic_char(c: char, raw: bool) -> Seq<char> {
    if c == '"' {
        seq!['\\', '"']
    } else if c == '\\' {
        seq!['\\', '\\']
    } else if c == '\n' && raw {
        seq!['\n']
    } else if c == '\n' {
        seq!['\\', 'n']
    } else if c == '\t' {
        seq!['\\', 't']
    } else if c == '\r' {
        seq!['\\', 'r']
    } else if c as int == 8 {
        seq!['\\', 'b']
    } else if c as int == 12 {
        seq!['\\', 'f']
    } else if control(c) {
        seq!['\\', 'u', '0', '0', upper_hex(c as int / 16), upper_hex(c as int % 16)]
    } else {
        seq![c]
    }
}

/// The inside of a basic string.
pub open spec fn basic_body(s: Seq<char>, raw: bool) -> Seq<char>
    decreases s.len(),
{
    if s.len() == 0 {
        Seq::empty()
    } else {
        basic_body(s.drop_last(), raw) + basic_char(s.last(), raw)
    }
}

/// A one-line basic string, every special character escaped.
pub open spec fn basic_string(s: Seq<char>) -> Seq<char> {
    seq!['"'] + basic_body(s, false) + seq!['"']
}

/// A multi-line basic string: line breaks stay raw except a leading one (which
/// TOML would trim), and everything else is escaped as in [`basic_string`].
pub open spec fn long_basic_string(s: Seq<char>) -> Seq<char> {
    let body = basic_body(s, true);
    let inner = if body.len() > 0 && body[0] == '\n' {
        seq!['\\', 'n'] + body.skip(1)
    } else {
        body
    };
    seq!['"', '"', '"'] + inner + seq!['"', '"', '"']
}

/// `s` in the style of the string token `old`, or in the nearest style that can
/// hold it: a literal (`'`, `'''`) has no escapes, so a value it can't carry as
/// it is goes basic (`"`, `"""`), staying multi-line if the old token was.
pub open spec fn styled(old: Seq<char>, s: Seq<char>) -> Seq<char> {
    if triple_at(old, 0) {
        if long_literal_holds(s) {
            seq!['\'', '\'', '\''] + s + seq!['\'', '\'', '\'']
        } else {
            long_basic_string(s)
        }
    } else if old.len() > 0 && old[0] == '\'' {
        if literal_holds(s) {
            seq!['\''] + s + seq!['\'']
        } else {
            basic_string(s)
        }
    } else if old.len() > 2 && old[0] == '"' && old[1] == '"' && old[2] == '"' {
        long_basic_string(s)
    } else {
        basic_string(s)
    }
}

/// [`styled`], where that reads back as `s`.
pub open spec fn restyled(old: Seq<char>, s: Seq<char>) -> Option<Seq<char>> {
    if string_read(styled(old, s)) == Some(s) {
        Some(styled(old, s))
    } else {
        None
    }
}

fn is_control(c: char) -> (r: bool)
    ensures
        r == control(c),
{
    let n: u32 = code(c);
    (n < 0x20 || n == 0x7f) && c != '\t'
}

fn literal_ok(s: &Vec<char>) -> (r: bool)
    ensures
        r == literal_holds(s@),
{
    let mut i: usize = 0;
    while i < s.len()
        invariant
            i <= s.len(),
            forall|j: int| 0 <= j < i ==> #[trigger] s@[j] != '\'' && !control(s@[j]),
        decreases s.len() - i,
    {
        if s[i] == '\'' || is_control(s[i]) {
            return false;
        }
        i = i + 1;
    }
    true
}

fn ml_literal_ok(s: &Vec<char>) -> (r: bool)
    ensures
        r == long_literal_holds(s@),
{
    let n: usize = s.len();
    if n > 0 && (s[n - 1] == '\'' || s[0] == '\n' || s[0] == '\r') {
        return false;
    }
    let mut i: usize = 0;
    while i < n
        invariant
            i <= n == s.len(),
            forall|j: int| 0 <= j < i ==> !#[trigger] triple_at(s@, j),
            forall|j: int| 0 <= j < i ==> #[trigger] s@[j] == '\n' || !control(s@[j]),
        decreases n - i,
    {
        if n - i > 2 && s[i] == '\'' && s[i + 1] == '\'' && s[i + 2] == '\'' {
            assert(triple_at(s@, i as int));
            return false;
        }
        assert(!triple_at(s@, i as int));
        if s[i] != '\n' && is_control(s[i]) {
            return false;
        }
        i = i + 1;
    }
    true
}

fn push_hex(d: u32, out: &mut Vec<char>)
    requires
        d < 16,
    ensures
        final(out)@ == old(out)@.push(upper_hex(d as int)),
{
    if d < 10 {
        out.push((48u8 + d as u8) as char);
    } else {
        out.push((55u8 + d as u8) as char);
    }
}

fn push_escaped(c: char, raw: bool, out: &mut Vec<char>)
    ensures
        final(out)@ == old(out)@ + basic_char(c, raw),
{
    let n: u32 = code(c);
    if c == '"' {
        out.push('\\');
        out.push('"');
    } else if c == '\\' {
        out.push('\\');
        out.push('\\');
    } else if c == '\n' && raw {
        out.push('\n');
    } else if c == '\n' {
        out.push('\\');
        out.push('n');
    } else if c == '\t' {
        out.push('\\');
        out.push('t');
    } else if c == '\r' {
        out.push('\\');
        out.push('r');
    } else if n == 8 {
        out.push('\\');
        out.push('b');
    } else if n == 12 {
        out.push('\\');
        out.push('f');
    } else if is_control(c) {
        out.push('\\');
        out.push('u');
        out.push('0');
        out.push('0');
        push_hex(n / 16, out);
        push_hex(n % 16, out);
    } else {
        out.push(c);
    }
    assert(out@ =~= old(out)@ + basic_char(c, raw));
}

fn escape(s: &Vec<char>, raw: bool) -> (r: Vec<char>)
    ensures
        r@ == basic_body(s@, raw),
{
    let mut out: Vec<char> = Vec::new();
    let mut i: usize = 0;
    while i < s.len()
        invariant
            i <= s.len(),
            out@ == basic_body(s@.take(i as int), raw),
        decreases s.len() - i,
    {
        assert(s@.take(i + 1).drop_last() =~= s@.take(i as int));
        push_escaped(s[i], raw, &mut out);
        i = i + 1;
    }
    assert(s@.take(i as int) =~= s@);
    out
}

fn enclosed(quote: &str, body: &[char]) -> (r: String)
    ensures
        r@ == quote@ + body@ + quote@,
{
    cat(&cat(quote, &text_of(body)), quote)
}

fn basic(s: &Vec<char>) -> (r: String)
    ensures
        r@ == basic_string(s@),
{
    let r = enclosed("\"", &escape(s, false));
    proof {
        reveal_strlit("\"");
        assert("\""@ =~= seq!['"']);
    }
    r
}

fn ml_basic(s: &Vec<char>) -> (r: String)
    ensures
        r@ == long_basic_string(s@),
{
    let body = escape(s, true);
    proof {
        reveal_strlit("\"\"\"");
        assert("\"\"\""@ =~= seq!['"', '"', '"']);
        reveal_strlit("\\n");
        assert("\\n"@ =~= seq!['\\', 'n']);
    }
    if body.len() > 0 && body[0] == '\n' {
        let rest = slice_text(&body, 1, body.len());
        let inner = chars_of(&cat("\\n", &rest));
        assert(rest@ =~= body@.skip(1));
        enclosed("\"\"\"", &inner)
    } else {
        enclosed("\"\"\"", &body)
    }
}

/// `s` in the style of the string token `old`.
fn style(old: &str, s: &str) -> (r: String)
    ensures
        r@ == styled(old@, s@),
{
    let o = chars_of(old);
    let cs = chars_of(s);
    proof {
        reveal_strlit("'''");
        assert("'''"@ =~= seq!['\'', '\'', '\'']);
        reveal_strlit("'");
        assert("'"@ =~= seq!['\'']);
    }
    if o.len() > 2 && o[0] == '\'' && o[1] == '\'' && o[2] == '\'' {
        if ml_literal_ok(&cs) {
            enclosed("'''", &cs)
        } else {
            ml_basic(&cs)
        }
    } else if o.len() > 0 && o[0] == '\'' {
        if literal_ok(&cs) {
            enclosed("'", &cs)
        } else {
            basic(&cs)
        }
    } else if o.len() > 2 && o[0] == '"' && o[1] == '"' && o[2] == '"' {
        ml_basic(&cs)
    } else {
        basic(&cs)
    }
}

/// `s` spelled in the style of the string token `old`, if that reads back as `s`.
/// Reading the spelling shows that it is valid TOML for exactly this string;
/// anything else keeps the default.
pub fn respell(old: &str, s: &str) -> (r: Option<String>)
    ensures
        opt_text(r) == restyled(old@, s@),
{
    let text = style(old, s);
    match read_string(&text) {
        Some(back) => {
            if crate::strs::same(&back, s) {
                Some(text)
            } else {
                None
            }
        },
        None => None,
    }
}

/// Is a spelled scalar a string?
pub open spec fn quoted(text: Seq<char>) -> bool {
    text.len() > 0 && (text[0] == '"' || text[0] == '\'')
}

/// `new` as the replacement for `old`, spelled the way `old` was: a string keeps
/// the old string's quote style where it can, and the old value's decor
/// (surrounding spacing, an inline comment) carries over.
pub open spec fn replacing(old: Nd, new: Nd) -> Nd {
    let spelled = match (old, new) {
        (Nd::Scalar(_, Some(t), _), Nd::Scalar(Val::Str(s), r, d)) => if quoted(t) && restyled(
            t,
            s,
        ) is Some {
            Nd::Scalar(Val::Str(s), restyled(t, s), d)
        } else {
            new
        },
        _ => new,
    };
    with_decor(spelled, decor_in(old))
}

/// Replace `old` with `new`, spelled the way `old` was.
pub fn replace(old: &Node, new: Node) -> (r: Node)
    ensures
        r@ == replacing(old@, new@),
{
    let decor = old.decor();
    if let (Node::Scalar(_, Some(t), _), Node::Scalar(Value::Str(s), _, d)) = (old, &new) {
        let cs = chars_of(t);
        if cs.len() > 0 && (cs[0] == '"' || cs[0] == '\'') {
            if let Some(text) = respell(t, s) {
                let n = Node::Scalar(Value::Str(s.clone()), Some(text), d.clone());
                return n.dressed(decor);
            }
        }
    }
    new.dressed(decor)
}

/// A text, empty where there is none.
pub open spec fn text_in(t: Option<Seq<char>>) -> Seq<char> {
    match t {
        Some(s) => s,
        None => Seq::empty(),
    }
}

/// A text, empty where there is none.
pub fn text_or_none(t: &Option<String>) -> (r: String)
    ensures
        r@ == text_in(opt_text(*t)),
{
    match t {
        Some(s) => s.clone(),
        None => {
            let none = String::new();
            assert(none@ =~= Seq::<char>::empty());
            none
        },
    }
}

/// Where the last newline before `i` is, or -1.
pub open spec fn break_before(s: Seq<char>, i: int) -> int
    decreases i,
{
    if i <= 0 || i > s.len() {
        -1
    } else if s[i - 1] == '\n' {
        i - 1
    } else {
        break_before(s, i - 1)
    }
}

/// Where the last newline is, or -1.
pub open spec fn last_break(s: Seq<char>) -> int {
    break_before(s, s.len() as int)
}

/// The last newline lies inside the text, and no newline behind it.
pub proof fn last_break_bounds(s: Seq<char>)
    ensures
        -1 <= last_break(s) < s.len(),
        last_break(s) >= 0 ==> s[last_break(s)] == '\n',
        forall|j: int| last_break(s) < j < s.len() ==> s[j] != '\n',
{
    break_before_bounds(s, s.len() as int);
}

proof fn break_before_bounds(s: Seq<char>, i: int)
    requires
        0 <= i <= s.len(),
    ensures
        -1 <= break_before(s, i) < s.len(),
        break_before(s, i) >= 0 ==> s[break_before(s, i)] == '\n',
        forall|j: int| break_before(s, i) < j < i ==> s[j] != '\n',
    decreases i,
{
    if i > 0 && s[i - 1] != '\n' {
        break_before_bounds(s, i - 1);
    }
}

/// The position of the last newline, if there is one.
pub fn find_last_break(s: &[char]) -> (r: Option<usize>)
    ensures
        last_break(s@) < 0 <==> r is None,
        r is Some ==> r->0 == last_break(s@) && r->0 < s.len(),
{
    let mut i: usize = s.len();
    while i > 0
        invariant
            i <= s.len(),
            break_before(s@, s.len() as int) == break_before(s@, i as int),
        decreases i,
    {
        if s[i - 1] == '\n' {
            return Some(i - 1);
        }
        i = i - 1;
    }
    None
}

/// Everything between the last element (or `[`) and `]`: the array's trailing
/// text behind a trailing comma, else the last element's suffix.
pub open spec fn array_tail(a: Seq<Nd>, f: Fl) -> Seq<char> {
    if a.len() > 0 && !f.comma {
        text_in(decor_in(a.last()).suffix)
    } else {
        f.trailing
    }
}

/// The indentation of a new element's own line; `None` where elements stand on
/// one line.
pub open spec fn new_indent(a: Seq<Nd>, f: Fl) -> Option<Seq<char>> {
    if a.len() > 0 {
        let p = text_in(decor_in(a.last()).prefix);
        if last_break(p) >= 0 {
            Some(p.skip(last_break(p) + 1))
        } else {
            None
        }
    } else {
        let tail = array_tail(a, f);
        if last_break(tail) >= 0 {
            Some(tail.skip(last_break(tail) + 1) + "    "@)
        } else {
            None
        }
    }
}

/// What stands before an appended element, and what is left behind it.
pub open spec fn around_new(a: Seq<Nd>, f: Fl) -> (Seq<char>, Seq<char>) {
    let tail = array_tail(a, f);
    match new_indent(a, f) {
        Some(indent) => {
            let i = if last_break(tail) >= 0 {
                last_break(tail)
            } else {
                tail.len() as int
            };
            (tail.take(i) + seq!['\n'] + indent, tail.skip(i))
        },
        None => if a.len() >= 2 {
            (text_in(decor_in(a.last()).prefix), tail)
        } else if a.len() == 1 {
            (" "@, tail)
        } else {
            (tail, tail)
        },
    }
}

/// An array with `v` appended in the array's own layout.
///
/// A one-item-per-line array (its last item starts on a new line) gets the new
/// item on its own line at that item's indentation; an empty array whose `]`
/// sits on its own line gets it one level (four spaces) past the bracket.
/// Anything else is inline and stays inline, separated like its last item. The
/// trailing-comma style is kept, and what sat between the last item and `]`
/// stays ahead of the bracket: a comment beside the old last item stays beside
/// it.
pub open spec fn pushed(a: Seq<Nd>, f: Fl, v: Nd) -> (Seq<Nd>, Fl) {
    let (prefix, rest) = around_new(a, f);
    if a.len() > 0 && !f.comma {
        let last = a.last();
        let bare = with_decor(
            last,
            Dc { prefix: decor_in(last).prefix, suffix: Some(Seq::empty()) },
        );
        (
            a.update(a.len() - 1, bare).push(
                with_decor(v, Dc { prefix: Some(prefix), suffix: Some(rest) }),
            ),
            f,
        )
    } else {
        (
            a.push(with_decor(v, Dc { prefix: Some(prefix), suffix: Some(Seq::empty()) })),
            Fl { comma: f.comma || (a.len() == 0 && last_break(rest) >= 0), trailing: rest },
        )
    }
}

fn tail_of(a: &Vec<Node>, f: &Fill) -> (r: String)
    ensures
        r@ == array_tail(nds(a@), f@),
{
    let n: usize = a.len();
    if n > 0 && !f.comma {
        assert(nds(a@).last() == a@[n - 1]@);
        text_or_none(&a[n - 1].decor().suffix)
    } else {
        f.trailing.clone()
    }
}

fn indent_of(a: &Vec<Node>, f: &Fill) -> (r: Option<String>)
    ensures
        opt_text(r) == new_indent(nds(a@), f@),
{
    let n: usize = a.len();
    if n > 0 {
        assert(nds(a@).last() == a@[n - 1]@);
        let p = text_or_none(&a[n - 1].decor().prefix);
        let cs = chars_of(&p);
        match find_last_break(&cs) {
            Some(i) => {
                let r = slice_text(&cs, i + 1, cs.len());
                assert(r@ =~= p@.skip(i + 1));
                Some(r)
            },
            None => None,
        }
    } else {
        let tail = tail_of(a, f);
        let cs = chars_of(&tail);
        match find_last_break(&cs) {
            Some(i) => {
                let r = slice_text(&cs, i + 1, cs.len());
                assert(r@ =~= tail@.skip(i + 1));
                Some(cat(&r, "    "))
            },
            None => None,
        }
    }
}

fn around(a: &Vec<Node>, f: &Fill) -> (r: (String, String))
    ensures
        (r.0@, r.1@) == around_new(nds(a@), f@),
{
    let n: usize = a.len();
    let tail = tail_of(a, f);
    match indent_of(a, f) {
        Some(indent) => {
            let cs = chars_of(&tail);
            let i: usize = match find_last_break(&cs) {
                Some(i) => i,
                None => cs.len(),
            };
            let mut prefix = slice_text(&cs, 0, i);
            assert(prefix@ =~= tail@.take(i as int));
            prefix.push('\n');
            prefix.append(&indent);
            let rest = slice_text(&cs, i, cs.len());
            assert(rest@ =~= tail@.skip(i as int));
            assert(prefix@ =~= tail@.take(i as int) + seq!['\n'] + indent@);
            (prefix, rest)
        },
        None => {
            if n >= 2 {
                assert(nds(a@).last() == a@[n - 1]@);
                (text_or_none(&a[n - 1].decor().prefix), tail)
            } else if n == 1 {
                (" ".to_owned(), tail)
            } else {
                (tail.clone(), tail)
            }
        },
    }
}

/// Append `v` to an array in the array's own layout.
pub fn push_in_layout(a: &mut Vec<Node>, f: &mut Fill, v: Node)
    ensures
        (nds(final(a)@), final(f)@) == pushed(nds(old(a)@), old(f)@, v@),
{
    let n: usize = a.len();
    let (prefix, rest) = around(a, f);
    let ghost before = nds(a@);
    let none = String::new();
    assert(none@ =~= Seq::<char>::empty());
    if n > 0 && !f.comma {
        assert(before.last() == a@[n - 1]@);
        let old_decor = a[n - 1].decor();
        let last = match a.pop() {
            Some(last) => last,
            None => {
                return;
            },
        };
        let bare = last.dressed(Decor { prefix: old_decor.prefix, suffix: Some(none) });
        a.push(bare);
        assert(nds(a@) =~= before.update(n - 1, bare@));
        a.push(v.dressed(Decor { prefix: Some(prefix), suffix: Some(rest) }));
    } else {
        a.push(v.dressed(Decor { prefix: Some(prefix), suffix: Some(none) }));
        if n == 0 {
            let cs = chars_of(&rest);
            if find_last_break(&cs).is_some() {
                // A fresh multi-line list takes a trailing comma, the style that
                // lets the next append touch one line.
                f.comma = true;
            }
        }
        f.trailing = rest;
    }
}

/// Do the first elements equal the current ones?
pub open spec fn extends(a: Seq<Nd>, new: Seq<Val>) -> bool {
    new.len() >= a.len() && forall|i: int|
        0 <= i < a.len() ==> val_rank(nd_val(#[trigger] a[i]), new[i]) == Rank::Level
}

/// The array with the first `n` values, of those it doesn't have yet, appended in
/// its layout.
pub open spec fn extended(a: Seq<Nd>, f: Fl, new: Seq<Val>, n: nat) -> (Seq<Nd>, Fl)
    decreases n,
{
    if n <= a.len() || n > new.len() {
        (a, f)
    } else {
        let (b, g) = extended(a, f, new, (n - 1) as nat);
        pushed(b, g, value_nd(new[n - 1]))
    }
}

/// The array of tables with the first `n` tables, of those it doesn't have yet,
/// appended as blocks of their own.
pub open spec fn extended_tables(a: Seq<Nd>, new: Seq<Val>, n: nat) -> Seq<Nd>
    decreases n,
{
    if n <= a.len() || n > new.len() {
        a
    } else {
        extended_tables(a, new, (n - 1) as nat).push(table_nd(new[n - 1]))
    }
}

/// Are the values from `from` on all objects?
pub open spec fn all_objects(new: Seq<Val>, from: int) -> bool {
    forall|i: int| from <= i < new.len() ==> (#[trigger] new[i]) is Object
}

/// Do the first elements equal the current ones?
pub fn is_extension(a: &Vec<Node>, new: &Vec<Value>) -> (r: bool)
    ensures
        r == extends(nds(a@), vals(new@)),
{
    if new.len() < a.len() {
        return false;
    }
    let mut i: usize = 0;
    while i < a.len()
        invariant
            i <= a.len() <= new.len(),
            forall|j: int|
                0 <= j < i ==> val_rank(nd_val(#[trigger] nds(a@)[j]), vals(new@)[j])
                    == Rank::Level,
        decreases a.len() - i,
    {
        assert(nds(a@)[i as int] == a@[i as int]@);
        assert(vals(new@)[i as int] == new@[i as int]@);
        if !a[i].project().value_eq(&new[i]) {
            return false;
        }
        i = i + 1;
    }
    true
}

/// Append what the array doesn't have yet, each element in the array's layout:
/// the kept elements stay as they are.
pub fn extend_in_layout(a: &mut Vec<Node>, f: &mut Fill, new: &Vec<Value>)
    requires
        old(a).len() <= new.len(),
    ensures
        (nds(final(a)@), final(f)@) == extended(
            nds(old(a)@),
            old(f)@,
            vals(new@),
            new.len() as nat,
        ),
{
    let ghost a0 = nds(a@);
    let ghost f0 = f@;
    let ghost vs = vals(new@);
    let mut i: usize = a.len();
    while i < new.len()
        invariant
            a0.len() <= i <= new.len(),
            vs == vals(new@),
            (nds(a@), f@) == extended(a0, f0, vs, i as nat),
        decreases new.len() - i,
    {
        assert(vs[i as int] == new@[i as int]@);
        push_in_layout(a, f, value_node(&new[i]));
        i = i + 1;
    }
}

/// Append what the array of tables doesn't have yet, each as a block of its own.
pub fn extend_tables(a: &mut Vec<Node>, new: &Vec<Value>)
    requires
        old(a).len() <= new.len(),
    ensures
        nds(final(a)@) == extended_tables(nds(old(a)@), vals(new@), new.len() as nat),
{
    let ghost a0 = nds(a@);
    let ghost vs = vals(new@);
    let mut i: usize = a.len();
    while i < new.len()
        invariant
            a0.len() <= i <= new.len(),
            vs == vals(new@),
            nds(a@) == extended_tables(a0, vs, i as nat),
        decreases new.len() - i,
    {
        assert(vs[i as int] == new@[i as int]@);
        a.push(table_node(&new[i]));
        i = i + 1;
    }
}

/// Are the values from `from` on all objects?
pub fn rest_objects(new: &Vec<Value>, from: usize) -> (r: bool)
    requires
        from <= new.len(),
    ensures
        r == all_objects(vals(new@), from as int),
{
    let mut i: usize = from;
    while i < new.len()
        invariant
            from <= i <= new.len(),
            forall|j: int| from <= j < i ==> (#[trigger] vals(new@)[j]) is Object,
        decreases new.len() - i,
    {
        assert(vals(new@)[i as int] == new@[i as int]@);
        if !matches!(&new[i], Value::Object(_)) {
            return false;
        }
        i = i + 1;
    }
    true
}

} // verus!
