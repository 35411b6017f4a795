//! Queries that address comments (`#`, the `comments` stream) against a
//! document's commented projection.
use crate::ast::{addresses_comment, kind_text, path_text, render_path};
use crate::comment::{comment_at, plain, targets, targets_view, Target};
use crate::error::{fail, Er, EvalError};
use crate::eval::{eval, eval_each, just, keep_truthy};
use crate::float::{Facts, FloatFacts};
use crate::model::{
    exs, group_comment_views, group_expr_views, group_value_views, members, vals, Cmt, Commented,
    Ex, Expr, Val, Value,
};
use crate::semantics::{eval_fn, ex_eval, truthy_only, upto};
use crate::seqs::{bind_all, bind_step, bind_stop};
use crate::strings::outs;
use crate::strs::same;
use vstd::prelude::*;
use vstd::string::*;

verus! {

broadcast use {group_value_views, group_expr_views, group_comment_views};

/// One comment as a `{ path, kind, text }` record.
pub open spec fn record(t: Target) -> Val {
    Val::Object(
        seq![
            ("path"@, Val::Str(path_text(t.0))),
            ("kind"@, Val::Str(kind_text(t.1))),
            ("text"@, Val::Str(t.2)),
        ],
    )
}

/// The document-wide `comments` stream: one record per comment, in document
/// order.
pub open spec fn records(c: Cmt) -> Seq<Val> {
    targets(Seq::empty(), c).map_values(|t: Target| record(t))
}

/// The document-wide `comments` stream: one `{ path, kind, text }` record per
/// comment, in document order. `path` is a rendered path to the annotated node
/// (`.web.image`), so `comments | select(.text | test("TODO")) | .path` answers
/// "which keys carry a TODO?".
pub fn comment_records(root: &Commented) -> (r: Vec<Value>)
    ensures
        vals(r@) == records(root@),
{
    let found = root.comment_targets();
    let mut out: Vec<Value> = Vec::new();
    let ghost all = records(root@);
    assert(vals(out@) =~= all.take(0));
    let mut i: usize = 0;
    while i < found.len()
        invariant
            i <= found.len(),
            all == records(root@),
            targets_view(found@) == targets(Seq::empty(), root@),
            vals(out@) == all.take(i as int),
        decreases found.len() - i,
    {
        let mut pairs: Vec<(String, Value)> = Vec::new();
        pairs.push(("path".to_owned(), Value::Str(render_path(&found[i].0))));
        pairs.push(("kind".to_owned(), Value::Str(found[i].1.as_str().to_owned())));
        pairs.push(("text".to_owned(), Value::Str(found[i].2.clone())));
        assert(members(pairs@) =~= record(targets_view(found@)[i as int])->Object_0);
        out.push(Value::Object(pairs));
        assert(all.take(i + 1) =~= all.take(i as int).push(all[i as int]));
        i = i + 1;
    }
    assert(all.take(i as int) =~= all);
    out
}

/// The refusal of comment access in a place that does not serve it.
pub open spec fn unserved() -> Er {
    fail(
        "comment access (`#` / `comments`) here isn't supported: use a comment path (`.foo.#`) or the `comments` stream, optionally piped or collected"@,
    )
}

pub open spec fn nth_noted_fn(items: Seq<Ex>, c: Cmt, fx: Facts) -> spec_fn(int) -> Result<
    Seq<Val>,
    Er,
>
    decreases items, 1int,
{
    |i: int|
        if 0 <= i < items.len() {
            ex_noted(items[i], c, fx)
        } else {
            Ok(Seq::empty())
        }
}

/// The stream a query that may address comments yields.
pub open spec fn ex_noted(e: Ex, c: Cmt, fx: Facts) -> Result<Seq<Val>, Er>
    decreases e, 0int,
{
    if !addresses_comment(e) {
        ex_eval(e, plain(c), fx)
    } else {
        match e {
            Ex::Path(steps) => Ok(comment_at(c, steps)),
            Ex::Call(name, args) => if name == "comments"@ && args.len() == 0 {
                Ok(records(c))
            } else {
                Err(unserved())
            },
            Ex::Pipe(a, b) => match ex_noted(*a, c, fx) {
                Err(x) => Err(x),
                Ok(s) => bind_all(s, eval_fn(*b, fx)),
            },
            Ex::Alternative(a, b) => match ex_noted(*a, c, fx) {
                Err(x) => Err(x),
                Ok(s) => if truthy_only(s).len() == 0 {
                    ex_noted(*b, c, fx)
                } else {
                    Ok(truthy_only(s))
                },
            },
            Ex::Comma(items) => bind_all(upto(items.len()), nth_noted_fn(items, c, fx)),
            Ex::Collect(inner) => match inner {
                Some(a) => match ex_noted(*a, c, fx) {
                    Err(x) => Err(x),
                    Ok(s) => Ok(seq![Val::Array(s)]),
                },
                None => Ok(seq![Val::Array(Seq::empty())]),
            },
            _ => Err(unserved()),
        }
    }
}

fn noted_items(items: &Vec<Expr>, root: &Commented, facts: &FloatFacts) -> (r: Result<
    Vec<Value>,
    EvalError,
>)
    ensures
        outs(r) == bind_all(upto(items@.len()), nth_noted_fn(exs(items@), root@, facts@)),
    decreases items, 1int,
{
    let mut out: Vec<Value> = Vec::new();
    let ghost ix = upto(items@.len());
    let ghost f = nth_noted_fn(exs(items@), root@, facts@);
    assert(vals(out@) =~= Seq::<Val>::empty());
    let mut i: usize = 0;
    while i < items.len()
        invariant
            i <= items.len(),
            ix == upto(items@.len()),
            f == nth_noted_fn(exs(items@), root@, facts@),
            bind_all(ix.take(i as int), f) == Ok::<Seq<Val>, Er>(vals(out@)),
        decreases items.len() - i,
    {
        proof {
            bind_step(ix, f, i as int);
        }
        match eval_with_comments(&items[i], root, facts) {
            Err(x) => {
                proof {
                    bind_stop(ix, f, i + 1);
                }
                return Err(x);
            },
            Ok(mut more) => {
                let ghost a = vals(out@);
                let ghost b = vals(more@);
                out.append(&mut more);
                assert(vals(out@) =~= a + b);
            },
        }
        i = i + 1;
    }
    assert(ix.take(i as int) =~= ix);
    Ok(out)
}

fn not_served() -> (r: EvalError)
    ensures
        r@ == unserved(),
{
    EvalError::new(
        "comment access (`#` / `comments`) here isn't supported: use a comment path (`.foo.#`) or the `comments` stream, optionally piped or collected",
    )
}

/// Evaluate a query that may address comments (`#`) against the document's
/// commented projection. Comment-free sub-expressions fall back to the plain
/// value evaluator; a comment path resolves the comment text of each selected
/// node. A comment path (`.foo.#`, `.foo.#.inline`, `.items[].#`) may be piped
/// or defaulted (`| ascii_upcase`, `// "none"`). Comment access after a value
/// pipe, or as an assignment target, is not served here and errors clearly.
pub fn eval_with_comments(expr: &Expr, root: &Commented, facts: &FloatFacts) -> (r: Result<
    Vec<Value>,
    EvalError,
>)
    ensures
        outs(r) == ex_noted(expr@, root@, facts@),
    decreases expr, 0int,
{
    if !expr.has_comment() {
        return eval(expr, &root.to_value(), facts);
    }
    match expr {
        Expr::Path(steps) => Ok(root.resolve_comment(steps)),
        // The document-wide `comments` stream: one record per comment.
        Expr::Call(name, args) => if same(name, "comments") && args.len() == 0 {
            Ok(comment_records(root))
        } else {
            Err(not_served())
        },
        Expr::Pipe(a, b) => {
            // Past the comment, the piped value is an ordinary scalar.
            let s = eval_with_comments(a, root, facts)?;
            eval_each(b, &s, facts)
        },
        Expr::Alternative(a, b) => {
            let s = eval_with_comments(a, root, facts)?;
            let kept = keep_truthy(s);
            if kept.len() == 0 {
                eval_with_comments(b, root, facts)
            } else {
                Ok(kept)
            }
        },
        Expr::Comma(items) => noted_items(items, root, facts),
        Expr::Collect(inner) => match inner {
            Some(e) => {
                let s = eval_with_comments(e, root, facts)?;
                Ok(just(Value::Array(s)))
            },
            None => {
                let none: Vec<Value> = Vec::new();
                assert(vals(none@) =~= Seq::<Val>::empty());
                Ok(just(Value::Array(none)))
            },
        },
        _ => Err(not_served()),
    }
}

} // verus!
