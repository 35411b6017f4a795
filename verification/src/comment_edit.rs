//! Driving comment mutation (`.foo.# = ...`, `|=`, `+=`, `del(.foo.#)`) through
//! the format-agnostic comment writes of a [`Document`]. The evaluator computes
//! the new text in the value calculus (so `.foo.# |= gsub("a"; "b")` works); the
//! format splices it in place.
use crate::comment::{comment_at, extend_texts, targets, targets_view, Target};
use crate::document::{note_attempt, warned, Document};
use crate::error::{fail, EditError, Er};
use crate::eval::{clone_steps, eval};
use crate::float::{Facts, FloatFacts};
use crate::model::{
    cmts, group_comment_views, group_expr_views, group_value_views, steps_of, texts, vals, Cmt,
    CommentKind, Commented, Ex, Expr, St, Step, Val, Value,
};
use crate::semantics::ex_eval;
use crate::strs::same;
use crate::value::raw_text;
use vstd::prelude::*;
use vstd::string::*;

pub use crate::line_comment::{line_index, place_line_comment, sanitize_comment_line, LineComment};

verus! {

broadcast use {group_value_views, group_expr_views, group_comment_views};

/// What a comment edit leads to: the document afterwards, and the warnings or
/// the refusal.
pub type Noted<D> = (D, Result<Seq<Seq<char>>, Er>);

/// The comment text a stream denotes: its first value, a scalar, as raw text.
pub open spec fn comment_value(r: Result<Seq<Val>, Er>) -> Result<Seq<char>, Er> {
    match r {
        Err(e) => Err(e),
        Ok(s) => if s.len() == 0 {
            Err(fail("the comment text expression produced no value"@))
        } else if s[0] is Array || s[0] is Object {
            Err(fail("a comment is text, not a container"@))
        } else {
            Ok(raw_text(s[0]))
        },
    }
}

/// Is the expression the bare document-wide `comments` stream?
pub open spec fn comments_stream(e: Ex) -> bool {
    match e {
        Ex::Call(name, args) => name == "comments"@ && args.len() == 0,
        _ => false,
    }
}

/// The value prefix and the comment kind of a `#`-terminated path.
pub open spec fn comment_path(steps: Seq<St>) -> Result<(Seq<St>, CommentKind), Er> {
    if steps.len() > 0 {
        match steps.last() {
            St::Comment(kind) => Ok((steps.drop_last(), kind)),
            _ => Err(fail("expected a comment path ending in `#`"@)),
        }
    } else {
        Err(fail("expected a comment path ending in `#`"@))
    }
}

/// The value prefix and the comment kind of a comment assignment's left side.
pub open spec fn comment_target_of(lhs: Ex) -> Result<(Seq<St>, CommentKind), Er> {
    match lhs {
        Ex::Path(steps) => comment_path(steps),
        _ => Err(fail("left side of a comment assignment must be a path"@)),
    }
}

/// The comment that stands at a path now, or nothing.
pub open spec fn standing(all: Seq<Cmt>, prefix: Seq<St>, kind: CommentKind) -> Seq<char> {
    if all.len() == 0 {
        Seq::empty()
    } else {
        let s = comment_at(all[0], prefix.push(St::Comment(kind)));
        if s.len() > 0 && s[0] is Str {
            s[0]->Str_0
        } else {
            Seq::empty()
        }
    }
}

/// Every comment of every document, with the document's position.
pub open spec fn all_targets(all: Seq<Cmt>, n: nat) -> Seq<(int, Target)>
    decreases n,
{
    if n == 0 || n > all.len() {
        Seq::empty()
    } else {
        all_targets(all, (n - 1) as nat) + targets(Seq::empty(), all[n - 1]).map_values(
            |t: Target| (n - 1, t),
        )
    }
}

/// The new text of one comment of a bulk edit: computed from its own text, or
/// for `+=` its own text with more behind it.
pub open spec fn bulk_text(own: Seq<char>, rhs: Ex, append: bool, whole: Val, fx: Facts) -> Result<
    Seq<char>,
    Er,
> {
    if append {
        match comment_value(ex_eval(rhs, whole, fx)) {
            Ok(t) => Ok(own + t),
            Err(e) => Err(e),
        }
    } else {
        comment_value(ex_eval(rhs, Val::Str(own), fx))
    }
}

/// What rewriting the first `n` comments leads to.
pub open spec fn bulk_noted<D: Document>(
    d: D::Doc,
    ts: Seq<(int, Target)>,
    rhs: Ex,
    append: bool,
    fx: Facts,
    n: nat,
) -> Noted<D::Doc>
    decreases n,
{
    if n == 0 {
        (d, Ok(Seq::empty()))
    } else {
        let (now, r) = bulk_noted::<D>(d, ts, rhs, append, fx, (n - 1) as nat);
        match r {
            Err(e) => (now, Err(e)),
            Ok(w) => {
                let (at, t) = ts[n - 1];
                match bulk_text(t.2, rhs, append, D::whole_of(now), fx) {
                    Err(e) => (now, Err(e)),
                    Ok(text) => with_warnings(
                        w,
                        note_attempt(now, D::note_in(now, at, t.0, t.1, text)),
                    ),
                }
            },
        }
    }
}

/// Warnings in front of those of a later edit.
pub open spec fn with_warnings<D>(w: Seq<Seq<char>>, n: Noted<D>) -> Noted<D> {
    match n.1 {
        Ok(more) => (n.0, Ok(w + more)),
        Err(e) => n,
    }
}

/// What deleting the first `n` comments leads to.
pub open spec fn bulk_deleted<D: Document>(d: D::Doc, ts: Seq<(int, Target)>, n: nat) -> Noted<D::Doc>
    decreases n,
{
    if n == 0 {
        (d, Ok(Seq::empty()))
    } else {
        let (now, r) = bulk_deleted::<D>(d, ts, (n - 1) as nat);
        match r {
            Err(e) => (now, Err(e)),
            Ok(w) => match D::unnote_in(now, ts[n - 1].1.0, ts[n - 1].1.1) {
                Err(e) => (now, Err(e)),
                Ok(next) => (next, Ok(w)),
            },
        }
    }
}

/// The comments a bulk edit goes through.
pub open spec fn bulk_targets<D: Document>(d: D::Doc) -> Seq<(int, Target)> {
    all_targets(D::commented_of(d), D::commented_of(d).len())
}

/// What setting one comment leads to.
pub open spec fn note_set<D: Document>(
    d: D::Doc,
    target: Result<(Seq<St>, CommentKind), Er>,
    text: Result<Seq<char>, Er>,
) -> Noted<D::Doc> {
    match target {
        Err(e) => (d, Err(e)),
        Ok((prefix, kind)) => match text {
            Err(e) => (d, Err(e)),
            Ok(t) => note_attempt(d, D::note_in(d, 0, prefix, kind, t)),
        },
    }
}

/// What a comment mutation leads to.
pub open spec fn noted<D: Document>(d: D::Doc, e: Ex, fx: Facts) -> Noted<D::Doc>
    decreases e,
{
    match e {
        Ex::Pipe(a, b) => {
            let (mid, r) = noted::<D>(d, *a, fx);
            match r {
                Err(x) => (mid, Err(x)),
                Ok(w) => with_warnings(w, noted::<D>(mid, *b, fx)),
            }
        },
        Ex::Assign(l, r) => note_set::<D>(
            d,
            comment_target_of(*l),
            comment_value(ex_eval(*r, D::whole_of(d), fx)),
        ),
        Ex::UpdateAssign(l, r) => if comments_stream(*l) {
            bulk_changed::<D>(d, *r, false, fx)
        } else {
            note_set::<D>(
                d,
                comment_target_of(*l),
                match comment_target_of(*l) {
                    Ok((prefix, kind)) => comment_value(
                        ex_eval(*r, Val::Str(standing(D::commented_of(d), prefix, kind)), fx),
                    ),
                    Err(x) => Err(x),
                },
            )
        },
        Ex::AddAssign(l, r) => if comments_stream(*l) {
            bulk_changed::<D>(d, *r, true, fx)
        } else {
            note_set::<D>(
                d,
                comment_target_of(*l),
                match comment_target_of(*l) {
                    Ok((prefix, kind)) => bulk_text(
                        standing(D::commented_of(d), prefix, kind),
                        *r,
                        true,
                        D::whole_of(d),
                        fx,
                    ),
                    Err(x) => Err(x),
                },
            )
        },
        Ex::Call(name, args) => if name == "del"@ {
            if args.len() != 1 {
                (d, Err(fail("del(...) takes one argument"@)))
            } else if comments_stream(args[0]) {
                if D::commented_of(d).len() == 0 {
                    (d, Err(fail("this format has no comments"@)))
                } else {
                    bulk_deleted::<D>(d, bulk_targets::<D>(d), bulk_targets::<D>(d).len())
                }
            } else {
                match args[0] {
                    Ex::Path(steps) => match comment_path(steps) {
                        Err(x) => (d, Err(x)),
                        Ok((prefix, kind)) => match D::unnote_in(d, prefix, kind) {
                            Err(x) => (d, Err(x)),
                            Ok(next) => (next, Ok(Seq::empty())),
                        },
                    },
                    _ => (d, Err(fail("del(...) takes a path"@))),
                }
            }
        } else if name == "select"@ {
            (
                d,
                Err(
                    fail(
                        "`select(...)` targeting isn't supported with comment edits yet; a comment edit already applies to every document of the stream"@,
                    ),
                ),
            )
        } else {
            (d, Err(not_a_comment_edit()))
        },
        Ex::DocSelect(_, _) => (
            d,
            Err(
                fail(
                    "`^dN` document selection isn't supported with comment edits yet; a comment edit already applies to every document of the stream"@,
                ),
            ),
        ),
        _ => (d, Err(not_a_comment_edit())),
    }
}

/// What a bulk edit leads to.
pub open spec fn bulk_changed<D: Document>(d: D::Doc, rhs: Ex, append: bool, fx: Facts) -> Noted<D::Doc> {
    if D::commented_of(d).len() == 0 {
        (d, Err(fail("this format has no comments"@)))
    } else {
        bulk_noted::<D>(d, bulk_targets::<D>(d), rhs, append, fx, bulk_targets::<D>(d).len())
    }
}

pub open spec fn not_a_comment_edit() -> Er {
    fail(
        "unsupported comment edit - use `.path.# = ...`, `|=`, `+=`, `del(.path.#)`, or the bulk `comments |= ...` / `del(comments)`"@,
    )
}

/// The view of a comment's text.
pub open spec fn edit_text(r: Result<String, EditError>) -> Result<Seq<char>, Er> {
    match r {
        Ok(t) => Ok(t@),
        Err(e) => Err(e@),
    }
}

/// Evaluate an RHS to comment text (a scalar rendered as its raw string).
fn eval_text(rhs: &Expr, input: &Value, facts: &FloatFacts) -> (r: Result<String, EditError>)
    ensures
        edit_text(r) == comment_value(ex_eval(rhs@, input@, facts@)),
{
    match eval(rhs, input, facts) {
        Err(e) => Err(EditError::from_eval(e)),
        Ok(s) => {
            if s.len() == 0 {
                return Err(EditError::new("the comment text expression produced no value"));
            }
            assert(vals(s@)[0] == s@[0]@);
            match &s[0] {
                Value::Array(_) | Value::Object(_) => Err(
                    EditError::new("a comment is text, not a container"),
                ),
                v => Ok(v.to_raw_string()),
            }
        },
    }
}

/// Is `expr` the bare document-wide `comments` stream?
fn is_comments_stream(expr: &Expr) -> (r: bool)
    ensures
        r == comments_stream(expr@),
{
    match expr {
        Expr::Call(name, args) => same(name, "comments") && args.len() == 0,
        _ => false,
    }
}

/// The view of a split comment path.
spec fn split_view(r: Result<(Vec<Step>, CommentKind), EditError>) -> Result<
    (Seq<St>, CommentKind),
    Er,
> {
    match r {
        Ok((p, k)) => Ok((steps_of(p@), k)),
        Err(e) => Err(e@),
    }
}

/// Split a `#`-terminated path into its value prefix and the comment kind.
fn split_comment(steps: &Vec<Step>) -> (r: Result<(Vec<Step>, CommentKind), EditError>)
    ensures
        split_view(r) == comment_path(steps_of(steps@)),
{
    if steps.len() > 0 {
        let n: usize = steps.len() - 1;
        assert(steps_of(steps@).last() == steps@[n as int]@);
        if let Step::Comment(kind) = &steps[n] {
            let mut prefix = clone_steps(steps);
            let ghost all = steps_of(prefix@);
            assert(prefix.len() == all.len());
            prefix.pop();
            assert(steps_of(prefix@) =~= all.drop_last());
            return Ok((prefix, *kind));
        }
    }
    Err(EditError::new("expected a comment path ending in `#`"))
}

/// The (value-prefix, kind) of a comment-assignment left side.
fn comment_target(lhs: &Expr) -> (r: Result<(Vec<Step>, CommentKind), EditError>)
    ensures
        split_view(r) == comment_target_of(lhs@),
{
    match lhs.as_path() {
        None => Err(EditError::new("left side of a comment assignment must be a path")),
        Some(steps) => split_comment(steps),
    }
}

/// The current text of the comment at `prefix`/`kind`, if any.
fn current_comment<D: Document>(doc: &D, prefix: &Vec<Step>, kind: CommentKind) -> (r: String)
    ensures
        r@ == standing(D::commented_of(doc.doc()), steps_of(prefix@), kind),
{
    let all = doc.to_commented_all();
    assert(all.len() == cmts(all@).len());
    if all.len() == 0 {
        return String::new();
    }
    assert(cmts(all@)[0] == all@[0]@);
    let mut path = clone_steps(prefix);
    path.push(Step::Comment(kind));
    let s = all[0].resolve_comment(&path);
    if s.len() > 0 {
        assert(vals(s@)[0] == s@[0]@);
        if let Value::Str(t) = &s[0] {
            return t.clone();
        }
    }
    String::new()
}

/// The contents of comment targets with their documents' positions.
spec fn placed_targets(s: Seq<(usize, (Vec<Step>, CommentKind, String))>) -> Seq<(int, Target)> {
    Seq::new(
        s.len(),
        |i: int| (s[i].0 as int, (steps_of(s[i].1.0@), s[i].1.1, s[i].1.2@)),
    )
}

fn snapshot(all: &Vec<Commented>) -> (r: Vec<(usize, (Vec<Step>, CommentKind, String))>)
    ensures
        placed_targets(r@) == all_targets(cmts(all@), all@.len()),
{
    let mut out: Vec<(usize, (Vec<Step>, CommentKind, String))> = Vec::new();
    assert(placed_targets(out@) =~= all_targets(cmts(all@), 0));
    let mut i: usize = 0;
    while i < all.len()
        invariant
            i <= all.len(),
            placed_targets(out@) == all_targets(cmts(all@), i as nat),
        decreases all.len() - i,
    {
        let found = all[i].comment_targets();
        let ghost before = placed_targets(out@);
        let ghost more = targets_view(found@).map_values(|t: Target| (i as int, t));
        assert(placed_targets(out@) =~= before + more.take(0));
        let mut j: usize = 0;
        while j < found.len()
            invariant
                j <= found.len(),
                more == targets_view(found@).map_values(|t: Target| (i as int, t)),
                placed_targets(out@) == before + more.take(j as int),
            decreases found.len() - j,
        {
            let ghost held = placed_targets(out@);
            out.push((i, (clone_steps(&found[j].0), found[j].1, found[j].2.clone())));
            assert(placed_targets(out@) =~= held.push(more[j as int]));
            assert(before + more.take(j + 1) =~= held.push(more[j as int]));
            j = j + 1;
        }
        assert(more.take(j as int) =~= more);
        let ghost n = (i + 1) as nat;
        assert(targets(Seq::empty(), cmts(all@)[n - 1]).map_values(|t: Target| (n - 1, t)) =~= more);
        i = i + 1;
    }
    out
}

proof fn bulk_stops<D: Document>(
    d: D::Doc,
    ts: Seq<(int, Target)>,
    rhs: Ex,
    append: bool,
    fx: Facts,
    i: nat,
    n: nat,
)
    requires
        i <= n,
        bulk_noted::<D>(d, ts, rhs, append, fx, i).1 is Err,
    ensures
        bulk_noted::<D>(d, ts, rhs, append, fx, n) == bulk_noted::<D>(d, ts, rhs, append, fx, i),
    decreases n - i,
{
    if i < n {
        bulk_stops::<D>(d, ts, rhs, append, fx, i, (n - 1) as nat);
    }
}

proof fn bulk_delete_stops<D: Document>(d: D::Doc, ts: Seq<(int, Target)>, i: nat, n: nat)
    requires
        i <= n,
        bulk_deleted::<D>(d, ts, i).1 is Err,
    ensures
        bulk_deleted::<D>(d, ts, n) == bulk_deleted::<D>(d, ts, i),
    decreases n - i,
{
    if i < n {
        bulk_delete_stops::<D>(d, ts, i, (n - 1) as nat);
    }
}

/// The new text of one comment: computed from its own text, or for `+=` its own
/// text with more behind it.
fn new_text<D: Document>(doc: &D, own: &String, rhs: &Expr, append: bool, facts: &FloatFacts) -> (r: Result<
    String,
    EditError,
>)
    ensures
        edit_text(r) == bulk_text(own@, rhs@, append, D::whole_of(doc.doc()), facts@),
{
    if append {
        let more = eval_text(rhs, &doc.whole(), facts)?;
        let mut t = own.clone();
        t.append(&more);
        Ok(t)
    } else {
        eval_text(rhs, &Value::Str(own.clone()), facts)
    }
}

/// `comments |= f` / `comments += x`: apply `f` (or append `x`) to every
/// comment's text, in document order. Each new comment derives from that
/// comment's own text, so every document's comment targets are snapshotted
/// first (their paths stay valid as each write lands), then each is transformed
/// within its own document.
#[verifier::spinoff_prover]
#[verifier::rlimit(60)]
fn bulk_edit<D: Document>(
    doc: &mut D,
    rhs: &Expr,
    append: bool,
    warnings: &mut Vec<String>,
    facts: &FloatFacts,
) -> (r: Result<(), EditError>)
    ensures
        match bulk_changed::<D>(old(doc).doc(), rhs@, append, facts@) {
            (d, Ok(w)) => final(doc).doc() == d && r is Ok && texts(final(warnings)@) == texts(
                old(warnings)@,
            ) + w,
            (d, Err(e)) => final(doc).doc() == d && r is Err && r->Err_0@ == e,
        },
{
    let ghost d0 = doc.doc();
    let ghost w0 = texts(warnings@);
    let all = doc.to_commented_all();
    assert(all.len() == cmts(all@).len());
    if all.len() == 0 {
        return Err(EditError::new("this format has no comments"));
    }
    let found = snapshot(&all);
    let ghost ts = placed_targets(found@);
    let mut i: usize = 0;
    let ghost mut w: Seq<Seq<char>> = Seq::empty();
    assert(w0 + w =~= w0);
    while i < found.len()
        invariant
            i <= found.len(),
            ts == placed_targets(found@),
            d0 == old(doc).doc(),
            ts == bulk_targets::<D>(d0),
            D::commented_of(d0).len() > 0,
            bulk_noted::<D>(d0, ts, rhs@, append, facts@, i as nat) == (
                doc.doc(),
                Ok::<Seq<Seq<char>>, Er>(w),
            ),
            texts(warnings@) == w0 + w,
            w0 == texts(old(warnings)@),
        decreases found.len() - i,
    {
        assert(ts[i as int] == (
            found@[i as int].0 as int,
            (
                steps_of(found@[i as int].1.0@),
                found@[i as int].1.1,
                found@[i as int].1.2@,
            ),
        ));
        let text = match new_text(doc, &found[i].1.2, rhs, append, facts) {
            Err(e) => {
                proof {
                    bulk_stops::<D>(d0, ts, rhs@, append, facts@, (i + 1) as nat, ts.len());
                }
                return Err(e);
            },
            Ok(t) => t,
        };
        match doc.set_comment_in_doc(found[i].0, &found[i].1.0, found[i].1.1, &text) {
            Err(e) => {
                proof {
                    bulk_stops::<D>(d0, ts, rhs@, append, facts@, (i + 1) as nat, ts.len());
                }
                return Err(e);
            },
            Ok(more) => {
                extend_texts(warnings, &more);
                proof {
                    assert(w0 + w + texts(more@) =~= w0 + (w + texts(more@)));
                    w = w + texts(more@);
                }
            },
        }
        i = i + 1;
    }
    Ok(())
}

/// `del(comments)`: remove every comment in every document. Deleting a comment
/// path that a given document lacks is a no-op there, so enumerating the union
/// of all documents' comment paths and deleting each clears the whole stream.
fn bulk_delete<D: Document>(doc: &mut D) -> (r: Result<(), EditError>)
    requires
        D::commented_of(old(doc).doc()).len() > 0,
    ensures
        match bulk_deleted::<D>(
            old(doc).doc(),
            bulk_targets::<D>(old(doc).doc()),
            bulk_targets::<D>(old(doc).doc()).len(),
        ) {
            (d, Ok(w)) => final(doc).doc() == d && r is Ok && w.len() == 0,
            (d, Err(e)) => final(doc).doc() == d && r is Err && r->Err_0@ == e,
        },
{
    let ghost d0 = doc.doc();
    let all = doc.to_commented_all();
    let found = snapshot(&all);
    let ghost ts = placed_targets(found@);
    assert(all.len() == cmts(all@).len());
    let mut i: usize = 0;
    while i < found.len()
        invariant
            i <= found.len(),
            ts == placed_targets(found@),
            d0 == old(doc).doc(),
            ts == bulk_targets::<D>(d0),
            bulk_deleted::<D>(d0, ts, i as nat) == (
                doc.doc(),
                Ok::<Seq<Seq<char>>, Er>(Seq::empty()),
            ),
        decreases found.len() - i,
    {
        assert(ts[i as int] == (
            found@[i as int].0 as int,
            (
                steps_of(found@[i as int].1.0@),
                found@[i as int].1.1,
                found@[i as int].1.2@,
            ),
        ));
        match doc.delete_comment(&found[i].1.0, found[i].1.1) {
            Err(e) => {
                proof {
                    bulk_delete_stops::<D>(d0, ts, (i + 1) as nat, ts.len());
                }
                return Err(e);
            },
            Ok(_) => {},
        }
        i = i + 1;
    }
    Ok(())
}

/// Write one comment.
fn set_one<D: Document>(
    doc: &mut D,
    prefix: &Vec<Step>,
    kind: CommentKind,
    text: &str,
    warnings: &mut Vec<String>,
) -> (r: Result<(), EditError>)
    ensures
        match note_attempt(
            old(doc).doc(),
            D::note_in(old(doc).doc(), 0, steps_of(prefix@), kind, text@),
        ) {
            (d, Ok(w)) => final(doc).doc() == d && r is Ok && texts(final(warnings)@) == texts(
                old(warnings)@,
            ) + w,
            (d, Err(e)) => final(doc).doc() == d && r is Err && r->Err_0@ == e,
        },
{
    let more = doc.set_comment_in_doc(0, prefix, kind, text)?;
    extend_texts(warnings, &more);
    Ok(())
}

#[verifier::spinoff_prover]
#[verifier::rlimit(60)]
fn apply_inner<D: Document>(
    doc: &mut D,
    expr: &Expr,
    warnings: &mut Vec<String>,
    facts: &FloatFacts,
) -> (r: Result<(), EditError>)
    ensures
        match noted::<D>(old(doc).doc(), expr@, facts@) {
            (d, Ok(w)) => final(doc).doc() == d && r is Ok && texts(final(warnings)@) == texts(
                old(warnings)@,
            ) + w,
            (d, Err(e)) => final(doc).doc() == d && r is Err && r->Err_0@ == e,
        },
    decreases expr,
{
    let ghost w0 = texts(warnings@);
    match expr {
        Expr::Pipe(a, b) => {
            apply_inner(doc, a, warnings, facts)?;
            let ghost w1 = texts(warnings@);
            apply_inner(doc, b, warnings, facts)?;
            proof {
                let x = noted::<D>(old(doc).doc(), a@, facts@);
                let y = noted::<D>(x.0, b@, facts@);
                assert(w0 + x.1->Ok_0 + y.1->Ok_0 =~= w0 + (x.1->Ok_0 + y.1->Ok_0));
            }
            Ok(())
        },
        Expr::Assign(lhs, rhs) => {
            let (prefix, kind) = comment_target(lhs)?;
            let text = eval_text(rhs, &doc.whole(), facts)?;
            set_one(doc, &prefix, kind, &text, warnings)
        },
        Expr::UpdateAssign(lhs, rhs) => {
            // Bulk: transform every comment in the document.
            if is_comments_stream(lhs) {
                return bulk_edit(doc, rhs, false, warnings, facts);
            }
            let (prefix, kind) = comment_target(lhs)?;
            // `|=` sees the current comment (or "" if absent) as `.`.
            let current = current_comment(doc, &prefix, kind);
            let text = eval_text(rhs, &Value::Str(current), facts)?;
            set_one(doc, &prefix, kind, &text, warnings)
        },
        Expr::AddAssign(lhs, rhs) => {
            if is_comments_stream(lhs) {
                return bulk_edit(doc, rhs, true, warnings, facts);
            }
            let (prefix, kind) = comment_target(lhs)?;
            let current = current_comment(doc, &prefix, kind);
            let text = new_text(doc, &current, rhs, true, facts)?;
            set_one(doc, &prefix, kind, &text, warnings)
        },
        Expr::Call(name, args) => {
            if same(name, "del") {
                if args.len() != 1 {
                    return Err(EditError::new("del(...) takes one argument"));
                }
                if is_comments_stream(&args[0]) {
                    let all = doc.to_commented_all();
                    assert(all.len() == cmts(all@).len());
                    if all.len() == 0 {
                        return Err(EditError::new("this format has no comments"));
                    }
                    bulk_delete(doc)?;
                    assert(w0 + Seq::<Seq<char>>::empty() =~= w0);
                    return Ok(());
                }
                let steps = match args[0].as_path() {
                    None => {
                        return Err(EditError::new("del(...) takes a path"));
                    },
                    Some(steps) => steps,
                };
                let (prefix, kind) = split_comment(steps)?;
                doc.delete_comment(&prefix, kind)?;
                assert(w0 + Seq::<Seq<char>>::empty() =~= w0);
                return Ok(());
            }
            if same(name, "select") {
                return Err(
                    EditError::new(
                        "`select(...)` targeting isn't supported with comment edits yet; a comment edit already applies to every document of the stream",
                    ),
                );
            }
            Err(
                EditError::new(
                    "unsupported comment edit - use `.path.# = ...`, `|=`, `+=`, `del(.path.#)`, or the bulk `comments |= ...` / `del(comments)`",
                ),
            )
        },
        // Document selection with a comment edit: comment edits already apply to
        // every document, and per-document comment editing is a follow-up. Name
        // that, rather than falling through to the generic error below.
        Expr::DocSelect(_, _) => Err(
            EditError::new(
                "`^dN` document selection isn't supported with comment edits yet; a comment edit already applies to every document of the stream",
            ),
        ),
        _ => Err(
            EditError::new(
                "unsupported comment edit - use `.path.# = ...`, `|=`, `+=`, `del(.path.#)`, or the bulk `comments |= ...` / `del(comments)`",
            ),
        ),
    }
}

/// Apply a comment-mutation expression via the document's comment writes,
/// returning any warnings (layout expansion, kind remap). Comment-free mutations
/// never reach here; a front end routes on [`Expr::has_comment`].
pub fn apply_comment_mutation<D: Document>(doc: &mut D, expr: &Expr, facts: &FloatFacts) -> (r: Result<
    Vec<String>,
    EditError,
>)
    ensures
        (final(doc).doc(), warned(r)) == noted::<D>(old(doc).doc(), expr@, facts@),
{
    let mut warnings: Vec<String> = Vec::new();
    apply_inner(doc, expr, &mut warnings, facts)?;
    proof {
        let w = noted::<D>(old(doc).doc(), expr@, facts@).1->Ok_0;
        assert(texts(warnings@) =~= w);
    }
    Ok(warnings)
}

} // verus!
