//! What a comment edit writes, whatever the format.
use crate::comment::{targets, Target};
use crate::comment_edit::{all_targets, bulk_deleted, bulk_noted, bulk_targets, noted, standing};
use crate::comment_query::{ex_noted, record, records};
use crate::document::{note_attempt, Document};
use crate::error::Er;
use crate::float::Facts;
use crate::model::{Cmt, CommentKind, Ex, St, Val};
use crate::semantics::ex_eval;
use crate::value::raw_text;
use vstd::prelude::*;
use vstd::string::*;

verus! {

/// The path of a comment as an expression.
pub open spec fn comment_of(prefix: Seq<St>, kind: CommentKind) -> Ex {
    Ex::Path(prefix.push(St::Comment(kind)))
}

/// Is `t` the text of what the expression yields first: a string as it is, any other
/// scalar as it is printed?
pub open spec fn says(e: Ex, input: Val, t: Seq<char>, fx: Facts) -> bool {
    match ex_eval(e, input, fx) {
        Ok(s) => s.len() > 0 && !(s[0] is Array) && !(s[0] is Object) && t == raw_text(s[0]),
        Err(_) => false,
    }
}

/// Is `whole` made of `a` and `b`, one behind the other?
pub open spec fn made_of(whole: Seq<char>, a: Seq<char>, b: Seq<char>) -> bool {
    &&& whole.len() == a.len() + b.len()
    &&& forall|i: int| 0 <= i < a.len() ==> whole[i] == #[trigger] a[i]
    &&& forall|i: int| 0 <= i < b.len() ==> whole[a.len() + i] == #[trigger] b[i]
}

proof fn split_path(prefix: Seq<St>, kind: CommentKind)
    ensures
        crate::comment_edit::comment_target_of(comment_of(prefix, kind)) == Ok::<
            (Seq<St>, CommentKind),
            Er,
        >((prefix, kind)),
{
    let p = prefix.push(St::Comment(kind));
    assert(p.drop_last() =~= prefix);
}

proof fn behind_is_made_of(a: Seq<char>, b: Seq<char>)
    ensures
        made_of(a + b, a, b),
{
}

/// After `path.# += e` the comment written at the path is the one that stood there with
/// the text of `e` behind it.
#[verifier::rlimit(60)]
#[verifier::spinoff_prover]
pub proof fn adding_goes_behind<D: Document>(
    d: D::Doc,
    prefix: Seq<St>,
    kind: CommentKind,
    e: Ex,
    t: Seq<char>,
    fx: Facts,
) -> (text: Seq<char>)
    requires
        says(e, D::whole_of(d), t, fx),
    ensures
        made_of(text, standing(D::commented_of(d), prefix, kind), t),
        noted::<D>(
            d,
            Ex::AddAssign(Box::new(comment_of(prefix, kind)), Box::new(e)),
            fx,
        ) == note_attempt(d, D::note_in(d, 0, prefix, kind, text)),
{
    split_path(prefix, kind);
    let own = standing(D::commented_of(d), prefix, kind);
    behind_is_made_of(own, t);
    let l = comment_of(prefix, kind);
    assert(!crate::comment_edit::comments_stream(l));
    assert(crate::comment_edit::bulk_text(own, e, true, D::whole_of(d), fx) == Ok::<Seq<char>, Er>(
        own + t,
    ));
    own + t
}

/// After `path.# = e` the comment written at the path is the text of `e`; after
/// `path.# |= e` it is the text of `e` on the comment that stood there.
pub proof fn setting_writes_the_text<D: Document>(
    d: D::Doc,
    prefix: Seq<St>,
    kind: CommentKind,
    e: Ex,
    t: Seq<char>,
    fx: Facts,
)
    ensures
        says(e, D::whole_of(d), t, fx) ==> noted::<D>(
            d,
            Ex::Assign(Box::new(comment_of(prefix, kind)), Box::new(e)),
            fx,
        ) == note_attempt(d, D::note_in(d, 0, prefix, kind, t)),
        says(e, Val::Str(standing(D::commented_of(d), prefix, kind)), t, fx) ==> noted::<D>(
            d,
            Ex::UpdateAssign(Box::new(comment_of(prefix, kind)), Box::new(e)),
            fx,
        ) == note_attempt(d, D::note_in(d, 0, prefix, kind, t)),
{
    split_path(prefix, kind);
}

/// `del(path.#)` removes the comment of that kind at that path.
pub proof fn deleting_removes_the_comment<D: Document>(
    d: D::Doc,
    prefix: Seq<St>,
    kind: CommentKind,
    fx: Facts,
)
    ensures
        noted::<D>(d, Ex::Call("del"@, seq![comment_of(prefix, kind)]), fx) == (match D::unnote_in(
            d,
            prefix,
            kind,
        ) {
            Ok(now) => (now, Ok::<Seq<Seq<char>>, Er>(Seq::empty())),
            Err(x) => (d, Err(x)),
        }),
{
    split_path(prefix, kind);
    reveal_strlit("del");
    reveal_strlit("comments");
}

/// Of two edits one behind the other the second sees what the first left, and is not made
/// where the first is refused.
pub proof fn edits_run_in_turn<D: Document>(d: D::Doc, a: Ex, b: Ex, fx: Facts)
    ensures
        ({
            let both = noted::<D>(d, Ex::Pipe(Box::new(a), Box::new(b)), fx);
            let first = noted::<D>(d, a, fx);
            let second = noted::<D>(first.0, b, fx);
            &&& first.1 is Err ==> both == first
            &&& first.1 is Ok ==> both.0 == second.0 && both.1 is Ok == second.1 is Ok
            &&& first.1 is Ok && second.1 is Ok ==> both.1->Ok_0 == first.1->Ok_0 + second.1->Ok_0
            &&& first.1 is Ok && second.1 is Err ==> both.1 == second.1
        }),
{
}

/// What stands at a path is what a query of that comment yields, or nothing.
pub proof fn standing_is_what_is_read(all: Seq<Cmt>, prefix: Seq<St>, kind: CommentKind, fx: Facts)
    requires
        all.len() > 0,
    ensures
        ({
            let read = ex_noted(comment_of(prefix, kind), all[0], fx);
            &&& read is Ok
            &&& read->Ok_0.len() > 0 ==> read->Ok_0[0] == Val::Str(standing(all, prefix, kind))
            &&& read->Ok_0.len() == 0 ==> standing(all, prefix, kind).len() == 0
        }),
{
    let p = prefix.push(St::Comment(kind));
    assert(p.drop_last() =~= prefix);
    assert(p.last() == St::Comment(kind));
    assert(crate::ast::addresses_comment(Ex::Path(p))) by {
        assert(p[prefix.len() as int] is Comment);
    }
    values_are_texts(crate::comment::nodes_at(all[0], prefix), kind);
}

proof fn values_are_texts(cs: Seq<Cmt>, kind: CommentKind)
    ensures
        forall|i: int|
            0 <= i < crate::comment::note_values(cs, kind).len() ==> (
            #[trigger] crate::comment::note_values(cs, kind)[i]) is Str,
    decreases cs.len(),
{
    if cs.len() > 0 {
        values_are_texts(cs.drop_last(), kind);
    }
}

/// A bulk edit rewrites each comment from its own text, one after the other: with `+=`
/// the text of `e` goes behind it, with `|=` it is the text of `e` on it.
pub proof fn bulk_edits_each_comment<D: Document>(
    d: D::Doc,
    e: Ex,
    append: bool,
    t: Seq<char>,
    fx: Facts,
    n: nat,
) -> (text: Seq<char>)
    requires
        n < bulk_targets::<D>(d).len(),
        bulk_noted::<D>(d, bulk_targets::<D>(d), e, append, fx, n).1 is Ok,
        ({
            let now = bulk_noted::<D>(d, bulk_targets::<D>(d), e, append, fx, n).0;
            let own = bulk_targets::<D>(d)[n as int].1.2;
            says(
                e,
                if append {
                    D::whole_of(now)
                } else {
                    Val::Str(own)
                },
                t,
                fx,
            )
        }),
    ensures
        ({
            let ts = bulk_targets::<D>(d);
            let (at, (path, kind, own)) = ts[n as int];
            let (now, r) = bulk_noted::<D>(d, ts, e, append, fx, n);
            let (then, s) = bulk_noted::<D>(d, ts, e, append, fx, n + 1);
            let one = note_attempt(now, D::note_in(now, at, path, kind, text));
            &&& append ==> made_of(text, own, t)
            &&& !append ==> text == t
            &&& then == one.0
            &&& s is Ok == one.1 is Ok
        }),
{
    let own = bulk_targets::<D>(d)[n as int].1.2;
    if append {
        own + t
    } else {
        t
    }
}

/// The bulk edit of a document goes through every comment of it.
pub proof fn bulk_edit_is_whole<D: Document>(d: D::Doc, e: Ex, fx: Facts)
    requires
        D::commented_of(d).len() > 0,
    ensures
        noted::<D>(
            d,
            Ex::AddAssign(Box::new(Ex::Call("comments"@, Seq::empty())), Box::new(e)),
            fx,
        ) == bulk_noted::<D>(d, bulk_targets::<D>(d), e, true, fx, bulk_targets::<D>(d).len()),
        noted::<D>(
            d,
            Ex::UpdateAssign(Box::new(Ex::Call("comments"@, Seq::empty())), Box::new(e)),
            fx,
        ) == bulk_noted::<D>(d, bulk_targets::<D>(d), e, false, fx, bulk_targets::<D>(d).len()),
        noted::<D>(d, Ex::Call("del"@, seq![Ex::Call("comments"@, Seq::empty())]), fx)
            == bulk_deleted::<D>(d, bulk_targets::<D>(d), bulk_targets::<D>(d).len()),
{
    reveal_strlit("del");
    reveal_strlit("comments");
}

proof fn all_targets_hold(all: Seq<Cmt>, i: int, j: int, n: nat)
    requires
        0 <= i < n <= all.len(),
        0 <= j < targets(Seq::empty(), all[i]).len(),
    ensures
        all_targets(all, n).contains((i, targets(Seq::empty(), all[i])[j])),
    decreases n,
{
    let more = targets(Seq::empty(), all[n - 1]).map_values(|t: Target| (n - 1, t));
    let before = all_targets(all, (n - 1) as nat);
    let s = before + more;
    if i == n - 1 {
        assert(more[j] == (i, targets(Seq::empty(), all[i])[j]));
        assert(s[before.len() + j] == more[j]);
    } else {
        all_targets_hold(all, i, j, (n - 1) as nat);
        let x = (i, targets(Seq::empty(), all[i])[j]);
        let k = choose|k: int| 0 <= k < before.len() && before[k] == x;
        assert(s[k] == x);
    }
}

/// Every comment that the `comments` stream lists is one that a bulk edit rewrites.
pub proof fn listed_is_edited<D: Document>(d: D::Doc, i: int, j: int, fx: Facts)
    requires
        0 <= i < D::commented_of(d).len(),
        0 <= j < records(D::commented_of(d)[i]).len(),
    ensures
        exists|k: int|
            0 <= k < bulk_targets::<D>(d).len() && #[trigger] record(bulk_targets::<D>(d)[k].1)
                == records(D::commented_of(d)[i])[j] && bulk_targets::<D>(d)[k].0 == i,
{
    let all = D::commented_of(d);
    let t = targets(Seq::empty(), all[i])[j];
    all_targets_hold(all, i, j, all.len());
    let ts = bulk_targets::<D>(d);
    let k = choose|k: int| 0 <= k < ts.len() && ts[k] == (i, t);
    assert(record(ts[k].1) == records(all[i])[j]);
}

} // verus!
