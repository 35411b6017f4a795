//! What holds of the builtin functions, as calls of them.
use crate::error::Er;
use crate::eval_laws::{ascending, in_order, keys_are_ascending};
use crate::float::Facts;
use crate::json_laws::nat_digits_spell;
use crate::model::{Ex, St, Val};
use crate::semantics::{
    builtin_of, call_outs, del_at, ends, ex_eval, has_fn, path_founds, starts, step_founds_fn,
    trim_fn, truthy_only, Builtin,
};
use crate::seqs::{joined, map_all, sort_is_permutation, str_rank, Rank};
use crate::stream_laws::{bind_single, counts, map_each};
use crate::strings::{
    byte_slice, char_count, chosen, cut_from, find_sep, find_sep_bounds, fitting, flags_val,
    join_fn, span_members,
};
use crate::strs::{int_digits, is_digit, nat_digits, parse_i64, trimmed, white_space};
use crate::value::{by_text, get_key, key_at, key_at_bounds, key_list, raw_text, sorted_keys};
use vstd::prelude::*;
use vstd::string::*;

verus! {

/// A call without arguments.
pub open spec fn call0(name: Seq<char>) -> Ex {
    Ex::Call(name, Seq::empty())
}

/// A call with one argument.
pub open spec fn call1(name: Seq<char>, a: Ex) -> Ex {
    Ex::Call(name, seq![a])
}

proof fn names()
    ensures
        builtin_of("select"@) == Builtin::Select,
        builtin_of("length"@) == Builtin::Length,
        builtin_of("keys"@) == Builtin::Keys,
        builtin_of("type"@) == Builtin::Type,
        builtin_of("tostring"@) == Builtin::ToString,
        builtin_of("tonumber"@) == Builtin::ToNumber,
        builtin_of("has"@) == Builtin::Has,
        builtin_of("ltrimstr"@) == Builtin::Ltrimstr,
        builtin_of("rtrimstr"@) == Builtin::Rtrimstr,
        builtin_of("startswith"@) == Builtin::StartsWith,
        builtin_of("endswith"@) == Builtin::EndsWith,
        builtin_of("test"@) == Builtin::Test,
        builtin_of("match"@) == Builtin::Match,
        builtin_of("capture"@) == Builtin::Capture,
        builtin_of("sub"@) == Builtin::Sub,
        builtin_of("gsub"@) == Builtin::Gsub,
        builtin_of("split"@) == Builtin::Split,
        builtin_of("join"@) == Builtin::Join,
        builtin_of("del"@) == Builtin::Del,
        builtin_of("path"@) == Builtin::Path,
        builtin_of("ascii_upcase"@) == Builtin::Upcase,
        builtin_of("ascii_downcase"@) == Builtin::Downcase,
{
    reveal_strlit("select");
    reveal_strlit("length");
    reveal_strlit("keys");
    reveal_strlit("type");
    reveal_strlit("tostring");
    reveal_strlit("tonumber");
    reveal_strlit("ascii_upcase");
    reveal_strlit("ascii_downcase");
    reveal_strlit("has");
    reveal_strlit("ltrimstr");
    reveal_strlit("rtrimstr");
    reveal_strlit("startswith");
    reveal_strlit("endswith");
    reveal_strlit("test");
    reveal_strlit("match");
    reveal_strlit("capture");
    reveal_strlit("sub");
    reveal_strlit("gsub");
    reveal_strlit("split");
    reveal_strlit("join");
    reveal_strlit("del");
    reveal_strlit("path");
    assert("select"@.len() == 6);
    assert("length"@.len() == 6);
    assert("keys"@.len() == 4);
    assert("type"@.len() == 4);
    assert("tostring"@.len() == 8);
    assert("tonumber"@.len() == 8);
    assert("ascii_upcase"@.len() == 12);
    assert("ascii_downcase"@.len() == 14);
    assert("has"@.len() == 3);
    assert("ltrimstr"@.len() == 8);
    assert("rtrimstr"@.len() == 8);
    assert("startswith"@.len() == 10);
    assert("endswith"@.len() == 8);
    assert("test"@.len() == 4);
    assert("match"@.len() == 5);
    assert("capture"@.len() == 7);
    assert("sub"@.len() == 3);
    assert("gsub"@.len() == 4);
    assert("split"@.len() == 5);
    assert("join"@.len() == 4);
    assert("del"@.len() == 3);
    assert("path"@.len() == 4);
    assert("select"@[0] == 's' && "length"@[0] == 'l');
    assert("keys"@[0] == 'k' && "type"@[0] == 't' && "test"@[0] == 't' && "join"@[0] == 'j'
        && "path"@[0] == 'p' && "gsub"@[0] == 'g');
    assert("type"@[1] == 'y' && "test"@[1] == 'e');
    assert("tostring"@[2] == 's' && "tonumber"@[2] == 'n' && "ltrimstr"@[2] == 'r' && "endswith"@[2]
        == 'd');
    assert("ltrimstr"@[0] == 'l' && "rtrimstr"@[0] == 'r' && "tostring"@[0] == 't' && "tonumber"@[0]
        == 't' && "endswith"@[0] == 'e');
    assert("has"@[0] == 'h' && "sub"@[0] == 's' && "del"@[0] == 'd');
    assert("match"@[0] == 'm' && "split"@[0] == 's');
}

/// `select(f)` yields its input once for each value of `f` on it that is neither null nor
/// `false`, and nothing where there is none.
pub proof fn select_keeps_its_input(f: Ex, v: Val, fx: Facts)
    ensures
        match ex_eval(f, v, fx) {
            Err(e) => ex_eval(call1("select"@, f), v, fx) == Err::<Seq<Val>, Er>(e),
            Ok(s) => {
                let o = ex_eval(call1("select"@, f), v, fx);
                o is Ok && o->Ok_0.len() == s.filter(counts()).len() && forall|i: int|
                    0 <= i < o->Ok_0.len() ==> #[trigger] o->Ok_0[i] == v
            },
        },
{
    names();
    assert(ex_eval(call1("select"@, f), v, fx) == call_outs("select"@, seq![f], v, fx));
    assert(seq![f][0] == f);
    if let Ok(s) = ex_eval(f, v, fx) {
        truthy_filter(s);
    }
}

proof fn truthy_filter(s: Seq<Val>)
    ensures
        truthy_only(s) == s.filter(counts()),
    decreases s.len(),
{
    reveal(Seq::filter);
    if s.len() > 0 {
        truthy_filter(s.drop_last());
    }
    assert(truthy_only(s) =~= s.filter(counts()));
}

/// `length` counts the characters of a string, the elements of an array and the members
/// of an object; of null it is zero; and numbers and booleans have none.
pub proof fn length_counts(v: Val, fx: Facts)
    ensures
        ({
            let o = ex_eval(call0("length"@), v, fx);
            &&& v is Null ==> o == Ok::<Seq<Val>, Er>(seq![Val::Int(0)])
            &&& v is Str && v->Str_0.len() <= i64::MAX ==> o == Ok::<Seq<Val>, Er>(
                seq![Val::Int(v->Str_0.len() as i64)],
            )
            &&& v is Array && v->Array_0.len() <= i64::MAX ==> o == Ok::<Seq<Val>, Er>(
                seq![Val::Int(v->Array_0.len() as i64)],
            )
            &&& v is Object && v->Object_0.len() <= i64::MAX ==> o == Ok::<Seq<Val>, Er>(
                seq![Val::Int(v->Object_0.len() as i64)],
            )
            &&& v is Bool || v is Int || v is Float ==> o is Err
        }),
{
    names();
    assert(ex_eval(call0("length"@), v, fx) == call_outs("length"@, Seq::empty(), v, fx));
}

/// `type` names the type.
pub proof fn types_are_named(v: Val, fx: Facts)
    ensures
        ({
            let o = ex_eval(call0("type"@), v, fx);
            &&& v is Null ==> o == Ok::<Seq<Val>, Er>(seq![Val::Str("null"@)])
            &&& v is Bool ==> o == Ok::<Seq<Val>, Er>(seq![Val::Str("boolean"@)])
            &&& v is Int || v is Float ==> o == Ok::<Seq<Val>, Er>(seq![Val::Str("number"@)])
            &&& v is Str ==> o == Ok::<Seq<Val>, Er>(seq![Val::Str("string"@)])
            &&& v is Array ==> o == Ok::<Seq<Val>, Er>(seq![Val::Str("array"@)])
            &&& v is Object ==> o == Ok::<Seq<Val>, Er>(seq![Val::Str("object"@)])
        }),
{
    names();
    assert(ex_eval(call0("type"@), v, fx) == call_outs("type"@, Seq::empty(), v, fx));
}

/// `keys` yields one array: of an object its keys, each as often as it is there, in
/// ascending order of their code points; of an array its indices.
#[verifier::rlimit(60)]
#[verifier::spinoff_prover]
pub proof fn keys_are_all_and_in_order(v: Val, fx: Facts)
    requires
        v is Object || v is Array,
        v is Array ==> v->Array_0.len() <= i64::MAX,
    ensures
        ({
            let o = ex_eval(call0("keys"@), v, fx);
            &&& o is Ok && o->Ok_0.len() == 1 && o->Ok_0[0] is Array
            &&& v is Array ==> o->Ok_0[0]->Array_0.len() == v->Array_0.len() && forall|i: int|
                0 <= i < v->Array_0.len() ==> #[trigger] o->Ok_0[0]->Array_0[i] == Val::Int(i as i64)
            &&& v is Object ==> exists|ks: Seq<Seq<char>>|
                {
                    &&& #[trigger] ks.to_multiset() == Seq::new(
                        v->Object_0.len(),
                        |i: int| v->Object_0[i].0,
                    ).to_multiset()
                    &&& o->Ok_0[0]->Array_0.len() == ks.len()
                    &&& forall|i: int|
                        0 <= i < ks.len() ==> #[trigger] o->Ok_0[0]->Array_0[i] == Val::Str(ks[i])
                    &&& forall|i: int|
                        0 < i < ks.len() ==> str_rank(ks[i - 1], #[trigger] ks[i]) != Rank::Above
                }
        }),
{
    names();
    assert(ex_eval(call0("keys"@), v, fx) == call_outs("keys"@, Seq::empty(), v, fx));
    if let Val::Object(m) = v {
        sorted_in_order(m);
        let ks = sorted_keys(m);
        let a = ks.map_values(|p: Seq<char>| Val::Str(p));
        assert(ex_eval(call0("keys"@), v, fx) == Ok::<Seq<Val>, Er>(seq![Val::Array(a)]));
        assert(ks.to_multiset() == Seq::new(m.len(), |i: int| m[i].0).to_multiset());
        assert forall|i: int| 0 <= i < ks.len() implies #[trigger] a[i] == Val::Str(ks[i]) by {}
    }
}

proof fn sorted_in_order(m: Seq<(Seq<char>, Val)>)
    ensures
        ({
            let ks = sorted_keys(m);
            &&& ks.to_multiset() == Seq::new(m.len(), |i: int| m[i].0).to_multiset()
            &&& forall|i: int|
                0 < i < ks.len() ==> str_rank(ks[i - 1], #[trigger] ks[i]) != Rank::Above
        }),
{
    let ks = sorted_keys(m);
    keys_are_ascending(m);
    sort_is_permutation(key_list(m), by_text());
    assert(key_list(m) =~= Seq::new(m.len(), |i: int| m[i].0));
    assert forall|i: int| 0 < i < ks.len() implies str_rank(ks[i - 1], #[trigger] ks[i])
        != Rank::Above by {
        assert(in_order(ks, by_text(), i));
    }
}

/// `has(k)` says whether the step to that key or index yields something; an index counts
/// from the start alone.
pub proof fn has_says_what_is_there(v: Val, k: Seq<char>, x: i64, fx: Facts)
    ensures
        v is Object ==> ex_eval(call1("has"@, Ex::Literal(Val::Str(k))), v, fx) == Ok::<Seq<Val>, Er>(
            seq![Val::Bool(exists|i: int| 0 <= i < v->Object_0.len() && (#[trigger] v->Object_0[i]).0 == k)],
        ),
        v is Array ==> ex_eval(call1("has"@, Ex::Literal(Val::Int(x))), v, fx) == Ok::<Seq<Val>, Er>(
            seq![Val::Bool(0 <= x < v->Array_0.len())],
        ),
{
    names();
    let e = Ex::Literal(Val::Str(k));
    let g = Ex::Literal(Val::Int(x));
    assert(ex_eval(call1("has"@, e), v, fx) == call_outs("has"@, seq![e], v, fx));
    assert(ex_eval(call1("has"@, g), v, fx) == call_outs("has"@, seq![g], v, fx));
    assert(seq![e][0] == e && seq![g][0] == g);
    one_mapped(Val::Str(k), has_fn(v));
    one_mapped(Val::Int(x), has_fn(v));
    if let Val::Object(m) = v {
        key_at_bounds(m, k);
        let i = key_at(m, k);
        if i < m.len() {
            assert(m[i].0 == k);
        }
    }
}

proof fn one_mapped(x: Val, f: spec_fn(Val) -> Result<Val, Er>)
    ensures
        map_all(seq![x], f) == (match f(x) {
            Ok(y) => Ok(seq![y]),
            Err(e) => Err(e),
        }),
{
    assert(seq![x].drop_last() =~= Seq::<Val>::empty());
    assert(map_all(Seq::<Val>::empty(), f) == Ok::<Seq<Val>, Er>(Seq::empty()));
    if let Ok(y) = f(x) {
        assert(Seq::<Val>::empty().push(y) =~= seq![y]);
    }
}

/// `startswith(p)` holds of the strings that are `p` and something behind it, and
/// `ltrimstr(p)` takes `p` off those and leaves the others; so do `endswith` and
/// `rtrimstr` at the end.
#[verifier::rlimit(60)]
#[verifier::spinoff_prover]
pub proof fn affixes_are_told_and_trimmed(p: Seq<char>, r: Seq<char>, s: Seq<char>, fx: Facts)
    ensures
        ex_eval(call1("startswith"@, Ex::Literal(Val::Str(p))), Val::Str(p + r), fx) == Ok::<
            Seq<Val>,
            Er,
        >(seq![Val::Bool(true)]),
        ex_eval(call1("endswith"@, Ex::Literal(Val::Str(p))), Val::Str(r + p), fx) == Ok::<
            Seq<Val>,
            Er,
        >(seq![Val::Bool(true)]),
        ex_eval(call1("ltrimstr"@, Ex::Literal(Val::Str(p))), Val::Str(p + r), fx) == Ok::<
            Seq<Val>,
            Er,
        >(seq![Val::Str(r)]),
        ex_eval(call1("rtrimstr"@, Ex::Literal(Val::Str(p))), Val::Str(r + p), fx) == Ok::<
            Seq<Val>,
            Er,
        >(seq![Val::Str(r)]),
        (forall|t: Seq<char>| s != #[trigger] (p + t)) ==> ex_eval(
            call1("startswith"@, Ex::Literal(Val::Str(p))),
            Val::Str(s),
            fx,
        ) == Ok::<Seq<Val>, Er>(seq![Val::Bool(false)]) && ex_eval(
            call1("ltrimstr"@, Ex::Literal(Val::Str(p))),
            Val::Str(s),
            fx,
        ) == Ok::<Seq<Val>, Er>(seq![Val::Str(s)]),
        (forall|t: Seq<char>| s != #[trigger] (t + p)) ==> ex_eval(
            call1("endswith"@, Ex::Literal(Val::Str(p))),
            Val::Str(s),
            fx,
        ) == Ok::<Seq<Val>, Er>(seq![Val::Bool(false)]) && ex_eval(
            call1("rtrimstr"@, Ex::Literal(Val::Str(p))),
            Val::Str(s),
            fx,
        ) == Ok::<Seq<Val>, Er>(seq![Val::Str(s)]),
{
    names();
    let e = Ex::Literal(Val::Str(p));
    assert(seq![e][0] == e);
    affix_calls(e, p, p + r, fx);
    affix_calls(e, p, r + p, fx);
    affix_calls(e, p, s, fx);
    affix_parts(p, r);
    affix_splits(p, s);
}

proof fn affix_parts(p: Seq<char>, r: Seq<char>)
    ensures
        (p + r).len() == p.len() + r.len(),
        (r + p).len() == p.len() + r.len(),
        (p + r).take(p.len() as int) == p,
        (p + r).skip(p.len() as int) == r,
        (r + p).skip(r.len() as int) == p,
        (r + p).take(r.len() as int) == r,
{
    assert((p + r).take(p.len() as int) =~= p);
    assert((p + r).skip(p.len() as int) =~= r);
    assert((r + p).skip(r.len() as int) =~= p);
    assert((r + p).take(r.len() as int) =~= r);
}

proof fn affix_splits(p: Seq<char>, s: Seq<char>)
    ensures
        starts(s, p) ==> s == p + s.skip(p.len() as int),
        ends(s, p) ==> s == s.take(s.len() - p.len()) + p,
{
    if starts(s, p) {
        assert(s =~= p + s.skip(p.len() as int));
    }
    if ends(s, p) {
        assert(s =~= s.take(s.len() - p.len()) + p);
    }
}

proof fn affix_calls(e: Ex, p: Seq<char>, s: Seq<char>, fx: Facts)
    requires
        e == Ex::Literal(Val::Str(p)),
    ensures
        ex_eval(call1("startswith"@, e), Val::Str(s), fx) == Ok::<Seq<Val>, Er>(
            seq![Val::Bool(starts(s, p))],
        ),
        ex_eval(call1("endswith"@, e), Val::Str(s), fx) == Ok::<Seq<Val>, Er>(
            seq![Val::Bool(ends(s, p))],
        ),
        ex_eval(call1("ltrimstr"@, e), Val::Str(s), fx) == Ok::<Seq<Val>, Er>(
            seq![
                Val::Str(
                    if starts(s, p) {
                        s.skip(p.len() as int)
                    } else {
                        s
                    },
                ),
            ],
        ),
        ex_eval(call1("rtrimstr"@, e), Val::Str(s), fx) == Ok::<Seq<Val>, Er>(
            seq![
                Val::Str(
                    if ends(s, p) {
                        s.take(s.len() - p.len())
                    } else {
                        s
                    },
                ),
            ],
        ),
{
    names();
    let v = Val::Str(s);
    assert(seq![e][0] == e);
    assert(ex_eval(e, v, fx) == Ok::<Seq<Val>, Er>(seq![Val::Str(p)]));
    assert(ex_eval(call1("startswith"@, e), v, fx) == call_outs("startswith"@, seq![e], v, fx));
    assert(ex_eval(call1("endswith"@, e), v, fx) == call_outs("endswith"@, seq![e], v, fx));
    assert(ex_eval(call1("ltrimstr"@, e), v, fx) == call_outs("ltrimstr"@, seq![e], v, fx));
    assert(ex_eval(call1("rtrimstr"@, e), v, fx) == call_outs("rtrimstr"@, seq![e], v, fx));
    one_mapped(Val::Str(p), trim_fn(s, true));
    one_mapped(Val::Str(p), trim_fn(s, false));
}

proof fn digits_stay(t: Seq<char>)
    requires
        t.len() > 0,
        !white_space(t[0]),
        !white_space(t.last()),
    ensures
        trimmed(t) == t,
{
}

/// `tonumber` of what `tostring` makes of an integer is the integer; a number stays as it
/// is; and `tostring` leaves a string as it is.
pub proof fn numbers_survive_strings(i: i64, v: Val, s: Seq<char>, fx: Facts)
    ensures
        ex_eval(call0("tostring"@), Val::Int(i), fx) == Ok::<Seq<Val>, Er>(
            seq![Val::Str(raw_text(Val::Int(i)))],
        ),
        ex_eval(call0("tonumber"@), Val::Str(raw_text(Val::Int(i))), fx) == Ok::<Seq<Val>, Er>(
            seq![Val::Int(i)],
        ),
        v is Int || v is Float ==> ex_eval(call0("tonumber"@), v, fx) == Ok::<Seq<Val>, Er>(seq![v]),
        v is Null || v is Bool || v is Array || v is Object ==> ex_eval(call0("tonumber"@), v, fx) is Err,
        ex_eval(call0("tostring"@), Val::Str(s), fx) == Ok::<Seq<Val>, Er>(seq![Val::Str(s)]),
{
    names();
    let none = Seq::<Ex>::empty();
    let t = int_digits(i as int);
    let w = Val::Str(t);
    assert(ex_eval(call0("tostring"@), Val::Int(i), fx) == call_outs("tostring"@, none, Val::Int(i), fx));
    assert(ex_eval(call0("tonumber"@), w, fx) == call_outs("tonumber"@, none, w, fx));
    assert(ex_eval(call0("tonumber"@), v, fx) == call_outs("tonumber"@, none, v, fx));
    assert(ex_eval(call0("tostring"@), Val::Str(s), fx) == call_outs("tostring"@, none, Val::Str(s), fx));
    let m: int = if i < 0 {
        -(i as int)
    } else {
        i as int
    };
    let d = nat_digits(m as nat);
    nat_digits_spell(m as nat);
    assert(is_digit(d[0]));
    assert(is_digit(d[d.len() - 1]));
    if i < 0 {
        assert(t == seq!['-'] + d);
        assert(t.drop_first() =~= d);
        assert(t.last() == d.last());
    } else {
        assert(t == d);
    }
    digits_stay(t);
    assert(parse_i64(t) == Some(i));
}

proof fn joined_front(x: Seq<char>, rest: Seq<Seq<char>>, sep: Seq<char>)
    requires
        rest.len() > 0,
    ensures
        joined(seq![x] + rest, sep) == x + sep + joined(rest, sep),
    decreases rest.len(),
{
    let all = seq![x] + rest;
    assert(all.drop_last() =~= seq![x] + rest.drop_last());
    if rest.len() == 1 {
        assert(all.drop_last() =~= seq![x]);
        assert(joined(seq![x], sep) == x);
        assert(joined(all, sep) =~= x + sep + joined(rest, sep));
    } else {
        joined_front(x, rest.drop_last(), sep);
        assert(joined(all, sep) =~= x + sep + joined(rest, sep));
    }
}

/// Does the text hold the other somewhere?
pub open spec fn holds_text(s: Seq<char>, t: Seq<char>) -> bool {
    exists|i: int| 0 <= i && i + t.len() <= s.len() && #[trigger] s.subrange(i, i + t.len()) == t
}

proof fn not_before(s: Seq<char>, sep: Seq<char>, i: int, k: int)
    requires
        0 <= i <= k,
        k + sep.len() <= s.len(),
        s.subrange(k, k + sep.len()) == sep,
    ensures
        find_sep(s, sep, i) is Some,
        find_sep(s, sep, i)->0 <= k,
    decreases k - i,
{
    if s.subrange(i, i + sep.len()) != sep {
        not_before(s, sep, i + 1, k);
    }
}

proof fn pieces_join(s: Seq<char>, sep: Seq<char>, i: int)
    requires
        0 <= i <= s.len(),
        sep.len() > 0,
    ensures
        cut_from(s, sep, i).len() > 0,
        joined(cut_from(s, sep, i), sep) == s.subrange(i, s.len() as int),
        forall|k: int|
            0 <= k < cut_from(s, sep, i).len() ==> !holds_text(#[trigger] cut_from(s, sep, i)[k], sep),
    decreases s.len() - i,
{
    find_sep_bounds(s, sep, i);
    let ps = cut_from(s, sep, i);
    match find_sep(s, sep, i) {
        Some(j) => {
            let x = s.subrange(i, j);
            let rest = cut_from(s, sep, j + sep.len());
            pieces_join(s, sep, j + sep.len());
            joined_front(x, rest, sep);
            assert(x + sep + s.subrange(j + sep.len(), s.len() as int) =~= s.subrange(i, s.len() as int));
            assert(!holds_text(x, sep)) by {
                if holds_text(x, sep) {
                    let k = choose|k: int|
                        0 <= k && k + sep.len() <= x.len() && #[trigger] x.subrange(k, k + sep.len()) == sep;
                    assert(s.subrange(i + k, i + k + sep.len()) =~= x.subrange(k, k + sep.len()));
                    not_before(s, sep, i, i + k);
                }
            }
            assert forall|k: int| 0 <= k < ps.len() implies !holds_text(#[trigger] ps[k], sep) by {
                if k > 0 {
                    assert(ps[k] == rest[k - 1]);
                }
            }
        },
        None => {
            let x = s.subrange(i, s.len() as int);
            assert(ps =~= seq![x]);
            assert(!holds_text(x, sep)) by {
                if holds_text(x, sep) {
                    let k = choose|k: int|
                        0 <= k && k + sep.len() <= x.len() && #[trigger] x.subrange(k, k + sep.len()) == sep;
                    assert(s.subrange(i + k, i + k + sep.len()) =~= x.subrange(k, k + sep.len()));
                    not_before(s, sep, i, i + k);
                }
            }
        },
    }
}

/// `split(sep)` cuts a string at a separator into strings that do not hold it, and
/// `join(sep)` puts them together again as the string.
pub proof fn split_and_join_are_inverse(s: Seq<char>, sep: Seq<char>, fx: Facts)
    requires
        sep.len() > 0,
    ensures
        ({
            let e = Ex::Literal(Val::Str(sep));
            let o = ex_eval(call1("split"@, e), Val::Str(s), fx);
            &&& o is Ok && o->Ok_0.len() == 1 && o->Ok_0[0] is Array
            &&& o->Ok_0[0]->Array_0.len() > 0
            &&& forall|i: int|
                0 <= i < o->Ok_0[0]->Array_0.len() ==> (#[trigger] o->Ok_0[0]->Array_0[i]) is Str
                    && !holds_text(o->Ok_0[0]->Array_0[i]->Str_0, sep)
            &&& ex_eval(call1("join"@, e), o->Ok_0[0], fx) == Ok::<Seq<Val>, Er>(seq![Val::Str(s)])
        }),
{
    names();
    let e = Ex::Literal(Val::Str(sep));
    let v = Val::Str(s);
    assert(seq![e][0] == e);
    assert(ex_eval(e, v, fx) == Ok::<Seq<Val>, Er>(seq![Val::Str(sep)]));
    assert(ex_eval(call1("split"@, e), v, fx) == call_outs("split"@, seq![e], v, fx));
    pieces_join(s, sep, 0);
    let ps = cut_from(s, sep, 0);
    assert(s.subrange(0, s.len() as int) =~= s);
    let a = ps.map_values(|p: Seq<char>| Val::Str(p));
    let w = Val::Array(a);
    assert(ex_eval(e, w, fx) == Ok::<Seq<Val>, Er>(seq![Val::Str(sep)]));
    assert(ex_eval(call1("join"@, e), w, fx) == call_outs("join"@, seq![e], w, fx));
    texts_joined(ps);
    assert forall|i: int| 0 <= i < a.len() implies (#[trigger] a[i]) is Str && !holds_text(
        a[i]->Str_0,
        sep,
    ) by {
        assert(a[i] == Val::Str(ps[i]));
    }
}

proof fn texts_joined(ps: Seq<Seq<char>>)
    ensures
        map_all(ps.map_values(|p: Seq<char>| Val::Str(p)), join_fn()) == Ok::<Seq<Seq<char>>, Er>(ps),
{
    let a = ps.map_values(|p: Seq<char>| Val::Str(p));
    map_each(a, join_fn());
    match map_all(a, join_fn()) {
        Ok(t) => {
            assert forall|i: int| 0 <= i < ps.len() implies t[i] == ps[i] by {
                assert(join_fn()(a[i]) == Ok::<Seq<char>, Er>(t[i]));
            }
            assert(t =~= ps);
        },
        Err(x) => {
            let i = choose|i: int|
                0 <= i < a.len() && join_fn()(#[trigger] a[i]) == Err::<Seq<char>, Er>(x);
            assert(a[i] == Val::Str(ps[i]));
        },
    }
}

/// `join(sep)` of no item is the empty string, of one its text, and of one more the
/// joined ones, the separator and its text; null has no text, and containers are refused.
pub proof fn join_puts_between(items: Seq<Val>, x: Val, sep: Seq<char>, fx: Facts)
    ensures
        ({
            let e = Ex::Literal(Val::Str(sep));
            let t = if x is Null {
                Seq::empty()
            } else {
                raw_text(x)
            };
            let before = ex_eval(call1("join"@, e), Val::Array(items), fx);
            let after = ex_eval(call1("join"@, e), Val::Array(items.push(x)), fx);
            &&& ex_eval(call1("join"@, e), Val::Array(Seq::empty()), fx) == Ok::<Seq<Val>, Er>(
                seq![Val::Str(Seq::empty())],
            )
            &&& x is Array || x is Object ==> after is Err
            &&& !(x is Array) && !(x is Object) && items.len() == 0 ==> after == Ok::<Seq<Val>, Er>(
                seq![Val::Str(t)],
            )
            &&& !(x is Array) && !(x is Object) && items.len() > 0 && before is Ok ==> before->Ok_0.len() == 1
                && before->Ok_0[0] is Str && after == Ok::<Seq<Val>, Er>(
                seq![Val::Str(before->Ok_0[0]->Str_0 + sep + t)],
            )
        }),
{
    names();
    let e = Ex::Literal(Val::Str(sep));
    assert(seq![e][0] == e);
    let all = items.push(x);
    let none = Val::Array(Seq::<Val>::empty());
    let w = Val::Array(items);
    let u = Val::Array(all);
    assert(ex_eval(e, w, fx) == Ok::<Seq<Val>, Er>(seq![Val::Str(sep)]));
    assert(ex_eval(e, u, fx) == Ok::<Seq<Val>, Er>(seq![Val::Str(sep)]));
    assert(ex_eval(e, none, fx) == Ok::<Seq<Val>, Er>(seq![Val::Str(sep)]));
    assert(ex_eval(call1("join"@, e), w, fx) == call_outs("join"@, seq![e], w, fx));
    assert(ex_eval(call1("join"@, e), u, fx) == call_outs("join"@, seq![e], u, fx));
    assert(ex_eval(call1("join"@, e), none, fx) == call_outs("join"@, seq![e], none, fx));
    assert(map_all(Seq::<Val>::empty(), join_fn()) == Ok::<Seq<Seq<char>>, Er>(Seq::empty()));
    assert(all.drop_last() =~= items);
    map_each(items, join_fn());
    if let Ok(parts) = map_all(items, join_fn()) {
        if let Ok(t) = join_fn()(x) {
            let more = parts.push(t);
            assert(more.drop_last() =~= parts);
            if items.len() == 0 {
                assert(parts =~= Seq::<Seq<char>>::empty());
            }
        }
    }
}

/// Is every step a key?
pub open spec fn all_keys(p: Seq<St>) -> bool {
    forall|i: int| 0 <= i < p.len() ==> (#[trigger] p[i]) is Field
}

proof fn keys_found(p: Seq<St>, v: Option<Val>)
    requires
        all_keys(p),
        path_founds(p, v) is Ok,
    ensures
        path_founds(p, v)->Ok_0.len() == 1,
        path_founds(p, v)->Ok_0[0].0 == p,
    decreases p.len(),
{
    if p.len() > 0 {
        let init = p.drop_last();
        assert(all_keys(init)) by {
            assert forall|i: int| 0 <= i < init.len() implies (#[trigger] init[i]) is Field by {
                assert(init[i] == p[i]);
            }
        }
        assert(p[p.len() - 1] is Field);
        keys_found(init, v);
        let fs = path_founds(init, v)->Ok_0;
        assert(fs =~= seq![fs[0]]);
        bind_single(fs[0], step_founds_fn(p.last()));
        assert(init.push(p.last()) =~= p);
    } else {
        assert(p =~= Seq::<St>::empty());
    }
}

/// `path(p)` of a path of keys is one array of those keys, in order, whether or not
/// something is there.
pub proof fn path_names_the_keys(p: Seq<St>, v: Val, fx: Facts)
    requires
        all_keys(p),
        ex_eval(call1("path"@, Ex::Path(p)), v, fx) is Ok,
    ensures
        ({
            let o = ex_eval(call1("path"@, Ex::Path(p)), v, fx)->Ok_0;
            &&& o.len() == 1 && o[0] is Array && o[0]->Array_0.len() == p.len()
            &&& forall|i: int|
                0 <= i < p.len() ==> #[trigger] o[0]->Array_0[i] == Val::Str(p[i]->Field_0)
        }),
{
    names();
    let e = Ex::Path(p);
    assert(seq![e][0] == e);
    assert(ex_eval(call1("path"@, e), v, fx) == call_outs("path"@, seq![e], v, fx));
    assert(crate::semantics::ex_founds(e, Some(v), fx) == path_founds(p, Some(v)));
    keys_found(p, Some(v));
    let o = ex_eval(call1("path"@, e), v, fx)->Ok_0;
    assert forall|i: int| 0 <= i < p.len() implies #[trigger] o[0]->Array_0[i] == Val::Str(
        p[i]->Field_0,
    ) by {
        assert(p[i] is Field);
    }
}

/// `del(path)` is the value without what the path leads to.
pub proof fn del_deletes(p: Seq<St>, v: Val, fx: Facts)
    ensures
        ex_eval(call1("del"@, Ex::Path(p)), v, fx) == (match del_at(v, p) {
            Ok(w) => Ok::<Seq<Val>, Er>(seq![w]),
            Err(e) => Err(e),
        }),
{
    names();
    let e = Ex::Path(p);
    assert(seq![e][0] == e);
    assert(ex_eval(call1("del"@, e), v, fx) == call_outs("del"@, seq![e], v, fx));
}

/// Regex flags are a set: each letter switches on what it stands for, wherever it stands,
/// and any other letter is refused.
pub proof fn flags_are_a_set(flags: Seq<char>)
    ensures
        match flags_val(flags) {
            Ok((o, g)) => {
                &&& g <==> flags.contains('g')
                &&& o.ignore_case <==> flags.contains('i')
                &&& o.verbose <==> flags.contains('x')
                &&& o.dot_all <==> flags.contains('s')
                &&& o.multi_line <==> flags.contains('m')
                &&& forall|i: int|
                    0 <= i < flags.len() ==> (#[trigger] flags[i]) == 'g' || flags[i] == 'i' || flags[i]
                        == 'x' || flags[i] == 's' || flags[i] == 'm'
            },
            Err(_) => exists|i: int|
                0 <= i < flags.len() && (#[trigger] flags[i]) != 'g' && flags[i] != 'i' && flags[i] != 'x'
                    && flags[i] != 's' && flags[i] != 'm',
        },
    decreases flags.len(),
{
    if flags.len() > 0 {
        let init = flags.drop_last();
        let f = flags.last();
        flags_are_a_set(init);
        assert(init.push(f) =~= flags);
        assert forall|c: char| #[trigger] flags.contains(c) <==> init.contains(c) || c == f by {
            if init.contains(c) {
                let i = choose|i: int| 0 <= i < init.len() && init[i] == c;
                assert(flags[i] == c);
            }
            if c == f {
                assert(flags[flags.len() - 1] == c);
            }
            if flags.contains(c) {
                let i = choose|i: int| 0 <= i < flags.len() && flags[i] == c;
                if i < init.len() {
                    assert(init[i] == c);
                }
            }
        }
        match flags_val(init) {
            Ok(_) => {
                if flags_val(flags) is Ok {
                    assert forall|i: int| 0 <= i < flags.len() implies (#[trigger] flags[i]) == 'g'
                        || flags[i] == 'i' || flags[i] == 'x' || flags[i] == 's' || flags[i] == 'm' by {
                        if i < init.len() {
                            assert(init[i] == flags[i]);
                        }
                    }
                } else {
                    assert(flags[flags.len() - 1] == f);
                }
            },
            Err(_) => {
                let i = choose|i: int|
                    0 <= i < init.len() && (#[trigger] init[i]) != 'g' && init[i] != 'i' && init[i]
                        != 'x' && init[i] != 's' && init[i] != 'm';
                assert(flags[i] == init[i]);
            },
        }
    }
}

proof fn fitting_bounds(s: Seq<char>, bytes: int, i: int)
    requires
        0 <= i <= s.len(),
    ensures
        i <= fitting(s, bytes, i) <= s.len(),
    decreases s.len() - i,
{
    if i < s.len() && crate::strings::utf8_width(s[i]) <= bytes {
        fitting_bounds(s, bytes - crate::strings::utf8_width(s[i]), i + 1);
    }
}

/// Of a match and of each of its groups that took part, the string is what stands in the
/// input at the offset, over the length, counted in characters.
pub proof fn matches_say_where_they_are(s: Seq<char>, a: usize, b: usize)
    requires
        s.len() <= i64::MAX,
    ensures
        ({
            let m = span_members(s, Some((a, b)));
            let at = get_key(m, "offset"@);
            let len = get_key(m, "length"@);
            let text = get_key(m, "string"@);
            &&& at is Some && at->0 is Int && len is Some && len->0 is Int
            &&& 0 <= at->0->Int_0 && 0 <= len->0->Int_0
            &&& at->0->Int_0 + len->0->Int_0 <= s.len()
            &&& text == Some(
                Val::Str(
                    s.subrange(at->0->Int_0 as int, at->0->Int_0 as int + len->0->Int_0 as int),
                ),
            )
        }),
{
    reveal_strlit("offset");
    reveal_strlit("length");
    reveal_strlit("string");
    assert("offset"@[0] == 'o' && "length"@[0] == 'l' && "string"@[0] == 's');
    let m = span_members(s, Some((a, b)));
    fitting_bounds(s, a as int, 0);
    fitting_bounds(s, b as int, 0);
    let x = char_count(s, a as int);
    let y = char_count(s, b as int);
    assert(m[0].0 == "offset"@ && m[1].0 == "length"@ && m[2].0 == "string"@);
    crate::eval_laws::key_from_is(m, "offset"@, 0, 0);
    crate::eval_laws::key_from_is(m, "length"@, 0, 1);
    crate::eval_laws::key_from_is(m, "string"@, 0, 2);
    let t = byte_slice(s, a as int, b as int);
    assert(t =~= s.subrange(x, x + t.len()));
}

/// Without the flag for all, `match` yields the first of the matches it yields with it.
pub proof fn first_match_is_the_first<A>(s: Seq<A>)
    ensures
        chosen(s, true) == s,
        chosen(s, false).len() == (if s.len() == 0 {
            0nat
        } else {
            1nat
        }),
        s.len() > 0 ==> chosen(s, false)[0] == s[0],
{
}

/// `gsub` is `sub` with the flag for all.
pub proof fn gsub_is_sub_of_all(re: Ex, to: Ex, flags: Seq<char>, v: Val, fx: Facts)
    ensures
        ex_eval(Ex::Call("gsub"@, seq![re, to, Ex::Literal(Val::Str(flags))]), v, fx) == ex_eval(
            Ex::Call("sub"@, seq![re, to, Ex::Literal(Val::Str(flags.push('g')))]),
            v,
            fx,
        ) || !(v is Str),
{
    names();
    let f = Ex::Literal(Val::Str(flags));
    let g = Ex::Literal(Val::Str(flags.push('g')));
    let a = seq![re, to, f];
    let c = seq![re, to, g];
    assert(a[0] == re && a[1] == to && a[2] == f && c[0] == re && c[1] == to && c[2] == g);
    assert(ex_eval(Ex::Call("gsub"@, a), v, fx) == call_outs("gsub"@, a, v, fx));
    assert(ex_eval(Ex::Call("sub"@, c), v, fx) == call_outs("sub"@, c, v, fx));
    assert(ex_eval(f, v, fx) == Ok::<Seq<Val>, Er>(seq![Val::Str(flags)]));
    assert(ex_eval(g, v, fx) == Ok::<Seq<Val>, Er>(seq![Val::Str(flags.push('g'))]));
}

} // verus!
