//! The tree of a KDL document: nodes with their arguments and properties, each
//! with the text around it.
use crate::comment::clone_opt_text;
use crate::float::{Float, Flt};
use crate::model::opt_text;
use vstd::prelude::*;

verus! {

/// A name: its text, and how it is spelled (`None` for the default spelling).
pub struct Ident {
    pub value: String,
    pub repr: Option<String>,
}

/// The mathematical content of an [`Ident`].
pub struct Id {
    pub value: Seq<char>,
    pub repr: Option<Seq<char>>,
}

impl View for Ident {
    type V = Id;

    open spec fn view(&self) -> Id {
        Id { value: self.value@, repr: opt_text(self.repr) }
    }
}

/// The view of an optional name.
pub open spec fn opt_id(n: Option<Ident>) -> Option<Id> {
    match n {
        Some(x) => Some(x@),
        None => None,
    }
}

/// A scalar. An integer too wide for the value model stands for the float nearest
/// to it, which is known once it was looked up.
pub enum Scalar {
    Str(String),
    Int(i64),
    Wide(i128, Option<Float>),
    Float(Float),
    Bool(bool),
    Null,
}

/// The mathematical content of a [`Scalar`].
pub enum Kv {
    Str(Seq<char>),
    Int(i64),
    Wide(i128, Option<Flt>),
    Float(Flt),
    Bool(bool),
    Null,
}

impl View for Scalar {
    type V = Kv;

    open spec fn view(&self) -> Kv {
        match *self {
            Scalar::Str(s) => Kv::Str(s@),
            Scalar::Int(i) => Kv::Int(i),
            Scalar::Wide(i, f) => Kv::Wide(i, crate::float::opt_flt(f)),
            Scalar::Float(f) => Kv::Float(f@),
            Scalar::Bool(b) => Kv::Bool(b),
            Scalar::Null => Kv::Null,
        }
    }
}

/// The text around an argument or property, and how its value is spelled.
pub struct ArgForm {
    pub value_repr: String,
    pub leading: String,
    pub trailing: String,
    pub after_ty: String,
    pub before_ty_name: String,
    pub after_ty_name: String,
    pub after_key: String,
    pub after_eq: String,
    /// Whether the spelling survives a reformatting.
    pub keep: bool,
}

/// The mathematical content of an [`ArgForm`].
pub struct Af {
    pub value_repr: Seq<char>,
    pub leading: Seq<char>,
    pub trailing: Seq<char>,
    pub after_ty: Seq<char>,
    pub before_ty_name: Seq<char>,
    pub after_ty_name: Seq<char>,
    pub after_key: Seq<char>,
    pub after_eq: Seq<char>,
    pub keep: bool,
}

impl View for ArgForm {
    type V = Af;

    open spec fn view(&self) -> Af {
        Af {
            value_repr: self.value_repr@,
            leading: self.leading@,
            trailing: self.trailing@,
            after_ty: self.after_ty@,
            before_ty_name: self.before_ty_name@,
            after_ty_name: self.after_ty_name@,
            after_key: self.after_key@,
            after_eq: self.after_eq@,
            keep: self.keep,
        }
    }
}

/// The view of an optional form.
pub open spec fn opt_af(f: Option<ArgForm>) -> Option<Af> {
    match f {
        Some(x) => Some(x@),
        None => None,
    }
}

/// An argument, or with a name a property.
pub struct Arg {
    pub ty: Option<Ident>,
    pub name: Option<Ident>,
    pub value: Scalar,
    pub form: Option<ArgForm>,
}

/// The mathematical content of an [`Arg`].
pub struct Ka {
    pub ty: Option<Id>,
    pub name: Option<Id>,
    pub value: Kv,
    pub form: Option<Af>,
}

impl View for Arg {
    type V = Ka;

    open spec fn view(&self) -> Ka {
        Ka {
            ty: opt_id(self.ty),
            name: opt_id(self.name),
            value: self.value@,
            form: opt_af(self.form),
        }
    }
}

/// The contents of a row of arguments and properties.
pub open spec fn kas(s: Seq<Arg>) -> Seq<Ka> {
    Seq::new(s.len(), |i: int| s[i]@)
}

/// The text around a node.
pub struct NodeForm {
    pub leading: String,
    pub before_ty_name: String,
    pub after_ty_name: String,
    pub after_ty: String,
    pub before_children: String,
    pub before_terminator: String,
    pub terminator: String,
    pub trailing: String,
}

/// The mathematical content of a [`NodeForm`].
pub struct Nf {
    pub leading: Seq<char>,
    pub before_ty_name: Seq<char>,
    pub after_ty_name: Seq<char>,
    pub after_ty: Seq<char>,
    pub before_children: Seq<char>,
    pub before_terminator: Seq<char>,
    pub terminator: Seq<char>,
    pub trailing: Seq<char>,
}

impl View for NodeForm {
    type V = Nf;

    open spec fn view(&self) -> Nf {
        Nf {
            leading: self.leading@,
            before_ty_name: self.before_ty_name@,
            after_ty_name: self.after_ty_name@,
            after_ty: self.after_ty@,
            before_children: self.before_children@,
            before_terminator: self.before_terminator@,
            terminator: self.terminator@,
            trailing: self.trailing@,
        }
    }
}

/// The view of an optional form.
pub open spec fn opt_nf(f: Option<NodeForm>) -> Option<Nf> {
    match f {
        Some(x) => Some(x@),
        None => None,
    }
}

/// The text before the first node and behind the last one.
pub struct DocForm {
    pub leading: String,
    pub trailing: String,
}

/// The mathematical content of a [`DocForm`].
pub struct Df {
    pub leading: Seq<char>,
    pub trailing: Seq<char>,
}

impl View for DocForm {
    type V = Df;

    open spec fn view(&self) -> Df {
        Df { leading: self.leading@, trailing: self.trailing@ }
    }
}

/// The view of an optional form.
pub open spec fn opt_df(f: Option<DocForm>) -> Option<Df> {
    match f {
        Some(x) => Some(x@),
        None => None,
    }
}

/// A node.
pub struct Knode {
    pub ty: Option<Ident>,
    pub name: Ident,
    pub args: Vec<Arg>,
    pub children: Option<Kdoc>,
    pub form: Option<NodeForm>,
}

/// A list of nodes: a document, or a node's children block.
pub struct Kdoc {
    pub nodes: Vec<Knode>,
    pub form: Option<DocForm>,
}

/// The mathematical content of a [`Knode`].
pub struct Kn {
    pub ty: Option<Id>,
    pub name: Id,
    pub args: Seq<Ka>,
    pub children: Option<Kd>,
    pub form: Option<Nf>,
}

/// The mathematical content of a [`Kdoc`].
pub struct Kd {
    pub nodes: Seq<Kn>,
    pub form: Option<Df>,
}

pub open spec fn kn_of(n: Knode) -> Kn
    decreases n,
{
    Kn {
        ty: opt_id(n.ty),
        name: n.name@,
        args: kas(n.args@),
        children: match n.children {
            Some(d) => Some(kd_of(d)),
            None => None,
        },
        form: opt_nf(n.form),
    }
}

pub open spec fn kd_of(d: Kdoc) -> Kd
    decreases d,
{
    Kd {
        nodes: Seq::new(
            d.nodes@.len(),
            |i: int|
                if 0 <= i < d.nodes@.len() {
                    kn_of(d.nodes@[i])
                } else {
                    Kn {
                        ty: None,
                        name: Id { value: Seq::empty(), repr: None },
                        args: Seq::empty(),
                        children: None,
                        form: None,
                    }
                },
        ),
        form: opt_df(d.form),
    }
}

impl View for Knode {
    type V = Kn;

    open spec fn view(&self) -> Kn {
        kn_of(*self)
    }
}

impl View for Kdoc {
    type V = Kd;

    open spec fn view(&self) -> Kd {
        kd_of(*self)
    }
}

/// The contents of a list of nodes.
pub open spec fn kns(s: Seq<Knode>) -> Seq<Kn> {
    Seq::new(s.len(), |i: int| s[i]@)
}

/// The view of an optional children block.
pub open spec fn opt_kd(d: Option<Kdoc>) -> Option<Kd> {
    match d {
        Some(x) => Some(x@),
        None => None,
    }
}

pub broadcast proof fn kn_view(n: Knode)
    ensures
        #[trigger] kn_of(n) == (Kn {
            ty: opt_id(n.ty),
            name: n.name@,
            args: kas(n.args@),
            children: opt_kd(n.children),
            form: opt_nf(n.form),
        }),
{
}

pub broadcast proof fn kd_view(d: Kdoc)
    ensures
        #[trigger] kd_of(d) == (Kd { nodes: kns(d.nodes@), form: opt_df(d.form) }),
{
    assert(kd_of(d).nodes =~= kns(d.nodes@));
}

pub broadcast proof fn kns_push(s: Seq<Knode>, x: Knode)
    ensures
        #[trigger] kns(s.push(x)) == kns(s).push(x@),
{
    assert(kns(s.push(x)) =~= kns(s).push(x@));
}

pub broadcast proof fn kas_push(s: Seq<Arg>, x: Arg)
    ensures
        #[trigger] kas(s.push(x)) == kas(s).push(x@),
{
    assert(kas(s.push(x)) =~= kas(s).push(x@));
}

pub broadcast group group_kdl_views {
    kn_view,
    kd_view,
    kns_push,
    kas_push,
}

/// No text around an argument.
pub open spec fn no_af() -> Af {
    Af {
        value_repr: Seq::empty(),
        leading: Seq::empty(),
        trailing: Seq::empty(),
        after_ty: Seq::empty(),
        before_ty_name: Seq::empty(),
        after_ty_name: Seq::empty(),
        after_key: Seq::empty(),
        after_eq: Seq::empty(),
        keep: false,
    }
}

/// No text around a node.
pub open spec fn no_nf() -> Nf {
    Nf {
        leading: Seq::empty(),
        before_ty_name: Seq::empty(),
        after_ty_name: Seq::empty(),
        after_ty: Seq::empty(),
        before_children: Seq::empty(),
        before_terminator: Seq::empty(),
        terminator: Seq::empty(),
        trailing: Seq::empty(),
    }
}

fn no_text() -> (r: String)
    ensures
        r@ == Seq::<char>::empty(),
{
    let r = String::new();
    assert(r@ =~= Seq::<char>::empty());
    r
}

impl NodeForm {
    /// No text around a node.
    pub fn none() -> (r: NodeForm)
        ensures
            r@ == no_nf(),
    {
        NodeForm {
            leading: no_text(),
            before_ty_name: no_text(),
            after_ty_name: no_text(),
            after_ty: no_text(),
            before_children: no_text(),
            before_terminator: no_text(),
            terminator: no_text(),
            trailing: no_text(),
        }
    }
}

impl ArgForm {
    /// No text around an argument.
    pub fn none() -> (r: ArgForm)
        ensures
            r@ == no_af(),
    {
        ArgForm {
            value_repr: no_text(),
            leading: no_text(),
            trailing: no_text(),
            after_ty: no_text(),
            before_ty_name: no_text(),
            after_ty_name: no_text(),
            after_key: no_text(),
            after_eq: no_text(),
            keep: false,
        }
    }
}

impl Ident {
    /// A name in its default spelling.
    pub fn plain(value: &str) -> (r: Ident)
        ensures
            r@ == (Id { value: value@, repr: None }),
    {
        Ident { value: value.to_owned(), repr: None }
    }
}

impl Clone for Ident {
    fn clone(&self) -> (r: Ident)
        ensures
            r@ == self@,
    {
        Ident { value: self.value.clone(), repr: clone_opt_text(&self.repr) }
    }
}

fn clone_opt_ident(n: &Option<Ident>) -> (r: Option<Ident>)
    ensures
        opt_id(r) == opt_id(*n),
{
    match n {
        Some(x) => Some(x.clone()),
        None => None,
    }
}

impl Clone for Scalar {
    fn clone(&self) -> (r: Scalar)
        ensures
            r@ == self@,
    {
        match self {
            Scalar::Str(s) => Scalar::Str(s.clone()),
            Scalar::Int(i) => Scalar::Int(*i),
            Scalar::Wide(i, Some(f)) => Scalar::Wide(*i, Some(f.clone())),
            Scalar::Wide(i, None) => Scalar::Wide(*i, None),
            Scalar::Float(f) => Scalar::Float(f.clone()),
            Scalar::Bool(b) => Scalar::Bool(*b),
            Scalar::Null => Scalar::Null,
        }
    }
}

impl Clone for ArgForm {
    fn clone(&self) -> (r: ArgForm)
        ensures
            r@ == self@,
    {
        ArgForm {
            value_repr: self.value_repr.clone(),
            leading: self.leading.clone(),
            trailing: self.trailing.clone(),
            after_ty: self.after_ty.clone(),
            before_ty_name: self.before_ty_name.clone(),
            after_ty_name: self.after_ty_name.clone(),
            after_key: self.after_key.clone(),
            after_eq: self.after_eq.clone(),
            keep: self.keep,
        }
    }
}

impl Clone for Arg {
    fn clone(&self) -> (r: Arg)
        ensures
            r@ == self@,
    {
        Arg {
            ty: clone_opt_ident(&self.ty),
            name: clone_opt_ident(&self.name),
            value: self.value.clone(),
            form: match &self.form {
                Some(f) => Some(f.clone()),
                None => None,
            },
        }
    }
}

impl Clone for NodeForm {
    fn clone(&self) -> (r: NodeForm)
        ensures
            r@ == self@,
    {
        NodeForm {
            leading: self.leading.clone(),
            before_ty_name: self.before_ty_name.clone(),
            after_ty_name: self.after_ty_name.clone(),
            after_ty: self.after_ty.clone(),
            before_children: self.before_children.clone(),
            before_terminator: self.before_terminator.clone(),
            terminator: self.terminator.clone(),
            trailing: self.trailing.clone(),
        }
    }
}

impl Clone for Knode {
    fn clone(&self) -> (r: Knode)
        ensures
            r@ == self@,
        decreases self, 0int,
    {
        let mut args: Vec<Arg> = Vec::new();
        let ghost all = kas(self.args@);
        let mut i: usize = 0;
        assert(kas(args@) =~= all.take(0));
        while i < self.args.len()
            invariant
                i <= self.args.len(),
                all == kas(self.args@),
                kas(args@) == all.take(i as int),
            decreases self.args.len() - i,
        {
            assert(all[i as int] == self.args@[i as int]@);
            let x = self.args[i].clone();
            proof {
                kas_push(args@, x);
            }
            args.push(x);
            assert(kas(args@) =~= all.take(i + 1));
            i = i + 1;
        }
        assert(all.take(i as int) =~= all);
        let r = Knode {
            ty: clone_opt_ident(&self.ty),
            name: self.name.clone(),
            args,
            children: match &self.children {
                Some(d) => Some(d.clone()),
                None => None,
            },
            form: match &self.form {
                Some(f) => Some(f.clone()),
                None => None,
            },
        };
        proof {
            kn_view(r);
            kn_view(*self);
        }
        r
    }
}

impl Clone for Kdoc {
    fn clone(&self) -> (r: Kdoc)
        ensures
            r@ == self@,
        decreases self, 1int,
    {
        let mut nodes: Vec<Knode> = Vec::new();
        let ghost all = kns(self.nodes@);
        let mut i: usize = 0;
        assert(kns(nodes@) =~= all.take(0));
        while i < self.nodes.len()
            invariant
                i <= self.nodes.len(),
                all == kns(self.nodes@),
                kns(nodes@) == all.take(i as int),
            decreases self.nodes.len() - i,
        {
            assert(all[i as int] == self.nodes@[i as int]@);
            let x = self.nodes[i].clone();
            proof {
                kns_push(nodes@, x);
            }
            nodes.push(x);
            assert(kns(nodes@) =~= all.take(i + 1));
            i = i + 1;
        }
        assert(all.take(i as int) =~= all);
        let r = Kdoc {
            nodes,
            form: match &self.form {
                Some(f) => Some(
                    DocForm { leading: f.leading.clone(), trailing: f.trailing.clone() },
                ),
                None => None,
            },
        };
        proof {
            kd_view(r);
            kd_view(*self);
        }
        r
    }
}

} // verus!
