//! Lossless syntax trees.
//!
//! A document's text as a tree of typed tokens: [`Kinds`] is a format's list of
//! token and node kinds, [`Tree`] the tree it writes its text down as, and
//! [`Builder`] turns one into a green tree of `rowan`, whose text is again the
//! text of the tokens in order.
use std::marker::PhantomData;
use vstd::prelude::*;
use vstd::string::*;

verus! {

/// What a green tree of `rowan` holds: tokens with their text, and nodes with
/// their children, each with the number of its kind.
pub enum Green {
    Token(u16, Seq<char>),
    Node(u16, Seq<Green>),
}

/// The text of a green tree: its tokens' texts in order.
pub open spec fn green_text(g: Green) -> Seq<char>
    decreases g, 0int, 0nat,
{
    match g {
        Green::Token(_, t) => t,
        Green::Node(_, cs) => forest_text(cs, cs.len()),
    }
}

/// The text of the first `n` trees of a list.
pub open spec fn forest_text(s: Seq<Green>, n: nat) -> Seq<char>
    decreases s, 1int, n,
{
    if n == 0 || n > s.len() {
        Seq::empty()
    } else {
        forest_text(s, (n - 1) as nat) + green_text(s[n - 1])
    }
}

/// Does a text fit a tree? Positions in a tree are 32 bits wide and count bytes.
pub open spec fn fits(t: Seq<char>) -> bool {
    vstd::utf8::encode_utf8(t).len() <= u32::MAX
}

/// A token for optional text: nothing when the text is empty.
pub open spec fn optional(kind: u16, t: Seq<char>) -> Seq<Green> {
    if t.len() == 0 {
        Seq::empty()
    } else {
        seq![Green::Token(kind, t)]
    }
}

/// What a builder holds: the trees that are done, and for each node that is open
/// its kind and how many trees were done when it was opened.
pub struct Frames {
    pub open: Seq<(u16, int)>,
    pub done: Seq<Green>,
}

#[verifier::external_type_specification]
#[verifier::external_body]
pub struct ExGreenNode(rowan::GreenNode);

#[verifier::external_type_specification]
#[verifier::external_body]
pub struct ExGreenNodeBuilder<'cache>(rowan::GreenNodeBuilder<'cache>);

/// What a green tree holds.
pub uninterp spec fn green_holds(n: rowan::GreenNode) -> Green;

/// What a builder of green trees holds.
pub uninterp spec fn builder_holds(b: rowan::GreenNodeBuilder<'static>) -> Frames;

/// `rowan::GreenNodeBuilder::new`: nothing is open and nothing is done.
#[verifier::external_body]
fn new_builder() -> (r: rowan::GreenNodeBuilder<'static>)
    ensures
        builder_holds(r) == (Frames { open: Seq::empty(), done: Seq::empty() }),
{
    rowan::GreenNodeBuilder::new()
}

/// `rowan::GreenNodeBuilder::start_node`: one more node is open, and what is done
/// from here on is its children.
#[verifier::external_body]
fn open_node(b: &mut rowan::GreenNodeBuilder<'static>, kind: u16)
    ensures
        builder_holds(*final(b)) == (Frames {
            open: builder_holds(*old(b)).open.push((kind, builder_holds(*old(b)).done.len() as int)),
            done: builder_holds(*old(b)).done,
        }),
{
    b.start_node(rowan::SyntaxKind(kind))
}

/// `rowan::GreenNodeBuilder::token`: one more token is done.
#[verifier::external_body]
fn add_token(b: &mut rowan::GreenNodeBuilder<'static>, kind: u16, text: &str)
    ensures
        builder_holds(*final(b)) == (Frames {
            open: builder_holds(*old(b)).open,
            done: builder_holds(*old(b)).done.push(Green::Token(kind, text@)),
        }),
{
    b.token(rowan::SyntaxKind(kind), text)
}

/// `rowan::GreenNodeBuilder::finish_node`: the node that was opened last takes
/// what is done since as its children and is done itself. There has to be one,
/// and its text has to fit 32-bit positions.
#[verifier::external_body]
fn close_node(b: &mut rowan::GreenNodeBuilder<'static>)
    requires
        builder_holds(*old(b)).open.len() > 0,
        0 <= builder_holds(*old(b)).open.last().1 <= builder_holds(*old(b)).done.len(),
        fits(
            green_text(
                Green::Node(
                    0,
                    builder_holds(*old(b)).done.skip(builder_holds(*old(b)).open.last().1),
                ),
            ),
        ),
    ensures
        builder_holds(*final(b)) == (Frames {
            open: builder_holds(*old(b)).open.drop_last(),
            done: builder_holds(*old(b)).done.take(builder_holds(*old(b)).open.last().1).push(
                Green::Node(
                    builder_holds(*old(b)).open.last().0,
                    builder_holds(*old(b)).done.skip(builder_holds(*old(b)).open.last().1),
                ),
            ),
        }),
{
    b.finish_node()
}

/// `rowan::GreenNodeBuilder::finish`: the one tree that is done, which has to be a
/// node.
#[verifier::external_body]
fn close_tree(b: rowan::GreenNodeBuilder<'static>) -> (r: rowan::GreenNode)
    requires
        builder_holds(b).done.len() == 1,
        builder_holds(b).done[0] is Node,
    ensures
        green_holds(r) == builder_holds(b).done[0],
{
    b.finish()
}

/// Serialize a syntax tree back to source. `rowan::GreenNode` displays as the
/// texts of its tokens in order.
#[verifier::external_body]
pub fn to_source(node: &rowan::GreenNode) -> (r: String)
    ensures
        r@ == green_text(green_holds(*node)),
{
    node.to_string()
}

/// A format's syntax-kind enum: tokens and nodes, numbered from 0.
pub trait Kinds: Copy {
    /// The kind's number.
    spec fn code(self) -> u16;

    /// Every kind, in order of number.
    spec fn kinds() -> Seq<Self>;

    /// The numbers and the list agree.
    proof fn numbered(self)
        ensures
            self.code() < Self::kinds().len(),
            Self::kinds()[self.code() as int] == self,
    ;

    /// The kind's number.
    fn raw(self) -> (r: u16)
        ensures
            r == self.code(),
    ;

    /// Every kind, in order of number.
    fn all() -> (r: Vec<Self>)
        ensures
            r@ == Self::kinds(),
    ;
}

/// The numbering of a format's kinds `K`.
pub struct Lang<K> {
    pub kinds: PhantomData<K>,
}

impl<K: Kinds> Lang<K> {
    /// The kind with this number.
    pub fn kind_from_raw(raw: u16) -> (r: K)
        requires
            raw < K::kinds().len(),
        ensures
            r == K::kinds()[raw as int],
    {
        K::all()[raw as usize]
    }

    /// The number of a kind.
    pub fn kind_to_raw(kind: K) -> (r: u16)
        ensures
            r == kind.code(),
    {
        kind.raw()
    }
}

/// A kind is the one its number stands for.
pub proof fn kind_numbers_round_trip<K: Kinds>(kind: K)
    ensures
        kind.code() < K::kinds().len(),
        K::kinds()[kind.code() as int] == kind,
{
    kind.numbered();
}

/// A green-tree builder that speaks the format's kinds.
pub struct Builder<K> {
    inner: rowan::GreenNodeBuilder<'static>,
    kinds: PhantomData<K>,
}

impl<K> View for Builder<K> {
    type V = Frames;

    closed spec fn view(&self) -> Frames {
        builder_holds(self.inner)
    }
}

impl<K: Kinds> Builder<K> {
    pub fn new() -> (r: Builder<K>)
        ensures
            r@ == (Frames { open: Seq::empty(), done: Seq::empty() }),
    {
        Builder { inner: new_builder(), kinds: PhantomData }
    }

    pub fn start_node(&mut self, kind: K)
        ensures
            final(self)@ == (Frames {
                open: old(self)@.open.push((kind.code(), old(self)@.done.len() as int)),
                done: old(self)@.done,
            }),
    {
        open_node(&mut self.inner, kind.raw())
    }

    pub fn finish_node(&mut self)
        requires
            old(self)@.open.len() > 0,
            0 <= old(self)@.open.last().1 <= old(self)@.done.len(),
            fits(green_text(Green::Node(0, old(self)@.done.skip(old(self)@.open.last().1)))),
        ensures
            final(self)@ == (Frames {
                open: old(self)@.open.drop_last(),
                done: old(self)@.done.take(old(self)@.open.last().1).push(
                    Green::Node(
                        old(self)@.open.last().0,
                        old(self)@.done.skip(old(self)@.open.last().1),
                    ),
                ),
            }),
    {
        close_node(&mut self.inner)
    }

    pub fn token(&mut self, kind: K, text: &str)
        ensures
            final(self)@ == (Frames {
                open: old(self)@.open,
                done: old(self)@.done.push(Green::Token(kind.code(), text@)),
            }),
    {
        add_token(&mut self.inner, kind.raw(), text)
    }

    /// A token for optional text (indentation, a line terminator): nothing
    /// when `text` is empty, since an empty token is noise in the tree.
    pub fn trivia(&mut self, kind: K, text: &str)
        ensures
            final(self)@ == (Frames {
                open: old(self)@.open,
                done: old(self)@.done + optional(kind.code(), text@),
            }),
    {
        if text.unicode_len() > 0 {
            self.token(kind, text);
        }
        assert(self@.done =~= old(self)@.done + optional(kind.code(), text@));
    }

    pub fn finish(self) -> (r: rowan::GreenNode)
        requires
            self@.done.len() == 1,
            self@.done[0] is Node,
        ensures
            green_holds(r) == self@.done[0],
    {
        close_tree(self.inner)
    }
}

/// A syntax tree as a format writes it down.
pub enum Tree<K> {
    Token(K, String),
    Node(K, Vec<Tree<K>>),
}

/// The green tree that stands for a tree.
pub open spec fn tree_green<K: Kinds>(t: Tree<K>) -> Green
    decreases t,
{
    match t {
        Tree::Token(k, text) => Green::Token(k.code(), text@),
        Tree::Node(k, cs) => Green::Node(
            k.code(),
            Seq::new(
                cs@.len(),
                |i: int|
                    if 0 <= i < cs@.len() {
                        tree_green(cs@[i])
                    } else {
                        Green::Token(0, Seq::empty())
                    },
            ),
        ),
    }
}

/// The green trees that stand for a list of trees.
pub open spec fn trees_green<K: Kinds>(s: Seq<Tree<K>>) -> Seq<Green> {
    s.map_values(|t: Tree<K>| tree_green(t))
}

/// A node's children stand for its green tree's children.
pub proof fn node_green<K: Kinds>(k: K, cs: Vec<Tree<K>>)
    ensures
        tree_green(Tree::Node(k, cs)) == Green::Node(k.code(), trees_green(cs@)),
{
    assert(trees_green(cs@) =~= tree_green(Tree::Node(k, cs))->Node_1);
}

/// The bytes of a text made of two parts are those of the parts.
pub proof fn bytes_of_parts(a: Seq<char>, b: Seq<char>)
    ensures
        vstd::utf8::encode_utf8(a + b) == vstd::utf8::encode_utf8(a) + vstd::utf8::encode_utf8(b),
    decreases a.len(),
{
    if a.len() == 0 {
        assert(a + b =~= b);
        assert(vstd::utf8::encode_utf8(a) + vstd::utf8::encode_utf8(b) =~= vstd::utf8::encode_utf8(b));
    } else {
        assert((a + b).drop_first() =~= a.drop_first() + b);
        bytes_of_parts(a.drop_first(), b);
        assert(vstd::utf8::encode_utf8(a + b) =~= vstd::utf8::encode_utf8(a)
            + vstd::utf8::encode_utf8(b));
    }
}

/// What is part of a list of trees that fits, fits.
pub proof fn part_fits(s: Seq<Green>, n: nat, i: int)
    requires
        0 <= i < n <= s.len(),
        fits(forest_text(s, n)),
    ensures
        fits(green_text(s[i])),
    decreases n,
{
    bytes_of_parts(forest_text(s, (n - 1) as nat), green_text(s[n - 1]));
    if i < n - 1 {
        part_fits(s, (n - 1) as nat, i);
    }
}

/// Add a tree to what a builder has done.
fn build<K: Kinds>(b: &mut Builder<K>, t: &Tree<K>)
    requires
        fits(green_text(tree_green(*t))),
    ensures
        final(b)@ == (Frames {
            open: old(b)@.open,
            done: old(b)@.done.push(tree_green(*t)),
        }),
    decreases t,
{
    match t {
        Tree::Token(k, text) => b.token(*k, text),
        Tree::Node(k, cs) => {
            let ghost before = b@;
            let ghost all = trees_green(cs@);
            proof {
                node_green(*k, *cs);
            }
            b.start_node(*k);
            let mut i: usize = 0;
            assert(b@.done =~= before.done + all.take(0));
            while i < cs.len()
                invariant
                    i <= cs.len(),
                    *t == Tree::Node(*k, *cs),
                    all == trees_green(cs@),
                    fits(forest_text(all, all.len())),
                    b@.open == before.open.push((k.code(), before.done.len() as int)),
                    b@.done == before.done + all.take(i as int),
                decreases cs.len() - i,
            {
                proof {
                    part_fits(all, all.len(), i as int);
                    assert(all[i as int] == tree_green(cs@[i as int]));
                }
                assert(decreases_to!(*t => t->Node_1));
                assert(decreases_to!(*cs => cs@[i as int]));
                build(b, &cs[i]);
                assert(all.take(i + 1) =~= all.take(i as int).push(all[i as int]));
                assert(b@.done =~= before.done + all.take(i + 1));
                i = i + 1;
            }
            assert(all.take(i as int) =~= all);
            assert(b@.done.skip(before.done.len() as int) =~= all);
            assert(b@.done.take(before.done.len() as int) =~= before.done);
            assert(b@.open.drop_last() =~= before.open);
            assert(green_text(Green::Node(0, all)) == forest_text(all, all.len()));
            b.finish_node();
        },
    }
}

/// The green tree of a node.
pub fn green<K: Kinds>(t: &Tree<K>) -> (r: rowan::GreenNode)
    requires
        t is Node,
        fits(green_text(tree_green(*t))),
    ensures
        green_holds(r) == tree_green(*t),
{
    let mut b: Builder<K> = Builder::new();
    build(&mut b, t);
    b.finish()
}

/// A `node` holding a single `token` of `text` (an empty `node` for empty
/// text): the replacement a scalar edit splices in for a value slot.
pub fn leaf_node<K: Kinds>(node: K, token: K, text: &str) -> (r: rowan::GreenNode)
    requires
        fits(text@),
    ensures
        green_holds(r) == Green::Node(node.code(), optional(token.code(), text@)),
{
    let mut b: Builder<K> = Builder::new();
    b.start_node(node);
    b.trivia(token, text);
    proof {
        let cs = optional(token.code(), text@);
        assert(b@.done =~= cs);
        assert(b@.done.skip(0) =~= cs);
        assert(b@.done.take(0) =~= Seq::empty());
        reveal_with_fuel(forest_text, 2);
        assert(forest_text(cs, cs.len()) =~= text@);
    }
    b.finish_node();
    b.finish()
}

/// The text of two lists of trees is the one's and then the other's.
pub proof fn forest_text_add(a: Seq<Green>, b: Seq<Green>, n: nat)
    requires
        n <= b.len(),
    ensures
        forest_text(a + b, a.len() + n) == forest_text(a, a.len()) + forest_text(b, n),
    decreases n,
{
    if n == 0 {
        forest_text_prefix(a, b, a.len());
        assert(forest_text(a, a.len()) + forest_text(b, 0) =~= forest_text(a, a.len()));
    } else {
        forest_text_add(a, b, (n - 1) as nat);
        assert((a + b)[a.len() + n - 1] == b[n - 1]);
        assert(forest_text(a + b, a.len() + n) =~= forest_text(a, a.len()) + forest_text(b, n));
    }
}

/// What stands behind does not change the text in front.
pub proof fn forest_text_prefix(a: Seq<Green>, b: Seq<Green>, n: nat)
    requires
        n <= a.len(),
    ensures
        forest_text(a + b, n) == forest_text(a, n),
    decreases n,
{
    if n > 0 {
        forest_text_prefix(a, b, (n - 1) as nat);
        assert((a + b)[n - 1] == a[n - 1]);
    }
}

/// The text of an optional token is the text it was made from.
pub proof fn optional_text(kind: u16, t: Seq<char>)
    ensures
        forest_text(optional(kind, t), optional(kind, t).len()) == t,
{
    reveal_with_fuel(forest_text, 2);
    assert(forest_text(optional(kind, t), optional(kind, t).len()) =~= t);
}

} // verus!
