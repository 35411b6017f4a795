//! The format-agnostic document seam.
use crate::error::{EditError, Er};
use crate::feature::Feature;
use crate::float::FloatFacts;
use crate::model::{cmts, steps_of, texts, Cmt, CommentKind, Commented, Expr, St, Step, Value};
use crate::mutate::{apply_mutation, mutated, Mutable, Outcome};
use vstd::prelude::*;

verus! {

/// The view of a comment write: the warnings it came with.
pub open spec fn warned(r: Result<Vec<String>, EditError>) -> Result<Seq<Seq<char>>, Er> {
    match r {
        Ok(w) => Ok(texts(w@)),
        Err(e) => Err(e@),
    }
}

/// What writing a comment leads to: the document afterwards and the warnings,
/// or a refusal that changes nothing.
pub open spec fn note_attempt<D>(d: D, r: Result<(D, Seq<Seq<char>>), Er>) -> (
    D,
    Result<Seq<Seq<char>>, Er>,
) {
    match r {
        Ok((next, w)) => (next, Ok(w)),
        Err(e) => (d, Err(e)),
    }
}

/// An edit that comes with no warnings.
pub open spec fn unwarned<D>(o: Outcome<D>) -> (D, Result<Seq<Seq<char>>, Er>) {
    match o.1 {
        Ok(_) => (o.0, Ok(Seq::empty())),
        Err(e) => (o.0, Err(e)),
    }
}

/// A parsed config document.
///
/// Each format module implements this over its own lossless model. It is the
/// interface a front end drives, uniform across formats: serialize losslessly,
/// project to the value model for querying/conversion, report the format's
/// features, and write comments.
pub trait Document: Mutable {
    /// The text of a document.
    spec fn source_of(d: Self::Doc) -> Seq<char>;

    /// The commented projections of a document, one per document of a stream.
    spec fn commented_of(d: Self::Doc) -> Seq<Cmt>;

    /// The document with a comment written, and the warnings.
    spec fn note_in(d: Self::Doc, at: int, path: Seq<St>, kind: CommentKind, text: Seq<char>) -> Result<
        (Self::Doc, Seq<Seq<char>>),
        Er,
    >;

    /// The document with a comment removed.
    spec fn unnote_in(d: Self::Doc, path: Seq<St>, kind: CommentKind) -> Result<Self::Doc, Er>;

    /// The format's capabilities.
    spec fn features_of() -> Seq<Feature>;

    /// The text: byte-identical for an unedited document, reflecting edits
    /// otherwise.
    fn to_source(&self) -> (r: String)
        ensures
            r@ == Self::source_of(self.doc()),
    ;

    /// Project to the value model for querying and conversion. Trivia (comments,
    /// layout) is dropped: this is the data-model view, not the source view.
    fn to_value(&self) -> (r: Value)
        ensures
            r@ == Self::whole_of(self.doc()),
    {
        self.whole()
    }

    /// Apply a mutation expression, returning warnings.
    fn apply(&mut self, expr: &Expr, facts: &FloatFacts) -> (r: Result<Vec<String>, EditError>)
        ensures
            (final(self).doc(), warned(r)) == unwarned(
                mutated::<Self>(old(self).doc(), expr@, facts@),
            ),
    {
        match apply_mutation(self, expr, facts) {
            Err(e) => Err(e),
            Ok(_) => {
                let none: Vec<String> = Vec::new();
                assert(texts(none@) =~= Seq::<Seq<char>>::empty());
                Ok(none)
            },
        }
    }

    /// The format's capabilities.
    fn features(&self) -> (r: Vec<Feature>)
        ensures
            r@ == Self::features_of(),
    ;

    /// The commented projections, one per document of the stream; none for a
    /// format without comments.
    fn to_commented_all(&self) -> (r: Vec<Commented>)
        ensures
            cmts(r@) == Self::commented_of(self.doc()),
    ;

    /// Write the comment of `kind` at `path` in document `at` of the stream,
    /// returning warnings (layout expansion, kind remap).
    fn set_comment_in_doc(&mut self, at: usize, path: &Vec<Step>, kind: CommentKind, text: &str) -> (r: Result<
        Vec<String>,
        EditError,
    >)
        ensures
            (final(self).doc(), warned(r)) == note_attempt(
                old(self).doc(),
                Self::note_in(old(self).doc(), at as int, steps_of(path@), kind, text@),
            ),
    ;

    /// Remove the comment of `kind` at `path`.
    fn delete_comment(&mut self, path: &Vec<Step>, kind: CommentKind) -> (r: Result<(), EditError>)
        ensures
            (final(self).doc(), crate::mutate::done(r)) == crate::mutate::attempt(
                old(self).doc(),
                Self::unnote_in(old(self).doc(), steps_of(path@), kind),
            ),
    ;
}

} // verus!
