//! Format capabilities.
//!
//! Each format module declares a set of features. The set is consulted at edit
//! time (an operation needing a feature the format lacks fails cleanly) and at
//! conversion time (each source-used feature the target lacks is a warning).
use vstd::prelude::*;

verus! {

/// A capability a config format may or may not support.
#[derive(Debug, Clone, Copy, PartialEq, Eq, Hash, Structural)]
pub enum Feature {
    /// Comments / trivia the format preserves (JSONC, INI, `.env`; not plain
    /// JSON).
    Comments,
    /// Nested containers beyond a single level (JSON objects/arrays).
    Nesting,
    /// Ordered sequences.
    Arrays,
    /// Non-string scalars: numbers, booleans, null.
    TypedScalars,
    /// A single level of named grouping (INI `[section]`).
    Sections,
    /// Non-finite numbers: `Infinity`, `-Infinity`, `NaN`. JSON5, YAML and TOML
    /// spell these; plain JSON has no grammar for them, so a conversion into it
    /// degrades them to `null` and must say so.
    NonFinite,
}

/// The name of a feature.
pub open spec fn feature_text(f: Feature) -> Seq<char> {
    match f {
        Feature::Comments => "comments"@,
        Feature::Nesting => "nesting"@,
        Feature::Arrays => "arrays"@,
        Feature::TypedScalars => "typed scalars"@,
        Feature::Sections => "sections"@,
        Feature::NonFinite => "non-finite numbers (degraded to null)"@,
    }
}

impl Feature {
    /// Human-readable name, used in conversion warnings.
    pub fn as_str(self) -> (r: &'static str)
        ensures
            r@ == feature_text(self),
    {
        match self {
            Feature::Comments => "comments",
            Feature::Nesting => "nesting",
            Feature::Arrays => "arrays",
            Feature::TypedScalars => "typed scalars",
            Feature::Sections => "sections",
            Feature::NonFinite => "non-finite numbers (degraded to null)",
        }
    }
}

} // verus!
