use vstd::prelude::*;

verus! {

/// Why no rule can be made of a change.
#[derive(PartialEq, Eq, Structural, Debug, Copy, Clone)]
pub enum RuleError {
    /// The changed code is an expression that stands in no body or in no item.
    OutsideBody,
    /// Code that a macro made has no place in the changed file.
    NoSpanInTarget,
    /// The text of a span cannot be had.
    NoSnippet,
    /// A span has positions that are not in its file.
    SpanOutsideFile,
    /// A type names type parameters, and the item around it has none.
    NoGenerics,
}

impl RuleError {
    /// What there is to tell the user.
    pub open spec fn text(self) -> Seq<char> {
        match self {
            RuleError::OutsideBody => "Changing expressions outside of bodies isn't supported"@,
            RuleError::NoSpanInTarget => "We never found a span within the target span"@,
            RuleError::NoSnippet => "The source of a span is not available"@,
            RuleError::SpanOutsideFile => "A span reaches out of its file"@,
            RuleError::NoGenerics => {
                "Item has no generics, but type appears to have type parameters"@
            },
        }
    }

    /// What there is to tell the user.
    pub fn message(&self) -> (r: &'static str)
        ensures
            r@ == self.text(),
    {
        match self {
            RuleError::OutsideBody => "Changing expressions outside of bodies isn't supported",
            RuleError::NoSpanInTarget => "We never found a span within the target span",
            RuleError::NoSnippet => "The source of a span is not available",
            RuleError::SpanOutsideFile => "A span reaches out of its file",
            RuleError::NoGenerics => {
                "Item has no generics, but type appears to have type parameters"
            },
        }
    }
}

/// Why the search for a rule came to an end without one.
#[derive(PartialEq, Eq, Structural, Debug, Copy, Clone)]
pub enum SearchError {
    /// One version of the file is a prefix or a suffix of the other.
    NothingChanged,
    /// No way to compile the code shows an expression around the change.
    NoModifiedExpression,
}

impl SearchError {
    /// What there is to tell the user.
    pub open spec fn text(self) -> Seq<char> {
        match self {
            SearchError::NothingChanged => "Nothing appears to have changed"@,
            SearchError::NoModifiedExpression => "Failed to find a modified expression"@,
        }
    }

    /// What there is to tell the user.
    pub fn message(&self) -> (r: &'static str)
        ensures
            r@ == self.text(),
    {
        match self {
            SearchError::NothingChanged => "Nothing appears to have changed",
            SearchError::NoModifiedExpression => "Failed to find a modified expression",
        }
    }
}

} // verus!
