use crate::codemap::{FileMap, FileView};
use vstd::prelude::*;

verus! {

/// Where the code of a span comes from.
#[derive(Debug, PartialEq, Eq)]
pub enum SyntaxContext {
    /// It was written where the span points.
    Root,
    /// A macro expansion made it, and this is where the macro was called, if that is known.
    Expansion(Option<Box<Span>>),
}

/// A range of positions in the code map, from `lo` to `hi`.
#[derive(Debug, PartialEq, Eq)]
pub struct Span {
    pub lo: u32,
    pub hi: u32,
    pub ctxt: SyntaxContext,
}

impl Span {
    /// The span with the ends `lo` and `hi`, in whichever order they come, of code that no macro
    /// made.
    pub open spec fn between(lo: u32, hi: u32) -> Span {
        if lo <= hi {
            Span { lo, hi, ctxt: SyntaxContext::Root }
        } else {
            Span { lo: hi, hi: lo, ctxt: SyntaxContext::Root }
        }
    }

    /// Whether `other`, whose ends are in order, lies within this span.
    pub open spec fn covers(self, other: Span) -> bool {
        self.lo <= other.lo <= other.hi <= self.hi
    }

    /// Whether a macro expansion made the code.
    pub open spec fn is_expanded(self) -> bool {
        self.ctxt is Expansion
    }

    pub open spec fn len(self) -> int {
        self.hi - self.lo
    }

    /// The span with the ends `lo` and `hi` and the context `ctxt`. The smaller end comes first.
    pub fn new(lo: u32, hi: u32, ctxt: SyntaxContext) -> (r: Span)
        ensures
            r.lo == Span::between(lo, hi).lo,
            r.hi == Span::between(lo, hi).hi,
            r.ctxt == ctxt,
    {
        if lo <= hi {
            Span { lo, hi, ctxt }
        } else {
            Span { lo: hi, hi: lo, ctxt }
        }
    }

    pub fn contains(&self, other: &Span) -> (r: bool)
        ensures
            r == self.covers(*other),
    {
        self.lo <= other.lo && other.lo <= other.hi && other.hi <= self.hi
    }

    /// Whether a macro expansion made the code.
    pub fn from_expansion(&self) -> (r: bool)
        ensures
            r == self.is_expanded(),
    {
        match &self.ctxt {
            SyntaxContext::Root => false,
            SyntaxContext::Expansion(_) => true,
        }
    }
}

impl Clone for Span {
    fn clone(&self) -> (r: Span)
        ensures
            r == *self,
        decreases self,
    {
        let ctxt = match &self.ctxt {
            SyntaxContext::Root => SyntaxContext::Root,
            SyntaxContext::Expansion(None) => SyntaxContext::Expansion(None),
            SyntaxContext::Expansion(Some(site)) => SyntaxContext::Expansion(
                Some(Box::new((&**site).clone())),
            ),
        };
        Span { lo: self.lo, hi: self.hi, ctxt }
    }
}

/// The first of `span`, the place where the macro that made it was called, the place where the
/// macro that made that was called, and so on, that lies within `target`.
pub open spec fn site_within(span: Span, target: Span) -> Option<Span>
    decreases span,
{
    if target.covers(span) {
        Some(span)
    } else {
        match span.ctxt {
            SyntaxContext::Expansion(Some(site)) => site_within(*site, target),
            _ => None,
        }
    }
}

/// The place that is found within a span lies within that span.
pub proof fn lemma_site_is_within(span: Span, target: Span)
    ensures
        site_within(span, target) matches Some(site) ==> target.covers(site),
    decreases span,
{
    if !target.covers(span) {
        if let SyntaxContext::Expansion(Some(site)) = span.ctxt {
            lemma_site_is_within(*site, target);
        }
    }
}

/// Looks for the place within `target` from which the code of `span` comes.
pub fn find_span_within_span<'a>(span: &'a Span, target: &Span) -> (r: Option<&'a Span>)
    ensures
        r is Some <==> site_within(*span, *target) is Some,
        r matches Some(s) ==> *s == site_within(*span, *target)->0,
    decreases span,
{
    if target.contains(span) {
        Some(span)
    } else {
        match &span.ctxt {
            SyntaxContext::Expansion(Some(site)) => find_span_within_span(&**site, target),
            _ => None,
        }
    }
}

/// The place within `target` from which the code of `span` comes.
pub fn span_within_span<'a>(span: &'a Span, target: &Span) -> (r: &'a Span)
    requires
        site_within(*span, *target) is Some,
    ensures
        *r == site_within(*span, *target)->0,
{
    find_span_within_span(span, target).unwrap()
}

/// A span of a file, counted from the start of the file.
#[derive(PartialEq, Eq, Structural, Debug, Copy, Clone)]
pub struct RelativeSpan {
    pub start: u32,
    pub end: u32,
}

impl RelativeSpan {
    /// The place in the file from which the code of `absolute_span` comes.
    pub open spec fn of(absolute_span: Span, filemap: FileView) -> Option<RelativeSpan> {
        match site_within(absolute_span, filemap.whole()) {
            Some(site) => Some(
                RelativeSpan {
                    start: (site.lo - filemap.start_pos) as u32,
                    end: (site.hi - filemap.start_pos) as u32,
                },
            ),
            None => None,
        }
    }

    /// Where the span stands in the code map.
    pub open spec fn at(self, filemap: FileView) -> Span {
        Span::between(
            (self.start + filemap.start_pos) as u32,
            (self.end + filemap.start_pos) as u32,
        )
    }

    /// Whether both ends are in the file.
    pub open spec fn fits(self, filemap: FileView) -> bool {
        self.start + filemap.start_pos <= filemap.end() && self.end + filemap.start_pos
            <= filemap.end()
    }

    /// The place in the file from which the code of `absolute_span` comes.
    pub fn new(absolute_span: &Span, filemap: &FileMap) -> (r: RelativeSpan)
        requires
            filemap@.wf(),
            site_within(*absolute_span, filemap@.whole()) is Some,
        ensures
            r == RelativeSpan::of(*absolute_span, filemap@)->0,
    {
        let file_span = Span::new(filemap.start_pos, filemap.end_pos(), SyntaxContext::Root);
        let site = span_within_span(absolute_span, &file_span);
        proof {
            lemma_site_is_within(*absolute_span, file_span);
        }
        RelativeSpan { start: site.lo - filemap.start_pos, end: site.hi - filemap.start_pos }
    }

    /// Where the span stands in the code map.
    pub fn absolute(&self, filemap: &FileMap) -> (r: Span)
        requires
            filemap@.wf(),
            self.fits(filemap@),
        ensures
            r == self.at(filemap@),
    {
        Span::new(
            self.start + filemap.start_pos,
            self.end + filemap.start_pos,
            SyntaxContext::Root,
        )
    }
}

/// The part of a file that a change touches. It is given by how much of the file stands before
/// and behind it, so that it names the changed part in both versions of the file.
#[derive(PartialEq, Eq, Structural, Debug, Copy, Clone)]
pub struct ChangedSpan {
    pub common_prefix: usize,
    pub common_suffix: usize,
}

impl ChangedSpan {
    /// Neither part that is left out is longer than the file.
    pub open spec fn fits(self, len: int) -> bool {
        self.common_prefix <= len && self.common_suffix <= len
    }

    /// Both ends of the changed part have a position, be it in the file or not.
    pub open spec fn has_positions(self, filemap: FileView) -> bool {
        filemap.start_pos + self.common_prefix <= u32::MAX && self.common_suffix <= filemap.end()
    }

    /// The positions of the changed part.
    pub open spec fn at(self, filemap: FileView) -> Span {
        Span::between(
            (filemap.start_pos + self.common_prefix) as u32,
            (filemap.end() - self.common_suffix) as u32,
        )
    }

    /// What stands before and behind `span` in the file.
    pub open spec fn around(span: Span, filemap: FileView) -> ChangedSpan {
        ChangedSpan {
            common_prefix: (span.lo - filemap.start_pos) as usize,
            common_suffix: (filemap.end() - span.hi) as usize,
        }
    }

    pub fn new(common_prefix: usize, common_suffix: usize) -> (r: ChangedSpan)
        ensures
            r == (ChangedSpan { common_prefix, common_suffix }),
    {
        ChangedSpan { common_prefix, common_suffix }
    }

    pub fn from_span(span: &Span, filemap: &FileMap) -> (r: ChangedSpan)
        requires
            filemap@.wf(),
            filemap.start_pos <= span.lo,
            span.hi <= filemap@.end(),
        ensures
            r == ChangedSpan::around(*span, filemap@),
            r.common_prefix == span.lo - filemap.start_pos,
            r.common_suffix == filemap@.end() - span.hi,
    {
        ChangedSpan {
            common_prefix: (span.lo - filemap.start_pos) as usize,
            common_suffix: (filemap.end_pos() - span.hi) as usize,
        }
    }

    /// Whether both ends of the changed part have a position.
    pub fn can_be_placed(&self, filemap: &FileMap) -> (r: bool)
        ensures
            r == (filemap@.wf() && self.has_positions(filemap@)),
    {
        filemap.is_addressable() && self.common_prefix <= (u32::MAX - filemap.start_pos) as usize
            && self.common_suffix <= filemap.end_pos() as usize
    }

    pub fn to_span(&self, filemap: &FileMap) -> (r: Span)
        requires
            filemap@.wf(),
            self.has_positions(filemap@),
        ensures
            r == self.at(filemap@),
    {
        Span::new(
            filemap.start_pos + self.common_prefix as u32,
            filemap.end_pos() - self.common_suffix as u32,
            SyntaxContext::Root,
        )
    }
}

} // verus!
