use crate::codemap::FileView;
use crate::span::{lemma_site_is_within, site_within, ChangedSpan, RelativeSpan, Span};
use vstd::prelude::*;

verus! {

/// A place in a file that is counted from the start of the file leads back to the same positions.
pub proof fn law_relative_span_leads_back(span: Span, filemap: FileView)
    requires
        filemap.wf(),
    ensures
        RelativeSpan::of(span, filemap) is Some <==> site_within(span, filemap.whole()) is Some,
        RelativeSpan::of(span, filemap) matches Some(relative) ==> {
            let site = site_within(span, filemap.whole())->0;
            &&& relative.fits(filemap)
            &&& relative.at(filemap).lo == site.lo
            &&& relative.at(filemap).hi == site.hi
        },
{
    lemma_site_is_within(span, filemap.whole());
}

/// A place in a file that is counted from the start of the file has the same text wherever in a
/// code map the file stands.
pub proof fn law_relative_span_keeps_text(relative: RelativeSpan, a: FileView, b: FileView)
    requires
        a.wf(),
        b.wf(),
        a.src == b.src,
        relative.fits(a),
    ensures
        relative.fits(b),
        a.snippet(relative.at(a).lo as int, relative.at(a).hi as int) == b.snippet(
            relative.at(b).lo as int,
            relative.at(b).hi as int,
        ),
{
}

/// The part of a file that is left by what stands before and behind a span is that span.
pub proof fn law_change_around_span_is_span(span: Span, filemap: FileView)
    requires
        filemap.wf(),
        filemap.whole().covers(span),
    ensures
        ChangedSpan::around(span, filemap).fits(filemap.bytes().len() as int),
        ChangedSpan::around(span, filemap).at(filemap).lo == span.lo,
        ChangedSpan::around(span, filemap).at(filemap).hi == span.hi,
{
}

/// What stands before and behind the changed part is what the changed part was given by, if the
/// two do not overlap.
pub proof fn law_span_of_change_gives_change(changed: ChangedSpan, filemap: FileView)
    requires
        filemap.wf(),
        changed.common_prefix + changed.common_suffix <= filemap.bytes().len(),
    ensures
        ChangedSpan::around(changed.at(filemap), filemap) == changed,
{
}

} // verus!
