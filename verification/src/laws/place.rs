use crate::analysis::lone_file;
use crate::codemap::{is_first_named, named_file, snippet_in, without_mark, FileView};
use crate::laws::rule::lemma_boundary_in_tail;
use crate::span::{site_within, ChangedSpan, RelativeSpan, Span, SyntaxContext};
use vstd::prelude::*;
use vstd::utf8::*;

verus! {

/// A span between two positions has these as its ends, the smaller one first, and was written
/// there.
pub proof fn law_span_between_has_ends_in_order(a: u32, b: u32)
    ensures
        Span::between(a, b).lo <= a <= Span::between(a, b).hi,
        Span::between(a, b).lo <= b <= Span::between(a, b).hi,
        Span::between(a, b).lo == a || Span::between(a, b).lo == b,
        Span::between(a, b).hi == a || Span::between(a, b).hi == b,
        Span::between(a, b).ctxt == SyntaxContext::Root,
        Span::between(a, b).len() == if a <= b {
            b - a
        } else {
            a - b
        },
{
}

/// One span covers another if every position of the other is one of its own. A span whose ends are
/// out of order is covered by none. A span was written by a macro if it is not one that was written
/// where it says.
pub proof fn law_span_covers_positions(a: Span, b: Span)
    ensures
        a.covers(b) ==> b.lo <= b.hi && forall|p: int|
            b.lo <= p <= b.hi ==> #[trigger] is_position(a, p),
        b.lo <= b.hi && (forall|p: int| b.lo <= p <= b.hi ==> #[trigger] is_position(a, p))
            ==> a.covers(b),
        a.is_expanded() <==> a.ctxt != SyntaxContext::Root,
{
    if b.lo <= b.hi && (forall|p: int| b.lo <= p <= b.hi ==> #[trigger] is_position(a, p)) {
        assert(is_position(a, b.lo as int));
        assert(is_position(a, b.hi as int));
    }
}

/// Whether a position is one of a span, its end included.
pub open spec fn is_position(span: Span, p: int) -> bool {
    span.lo <= p <= span.hi
}

/// The span that a span leads to after `n` macros, each time to the place where the macro was used.
pub open spec fn site_after(span: Span, n: nat) -> Option<Span>
    decreases n,
{
    if n == 0 {
        Some(span)
    } else {
        match span.ctxt {
            SyntaxContext::Expansion(Some(site)) => site_after(*site, (n - 1) as nat),
            _ => None,
        }
    }
}

/// Whether `site` is where a span leads to after `n` macros, it lies from `lo` to `hi`, and what
/// came before does not.
pub open spec fn is_first_site(span: Span, lo: int, hi: int, site: Span, n: nat) -> bool {
    &&& site_after(span, n) == Some(site)
    &&& lies_between(site, lo, hi)
    &&& forall|m: nat|
        m < n ==> (#[trigger] site_after(span, m) matches Some(earlier) ==> !lies_between(
            earlier,
            lo,
            hi,
        ))
}

/// Whether a span has its ends in order and lies from `lo` to `hi`.
pub open spec fn lies_between(span: Span, lo: int, hi: int) -> bool {
    lo <= span.lo && span.lo <= span.hi && span.hi <= hi
}

proof fn lemma_site(span: Span, target: Span) -> (n: nat)
    ensures
        site_within(span, target) matches Some(site) ==> is_first_site(
            span,
            target.lo as int,
            target.hi as int,
            site,
            n,
        ),
        site_within(span, target) is None ==> forall|m: nat|
            (#[trigger] site_after(span, m)) matches Some(site) ==> !lies_between(
                site,
                target.lo as int,
                target.hi as int,
            ),
    decreases span,
{
    assert(site_after(span, 0) == Some(span));
    if target.covers(span) {
        0
    } else {
        match span.ctxt {
            SyntaxContext::Expansion(Some(site)) => {
                let inner = lemma_site(*site, target);
                assert forall|m: nat| m > 0 implies #[trigger] site_after(span, m) == site_after(
                    *site,
                    (m - 1) as nat,
                ) by {}
                if let Some(found) = site_within(span, target) {
                    assert(((inner + 1) as nat - 1) as nat == inner);
                    assert forall|m: nat| m < inner + 1 implies (#[trigger] site_after(
                        span,
                        m,
                    ) matches Some(earlier) ==> !lies_between(
                        earlier,
                        target.lo as int,
                        target.hi as int,
                    )) by {
                        if m > 0 {
                            let _ = site_after(*site, (m - 1) as nat);
                        }
                    }
                } else {
                    assert forall|m: nat|
                        (#[trigger] site_after(span, m)) matches Some(place) implies !lies_between(
                        site_after(span, m)->0,
                        target.lo as int,
                        target.hi as int,
                    ) by {
                        if m > 0 {
                            let _ = site_after(*site, (m - 1) as nat);
                        }
                    }
                }
                (inner + 1) as nat
            },
            _ => {
                assert forall|m: nat| m > 0 implies #[trigger] site_after(span, m) is None by {}
                0
            },
        }
    }
}

/// A place of a file is found for a span where the span, or else the first place of use of the
/// macros that made it, lies in the file. It is counted from the start of the file.
pub proof fn law_place_in_file_is_first_site_there(span: Span, file: FileView)
    requires
        file.start_pos + encode_utf8(file.src).len() <= u32::MAX,
    ensures
        match RelativeSpan::of(span, file) {
            Some(place) => exists|site: Span, n: nat|
                {
                    &&& #[trigger] is_first_site(
                        span,
                        file.start_pos as int,
                        file.start_pos + encode_utf8(file.src).len(),
                        site,
                        n,
                    )
                    &&& place.start == site.lo - file.start_pos
                    &&& place.end == site.hi - file.start_pos
                },
            None => forall|n: nat|
                (#[trigger] site_after(span, n)) matches Some(site) ==> !lies_between(
                    site,
                    file.start_pos as int,
                    file.start_pos + encode_utf8(file.src).len(),
                ),
        },
{
    let n = lemma_site(span, file.whole());
    if let Some(site) = site_within(span, file.whole()) {
        assert(is_first_site(
            span,
            file.start_pos as int,
            file.start_pos + encode_utf8(file.src).len(),
            site,
            n,
        ));
    }
}

/// What a span leads to within another span is the span itself, or else the first place of use of
/// the macros that made it, that lies there.
pub proof fn law_span_within_span_is_first_site_there(span: Span, target: Span)
    ensures
        match site_within(span, target) {
            Some(site) => exists|n: nat| #[trigger]
                is_first_site(span, target.lo as int, target.hi as int, site, n),
            None => forall|n: nat|
                (#[trigger] site_after(span, n)) matches Some(site) ==> !lies_between(
                    site,
                    target.lo as int,
                    target.hi as int,
                ),
        },
{
    let n = lemma_site(span, target);
}

/// A place that is counted from the start of a file is that many positions behind the start. It
/// fits into the file if neither of its ends is behind the end of the file.
pub proof fn law_place_is_counted_from_start(place: RelativeSpan, file: FileView)
    ensures
        place.fits(file) <==> place.start <= encode_utf8(file.src).len() && place.end
            <= encode_utf8(file.src).len(),
        place.fits(file) && file.wf() && place.start <= place.end ==> {
            &&& place.at(file).lo == file.start_pos + place.start
            &&& place.at(file).hi == file.start_pos + place.end
        },
        place.fits(file) && file.wf() && place.start > place.end ==> {
            &&& place.at(file).lo == file.start_pos + place.end
            &&& place.at(file).hi == file.start_pos + place.start
        },
        place.at(file).ctxt == SyntaxContext::Root,
{
}

/// The changed part of a file is what is left of it behind the common prefix and before the common
/// suffix. Where these overlap it is what they share.
pub proof fn law_changed_part_is_what_is_left(changed: ChangedSpan, file: FileView)
    requires
        file.wf(),
    ensures
        changed.has_positions(file) <==> file.start_pos + changed.common_prefix <= u32::MAX
            && changed.common_suffix <= file.start_pos + encode_utf8(file.src).len(),
        changed.fits(encode_utf8(file.src).len() as int) <==> changed.common_prefix <= encode_utf8(
            file.src,
        ).len() && changed.common_suffix <= encode_utf8(file.src).len(),
        changed.has_positions(file) && changed.common_prefix + changed.common_suffix
            <= encode_utf8(file.src).len() ==> {
            &&& changed.at(file).lo == file.start_pos + changed.common_prefix
            &&& changed.at(file).hi == file.start_pos + encode_utf8(file.src).len()
                - changed.common_suffix
        },
        changed.has_positions(file) && changed.common_prefix + changed.common_suffix > encode_utf8(
            file.src,
        ).len() ==> {
            &&& changed.at(file).lo == file.start_pos + encode_utf8(file.src).len()
                - changed.common_suffix
            &&& changed.at(file).hi == file.start_pos + changed.common_prefix
        },
        changed.at(file).ctxt == SyntaxContext::Root,
{
}

/// What a span leaves of a file are the bytes before it and those behind it.
pub proof fn law_span_leaves_what_is_around(span: Span, file: FileView)
    requires
        file.wf(),
        file.start_pos <= span.lo,
        span.hi <= file.end(),
    ensures
        ChangedSpan::around(span, file).common_prefix == span.lo - file.start_pos,
        ChangedSpan::around(span, file).common_suffix == file.start_pos + encode_utf8(
            file.src,
        ).len() - span.hi,
{
}

/// A file takes up one position for each of its bytes.
pub proof fn law_file_has_position_for_each_byte(file: FileView, lo: int, hi: int)
    ensures
        file.bytes() == encode_utf8(file.src),
        file.end() - file.start_pos == encode_utf8(file.src).len(),
        file.wf() <==> file.start_pos + encode_utf8(file.src).len() <= u32::MAX,
        file.wf() ==> file.whole().lo == file.start_pos && file.whole().hi == file.start_pos
            + encode_utf8(file.src).len(),
        file.holds(lo, hi) <==> has_ends(file, lo, hi),
{
}

/// Whether a file has positions `lo` and `hi`, in this order.
pub open spec fn has_ends(file: FileView, lo: int, hi: int) -> bool {
    file.start_pos <= lo && lo <= hi && hi <= file.start_pos + encode_utf8(file.src).len()
}

/// The bytes of two texts, one behind the other, are those of each.
pub proof fn lemma_encode_add(a: Seq<char>, b: Seq<char>)
    ensures
        encode_utf8(a + b) == encode_utf8(a) + encode_utf8(b),
    decreases a.len(),
{
    if a.len() == 0 {
        assert(a + b =~= b);
        assert(encode_utf8(a) + encode_utf8(b) =~= encode_utf8(b));
    } else {
        lemma_encode_add(a.drop_first(), b);
        assert((a + b).drop_first() =~= a.drop_first() + b);
        assert((a + b)[0] == a[0]);
        assert(encode_utf8(a + b) =~= encode_utf8(a) + encode_utf8(b));
    }
}

proof fn lemma_boundary_behind(a: Seq<char>, b: Seq<char>)
    ensures
        is_char_boundary(encode_utf8(a + b), encode_utf8(a).len() as int),
    decreases a.len(),
{
    let all = a + b;
    encode_utf8_valid_utf8(all);
    if a.len() > 0 {
        encode_utf8_first_scalar(all);
        lemma_boundary_behind(a.drop_first(), b);
        lemma_encode_add(a, b);
        assert(all.drop_first() =~= a.drop_first() + b);
        assert(all[0] == a[0]);
        assert(pop_first_scalar(encode_utf8(all)) =~= encode_utf8(all.drop_first()));
    }
}

/// Whether `text` stands in a file from `lo` to `hi`, between `before` and `behind`.
pub open spec fn stands_between(
    file: FileView,
    before: Seq<char>,
    text: Seq<char>,
    behind: Seq<char>,
    lo: int,
    hi: int,
) -> bool {
    &&& file.src == before + text + behind
    &&& lo == file.start_pos + encode_utf8(before).len()
    &&& hi == lo + encode_utf8(text).len()
}

/// A file gives a text for two positions if and only if the text stands there: it is what is left
/// of the file once what takes up the positions before and behind is cut off.
pub proof fn law_snippet_is_what_stands_there(file: FileView, lo: int, hi: int, text: Seq<char>)
    ensures
        file.snippet(lo, hi) == Some(text) <==> exists|before: Seq<char>, behind: Seq<char>|
            #[trigger] stands_between(file, before, text, behind, lo, hi),
{
    let bytes = file.bytes();
    let from = lo - file.start_pos;
    let to = hi - file.start_pos;
    encode_utf8_valid_utf8(file.src);
    if exists|before: Seq<char>, behind: Seq<char>| #[trigger]
        stands_between(file, before, text, behind, lo, hi) {
        let (before, behind) = choose|before: Seq<char>, behind: Seq<char>| #[trigger]
            stands_between(file, before, text, behind, lo, hi);
        lemma_encode_add(before, text);
        lemma_encode_add(before + text, behind);
        lemma_boundary_behind(before + text, behind);
        lemma_boundary_behind(before, text + behind);
        assert(before + (text + behind) =~= file.src);
        encode_utf8_decode_utf8(text);
        assert(bytes.subrange(from, to) =~= encode_utf8(text));
    }
    if file.snippet(lo, hi) == Some(text) {
        let before = decode_utf8(bytes.subrange(0, from));
        let tail = bytes.subrange(from, bytes.len() as int);
        valid_utf8_split(bytes, from);
        decode_utf8_split(bytes, from);
        encode_utf8_decode_utf8(file.src);
        lemma_boundary_in_tail(bytes, from, to);
        valid_utf8_split(tail, to - from);
        decode_utf8_split(tail, to - from);
        let behind = decode_utf8(tail.subrange(to - from, tail.len() as int));
        assert(tail.subrange(0, to - from) =~= bytes.subrange(from, to));
        decode_utf8_encode_utf8(bytes.subrange(0, from));
        decode_utf8_encode_utf8(bytes.subrange(from, to));
        assert(before + text + behind =~= before + (text + behind));
        assert(stands_between(file, before, text, behind, lo, hi));
    }
}

/// A code map gives for two positions what the first file gives that has both of them.
pub proof fn law_snippet_comes_from_first_file_there(
    files: Seq<FileView>,
    lo: int,
    hi: int,
    text: Seq<char>,
)
    ensures
        snippet_in(files, lo, hi) == Some(text) <==> exists|k: int|
            {
                &&& 0 <= k < files.len()
                &&& (#[trigger] files[k]).snippet(lo, hi) == Some(text)
                &&& forall|j: int| 0 <= j < k ==> !has_ends(#[trigger] files[j], lo, hi)
            },
    decreases files.len(),
{
    if files.len() > 0 {
        let rest = files.skip(1);
        law_snippet_comes_from_first_file_there(rest, lo, hi, text);
        if has_ends(files[0], lo, hi) {
            assert(snippet_in(files, lo, hi) == files[0].snippet(lo, hi));
        } else {
            if snippet_in(files, lo, hi) == Some(text) {
                let k = choose|k: int|
                    {
                        &&& 0 <= k < rest.len()
                        &&& (#[trigger] rest[k]).snippet(lo, hi) == Some(text)
                        &&& forall|j: int| 0 <= j < k ==> !has_ends(#[trigger] rest[j], lo, hi)
                    };
                assert(files[k + 1] == rest[k]);
                assert forall|j: int| 0 <= j < k + 1 implies !has_ends(
                    #[trigger] files[j],
                    lo,
                    hi,
                ) by {
                    if j > 0 {
                        assert(rest[j - 1] == files[j]);
                    }
                }
            }
            if exists|k: int|
                {
                    &&& 0 <= k < files.len()
                    &&& (#[trigger] files[k]).snippet(lo, hi) == Some(text)
                    &&& forall|j: int| 0 <= j < k ==> !has_ends(#[trigger] files[j], lo, hi)
                } {
                let k = choose|k: int|
                    {
                        &&& 0 <= k < files.len()
                        &&& (#[trigger] files[k]).snippet(lo, hi) == Some(text)
                        &&& forall|j: int| 0 <= j < k ==> !has_ends(#[trigger] files[j], lo, hi)
                    };
                assert(k > 0);
                assert(rest[k - 1] == files[k]);
                assert forall|j: int| 0 <= j < k - 1 implies !has_ends(
                    #[trigger] rest[j],
                    lo,
                    hi,
                ) by {
                    assert(files[j + 1] == rest[j]);
                }
            }
        }
    }
}

/// A file is found by its path if there is one on disk with just that path, and it is the first of
/// these.
pub proof fn law_file_is_found_by_path(files: Seq<FileView>, path: Seq<char>)
    ensures
        match named_file(files, path) {
            Some(i) => {
                &&& 0 <= i < files.len()
                &&& files[i].name == Some(path)
                &&& forall|j: int| 0 <= j < i ==> (#[trigger] files[j]).name != Some(path)
            },
            None => forall|j: int| 0 <= j < files.len() ==> (#[trigger] files[j]).name != Some(
                path,
            ),
        },
{
    if named_file(files, path) is None {
        assert forall|j: int| 0 <= j < files.len() implies (#[trigger] files[j]).name
            != Some(path) by {
            lemma_none_is_named(files, path, j);
        }
    } else {
        let i = choose|i: int| is_first_named(files, path, i);
        assert(is_first_named(files, path, i));
        assert forall|j: int| 0 <= j < i implies (#[trigger] files[j]).name != Some(path) by {
            assert(!files[j].is_named(path));
        }
    }
}

proof fn lemma_none_is_named(files: Seq<FileView>, path: Seq<char>, j: int)
    requires
        !exists|i: int| is_first_named(files, path, i),
        0 <= j < files.len(),
    ensures
        !files[j].is_named(path),
    decreases j,
{
    assert forall|i: int| 0 <= i < j implies !(#[trigger] files[i]).is_named(path) by {
        lemma_none_is_named(files, path, i);
    }
    assert(!is_first_named(files, path, j));
}

/// The changed file by itself starts at the first position, is no file on disk, and has the text it
/// was given, but for one byte order mark at the start.
pub proof fn law_lone_file_has_text_without_mark(text: Seq<char>)
    ensures
        lone_file(text).start_pos == 0,
        lone_file(text).name is None,
        lone_file(text).src == without_mark(text),
        text.len() == 0 || text[0] != '\u{feff}' ==> without_mark(text) == text,
        text.len() > 0 && text[0] == '\u{feff}' ==> text == seq!['\u{feff}'] + without_mark(text),
{
    if text.len() > 0 && text[0] == '\u{feff}' {
        assert(text =~= seq!['\u{feff}'] + without_mark(text));
    }
}

} // verus!
