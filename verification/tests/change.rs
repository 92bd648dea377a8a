use change_to_rule::change::{common, common_prefix, common_suffix};
use change_to_rule::codemap::{CodeMap, FileMap, FileName};
use change_to_rule::span::{
    find_span_within_span, span_within_span, ChangedSpan, RelativeSpan, Span, SyntaxContext,
};

fn file_at(start_pos: u32, src: String) -> FileMap {
    FileMap::new(FileName::Other, start_pos, src)
}

fn root(lo: u32, hi: u32) -> Span {
    Span::new(lo, hi, SyntaxContext::Root)
}

fn made_at(lo: u32, hi: u32, site: Span) -> Span {
    Span::new(lo, hi, SyntaxContext::Expansion(Some(Box::new(site))))
}

#[test]
fn find_changed_range() {
    assert_eq!(
        Some(ChangedSpan::new(5, 2)),
        common("ababcab", "ababcdefab")
    );
}

#[test]
fn common_ends_are_counted_in_bytes() {
    assert_eq!(common_prefix("abc", "abd"), Some(2));
    assert_eq!(common_suffix("abc", "dbc"), Some(2));
    assert_eq!(common_prefix("äx", "äy"), Some(2));
    // The two letters share the first of their two bytes.
    assert_eq!(common_prefix("ä", "ö"), Some(1));
    assert_eq!(common_prefix("x", "y"), Some(0));
}

#[test]
fn part_of_a_file_is_no_change() {
    assert_eq!(common_prefix("ab", "abc"), None);
    assert_eq!(common_prefix("", "abc"), None);
    assert_eq!(common_suffix("bc", "abc"), None);
    assert_eq!(common("abc", "abc"), None);
    assert_eq!(common("ab", "abc"), None);
    assert_eq!(common("bc", "abc"), None);
    assert_eq!(common("abc", "bc"), None);
}

#[test]
fn change_is_the_same_from_both_sides() {
    let (left, right) = ("let x = 1;", "let y = 1;");
    assert_eq!(common(left, right), common(right, left));
    assert_eq!(common(left, right), Some(ChangedSpan::new(4, 5)));
}

#[test]
fn versions_agree_outside_the_change() {
    let (left, right) = ("let x = 1;", "let yy = 1;");
    let changed = common(left, right).unwrap();
    let (p, s) = (changed.common_prefix, changed.common_suffix);
    assert_eq!(left[..p], right[..p]);
    assert_eq!(left[left.len() - s..], right[right.len() - s..]);
    let replaced = left[..p].to_owned() + &right[p..right.len() - s] + &left[left.len() - s..];
    assert_eq!(replaced, right);
}

#[test]
fn common_ends_may_overlap() {
    let changed = common("aba", "abba").unwrap();
    assert_eq!(changed, ChangedSpan::new(2, 2));
    let file = file_at(10, "aba".to_owned());
    assert_eq!(changed.to_span(&file), root(11, 12));
}

#[test]
fn changed_span_goes_there_and_back() {
    let file = file_at(10, "0123456789".to_owned());
    let changed = ChangedSpan::new(3, 2);
    let span = changed.to_span(&file);
    assert_eq!(span, root(13, 18));
    assert_eq!(ChangedSpan::from_span(&span, &file), changed);
    let other = file_at(0, "01234--56789".to_owned());
    assert_eq!(changed.to_span(&other), root(3, 10));
}

#[test]
fn changed_span_may_reach_out_of_the_file() {
    let file = file_at(10, "01".to_owned());
    assert_eq!(ChangedSpan::new(3, 0).to_span(&file), root(12, 13));
    assert_eq!(ChangedSpan::new(0, 5).to_span(&file), root(7, 10));
    assert!(ChangedSpan::new(3, 12).can_be_placed(&file));
    assert!(!ChangedSpan::new(3, 13).can_be_placed(&file));
    let far = file_at(u32::MAX - 2, "01".to_owned());
    assert!(ChangedSpan::new(2, 0).can_be_placed(&far));
    assert!(!ChangedSpan::new(3, 0).can_be_placed(&far));
}

#[test]
fn file_is_found_by_its_path() {
    let real = |path: &str| FileMap::new(FileName::Real(path.to_owned()), 0, String::new());
    let codemap = CodeMap {
        files: vec![file_at(0, "b.rs".to_owned()), real("a.rs"), real("b.rs"), real("b.rs")],
    };
    assert_eq!(codemap.get_filemap("a.rs"), Some(1));
    assert_eq!(codemap.get_filemap("b.rs"), Some(2));
    assert_eq!(codemap.get_filemap("c.rs"), None);
}

#[test]
fn relative_span_goes_there_and_back() {
    let file = file_at(10, "0123456789".to_owned());
    let relative = RelativeSpan::new(&root(12, 15), &file);
    assert_eq!(relative, RelativeSpan { start: 2, end: 5 });
    assert_eq!(relative.absolute(&file), root(12, 15));
    let elsewhere = file_at(100, "0123456789".to_owned());
    let text = elsewhere.span_to_snippet(&relative.absolute(&elsewhere));
    assert_eq!(text, Some("234".to_owned()));
    assert_eq!(text, file.span_to_snippet(&root(12, 15)));
}

#[test]
fn relative_span_of_expanded_code_is_the_call() {
    let file = file_at(10, "0123456789".to_owned());
    let inner = made_at(500, 510, made_at(300, 320, root(11, 19)));
    assert_eq!(RelativeSpan::new(&inner, &file), RelativeSpan { start: 1, end: 9 });
}

#[test]
fn span_within_span_follows_expansions() {
    let target = root(10, 20);
    let inside = root(12, 14);
    assert_eq!(*span_within_span(&inside, &target), inside);
    let once = made_at(500, 510, root(12, 14));
    assert_eq!(*span_within_span(&once, &target), inside);
    assert_eq!(find_span_within_span(&root(8, 12), &target), None);
    let nowhere = Span::new(500, 510, SyntaxContext::Expansion(None));
    assert_eq!(find_span_within_span(&nowhere, &target), None);
}

#[test]
fn span_has_its_smaller_end_first() {
    assert_eq!(root(7, 3), root(3, 7));
    assert!(root(3, 7).contains(&root(3, 7)));
    assert!(root(3, 7).contains(&root(5, 5)));
    assert!(!root(3, 7).contains(&root(3, 8)));
    assert!(!root(3, 7).contains(&root(2, 4)));
    assert!(!root(3, 7).from_expansion());
    assert!(made_at(3, 7, root(0, 1)).from_expansion());
}

#[test]
fn snippets_come_from_one_file() {
    let codemap = CodeMap {
        files: vec![
            file_at(0, "abc".to_owned()),
            file_at(4, "dëf".to_owned()),
        ],
    };
    assert_eq!(codemap.span_to_snippet(&root(1, 3)), Some("bc".to_owned()));
    assert_eq!(codemap.span_to_snippet(&root(4, 7)), Some("dë".to_owned()));
    assert_eq!(codemap.span_to_snippet(&root(5, 5)), Some(String::new()));
    // Inside a character.
    assert_eq!(codemap.span_to_snippet(&root(4, 6)), None);
    // Across files, and behind the last one.
    assert_eq!(codemap.span_to_snippet(&root(2, 5)), None);
    assert_eq!(codemap.span_to_snippet(&root(9, 10)), None);
}

#[test]
fn file_has_an_end() {
    let file = file_at(4, "dëf".to_owned());
    assert!(file.is_addressable());
    assert_eq!(file.end_pos(), 8);
    assert!(!file_at(u32::MAX, "ab".to_owned()).is_addressable());
}

#[test]
fn text_is_loaded_without_its_byte_order_mark() {
    let file = FileMap::from_text(4, "\u{feff}ab".to_owned());
    assert_eq!(file.src, "ab");
    assert_eq!(file.end_pos(), 6);
    // Only one mark, and only at the start.
    assert_eq!(FileMap::from_text(0, "\u{feff}\u{feff}a".to_owned()).src, "\u{feff}a");
    assert_eq!(FileMap::from_text(0, "a\u{feff}".to_owned()).src, "a\u{feff}");
    assert_eq!(FileMap::from_text(0, String::new()).src, "");
}
