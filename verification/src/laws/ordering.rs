use crate::analysis::{by_position, position_keys};
use crate::laws::choice::names_each_once;
use crate::matcher::PlaceholderView;
use crate::order::{arranged, comes_before, lemma_order_exists, stable_order};
use crate::rule::{by_start, start_keys};
use crate::span::Span;
use crate::text::{decimal, digit, is_ascending, is_listing, smaller_at, text_before};
use vstd::prelude::*;
use vstd::utf8::*;

verus! {

/// Whether `result` has the items of a list at the places that `order` names.
pub open spec fn is_taken_in_order<A>(items: Seq<A>, order: Seq<int>, result: Seq<A>) -> bool {
    &&& names_each_once(order, items.len())
    &&& result.len() == items.len()
    &&& forall|i: int| 0 <= i < items.len() ==> #[trigger] result[i] == items[order[i]]
}

/// Items that are put in the order of their keys are all there, each once. One with a smaller key
/// comes before one with a greater key, and those with the same key stay as they are.
pub proof fn law_arranged_items_go_by_key<A>(items: Seq<A>, keys: Seq<u32>)
    requires
        items.len() == keys.len(),
    ensures
        exists|order: Seq<int>|
            {
                &&& #[trigger] is_taken_in_order(items, order, arranged(items, keys))
                &&& forall|i: int, j: int|
                    0 <= i < j < order.len() ==> keys[#[trigger] order[i]]
                        < keys[#[trigger] order[j]] || (keys[order[i]] == keys[order[j]] && order[i]
                        < order[j])
            },
{
    let order = stable_order(keys);
    lemma_order_exists(keys);
    assert forall|i: int, j: int| 0 <= i < j < order.len() implies keys[#[trigger] order[i]]
        < keys[#[trigger] order[j]] || (keys[order[i]] == keys[order[j]] && order[i]
        < order[j]) by {
        assert(comes_before(keys, order[i], order[j]));
    }
    assert(order.no_duplicates()) by {
        assert forall|i: int, j: int|
            0 <= i < order.len() && 0 <= j < order.len() && i != j implies order[i] != order[j] by {
            if i < j {
                assert(comes_before(keys, order[i], order[j]));
            } else {
                assert(comes_before(keys, order[j], order[i]));
            }
        }
    }
    assert(is_taken_in_order(items, order, arranged(items, keys)));
}

/// Whether placeholders are these, in the order in which their code starts. Those whose code starts
/// at the same place stay as they are.
pub open spec fn are_in_order_of_code(
    found: Seq<PlaceholderView>,
    placeholders: Seq<PlaceholderView>,
    order: Seq<int>,
) -> bool {
    &&& is_taken_in_order(found, order, placeholders)
    &&& forall|i: int, j: int|
        0 <= i < j < order.len() ==> found[#[trigger] order[i]].expr.span.lo
            < found[#[trigger] order[j]].expr.span.lo || (found[order[i]].expr.span.lo
            == found[order[j]].expr.span.lo && order[i] < order[j])
}

/// The placeholders of a rule are all those that were found, each once, in the order in which their
/// code starts.
pub proof fn law_placeholders_go_by_start_of_code(found: Seq<PlaceholderView>)
    ensures
        exists|order: Seq<int>| #[trigger]
            are_in_order_of_code(found, by_position(found), order),
{
    let keys = position_keys(found);
    law_arranged_items_go_by_key(found, keys);
    let order = choose|order: Seq<int>|
        {
            &&& #[trigger] is_taken_in_order(found, order, arranged(found, keys))
            &&& forall|i: int, j: int|
                0 <= i < j < order.len() ==> keys[#[trigger] order[i]] < keys[#[trigger] order[j]]
                    || (keys[order[i]] == keys[order[j]] && order[i] < order[j])
        };
    assert forall|i: int, j: int| 0 <= i < j < order.len() implies found[
    #[trigger] order[i]].expr.span.lo < found[#[trigger] order[j]].expr.span.lo || (
    found[order[i]].expr.span.lo == found[order[j]].expr.span.lo && order[i] < order[j]) by {
        assert(keys[order[i]] == found[order[i]].expr.span.lo);
        assert(keys[order[j]] == found[order[j]].expr.span.lo);
    }
    assert(are_in_order_of_code(found, by_position(found), order));
}

/// Whether substitutions are these, in the order in which their places start. Those whose places
/// start at the same position stay as they are.
pub open spec fn are_in_order_of_places(
    substitutions: Seq<(Span, Seq<char>)>,
    list: Seq<(Span, Seq<char>)>,
    order: Seq<int>,
) -> bool {
    &&& is_taken_in_order(substitutions, order, list)
    &&& forall|i: int, j: int|
        0 <= i < j < order.len() ==> substitutions[#[trigger] order[i]].0.lo
            < substitutions[#[trigger] order[j]].0.lo || (substitutions[order[i]].0.lo
            == substitutions[order[j]].0.lo && order[i] < order[j])
}

/// Substitutions are made in the order in which their places start, all of them and each once.
pub proof fn law_substitutions_go_by_start_of_place(substitutions: Seq<(Span, Seq<char>)>)
    ensures
        exists|order: Seq<int>| #[trigger]
            are_in_order_of_places(substitutions, by_start(substitutions), order),
{
    let keys = start_keys(substitutions);
    law_arranged_items_go_by_key(substitutions, keys);
    let order = choose|order: Seq<int>|
        {
            &&& #[trigger] is_taken_in_order(substitutions, order, arranged(substitutions, keys))
            &&& forall|i: int, j: int|
                0 <= i < j < order.len() ==> keys[#[trigger] order[i]] < keys[#[trigger] order[j]]
                    || (keys[order[i]] == keys[order[j]] && order[i] < order[j])
        };
    assert forall|i: int, j: int| 0 <= i < j < order.len() implies substitutions[
    #[trigger] order[i]].0.lo < substitutions[#[trigger] order[j]].0.lo || (
    substitutions[order[i]].0.lo == substitutions[order[j]].0.lo && order[i] < order[j]) by {
        assert(keys[order[i]] == substitutions[order[i]].0.lo);
        assert(keys[order[j]] == substitutions[order[j]].0.lo);
    }
    assert(are_in_order_of_places(substitutions, by_start(substitutions), order));
}

/// Whether the bytes `a` come before the bytes `b` in a dictionary: at the first place where the
/// two are not the same, `a` has ended or has the smaller byte.
pub open spec fn is_earlier_in_dictionary(a: Seq<u8>, b: Seq<u8>) -> bool
    decreases a.len(),
{
    if b.len() == 0 {
        false
    } else if a.len() == 0 {
        true
    } else {
        a[0] < b[0] || (a[0] == b[0] && is_earlier_in_dictionary(a.skip(1), b.skip(1)))
    }
}

proof fn lemma_dictionary(a: Seq<u8>, b: Seq<u8>)
    ensures
        is_earlier_in_dictionary(a, b) <==> exists|k: int| smaller_at(a, b, k),
    decreases a.len(),
{
    if a.len() == 0 || b.len() == 0 || a[0] != b[0] {
        if is_earlier_in_dictionary(a, b) {
            assert(smaller_at(a, b, 0));
        }
        if exists|k: int| smaller_at(a, b, k) {
            let k = choose|k: int| smaller_at(a, b, k);
            if k > 0 {
                assert(a[0] == b[0]);
            }
        }
    } else {
        let (x, y) = (a.skip(1), b.skip(1));
        lemma_dictionary(x, y);
        if exists|k: int| smaller_at(x, y, k) {
            let k = choose|k: int| smaller_at(x, y, k);
            assert forall|i: int| 0 <= i < k + 1 implies #[trigger] a[i] == b[i] by {
                if i > 0 {
                    assert(x[i - 1] == y[i - 1]);
                }
            }
            assert(smaller_at(a, b, k + 1));
        }
        if exists|k: int| smaller_at(a, b, k) {
            let k = choose|k: int| smaller_at(a, b, k);
            assert forall|i: int| 0 <= i < k - 1 implies #[trigger] x[i] == y[i] by {
                assert(a[i + 1] == b[i + 1]);
            }
            assert(smaller_at(x, y, k - 1));
        }
    }
}

/// Texts are in the order of a dictionary, by their bytes.
pub proof fn law_texts_are_ordered_by_bytes(a: Seq<char>, b: Seq<char>)
    ensures
        text_before(a, b) <==> is_earlier_in_dictionary(encode_utf8(a), encode_utf8(b)),
{
    lemma_dictionary(encode_utf8(a), encode_utf8(b));
}

/// Whether a list has just the texts of a set, each before those that come later in a dictionary.
pub open spec fn is_dictionary_of(list: Seq<Seq<char>>, set: Set<Seq<char>>) -> bool {
    &&& forall|text: Seq<char>| #[trigger] list.contains(text) <==> set.contains(text)
    &&& forall|i: int, j: int|
        0 <= i < j < list.len() ==> is_earlier_in_dictionary(
            encode_utf8(#[trigger] list[i]),
            encode_utf8(#[trigger] list[j]),
        )
}

/// A list that is in order and has just the texts of a set is one in which a text comes before
/// those later in a dictionary, and the other way round.
pub proof fn law_listing_is_dictionary(list: Seq<Seq<char>>, set: Set<Seq<char>>)
    ensures
        is_listing(list, set) ==> is_dictionary_of(list, set),
        is_dictionary_of(list, set) ==> is_ascending(list),
{
    assert forall|i: int, j: int|
        0 <= i < list.len() && 0 <= j < list.len() implies text_before(
        #[trigger] list[i],
        #[trigger] list[j],
    ) == is_earlier_in_dictionary(encode_utf8(list[i]), encode_utf8(list[j])) by {
        law_texts_are_ordered_by_bytes(list[i], list[j]);
    }
    if is_listing(list, set) {
        assert forall|text: Seq<char>| #[trigger] list.contains(text) <==> set.contains(text) by {
            assert(list.to_set().contains(text) <==> list.contains(text));
        }
    }
}

/// The number that digits stand for.
pub open spec fn value_of(digits: Seq<char>) -> int
    decreases digits.len(),
{
    if digits.len() == 0 {
        0
    } else {
        10 * value_of(digits.drop_last()) + (digits.last() as int - '0' as int)
    }
}

/// A number is written in decimal digits that stand for it. There is no zero before the first of
/// them, but for the number zero itself.
pub proof fn law_number_is_written_in_decimal_digits(number: nat)
    ensures
        value_of(decimal(number)) == number,
        decimal(number).len() > 0,
        forall|i: int|
            0 <= i < decimal(number).len() ==> '0' <= #[trigger] decimal(number)[i] <= '9',
        number > 0 ==> decimal(number)[0] != '0',
        number == 0 ==> decimal(number).len() == 1,
    decreases number,
{
    let written = decimal(number);
    if number < 10 {
        assert(written =~= seq![digit(number)]);
        assert(written.drop_last() =~= Seq::empty());
        assert(value_of(written.drop_last()) == 0);
        assert(written.last() == digit(number));
        assert(digit(number) as int == 48 + number);
    } else {
        let front = decimal(number / 10);
        let last = digit(number % 10);
        law_number_is_written_in_decimal_digits(number / 10);
        assert(written == front.push(last));
        assert(written.drop_last() =~= front);
        assert(last as int == 48 + number % 10);
        assert forall|i: int| 0 <= i < written.len() implies '0' <= #[trigger] written[i]
            <= '9' by {
            if i < front.len() {
                assert(written[i] == front[i]);
            }
        }
        assert(written[0] == front[0]);
    }
}

} // verus!
