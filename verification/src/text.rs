use vstd::prelude::*;
use vstd::string::*;
use vstd::utf8::*;

verus! {

/// The texts of a list of strings.
pub open spec fn texts(strings: Seq<String>) -> Seq<Seq<char>> {
    Seq::new(strings.len(), |i: int| strings[i]@)
}

/// The texts one behind the other, with `separator` between any two.
pub open spec fn joined(parts: Seq<Seq<char>>, separator: Seq<char>) -> Seq<char>
    decreases parts.len(),
{
    if parts.len() == 0 {
        Seq::empty()
    } else if parts.len() == 1 {
        parts[0]
    } else {
        joined(parts.drop_last(), separator) + separator + parts.last()
    }
}

/// The texts one behind the other, with `separator` between any two.
pub fn join(parts: &Vec<String>, separator: &str) -> (r: String)
    ensures
        r@ == joined(texts(parts@), separator@),
{
    let mut result = String::new();
    let ghost all = texts(parts@);
    assert(all.take(0) =~= Seq::empty());
    let mut i: usize = 0;
    while i < parts.len()
        invariant
            i <= parts.len(),
            all == texts(parts@),
            result@ == joined(all.take(i as int), separator@),
        decreases parts.len() - i,
    {
        assert(all.take(i + 1).drop_last() =~= all.take(i as int));
        assert(all.take(i + 1).last() == parts@[i as int]@);
        if i > 0 {
            result.append(separator);
        }
        result.append(parts[i].as_str());
        assert(result@ =~= joined(all.take(i + 1), separator@));
        i = i + 1;
    }
    assert(all.take(i as int) =~= all);
    result
}

pub open spec fn digit(value: nat) -> char {
    (48 + value) as char
}

/// A number in decimal notation.
pub open spec fn decimal(number: nat) -> Seq<char>
    decreases number,
{
    if number < 10 {
        seq![digit(number)]
    } else {
        decimal(number / 10).push(digit(number % 10))
    }
}

fn digit_text(value: usize) -> (r: &'static str)
    requires
        value < 10,
    ensures
        r@ == seq![digit(value as nat)],
{
    proof {
        reveal_strlit("0");
        reveal_strlit("1");
        reveal_strlit("2");
        reveal_strlit("3");
        reveal_strlit("4");
        reveal_strlit("5");
        reveal_strlit("6");
        reveal_strlit("7");
        reveal_strlit("8");
        reveal_strlit("9");
    }
    let text = match value {
        0 => "0",
        1 => "1",
        2 => "2",
        3 => "3",
        4 => "4",
        5 => "5",
        6 => "6",
        7 => "7",
        8 => "8",
        _ => "9",
    };
    assert(text@ =~= seq![digit(value as nat)]);
    text
}

/// Writes a number behind a text, in decimal notation.
pub fn append_decimal(text: &mut String, number: usize)
    ensures
        final(text)@ == old(text)@ + decimal(number as nat),
    decreases number,
{
    if number < 10 {
        text.append(digit_text(number));
    } else {
        append_decimal(text, number / 10);
        text.append(digit_text(number % 10));
        assert(text@ =~= old(text)@ + decimal(number as nat));
    }
}

/// Whether two sequences of bytes are the same up to `k` and the first is the smaller there: it
/// ends, or its byte is smaller.
pub open spec fn smaller_at(a: Seq<u8>, b: Seq<u8>, k: int) -> bool {
    &&& 0 <= k <= a.len()
    &&& k < b.len()
    &&& forall|i: int| 0 <= i < k ==> #[trigger] a[i] == b[i]
    &&& k < a.len() ==> a[k] < b[k]
}

/// The order of texts: that of a dictionary, by the bytes of their encoding.
pub open spec fn text_before(a: Seq<char>, b: Seq<char>) -> bool {
    exists|k: int| smaller_at(encode_utf8(a), encode_utf8(b), k)
}

proof fn lemma_same_bytes(a: Seq<char>, b: Seq<char>)
    requires
        encode_utf8(a) == encode_utf8(b),
    ensures
        a == b,
{
    encode_utf8_decode_utf8(a);
    encode_utf8_decode_utf8(b);
}

/// No text comes before itself, nor before one that comes before it.
pub proof fn lemma_text_order_is_strict(a: Seq<char>, b: Seq<char>)
    ensures
        text_before(a, b) ==> !text_before(b, a),
        !text_before(a, a),
{
    let (x, y) = (encode_utf8(a), encode_utf8(b));
    if text_before(a, b) && text_before(b, a) {
        let k = choose|k: int| smaller_at(x, y, k);
        let l = choose|l: int| smaller_at(y, x, l);
        if k < l {
            assert(y[k] == x[k]);
        } else if l < k {
            assert(x[l] == y[l]);
        }
    }
    if text_before(a, a) {
        let k = choose|k: int| smaller_at(x, x, k);
    }
}

pub proof fn lemma_text_order_is_transitive(a: Seq<char>, b: Seq<char>, c: Seq<char>)
    requires
        text_before(a, b),
        text_before(b, c),
    ensures
        text_before(a, c),
{
    let (x, y, z) = (encode_utf8(a), encode_utf8(b), encode_utf8(c));
    let k = choose|k: int| smaller_at(x, y, k);
    let l = choose|l: int| smaller_at(y, z, l);
    let m = if k < l { k } else { l };
    assert forall|i: int| 0 <= i < m implies #[trigger] x[i] == z[i] by {
        assert(x[i] == y[i]);
        assert(y[i] == z[i]);
    }
    if k < l {
        assert(y[k] == z[k]);
    } else if l < k {
        assert(x[l] == y[l]);
    }
    assert(smaller_at(x, z, m));
}

/// Of two different texts one comes before the other.
pub proof fn lemma_text_order_is_total(a: Seq<char>, b: Seq<char>)
    requires
        a != b,
    ensures
        text_before(a, b) || text_before(b, a),
{
    let (x, y) = (encode_utf8(a), encode_utf8(b));
    if x == y {
        lemma_same_bytes(a, b);
    }
    lemma_smaller_from(x, y, 0);
}

proof fn lemma_smaller_from(x: Seq<u8>, y: Seq<u8>, n: int)
    requires
        x != y,
        0 <= n <= x.len(),
        n <= y.len(),
        forall|i: int| 0 <= i < n ==> #[trigger] x[i] == y[i],
    ensures
        exists|k: int| smaller_at(x, y, k) || smaller_at(y, x, k),
    decreases x.len() - n,
{
    if n < x.len() && n < y.len() && x[n] == y[n] {
        lemma_smaller_from(x, y, n + 1);
    } else {
        assert forall|i: int| 0 <= i < n implies #[trigger] y[i] == x[i] by {
            assert(x[i] == y[i]);
        }
        if n == x.len() && n == y.len() {
            assert(x =~= y);
        }
        assert(smaller_at(x, y, n) || smaller_at(y, x, n));
    }
}

/// Whether the first text comes before the second in the order of texts.
pub fn is_text_before(a: &str, b: &str) -> (r: bool)
    ensures
        r == text_before(a@, b@),
        !r && a@ != b@ ==> text_before(b@, a@),
{
    let x = a.as_bytes();
    let y = b.as_bytes();
    let mut i: usize = 0;
    while i < x.len() && i < y.len() && x[i] == y[i]
        invariant
            i <= x.len(),
            i <= y.len(),
            forall|j: int| 0 <= j < i ==> #[trigger] x@[j] == y@[j],
        decreases x.len() - i,
    {
        i = i + 1;
    }
    let before = i < y.len() && (i == x.len() || x[i] < y[i]);
    proof {
        if before {
            assert(smaller_at(x@, y@, i as int));
        } else {
            assert forall|k: int| !smaller_at(x@, y@, k) by {
                if smaller_at(x@, y@, k) && k > i {
                    assert(x@[i as int] == y@[i as int]);
                }
            }
            if i == x.len() && i == y.len() {
                assert(x@ =~= y@);
                lemma_same_bytes(a@, b@);
            } else {
                assert forall|j: int| 0 <= j < i implies #[trigger] y@[j] == x@[j] by {
                    assert(x@[j] == y@[j]);
                }
                assert(smaller_at(y@, x@, i as int));
            }
        }
    }
    before
}

/// Whether each text of a list comes before those behind it.
pub open spec fn is_ascending(list: Seq<Seq<char>>) -> bool {
    forall|i: int, j: int|
        0 <= i < j < list.len() ==> text_before(#[trigger] list[i], #[trigger] list[j])
}

/// Whether a list has the texts of a set, each once, in the order of texts.
pub open spec fn is_listing(list: Seq<Seq<char>>, set: Set<Seq<char>>) -> bool {
    is_ascending(list) && list.to_set() == set
}

/// The texts of a set in the order of texts.
pub open spec fn listing(set: Set<Seq<char>>) -> Seq<Seq<char>> {
    choose|list: Seq<Seq<char>>| is_listing(list, set)
}

/// There is only one way to list the texts of a set in order.
pub proof fn lemma_listing_is_unique(a: Seq<Seq<char>>, b: Seq<Seq<char>>)
    requires
        is_ascending(a),
        is_ascending(b),
        a.to_set() == b.to_set(),
    ensures
        a == b,
{
    assert forall|i: int| 0 <= i < a.len() && i < b.len() implies a[i] == b[i] by {
        lemma_listings_agree(a, b, i);
    }
    lemma_listing_is_not_longer(a, b);
    lemma_listing_is_not_longer(b, a);
    assert(a =~= b);
}

proof fn lemma_listing_is_not_longer(a: Seq<Seq<char>>, b: Seq<Seq<char>>)
    requires
        is_ascending(b),
        a.to_set() == b.to_set(),
        forall|i: int| 0 <= i < a.len() && i < b.len() ==> a[i] == #[trigger] b[i],
    ensures
        b.len() <= a.len(),
{
    if a.len() < b.len() {
        let n = a.len() as int;
        assert(b.to_set().contains(b[n]));
        assert(a.to_set().contains(b[n]));
        let k = choose|k: int| 0 <= k < a.len() && a[k] == b[n];
        assert(text_before(b[k], b[n]));
        lemma_text_order_is_strict(b[n], b[n]);
    }
}

proof fn lemma_listings_agree(a: Seq<Seq<char>>, b: Seq<Seq<char>>, i: int)
    requires
        is_ascending(a),
        is_ascending(b),
        a.to_set() == b.to_set(),
        0 <= i < a.len(),
        i < b.len(),
    ensures
        a[i] == b[i],
    decreases i,
{
    assert forall|j: int| 0 <= j < i implies a[j] == b[j] by {
        lemma_listings_agree(a, b, j);
    }
    assert(a.to_set().contains(a[i]));
    assert(b.to_set().contains(b[i]));
    assert(b.to_set().contains(a[i]));
    assert(a.to_set().contains(b[i]));
    let k = choose|k: int| 0 <= k < b.len() && b[k] == a[i];
    let l = choose|l: int| 0 <= l < a.len() && a[l] == b[i];
    lemma_text_order_is_strict(a[i], b[i]);
    lemma_text_order_is_strict(a[i], a[i]);
    lemma_text_order_is_strict(b[i], b[i]);
    if k < i {
        assert(text_before(a[k], a[i]));
    }
    if l < i {
        assert(text_before(b[l], b[i]));
    }
    if k > i && l > i {
        assert(text_before(b[i], b[k]));
        assert(text_before(a[i], a[l]));
    }
}

/// Puts a text into a list that is in order, where it belongs, unless the list has it.
pub fn insert_text(list: &mut Vec<String>, text: &String)
    requires
        is_ascending(texts(old(list)@)),
    ensures
        is_ascending(texts(final(list)@)),
        texts(final(list)@).to_set() == texts(old(list)@).to_set().insert(text@),
{
    let ghost before = texts(list@);
    let mut at: usize = 0;
    while at < list.len() && is_text_before(list[at].as_str(), text.as_str())
        invariant
            at <= list.len(),
            before == texts(list@),
            *list == *old(list),
            is_ascending(before),
            forall|i: int| 0 <= i < at ==> text_before(#[trigger] before[i], text@),
        decreases list.len() - at,
    {
        assert(before[at as int] == list@[at as int]@);
        at = at + 1;
    }
    if at < list.len() && *text == list[at] {
        proof {
            assert(before[at as int] == text@);
            assert(before.to_set().contains(text@));
            assert(before.to_set().insert(text@) =~= before.to_set());
        }
        return;
    }
    list.insert(at, text.clone());
    proof {
        let after = texts(list@);
        assert(after =~= before.insert(at as int, text@));
        if at < before.len() {
            assert(before[at as int] == old(list)@[at as int]@);
            assert(text_before(text@, before[at as int]));
        }
        assert forall|i: int, j: int| 0 <= i < j < after.len() implies text_before(
            #[trigger] after[i],
            #[trigger] after[j],
        ) by {
            if i == at {
                assert(after[j] == before[j - 1]);
                if j - 1 > at {
                    assert(text_before(before[at as int], before[j - 1]));
                    lemma_text_order_is_transitive(text@, before[at as int], before[j - 1]);
                }
            } else if j == at {
                assert(after[i] == before[i]);
            } else {
                let oi = if i < at { i } else { i - 1 };
                let oj = if j < at { j } else { j - 1 };
                assert(after[i] == before[oi] && after[j] == before[oj]);
            }
        }
        let with_text = before.to_set().insert(text@);
        assert forall|t: Seq<char>|
            after.to_set().contains(t) <==> #[trigger] with_text.contains(t) by {
            if after.to_set().contains(t) {
                let k = choose|k: int| 0 <= k < after.len() && after[k] == t;
                if k < at {
                    assert(before[k] == t);
                } else if k > at {
                    assert(before[k - 1] == t);
                }
            }
            if before.to_set().contains(t) {
                let k = choose|k: int| 0 <= k < before.len() && before[k] == t;
                if k < at {
                    assert(after[k] == t);
                } else {
                    assert(after[k + 1] == t);
                }
            }
            assert(after[at as int] == text@);
        }
        assert(after.to_set() =~= before.to_set().insert(text@));
    }
}

} // verus!
