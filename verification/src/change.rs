use crate::span::ChangedSpan;
use vstd::prelude::*;
use vstd::string::*;
use vstd::utf8::*;

verus! {

/// Whether `a` and `b` agree on what stands before `n` and differ there.
pub open spec fn differ_first_at(a: Seq<u8>, b: Seq<u8>, n: int) -> bool {
    &&& 0 <= n < a.len()
    &&& n < b.len()
    &&& a[n] != b[n]
    &&& forall|i: int| 0 <= i < n ==> #[trigger] a[i] == b[i]
}

/// The first index at which both sequences have a byte and the two differ.
pub open spec fn first_difference(a: Seq<u8>, b: Seq<u8>) -> Option<int> {
    if exists|n: int| differ_first_at(a, b, n) {
        Some(choose|n: int| differ_first_at(a, b, n))
    } else {
        None
    }
}

/// The part that differs between two versions of a file: what stands between the longest common
/// prefix and the longest common suffix. There is none where one version is a prefix or a suffix
/// of the other.
pub open spec fn change(left: Seq<u8>, right: Seq<u8>) -> Option<ChangedSpan> {
    match (first_difference(left, right), first_difference(left.reverse(), right.reverse())) {
        (Some(prefix), Some(suffix)) => Some(
            ChangedSpan { common_prefix: prefix as usize, common_suffix: suffix as usize },
        ),
        _ => None,
    }
}

/// Two sequences differ first at one index only.
pub proof fn lemma_first_difference(a: Seq<u8>, b: Seq<u8>, n: int)
    requires
        differ_first_at(a, b, n),
    ensures
        first_difference(a, b) == Some(n),
{
    let m = choose|m: int| differ_first_at(a, b, m);
    assert(differ_first_at(a, b, m));
    if m < n {
        assert(a[m] == b[m]);
    }
    if n < m {
        assert(a[n] == b[n]);
    }
}

/// How many bytes the two texts have in common at the start, if they differ behind these.
pub fn common_prefix(left: &str, right: &str) -> (r: Option<usize>)
    ensures
        match first_difference(encode_utf8(left@), encode_utf8(right@)) {
            Some(n) => r == Some(n as usize) && n <= usize::MAX,
            None => r is None,
        },
{
    let l: &[u8] = left.as_bytes();
    let r: &[u8] = right.as_bytes();
    let mut i: usize = 0;
    while i < l.len() && i < r.len()
        invariant
            i <= l.len(),
            i <= r.len(),
            l@ == encode_utf8(left@),
            r@ == encode_utf8(right@),
            forall|j: int| 0 <= j < i ==> #[trigger] l@[j] == r@[j],
        decreases l.len() - i,
    {
        if l[i] != r[i] {
            proof {
                lemma_first_difference(l@, r@, i as int);
            }
            return Some(i);
        }
        i = i + 1;
    }
    None
}

/// How many bytes the two texts have in common at the end, if they differ before these.
pub fn common_suffix(left: &str, right: &str) -> (r: Option<usize>)
    ensures
        match first_difference(encode_utf8(left@).reverse(), encode_utf8(right@).reverse()) {
            Some(n) => r == Some(n as usize) && n <= usize::MAX,
            None => r is None,
        },
{
    let l: &[u8] = left.as_bytes();
    let r: &[u8] = right.as_bytes();
    let ghost a = l@.reverse();
    let ghost b = r@.reverse();
    let mut i: usize = 0;
    while i < l.len() && i < r.len()
        invariant
            i <= l.len(),
            i <= r.len(),
            l@ == encode_utf8(left@),
            r@ == encode_utf8(right@),
            a == l@.reverse(),
            b == r@.reverse(),
            forall|j: int| 0 <= j < i ==> #[trigger] a[j] == b[j],
        decreases l.len() - i,
    {
        if l[l.len() - 1 - i] != r[r.len() - 1 - i] {
            proof {
                lemma_first_difference(a, b, i as int);
            }
            return Some(i);
        }
        assert(a[i as int] == b[i as int]);
        i = i + 1;
    }
    None
}

/// The part that differs between two versions of a file.
pub fn common(left: &str, right: &str) -> (r: Option<ChangedSpan>)
    ensures
        r == change(encode_utf8(left@), encode_utf8(right@)),
{
    match (common_prefix(left, right), common_suffix(left, right)) {
        (Some(prefix), Some(suffix)) => Some(ChangedSpan::new(prefix, suffix)),
        _ => None,
    }
}

} // verus!
