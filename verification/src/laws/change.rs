use crate::change::{change, differ_first_at, first_difference, lemma_first_difference};
use crate::span::ChangedSpan;
use vstd::prelude::*;

verus! {

/// Whether two versions of a file are the same before and behind the changed part.
pub open spec fn agree_outside(left: Seq<u8>, right: Seq<u8>, changed: ChangedSpan) -> bool {
    let prefix = changed.common_prefix as int;
    let suffix = changed.common_suffix as int;
    &&& changed.fits(left.len() as int)
    &&& changed.fits(right.len() as int)
    &&& left.take(prefix) == right.take(prefix)
    &&& left.skip(left.len() - suffix) == right.skip(right.len() - suffix)
}

/// Whether one changed part takes in another.
pub open spec fn takes_in(wide: ChangedSpan, narrow: ChangedSpan) -> bool {
    wide.common_prefix <= narrow.common_prefix && wide.common_suffix <= narrow.common_suffix
}

proof fn lemma_difference_is_symmetric(a: Seq<u8>, b: Seq<u8>)
    ensures
        first_difference(a, b) == first_difference(b, a),
{
    assert forall|n: int| #[trigger] differ_first_at(a, b, n) implies differ_first_at(b, a, n) by {
        assert forall|i: int| 0 <= i < n implies #[trigger] b[i] == a[i] by {
            assert(a[i] == b[i]);
        }
    }
    assert forall|n: int| #[trigger] differ_first_at(b, a, n) implies differ_first_at(a, b, n) by {
        assert forall|i: int| 0 <= i < n implies #[trigger] a[i] == b[i] by {
            assert(b[i] == a[i]);
        }
    }
    if first_difference(a, b) is Some {
        let n = first_difference(a, b)->0;
        assert(differ_first_at(a, b, n));
        lemma_first_difference(b, a, n);
    } else if first_difference(b, a) is Some {
        let n = first_difference(b, a)->0;
        assert(differ_first_at(b, a, n));
        assert(differ_first_at(a, b, n));
    }
}

/// The changed part is the same whichever version is the original one.
pub proof fn law_change_is_symmetric(left: Seq<u8>, right: Seq<u8>)
    ensures
        change(left, right) == change(right, left),
{
    lemma_difference_is_symmetric(left, right);
    lemma_difference_is_symmetric(left.reverse(), right.reverse());
}

/// Where one version is a prefix or a suffix of the other, a file that is not changed among these,
/// there is no changed part.
pub proof fn law_no_change_in_part_of_file(left: Seq<u8>, right: Seq<u8>)
    requires
        left.is_prefix_of(right) || left.is_suffix_of(right),
    ensures
        change(left, right) is None,
        change(right, left) is None,
{
    if left.is_prefix_of(right) {
        if first_difference(left, right) is Some {
            let n = first_difference(left, right)->0;
            assert(differ_first_at(left, right, n));
            assert(left[n] == right.subrange(0, left.len() as int)[n]);
        }
    } else {
        let a = left.reverse();
        let b = right.reverse();
        if first_difference(a, b) is Some {
            let n = first_difference(a, b)->0;
            assert(differ_first_at(a, b, n));
            let i = left.len() - 1 - n;
            let end = right.subrange((right.len() - left.len()) as int, right.len() as int);
            assert(left[i] == end[i]);
        }
    }
    law_change_is_symmetric(left, right);
}

/// Where neither version is a prefix or a suffix of the other, there is a changed part.
pub proof fn law_change_is_found(left: Seq<u8>, right: Seq<u8>)
    requires
        !left.is_prefix_of(right),
        !right.is_prefix_of(left),
        !left.is_suffix_of(right),
        !right.is_suffix_of(left),
    ensures
        change(left, right) is Some,
{
    lemma_difference_exists(left, right);
    let a = left.reverse();
    let b = right.reverse();
    if a.is_prefix_of(b) {
        let end = right.subrange((right.len() - left.len()) as int, right.len() as int);
        assert forall|i: int| 0 <= i < left.len() implies #[trigger] left[i] == end[i] by {
            assert(a[left.len() - 1 - i] == b.subrange(0, a.len() as int)[left.len() - 1 - i]);
        }
        assert(left =~= end);
    }
    if b.is_prefix_of(a) {
        let end = left.subrange((left.len() - right.len()) as int, left.len() as int);
        assert forall|i: int| 0 <= i < right.len() implies #[trigger] right[i] == end[i] by {
            assert(b[right.len() - 1 - i] == a.subrange(0, b.len() as int)[right.len() - 1 - i]);
        }
        assert(right =~= end);
    }
    lemma_difference_exists(a, b);
}

proof fn lemma_difference_exists(a: Seq<u8>, b: Seq<u8>)
    requires
        !a.is_prefix_of(b),
        !b.is_prefix_of(a),
    ensures
        first_difference(a, b) is Some,
{
    let least = if a.len() <= b.len() {
        a.len() as int
    } else {
        b.len() as int
    };
    if forall|i: int| 0 <= i < least ==> #[trigger] a[i] == b[i] {
        if a.len() <= b.len() {
            assert(a =~= b.subrange(0, a.len() as int));
        } else {
            assert(b =~= a.subrange(0, b.len() as int));
        }
    } else {
        let n = choose|i: int| 0 <= i < least && a[i] != b[i];
        lemma_difference_up_to(a, b, n);
    }
}

proof fn lemma_difference_up_to(a: Seq<u8>, b: Seq<u8>, n: int)
    requires
        0 <= n < a.len(),
        n < b.len(),
        a[n] != b[n],
    ensures
        first_difference(a, b) is Some,
    decreases n,
{
    if forall|i: int| 0 <= i < n ==> #[trigger] a[i] == b[i] {
        lemma_first_difference(a, b, n);
    } else {
        let m = choose|i: int| 0 <= i < n && a[i] != b[i];
        lemma_difference_up_to(a, b, m);
    }
}

/// The two versions are the same before and behind the changed part, and the changed part of
/// neither version can be made smaller at either end.
pub proof fn law_versions_agree_outside_change(left: Seq<u8>, right: Seq<u8>)
    requires
        left.len() <= usize::MAX,
    ensures
        change(left, right) matches Some(changed) ==> {
            &&& agree_outside(left, right, changed)
            &&& changed.common_prefix < left.len()
            &&& changed.common_suffix < left.len()
            &&& left[changed.common_prefix as int] != right[changed.common_prefix as int]
            &&& left[left.len() - 1 - changed.common_suffix] != right[right.len() - 1
                - changed.common_suffix]
        },
{
    if change(left, right) is Some {
        let p = first_difference(left, right)->0;
        let s = first_difference(left.reverse(), right.reverse())->0;
        assert(differ_first_at(left, right, p));
        assert(differ_first_at(left.reverse(), right.reverse(), s));
        assert(left.take(p) =~= right.take(p));
        let l = left.skip(left.len() - s);
        let r = right.skip(right.len() - s);
        assert forall|i: int| 0 <= i < s implies #[trigger] l[i] == r[i] by {
            assert(left.reverse()[s - 1 - i] == right.reverse()[s - 1 - i]);
        }
        assert(l =~= r);
    }
}

/// Where two versions agree outside a changed part, they agree outside every wider one.
pub proof fn law_wider_change_keeps_agreement(
    left: Seq<u8>,
    right: Seq<u8>,
    narrow: ChangedSpan,
    wide: ChangedSpan,
)
    requires
        agree_outside(left, right, narrow),
        takes_in(wide, narrow),
    ensures
        agree_outside(left, right, wide),
{
    let p = wide.common_prefix as int;
    let s = wide.common_suffix as int;
    let q = narrow.common_prefix as int;
    let t = narrow.common_suffix as int;
    assert(left.take(p) =~= left.take(q).take(p));
    assert(right.take(p) =~= right.take(q).take(p));
    assert(left.skip(left.len() - s) =~= left.skip(left.len() - t).skip(t - s));
    assert(right.skip(right.len() - s) =~= right.skip(right.len() - t).skip(t - s));
}

/// Putting the changed part of one version in place of that of the other turns the other version
/// into this one, if the prefix and the suffix that the two have in common do not overlap.
pub proof fn law_replacing_change_gives_other_version(
    left: Seq<u8>,
    right: Seq<u8>,
    changed: ChangedSpan,
)
    requires
        agree_outside(left, right, changed),
        changed.common_prefix + changed.common_suffix <= right.len(),
    ensures
        left.take(changed.common_prefix as int) + right.subrange(
            changed.common_prefix as int,
            right.len() - changed.common_suffix,
        ) + left.skip(left.len() - changed.common_suffix) == right,
{
    let p = changed.common_prefix as int;
    let s = changed.common_suffix as int;
    assert(right.take(p) + right.subrange(p, right.len() - s) + right.skip(right.len() - s)
        =~= right);
}

} // verus!
