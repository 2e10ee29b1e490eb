//! The rules that a sequence of page descriptors obeys, and what the
//! allocator's operations do to such a sequence.

use vstd::prelude::*;

use super::memory_abstractions::DescriptorValue;

verus! {

/// A descriptor that begins or continues a group of several pages, so that
/// the next descriptor must continue the same group.
pub open spec fn opens_group(d: DescriptorValue) -> bool {
    d == DescriptorValue::FirstAndTaken || d == DescriptorValue::MiddleAndTaken
}

/// A descriptor that can only follow one that opens a group.
pub open spec fn continues_group(d: DescriptorValue) -> bool {
    d == DescriptorValue::MiddleAndTaken || d == DescriptorValue::LastAndTaken
}

/// Whether `b` may directly follow `a`.
pub open spec fn valid_next(a: DescriptorValue, b: DescriptorValue) -> bool {
    if opens_group(a) {
        continues_group(b)
    } else {
        !continues_group(b)
    }
}

/// The descriptor after position `i`; past the end of the array it reads
/// as `Empty`.
pub open spec fn next_desc(d: Seq<DescriptorValue>, i: int) -> DescriptorValue {
    if i + 1 < d.len() {
        d[i + 1]
    } else {
        DescriptorValue::Empty
    }
}

/// The descriptor at `i` is followed by one that may follow it.
pub open spec fn ordered_at(d: Seq<DescriptorValue>, i: int) -> bool {
    valid_next(d[i], next_desc(d, i))
}

/// Every descriptor is followed by one that may follow it.
pub open spec fn well_ordered(d: Seq<DescriptorValue>) -> bool {
    forall|i: int| 0 <= i < d.len() ==> #[trigger] ordered_at(d, i)
}

/// The number of descriptors that are not `Empty`.
pub open spec fn count_taken(d: Seq<DescriptorValue>) -> nat
    decreases d.len(),
{
    if d.len() == 0 {
        0
    } else {
        count_taken(d.drop_last()) + if d.last() == DescriptorValue::Empty {
            0nat
        } else {
            1nat
        }
    }
}

/// Positions `i .. i + n` all exist and are all `Empty`.
pub open spec fn run_free(d: Seq<DescriptorValue>, i: int, n: int) -> bool {
    &&& 0 <= i
    &&& i + n <= d.len()
    &&& forall|j: int| i <= j < i + n ==> d[j] == DescriptorValue::Empty
}

/// `i` starts the first run of `n` free descriptors.
pub open spec fn is_first_fit(d: Seq<DescriptorValue>, n: int, i: int) -> bool {
    &&& run_free(d, i, n)
    &&& forall|k: int| 0 <= k < i ==> !run_free(d, k, n)
}

/// Some run of `n` free descriptors exists.
pub open spec fn has_fit(d: Seq<DescriptorValue>, n: int) -> bool {
    exists|i: int| run_free(d, i, n)
}

/// The start of the first run of `n` free descriptors.
pub open spec fn first_fit(d: Seq<DescriptorValue>, n: int) -> int {
    choose|i: int| is_first_fit(d, n, i)
}

/// The descriptors after marking positions `i .. i + n` as one allocation.
pub open spec fn filled(d: Seq<DescriptorValue>, i: int, n: int) -> Seq<DescriptorValue> {
    Seq::new(
        d.len(),
        |j: int|
            if n == 1 && j == i {
                DescriptorValue::FirstAndLast
            } else if j == i {
                DescriptorValue::FirstAndTaken
            } else if i < j < i + n - 1 {
                DescriptorValue::MiddleAndTaken
            } else if n > 1 && j == i + n - 1 {
                DescriptorValue::LastAndTaken
            } else {
                d[j]
            },
    )
}

/// Starting at `j`, skip `MiddleAndTaken` descriptors; the position of the
/// `LastAndTaken` that ends them, if that is what comes next.
pub open spec fn scan_last(d: Seq<DescriptorValue>, j: int) -> Option<int>
    decreases d.len() - j,
{
    if j < 0 || j >= d.len() {
        None
    } else if d[j] == DescriptorValue::LastAndTaken {
        Some(j)
    } else if d[j] == DescriptorValue::MiddleAndTaken {
        scan_last(d, j + 1)
    } else {
        None
    }
}

/// The position of the last descriptor of the allocation that starts at
/// `i`, if `i` starts an allocation whose descriptors are in order.
pub open spec fn group_end(d: Seq<DescriptorValue>, i: int) -> Option<int> {
    if 0 <= i < d.len() && d[i] == DescriptorValue::FirstAndLast {
        Some(i)
    } else if 0 <= i < d.len() && d[i] == DescriptorValue::FirstAndTaken {
        scan_last(d, i + 1)
    } else {
        None
    }
}

/// The descriptors after emptying positions `i ..= e`.
pub open spec fn emptied(d: Seq<DescriptorValue>, i: int, e: int) -> Seq<DescriptorValue> {
    Seq::new(d.len(), |j: int| if i <= j <= e { DescriptorValue::Empty } else { d[j] })
}

pub proof fn lemma_first_fit_unique(d: Seq<DescriptorValue>, n: int, i: int)
    requires
        is_first_fit(d, n, i),
    ensures
        first_fit(d, n) == i,
{
    let j = first_fit(d, n);
    assert(is_first_fit(d, n, j));
    if j < i {
        assert(!run_free(d, j, n));
    } else if i < j {
        assert(!run_free(d, i, n));
    }
}

pub proof fn lemma_scan_last_shape(d: Seq<DescriptorValue>, j: int)
    requires
        scan_last(d, j) is Some,
    ensures
        j <= scan_last(d, j)->0 < d.len(),
        d[scan_last(d, j)->0] == DescriptorValue::LastAndTaken,
        forall|k: int| j <= k < scan_last(d, j)->0 ==> d[k] == DescriptorValue::MiddleAndTaken,
    decreases d.len() - j,
{
    if d[j] == DescriptorValue::MiddleAndTaken {
        lemma_scan_last_shape(d, j + 1);
    }
}

proof fn lemma_scan_last_found(d: Seq<DescriptorValue>, j: int)
    requires
        well_ordered(d),
        1 <= j <= d.len(),
        opens_group(d[j - 1]),
    ensures
        scan_last(d, j) is Some,
    decreases d.len() - j,
{
    assert(ordered_at(d, j - 1));
    if d[j] == DescriptorValue::MiddleAndTaken {
        lemma_scan_last_found(d, j + 1);
    }
}

/// The descriptors of every allocation in a well-ordered sequence run from
/// its first to its last page without a gap.
pub proof fn lemma_group_end_found(d: Seq<DescriptorValue>, i: int)
    requires
        well_ordered(d),
        0 <= i < d.len(),
        d[i] == DescriptorValue::FirstAndTaken || d[i] == DescriptorValue::FirstAndLast,
    ensures
        group_end(d, i) is Some,
{
    if d[i] == DescriptorValue::FirstAndTaken {
        lemma_scan_last_found(d, i + 1);
    }
}

pub proof fn lemma_group_end_shape(d: Seq<DescriptorValue>, i: int)
    requires
        group_end(d, i) is Some,
    ensures
        0 <= i <= group_end(d, i)->0 < d.len(),
        d[i] == DescriptorValue::FirstAndTaken || d[i] == DescriptorValue::FirstAndLast,
        d[i] == DescriptorValue::FirstAndLast <==> group_end(d, i)->0 == i,
        i < group_end(d, i)->0 ==> d[group_end(d, i)->0] == DescriptorValue::LastAndTaken,
        forall|k: int| i < k < group_end(d, i)->0 ==> d[k] == DescriptorValue::MiddleAndTaken,
        forall|k: int| i <= k <= group_end(d, i)->0 ==> d[k] != DescriptorValue::Empty,
{
    if d[i] == DescriptorValue::FirstAndTaken {
        lemma_scan_last_shape(d, i + 1);
    }
}

/// Marking the first fit as allocated keeps the descriptors in order.
pub proof fn lemma_filled_well_ordered(d: Seq<DescriptorValue>, i: int, n: int)
    requires
        well_ordered(d),
        n >= 1,
        run_free(d, i, n),
    ensures
        well_ordered(filled(d, i, n)),
{
    let f = filled(d, i, n);
    assert forall|j: int| 0 <= j < f.len() implies #[trigger] ordered_at(f, j) by {
        assert(ordered_at(d, j));
        if j == i - 1 {
            assert(d[i] == DescriptorValue::Empty);
        } else if j == i + n - 1 {
            assert(d[j] == DescriptorValue::Empty);
            if j + 1 < d.len() {
                assert(f[j + 1] == d[j + 1]);
            }
        } else if i <= j < i + n - 1 {
        } else {
            if j + 1 < d.len() && !(i <= j + 1 < i + n) {
                assert(f[j + 1] == d[j + 1]);
            }
        }
    }
}

/// Emptying a whole allocation keeps the descriptors in order.
pub proof fn lemma_emptied_well_ordered(d: Seq<DescriptorValue>, i: int)
    requires
        well_ordered(d),
        group_end(d, i) is Some,
    ensures
        well_ordered(emptied(d, i, group_end(d, i)->0)),
{
    let e = group_end(d, i)->0;
    lemma_group_end_shape(d, i);
    let f = emptied(d, i, e);
    assert(!continues_group(d[i]));
    assert(!opens_group(d[e]));
    assert forall|j: int| 0 <= j < f.len() implies #[trigger] ordered_at(f, j) by {
        if j == i - 1 {
            assert(ordered_at(d, j));
            assert(next_desc(d, j) == d[i]);
            assert(f[j] == d[j]);
        } else if j == e {
            assert(ordered_at(d, e));
            if j + 1 < d.len() {
                assert(f[j + 1] == d[j + 1]);
            }
        } else if i <= j < e {
            assert(f[j + 1] == DescriptorValue::Empty);
        } else {
            assert(ordered_at(d, j));
            assert(f[j] == d[j]);
            if j + 1 < d.len() {
                assert(f[j + 1] == d[j + 1]);
            }
        }
    }
}

/// Turning the `Empty` descriptors of positions `a .. b` into taken ones,
/// leaving the rest alone, adds `b - a` to the count of taken descriptors.
pub proof fn lemma_count_range_change(
    s1: Seq<DescriptorValue>,
    s2: Seq<DescriptorValue>,
    a: int,
    b: int,
)
    requires
        s1.len() == s2.len(),
        0 <= a <= b <= s1.len(),
        forall|j: int| 0 <= j < s1.len() && !(a <= j < b) ==> s1[j] == s2[j],
        forall|j: int| a <= j < b ==> s1[j] == DescriptorValue::Empty && s2[j] != DescriptorValue::Empty,
    ensures
        count_taken(s2) == count_taken(s1) + (b - a),
    decreases s1.len(),
{
    if s1.len() > 0 {
        let n = s1.len() - 1;
        let a2 = if a <= n { a } else { n };
        let b2 = if b <= n { b } else { n };
        lemma_count_range_change(s1.drop_last(), s2.drop_last(), a2, b2);
    }
}

pub proof fn lemma_count_taken_bound(d: Seq<DescriptorValue>)
    ensures
        count_taken(d) <= d.len(),
    decreases d.len(),
{
    if d.len() > 0 {
        lemma_count_taken_bound(d.drop_last());
    }
}

pub proof fn lemma_count_taken_all_empty(d: Seq<DescriptorValue>)
    requires
        forall|j: int| 0 <= j < d.len() ==> d[j] == DescriptorValue::Empty,
    ensures
        count_taken(d) == 0,
    decreases d.len(),
{
    if d.len() > 0 {
        lemma_count_taken_all_empty(d.drop_last());
    }
}

} // verus!
