//! Sorting a slice of numbers in place, in many ways.

use rand::Rng;
use vstd::prelude::*;

verus! {

/// Swapping two items of a slice: `<[T]>::swap`, which exchanges the items
/// at the two indices and fails where one of them is out of bounds.
pub assume_specification<Elem>[ <[Elem]>::swap ](s: &mut [Elem], a: usize, b: usize)
    requires
        a < old(s).len(),
        b < old(s).len(),
    ensures
        final(s)@ == old(s)@.update(a as int, old(s)[b as int]).update(b as int, old(s)[a as int]),
;

/// No item is larger than one behind it.
pub open spec fn sorted(s: Seq<i32>) -> bool {
    forall|i: int, j: int| 0 <= i <= j < s.len() ==> s[i] <= s[j]
}

/// The two hold the same items, each as often as the other.
pub open spec fn same_items(a: Seq<i32>, b: Seq<i32>) -> bool {
    a.to_multiset() == b.to_multiset()
}

/// Exchanging two items changes nothing about which items there are.
pub proof fn lemma_swap(s: Seq<i32>, a: int, b: int)
    requires
        0 <= a < s.len(),
        0 <= b < s.len(),
    ensures
        same_items(s.update(a, s[b]).update(b, s[a]), s),
{
    broadcast use vstd::seq_lib::group_to_multiset_ensures;

    assert(s.update(a, s[b]).update(b, s[a]).to_multiset() =~= s.to_multiset());
}

/// Sorts by letting the largest item of what is left bubble to its end.
pub fn bubble_sort(arr: &mut [i32])
    ensures
        sorted(final(arr)@),
        same_items(final(arr)@, old(arr)@),
{
    let n = arr.len();
    let mut i: usize = 0;
    while i < n
        invariant
            i <= n,
            arr.len() == n,
            same_items(arr@, old(arr)@),
            forall|a: int, b: int| n - i <= a <= b < n ==> arr[a] <= arr[b],
            forall|a: int, b: int| 0 <= a < n - i <= b < n ==> arr[a] <= arr[b],
        decreases n - i,
    {
        let mut j: usize = 0;
        while j < n - i - 1
            invariant
                i < n,
                j <= n - i - 1,
                arr.len() == n,
                same_items(arr@, old(arr)@),
                forall|a: int, b: int| n - i <= a <= b < n ==> arr[a] <= arr[b],
                forall|a: int, b: int| 0 <= a < n - i <= b < n ==> arr[a] <= arr[b],
                forall|a: int| 0 <= a <= j ==> arr[a] <= arr[j as int],
            decreases n - i - 1 - j,
        {
            if arr[j] > arr[j + 1] {
                proof {
                    lemma_swap(arr@, j as int, j + 1);
                }
                arr.swap(j, j + 1);
            }
            j += 1;
        }
        i += 1;
    }
}

/// Sorts as `bubble_sort` does, and stops after a pass that exchanged
/// nothing.
pub fn optimized_bubble_sort(arr: &mut [i32])
    ensures
        sorted(final(arr)@),
        same_items(final(arr)@, old(arr)@),
{
    let n = arr.len();
    let mut i: usize = 0;
    while i < n
        invariant
            i <= n,
            arr.len() == n,
            same_items(arr@, old(arr)@),
            forall|a: int, b: int| n - i <= a <= b < n ==> arr[a] <= arr[b],
            forall|a: int, b: int| 0 <= a < n - i <= b < n ==> arr[a] <= arr[b],
        decreases n - i,
    {
        let mut swapped = false;
        let mut j: usize = 0;
        while j < n - i - 1
            invariant
                i < n,
                j <= n - i - 1,
                arr.len() == n,
                same_items(arr@, old(arr)@),
                forall|a: int, b: int| n - i <= a <= b < n ==> arr[a] <= arr[b],
                forall|a: int, b: int| 0 <= a < n - i <= b < n ==> arr[a] <= arr[b],
                forall|a: int| 0 <= a <= j ==> arr[a] <= arr[j as int],
                !swapped ==> forall|a: int, b: int| 0 <= a <= b <= j ==> arr[a] <= arr[b],
            decreases n - i - 1 - j,
        {
            if arr[j] > arr[j + 1] {
                proof {
                    lemma_swap(arr@, j as int, j + 1);
                }
                arr.swap(j, j + 1);
                swapped = true;
            }
            j += 1;
        }
        if !swapped {
            return;
        }
        i += 1;
    }
}

/// Sorts by putting the smallest item of what is left at its start.
pub fn selection_sort(arr: &mut [i32])
    ensures
        sorted(final(arr)@),
        same_items(final(arr)@, old(arr)@),
{
    let n = arr.len();
    let mut i: usize = 0;
    while i < n
        invariant
            i <= n,
            arr.len() == n,
            same_items(arr@, old(arr)@),
            forall|a: int, b: int| 0 <= a <= b < i ==> arr[a] <= arr[b],
            forall|a: int, b: int| 0 <= a < i <= b < n ==> arr[a] <= arr[b],
        decreases n - i,
    {
        let mut min_idx = i;
        let mut j = i + 1;
        while j < n
            invariant
                i < n,
                i <= min_idx < n,
                i < j <= n,
                arr.len() == n,
                forall|a: int| i <= a < j ==> arr[min_idx as int] <= arr[a],
            decreases n - j,
        {
            if arr[j] < arr[min_idx] {
                min_idx = j;
            }
            j += 1;
        }
        proof {
            lemma_swap(arr@, i as int, min_idx as int);
        }
        arr.swap(i, min_idx);
        i += 1;
    }
}

/// One pass of insertion at the distance `gap`: every item moves toward
/// the front, `gap` places at a time, past the larger items that stand at
/// that distance before it. At the distance 1 the pass sorts.
pub fn gap_insertion_pass(arr: &mut [i32], gap: usize)
    requires
        gap >= 1,
    ensures
        final(arr)@.len() == old(arr)@.len(),
        same_items(final(arr)@, old(arr)@),
        gap == 1 ==> sorted(final(arr)@),
{
    let n = arr.len();
    let mut i = gap;
    while i < n
        invariant
            gap >= 1,
            gap <= i,
            arr.len() == n,
            same_items(arr@, old(arr)@),
            gap == 1 ==> forall|a: int, b: int| 0 <= a <= b < i && b < n ==> arr[a] <= arr[b],
        decreases n - i,
    {
        let temp = arr[i];
        let mut j = i;
        let ghost start = arr@;
        proof {
            assert(arr@.update(j as int, temp) =~= start);
        }
        while j >= gap && arr[j - gap] > temp
            invariant
                gap >= 1,
                j <= i < n,
                arr.len() == n,
                same_items(arr@.update(j as int, temp), start),
                gap == 1 ==> forall|a: int, b: int|
                    0 <= a <= b <= i && a != j && b != j ==> arr[a] <= arr[b],
                gap == 1 ==> forall|b: int| j < b <= i ==> arr[b] > temp,
            decreases j,
        {
            proof {
                let t = arr@.update(j as int, temp);
                lemma_swap(t, j as int, j - gap);
                assert(arr@.update(j as int, arr[j - gap]).update(j - gap, temp) =~= t.update(
                    j as int,
                    t[j - gap],
                ).update(j - gap, t[j as int]));
            }
            let moved = arr[j - gap];
            arr[j] = moved;
            j -= gap;
        }
        arr[j] = temp;
        i += 1;
    }
}

/// Sorts by inserting each item among the sorted items before it.
pub fn insertion_sort(arr: &mut [i32])
    ensures
        sorted(final(arr)@),
        same_items(final(arr)@, old(arr)@),
{
    gap_insertion_pass(arr, 1);
}

/// Sorts as `insertion_sort` does.
pub fn optimized_insertion_sort(arr: &mut [i32])
    ensures
        sorted(final(arr)@),
        same_items(final(arr)@, old(arr)@),
{
    gap_insertion_pass(arr, 1);
}

/// Sorts by passes of insertion at distances that halve from half the
/// length down to 1.
pub fn shell_sort(arr: &mut [i32])
    ensures
        sorted(final(arr)@),
        same_items(final(arr)@, old(arr)@),
{
    let n = arr.len();
    let mut gap = n / 2;
    if gap == 0 {
        assert(sorted(arr@));
        return;
    }
    while gap > 0
        invariant
            arr.len() == n,
            same_items(arr@, old(arr)@),
            gap == 0 ==> sorted(arr@),
        decreases gap,
    {
        gap_insertion_pass(arr, gap);
        gap /= 2;
    }
}

/// Sorts by passes of insertion at the distances 701, 301, 132, 57, 23,
/// 10, 4 and 1.
pub fn ciura_shell_sort(arr: &mut [i32])
    ensures
        sorted(final(arr)@),
        same_items(final(arr)@, old(arr)@),
{
    let gaps: [usize; 8] = [701, 301, 132, 57, 23, 10, 4, 1];
    let mut k: usize = 0;
    while k < 8
        invariant
            k <= 8,
            gaps@ == seq![701usize, 301usize, 132usize, 57usize, 23usize, 10usize, 4usize, 1usize],
            same_items(arr@, old(arr)@),
            k == 8 ==> sorted(arr@),
        decreases 8 - k,
    {
        gap_insertion_pass(arr, gaps[k]);
        k += 1;
    }
}

/// Sorts by passes of insertion at the distances 929, 505, 209, 109, 41,
/// 19, 5 and 1.
pub fn sedgewick_shell_sort(arr: &mut [i32])
    ensures
        sorted(final(arr)@),
        same_items(final(arr)@, old(arr)@),
{
    let gaps: [usize; 8] = [929, 505, 209, 109, 41, 19, 5, 1];
    let mut k: usize = 0;
    while k < 8
        invariant
            k <= 8,
            gaps@ == seq![929usize, 505usize, 209usize, 109usize, 41usize, 19usize, 5usize, 1usize],
            same_items(arr@, old(arr)@),
            k == 8 ==> sorted(arr@),
        decreases 8 - k,
    {
        gap_insertion_pass(arr, gaps[k]);
        k += 1;
    }
}

/// Sorts by inserting each item among the sorted items before it, at the
/// place that a search by halving finds.
pub fn binary_insertion_sort(arr: &mut [i32])
    requires
        old(arr).len() <= usize::MAX / 2,
    ensures
        sorted(final(arr)@),
        same_items(final(arr)@, old(arr)@),
{
    let n = arr.len();
    let mut i: usize = 1;
    while i < n
        invariant
            1 <= i,
            arr.len() == n,
            n <= usize::MAX / 2,
            same_items(arr@, old(arr)@),
            forall|a: int, b: int| 0 <= a <= b < i && b < n ==> arr[a] <= arr[b],
        decreases n - i,
    {
        let key = arr[i];
        let mut left: usize = 0;
        let mut right: usize = i;
        while left < right
            invariant
                left <= right <= i < n,
                arr.len() == n,
                n <= usize::MAX / 2,
                forall|a: int, b: int| 0 <= a <= b < i ==> arr[a] <= arr[b],
                forall|a: int| 0 <= a < left ==> arr[a] <= key,
                forall|b: int| right <= b < i ==> arr[b] > key,
            decreases right - left,
        {
            let mid = (left + right) / 2;
            if arr[mid] > key {
                right = mid;
            } else {
                left = mid + 1;
            }
        }
        let ghost start = arr@;
        let mut hole = i;
        proof {
            assert(arr@.update(hole as int, key) =~= start);
        }
        while hole > left
            invariant
                left <= hole <= i < n,
                arr.len() == n,
                same_items(arr@.update(hole as int, key), start),
                forall|a: int, b: int|
                    0 <= a <= b <= i && a != hole && b != hole ==> arr[a] <= arr[b],
                forall|a: int| 0 <= a < left ==> arr[a] <= key,
                forall|b: int| hole < b <= i ==> arr[b] > key,
                forall|b: int| left <= b < hole ==> arr[b] > key,
            decreases hole,
        {
            proof {
                let t = arr@.update(hole as int, key);
                lemma_swap(t, hole as int, hole - 1);
                assert(arr@.update(hole as int, arr[hole - 1]).update(hole - 1, key) =~= t.update(
                    hole as int,
                    t[hole - 1],
                ).update(hole - 1, t[hole as int]));
            }
            let moved = arr[hole - 1];
            arr[hole] = moved;
            hole -= 1;
        }
        arr[left] = key;
        i += 1;
    }
}

/// Whether every item of `s` from `low` to `high` lies between `least` and
/// `most`.
pub open spec fn all_between(s: Seq<i32>, low: int, high: int, least: int, most: int) -> bool {
    forall|k: int| low <= k <= high && 0 <= k < s.len() ==> least <= #[trigger] s[k] <= most
}

/// Whether `now` differs from `before` only from `low` to `high`, and
/// there only in the order of the items.
pub open spec fn rearranged(now: Seq<i32>, before: Seq<i32>, low: int, high: int) -> bool {
    &&& now.len() == before.len()
    &&& same_items(now, before)
    &&& forall|k: int| 0 <= k < now.len() && !(low <= k <= high) ==> now[k] == before[k]
    &&& forall|least: int, most: int| #[trigger]
        all_between(before, low, high, least, most) ==> all_between(now, low, high, least, most)
}

/// Whether, among the first `n` items of `s`, no item is larger than its
/// parent in the heap, as far as the parent stands at `lo` or behind it
/// and is not the item at `skip`.
pub open spec fn heap_from(s: Seq<i32>, n: int, lo: int, skip: int) -> bool {
    forall|k: int|
        1 <= k < n && k < s.len() && (k - 1) / 2 >= lo && (k - 1) / 2 != skip ==> s[(k - 1) / 2]
            >= #[trigger] s[k]
}

/// Whether the first `n` items of `s` form a heap from `lo` on but for the
/// item at `i`, which may be smaller than its children, while the parent
/// of `i`, where it counts, is no smaller than they are.
pub open spec fn heap_but(s: Seq<i32>, n: int, lo: int, i: int) -> bool {
    &&& heap_from(s, n, lo, i)
    &&& i >= 1 && (i - 1) / 2 >= lo ==> forall|c: int|
        1 <= c < n && c < s.len() && (c - 1) / 2 == i ==> s[(i - 1) / 2] >= #[trigger] s[c]
}

/// In a heap no item is larger than the first.
pub proof fn lemma_root_is_largest(s: Seq<i32>, n: int, k: int)
    requires
        heap_from(s, n, 0, -1),
        0 <= k < n <= s.len(),
    ensures
        s[0] >= s[k],
    decreases k,
{
    if k > 0 {
        lemma_root_is_largest(s, n, (k - 1) / 2);
    }
}

/// Where the item at `i` is no smaller than its children, a heap but for
/// that item is a heap.
pub proof fn lemma_sink_done(s: Seq<i32>, n: int, lo: int, i: int)
    requires
        0 <= lo <= i < n <= s.len(),
        heap_but(s, n, lo, i),
        2 * i + 1 < n ==> s[i] >= s[2 * i + 1],
        2 * i + 2 < n ==> s[i] >= s[2 * i + 2],
    ensures
        heap_from(s, n, lo, -1),
{
    assert forall|k: int| 1 <= k < n && (k - 1) / 2 >= lo implies s[(k - 1) / 2] >= #[trigger] s[k] by {
        if (k - 1) / 2 == i {
            assert(k == 2 * i + 1 || k == 2 * i + 2);
        }
    }
}

/// Where the item at `i` has changed places with the larger of its
/// children, a heap but for the item at `i` has become a heap but for that
/// child.
pub proof fn lemma_sink_step(
    before: Seq<i32>,
    swapped: Seq<i32>,
    n: int,
    lo: int,
    i: int,
    largest: int,
)
    requires
        0 <= lo <= i < largest < n <= before.len(),
        largest == 2 * i + 1 || largest == 2 * i + 2,
        heap_but(before, n, lo, i),
        before[largest] >= before[i],
        2 * i + 1 < n ==> before[largest] >= before[2 * i + 1],
        2 * i + 2 < n ==> before[largest] >= before[2 * i + 2],
        swapped == before.update(i, before[largest]).update(largest, before[i]),
    ensures
        heap_but(swapped, n, lo, largest),
{
    assert forall|k: int|
        1 <= k < n && (k - 1) / 2 >= lo && (k - 1) / 2 != largest implies swapped[(k - 1) / 2]
            >= #[trigger] swapped[k] by {
        if (k - 1) / 2 == i {
            assert(k == 2 * i + 1 || k == 2 * i + 2);
        } else if k == i {
            assert(before[(i - 1) / 2] >= before[largest]);
        } else {
            assert(before[(k - 1) / 2] >= before[k]);
        }
    }
    assert forall|c: int| 1 <= c < n && (c - 1) / 2 == largest implies swapped[(largest - 1) / 2]
        >= #[trigger] swapped[c] by {
        assert(before[(c - 1) / 2] >= before[c]);
    }
}

/// Lets the item at `i` sink in the heap that the first `n` items of the
/// slice form, below the larger of its children, as far as it goes.
pub fn heapify(arr: &mut [i32], n: usize, i: usize)
    requires
        n <= old(arr).len(),
        old(arr).len() <= usize::MAX / 2 - 1,
        i < n,
    ensures
        rearranged(final(arr)@, old(arr)@, 0, n - 1),
        forall|lo: int|
            0 <= lo <= i && #[trigger] heap_but(old(arr)@, n as int, lo, i as int) ==> heap_from(
                final(arr)@,
                n as int,
                lo,
                -1,
            ),
    decreases n - i,
{
    let mut largest = i;
    let left = 2 * i + 1;
    let right = 2 * i + 2;
    if left < n && arr[left] > arr[largest] {
        largest = left;
    }
    if right < n && arr[right] > arr[largest] {
        largest = right;
    }
    if largest != i {
        let ghost before = arr@;
        proof {
            lemma_swap(arr@, i as int, largest as int);
        }
        arr.swap(i, largest);
        let ghost swapped = arr@;
        proof {
            assert(rearranged(before, before, 0, n - 1));
            lemma_rearranged_by_swap(before, swapped, before, 0, n - 1, i as int, largest as int);
        }
        heapify(arr, n, largest);
        proof {
            lemma_rearranged_twice(before, swapped, arr@, 0, n - 1, 0, n - 1);
            assert forall|lo: int|
                0 <= lo <= i && #[trigger] heap_but(before, n as int, lo, i as int) implies heap_from(
                arr@,
                n as int,
                lo,
                -1,
            ) by {
                lemma_sink_step(before, swapped, n as int, lo, i as int, largest as int);
            }
        }
    } else {
        proof {
            assert(rearranged(arr@, old(arr)@, 0, n - 1));
            assert forall|lo: int|
                0 <= lo <= i && #[trigger] heap_but(old(arr)@, n as int, lo, i as int) implies heap_from(
                arr@,
                n as int,
                lo,
                -1,
            ) by {
                lemma_sink_done(arr@, n as int, lo, i as int);
            }
        }
    }
}

/// Sorts by building a heap of the items and taking the largest off the
/// heap until none is left.
pub fn heap_sort(arr: &mut [i32])
    requires
        old(arr).len() <= usize::MAX / 2 - 1,
    ensures
        sorted(final(arr)@),
        same_items(final(arr)@, old(arr)@),
{
    let n = arr.len();
    let mut i = n / 2;
    while i > 0
        invariant
            i <= n / 2,
            arr.len() == n,
            n <= usize::MAX / 2 - 1,
            same_items(arr@, old(arr)@),
            heap_from(arr@, n as int, i as int, -1),
        decreases i,
    {
        i -= 1;
        proof {
            assert(heap_but(arr@, n as int, i as int, i as int));
        }
        heapify(arr, n, i);
    }
    let mut i = n;
    while i > 1
        invariant
            i <= n,
            arr.len() == n,
            n <= usize::MAX / 2 - 1,
            same_items(arr@, old(arr)@),
            heap_from(arr@, i as int, 0, -1),
            forall|a: int, b: int| i <= a <= b < n ==> arr[a] <= arr[b],
            forall|a: int, b: int| 0 <= a < i <= b < n ==> arr[a] <= arr[b],
        decreases i,
    {
        let ghost heap = arr@;
        i -= 1;
        proof {
            lemma_swap(arr@, 0, i as int);
            assert forall|k: int| 0 <= k <= i implies heap[0] >= #[trigger] heap[k] by {
                lemma_root_is_largest(heap, i + 1, k);
            }
        }
        arr.swap(0, i);
        let ghost swapped = arr@;
        proof {
            assert(heap_but(swapped, i as int, 0, 0)) by {
                assert forall|k: int| 1 <= k < i && (k - 1) / 2 >= 0 && (k - 1) / 2 != 0 implies swapped[(
                k - 1) / 2] >= #[trigger] swapped[k] by {
                    assert(heap[(k - 1) / 2] >= heap[k]);
                }
            }
            assert(all_between(swapped, 0, i - 1, i32::MIN as int, swapped[i as int] as int));
        }
        heapify(arr, i, 0);
        proof {
            assert(all_between(arr@, 0, i - 1, i32::MIN as int, swapped[i as int] as int));
            assert forall|a: int, b: int| 0 <= a < i <= b < n implies arr[a] <= arr[b] by {
                assert(arr[b] == swapped[b]);
                assert(arr[a] <= swapped[i as int]);
                if b > i {
                    assert(swapped[b] == heap[b]);
                    assert(swapped[i as int] == heap[0]);
                }
            }
            assert forall|a: int, b: int| i <= a <= b < n implies arr[a] <= arr[b] by {
                assert(arr[a] == swapped[a] && arr[b] == swapped[b]);
                if a == i && b > i {
                    assert(swapped[i as int] == heap[0]);
                    assert(swapped[b] == heap[b]);
                }
                if a > i {
                    assert(swapped[a] == heap[a] && swapped[b] == heap[b]);
                }
            }
        }
    }
}

/// Parts the items from `low` to `high` around the last of them: it comes
/// to stand behind the items that are no larger and before the larger
/// ones, at the index returned.
pub fn partition(arr: &mut [i32], low: isize, high: isize) -> (p: isize)
    requires
        0 <= low <= high < old(arr).len(),
    ensures
        low <= p <= high,
        rearranged(final(arr)@, old(arr)@, low as int, high as int),
        forall|k: int| low <= k < p ==> final(arr)[k] <= final(arr)[p as int],
        forall|k: int| p < k <= high ==> final(arr)[k] > final(arr)[p as int],
{
    let pivot = arr[high as usize];
    let mut i = low - 1;
    let mut j = low;
    while j < high
        invariant
            low - 1 <= i < j <= high,
            0 <= low <= high < arr.len(),
            arr.len() == old(arr).len(),
            arr[high as int] == pivot,
            rearranged(arr@, old(arr)@, low as int, high as int),
            forall|k: int| low <= k <= i ==> arr[k] <= pivot,
            forall|k: int| i < k < j ==> arr[k] > pivot,
        decreases high - j,
    {
        if arr[j as usize] <= pivot {
            i += 1;
            let ghost was = arr@;
            proof {
                lemma_swap(arr@, i as int, j as int);
            }
            arr.swap(i as usize, j as usize);
            proof {
                lemma_rearranged_by_swap(was, arr@, old(arr)@, low as int, high as int, i as int, j as int);
            }
        }
        j += 1;
    }
    let ghost was = arr@;
    proof {
        lemma_swap(arr@, i + 1, high as int);
    }
    arr.swap((i + 1) as usize, high as usize);
    proof {
        lemma_rearranged_by_swap(was, arr@, old(arr)@, low as int, high as int, i + 1, high as int);
    }
    i + 1
}

/// Exchanging two items between `low` and `high` keeps a rearrangement a
/// rearrangement.
pub proof fn lemma_rearranged_by_swap(
    was: Seq<i32>,
    now: Seq<i32>,
    before: Seq<i32>,
    low: int,
    high: int,
    a: int,
    b: int,
)
    requires
        rearranged(was, before, low, high),
        0 <= low <= a <= high < was.len(),
        low <= b <= high,
        now == was.update(a, was[b]).update(b, was[a]),
    ensures
        rearranged(now, before, low, high),
{
    lemma_swap(was, a, b);
    assert forall|least: int, most: int| #[trigger]
        all_between(before, low, high, least, most) implies all_between(
        now,
        low,
        high,
        least,
        most,
    ) by {
        assert(all_between(was, low, high, least, most));
        assert forall|k: int| low <= k <= high && 0 <= k < now.len() implies least
            <= #[trigger] now[k] <= most by {
            assert(least <= was[a] <= most);
            assert(least <= was[b] <= most);
            assert(least <= was[k] <= most);
        }
    }
}

/// A rearrangement of a rearrangement, each within a stretch of the
/// stretch from `low` to `high`, is a rearrangement of that stretch.
pub proof fn lemma_rearranged_twice(
    first: Seq<i32>,
    second: Seq<i32>,
    third: Seq<i32>,
    low: int,
    high: int,
    from: int,
    to: int,
)
    requires
        rearranged(second, first, low, high),
        rearranged(third, second, from, to),
        low <= from,
        to <= high,
    ensures
        rearranged(third, first, low, high),
{
    assert forall|least: int, most: int| #[trigger]
        all_between(first, low, high, least, most) implies all_between(
        third,
        low,
        high,
        least,
        most,
    ) by {
        assert(all_between(second, low, high, least, most));
        assert(all_between(second, from, to, least, most));
        assert(all_between(third, from, to, least, most));
        assert forall|k: int| low <= k <= high && 0 <= k < third.len() implies least
            <= #[trigger] third[k] <= most by {
            if from <= k <= to {
            } else {
                assert(third[k] == second[k]);
                assert(least <= second[k] <= most);
            }
        }
    }
}

/// Sorts the items from `low` to `high` by parting them around one of
/// them and sorting both parts.
pub fn quick_sort_rec(arr: &mut [i32], low: isize, high: isize)
    requires
        low < high ==> 0 <= low && high < old(arr).len() && old(arr).len() <= isize::MAX,
    ensures
        rearranged(final(arr)@, old(arr)@, low as int, high as int),
        low < high ==> forall|a: int, b: int|
            low <= a <= b <= high ==> final(arr)[a] <= final(arr)[b],
    decreases
            if low < high {
                high - low
            } else {
                0
            },
{
    if low < high {
        let p = partition(arr, low, high);
        let ghost parted = arr@;
        let ghost pivot = arr[p as int];
        proof {
            assert(all_between(parted, low as int, p - 1, i32::MIN as int, pivot as int));
            assert(all_between(parted, p + 1, high as int, pivot + 1, i32::MAX as int));
        }
        quick_sort_rec(arr, low, p - 1);
        let ghost half = arr@;
        proof {
            lemma_rearranged_twice(old(arr)@, parted, half, low as int, high as int, low as int, p - 1);
            assert(all_between(half, low as int, p - 1, i32::MIN as int, pivot as int));
            assert(all_between(half, p + 1, high as int, pivot + 1, i32::MAX as int)) by {
                assert forall|k: int| p + 1 <= k <= high && 0 <= k < half.len() implies pivot + 1
                    <= #[trigger] half[k] <= i32::MAX by {
                    assert(half[k] == parted[k]);
                }
            }
        }
        quick_sort_rec(arr, p + 1, high);
        proof {
            lemma_rearranged_twice(old(arr)@, half, arr@, low as int, high as int, p + 1, high as int);
            assert(all_between(arr@, p + 1, high as int, pivot + 1, i32::MAX as int));
            assert forall|a: int, b: int| low <= a <= b <= high implies arr[a] <= arr[b] by {
                if a < p {
                    assert(arr[a] == half[a]);
                    assert(half[a] <= pivot);
                }
                if a == p {
                    assert(arr[a] == half[a]);
                    assert(half[a] == parted[a]);
                }
                if b == p {
                    assert(arr[b] == half[b]);
                    assert(half[b] == parted[b]);
                }
                if b < p {
                    assert(arr[b] == half[b]);
                }
                if b > p {
                    assert(arr[b] > pivot);
                }
                if a > p {
                    assert(arr[a] > pivot);
                }
            }
        }
    } else {
        proof {
            assert(same_items(arr@, old(arr)@));
        }
    }
}

/// Sorts by parting the items around one of them and sorting both parts.
pub fn quick_sort(arr: &mut [i32])
    requires
        old(arr).len() <= isize::MAX,
    ensures
        sorted(final(arr)@),
        same_items(final(arr)@, old(arr)@),
{
    let len = arr.len();
    if len > 0 {
        quick_sort_rec(arr, 0, (len - 1) as isize);
    }
}

/// Whether `now` differs from `before` only from `low` to `high`, holds
/// there the same items in another order, and nowhere the largest number
/// that the type has.
pub open spec fn reordered(now: Seq<i32>, before: Seq<i32>, low: int, high: int) -> bool {
    &&& now.len() == before.len()
    &&& same_items(now, before)
    &&& forall|k: int| 0 <= k < now.len() && !(low <= k <= high) ==> now[k] == before[k]
    &&& forall|k: int| low <= k <= high && 0 <= k < now.len() ==> now[k] < i32::MAX
}

/// A sequence with one item more holds that item once more.
pub proof fn lemma_push_items(s: Seq<i32>, item: i32)
    ensures
        s.push(item).to_multiset() == s.to_multiset().insert(item),
{
    broadcast use vstd::seq_lib::group_to_multiset_ensures;

    assert(s.push(item).to_multiset() =~= s.to_multiset().insert(item));
}

/// A sequence holds what its three stretches hold.
pub proof fn lemma_three_stretches(s: Seq<i32>, from: int, to: int)
    requires
        0 <= from <= to <= s.len(),
    ensures
        s.to_multiset() == s.subrange(0, from).to_multiset().add(
            s.subrange(from, to).to_multiset(),
        ).add(s.subrange(to, s.len() as int).to_multiset()),
{
    let a = s.subrange(0, from);
    let b = s.subrange(from, to);
    let c = s.subrange(to, s.len() as int);
    assert(s =~= a + b + c);
    vstd::seq_lib::lemma_multiset_commutative(a, b);
    vstd::seq_lib::lemma_multiset_commutative(a + b, c);
}

/// Merges the sorted items from `left` to `mid` and the sorted items
/// behind them up to `right` into one sorted stretch. None of them may be
/// the largest number that the type has, which serves as the end mark of
/// both halves.
pub fn merge(arr: &mut [i32], left: usize, mid: usize, right: usize)
    requires
        left <= mid < right < old(arr).len(),
        forall|a: int, b: int| left <= a <= b <= mid ==> old(arr)[a] <= old(arr)[b],
        forall|a: int, b: int| mid < a <= b <= right ==> old(arr)[a] <= old(arr)[b],
        forall|k: int| left <= k <= right ==> old(arr)[k] < i32::MAX,
    ensures
        reordered(final(arr)@, old(arr)@, left as int, right as int),
        forall|a: int, b: int| left <= a <= b <= right ==> final(arr)[a] <= final(arr)[b],
{
    broadcast use vstd::seq_lib::group_to_multiset_ensures;

    let ghost lower = arr@.subrange(left as int, mid + 1);
    let ghost upper = arr@.subrange(mid + 1, right + 1);
    let mut left_sub: Vec<i32> = Vec::new();
    let mut c = left;
    while c < mid + 1
        invariant
            left <= c <= mid + 1,
            mid < arr.len(),
            arr@ == old(arr)@,
            left_sub@ == arr@.subrange(left as int, c as int),
        decreases mid + 1 - c,
    {
        left_sub.push(arr[c]);
        proof {
            assert(left_sub@ =~= arr@.subrange(left as int, c + 1));
        }
        c += 1;
    }
    let mut right_sub: Vec<i32> = Vec::new();
    let mut c = mid + 1;
    while c < right + 1
        invariant
            mid + 1 <= c <= right + 1,
            right < arr.len(),
            arr@ == old(arr)@,
            right_sub@ == arr@.subrange(mid + 1, c as int),
        decreases right + 1 - c,
    {
        right_sub.push(arr[c]);
        proof {
            assert(right_sub@ =~= arr@.subrange(mid + 1, c + 1));
        }
        c += 1;
    }
    left_sub.push(i32::MAX);
    right_sub.push(i32::MAX);
    let ghost nl = lower.len() as int;
    let ghost nr = upper.len() as int;
    let mut i: usize = 0;
    let mut j: usize = 0;
    let mut k = left;
    proof {
        assert(arr@.subrange(left as int, k as int).to_multiset() =~= lower.take(0).to_multiset().add(
            upper.take(0).to_multiset(),
        ));
    }
    while k <= right
        invariant
            left <= k <= right + 1,
            left <= mid < right < arr.len(),
            arr.len() == old(arr).len(),
            lower == old(arr)@.subrange(left as int, mid + 1),
            upper == old(arr)@.subrange(mid + 1, right + 1),
            nl == lower.len(),
            nr == upper.len(),
            left_sub@ == lower.push(i32::MAX),
            right_sub@ == upper.push(i32::MAX),
            forall|a: int, b: int| 0 <= a <= b < nl ==> lower[a] <= lower[b],
            forall|a: int, b: int| 0 <= a <= b < nr ==> upper[a] <= upper[b],
            forall|a: int| 0 <= a < nl ==> lower[a] < i32::MAX,
            forall|a: int| 0 <= a < nr ==> upper[a] < i32::MAX,
            i <= nl,
            j <= nr,
            i + j == k - left,
            forall|x: int| 0 <= x < arr.len() && !(left <= x <= right) ==> arr[x] == old(arr)[x],
            forall|a: int, b: int| left <= a <= b < k ==> arr[a] <= arr[b],
            forall|a: int| left <= a < k ==> arr[a] <= left_sub[i as int] && arr[a] <= right_sub[j as int],
            forall|a: int| left <= a < k ==> arr[a] < i32::MAX,
            arr@.subrange(left as int, k as int).to_multiset() == lower.take(i as int).to_multiset().add(
                upper.take(j as int).to_multiset(),
            ),
        decreases right + 1 - k,
    {
        let ghost seg = arr@.subrange(left as int, k as int);
        if left_sub[i] <= right_sub[j] {
            let item = left_sub[i];
            arr[k] = item;
            proof {
                assert(arr@.subrange(left as int, k + 1) =~= seg.push(item));
                assert(lower.take(i + 1) =~= lower.take(i as int).push(item));
                lemma_push_items(seg, item);
                lemma_push_items(lower.take(i as int), item);
                assert(seg.to_multiset().insert(item) =~= lower.take(i as int).to_multiset().insert(
                    item,
                ).add(upper.take(j as int).to_multiset()));
            }
            i += 1;
        } else {
            let item = right_sub[j];
            arr[k] = item;
            proof {
                assert(arr@.subrange(left as int, k + 1) =~= seg.push(item));
                assert(upper.take(j + 1) =~= upper.take(j as int).push(item));
                lemma_push_items(seg, item);
                lemma_push_items(upper.take(j as int), item);
                assert(seg.to_multiset().insert(item) =~= lower.take(i as int).to_multiset().add(
                    upper.take(j as int).to_multiset().insert(item),
                ));
            }
            j += 1;
        }
        k += 1;
    }
    proof {
        let before = old(arr)@;
        let now = arr@;
        let len = now.len() as int;
        assert(lower.take(nl) =~= lower);
        assert(upper.take(nr) =~= upper);
        vstd::seq_lib::lemma_multiset_commutative(lower, upper);
        assert(lower + upper =~= before.subrange(left as int, right + 1));
        lemma_three_stretches(before, left as int, right + 1);
        lemma_three_stretches(now, left as int, right + 1);
        assert(now.subrange(0, left as int) =~= before.subrange(0, left as int));
        assert(now.subrange(right + 1, len) =~= before.subrange(right + 1, len));
    }
}

/// Sorts the items from `left` to `right` by sorting both halves and
/// merging them.
pub fn merge_sort_rec(arr: &mut [i32], left: usize, right: usize)
    requires
        left < right ==> right < old(arr).len() && old(arr).len() <= usize::MAX / 2,
        forall|k: int| left <= k <= right && 0 <= k < old(arr).len() ==> old(arr)[k] < i32::MAX,
    ensures
        reordered(final(arr)@, old(arr)@, left as int, right as int),
        left < right ==> forall|a: int, b: int|
            left <= a <= b <= right ==> final(arr)[a] <= final(arr)[b],
    decreases right - left,
{
    if left < right {
        let mid = (left + right) / 2;
        merge_sort_rec(arr, left, mid);
        let ghost half = arr@;
        merge_sort_rec(arr, mid + 1, right);
        let ghost both = arr@;
        proof {
            assert forall|a: int, b: int| left <= a <= b <= mid implies both[a] <= both[b] by {
                assert(both[a] == half[a] && both[b] == half[b]);
            }
        }
        merge(arr, left, mid, right);
    }
}

/// Sorts by sorting both halves and merging them. No item may be the
/// largest number that the type has.
pub fn merge_sort(arr: &mut [i32])
    requires
        old(arr).len() <= usize::MAX / 2,
        forall|k: int| 0 <= k < old(arr).len() ==> old(arr)[k] < i32::MAX,
    ensures
        sorted(final(arr)@),
        same_items(final(arr)@, old(arr)@),
{
    let len = arr.len();
    if len > 0 {
        merge_sort_rec(arr, 0, len - 1);
    }
}

/// A number drawn at random from `low` up to, and without, `high`: a call
/// of `rand::thread_rng` and of `Rng::gen_range` on it with the range from
/// `low` to `high`, which returns a number of the range and fails on an
/// empty range.
#[verifier::external_body]
pub(crate) fn random_in(low: i32, high: i32) -> (item: i32)
    requires
        low < high,
    ensures
        low <= item < high,
{
    rand::thread_rng().gen_range(low..high)
}

/// `size` numbers drawn at random from 0 up to, and without, 10000.
pub fn generate_random_array(size: usize) -> (numbers: Vec<i32>)
    ensures
        numbers.len() == size,
        forall|k: int| 0 <= k < size ==> 0 <= #[trigger] numbers[k] < 10000,
{
    let mut numbers: Vec<i32> = Vec::new();
    let mut k: usize = 0;
    while k < size
        invariant
            k <= size,
            numbers.len() == k,
            forall|a: int| 0 <= a < k ==> 0 <= #[trigger] numbers[a] < 10000,
        decreases size - k,
    {
        numbers.push(random_in(0, 10000));
        k += 1;
    }
    numbers
}

} // verus!
