//! Sorting small numbers without comparing them: by counting, by digits,
//! and by buckets.

use vstd::prelude::*;

verus! {

/// No item is larger than one behind it.
pub open spec fn sorted(s: Seq<u16>) -> bool {
    forall|i: int, j: int| 0 <= i <= j < s.len() ==> s[i] <= s[j]
}

/// The two hold the same items, each as often as the other.
pub open spec fn same_items(a: Seq<u16>, b: Seq<u16>) -> bool {
    a.to_multiset() == b.to_multiset()
}

/// How many items of `s` have the key `v`.
pub open spec fn occ(s: Seq<u16>, key: spec_fn(u16) -> int, v: int) -> nat
    decreases s.len(),
{
    if s.len() == 0 {
        0
    } else if key(s.last()) == v {
        occ(s.drop_last(), key, v) + 1
    } else {
        occ(s.drop_last(), key, v)
    }
}

/// How many items of `s` have a key below `v`.
pub open spec fn below(s: Seq<u16>, key: spec_fn(u16) -> int, v: int) -> nat
    decreases s.len(),
{
    if s.len() == 0 {
        0
    } else if key(s.last()) < v {
        below(s.drop_last(), key, v) + 1
    } else {
        below(s.drop_last(), key, v)
    }
}

/// The key of an item that is the item itself.
pub open spec fn itself() -> spec_fn(u16) -> int {
    |x: u16| x as int
}

/// The key of an item that is its decimal digit at the place `exp`.
pub open spec fn digit(exp: int) -> spec_fn(u16) -> int {
    |x: u16| (x as int / exp) % 10
}

/// The items below a key and those with the key are the items below the
/// next key; no more items lie below a key than below a larger one, nor
/// more than there are.
pub proof fn lemma_below(s: Seq<u16>, key: spec_fn(u16) -> int, v: int, w: int)
    requires
        v <= w,
    ensures
        below(s, key, v + 1) == below(s, key, v) + occ(s, key, v),
        below(s, key, v) <= below(s, key, w) <= s.len(),
        occ(s, key, v) <= s.len(),
    decreases s.len(),
{
    if s.len() > 0 {
        lemma_below(s.drop_last(), key, v, w);
    }
}

/// Where every key lies from `low` up to and without `high`, no item lies
/// below `low` and all lie below `high`.
pub proof fn lemma_below_ends(s: Seq<u16>, key: spec_fn(u16) -> int, low: int, high: int)
    requires
        forall|i: int| 0 <= i < s.len() ==> low <= key(#[trigger] s[i]) < high,
    ensures
        below(s, key, low) == 0,
        below(s, key, high) == s.len(),
    decreases s.len(),
{
    if s.len() > 0 {
        let rest = s.drop_last();
        assert forall|i: int| 0 <= i < rest.len() implies low <= key(#[trigger] rest[i]) < high by {
            assert(rest[i] == s[i]);
        }
        lemma_below_ends(rest, key, low, high);
        assert(low <= key(s[s.len() - 1]) < high);
    }
}

/// One item more counts for its own key and no other.
pub proof fn lemma_occ_push(s: Seq<u16>, key: spec_fn(u16) -> int, item: u16, v: int)
    ensures
        occ(s.push(item), key, v) == occ(s, key, v) + if key(item) == v {
            1nat
        } else {
            0nat
        },
{
    assert(s.push(item).drop_last() =~= s);
}

/// For every place of `s` there is a key such that the place lies behind
/// the items below that key and among the items below the next.
pub proof fn lemma_key_of_place(s: Seq<u16>, key: spec_fn(u16) -> int, high: int, p: int) -> (v:
    int)
    requires
        0 <= p < below(s, key, high),
        0 <= high,
        below(s, key, 0) == 0,
    ensures
        0 <= v < high,
        below(s, key, v) <= p < below(s, key, v + 1),
    decreases high,
{
    if high == 0 {
        0
    } else if below(s, key, high - 1) <= p {
        high - 1
    } else {
        lemma_key_of_place(s, key, high - 1, p)
    }
}

/// The largest item of a slice that is not empty.
pub fn max_of(arr: &[u16]) -> (max: u16)
    requires
        arr.len() > 0,
    ensures
        forall|i: int| 0 <= i < arr.len() ==> arr[i] <= max,
        exists|i: int| 0 <= i < arr.len() && arr[i] == max,
{
    let mut max = arr[0];
    let mut i: usize = 1;
    while i < arr.len()
        invariant
            1 <= i <= arr.len(),
            forall|k: int| 0 <= k < i ==> arr[k] <= max,
            exists|k: int| 0 <= k < i && arr[k] == max,
        decreases arr.len() - i,
    {
        if arr[i] > max {
            max = arr[i];
        }
        i += 1;
    }
    max
}

/// The smallest item of a slice that is not empty.
pub fn min_of(arr: &[u16]) -> (min: u16)
    requires
        arr.len() > 0,
    ensures
        forall|i: int| 0 <= i < arr.len() ==> arr[i] >= min,
        exists|i: int| 0 <= i < arr.len() && arr[i] == min,
{
    let mut min = arr[0];
    let mut i: usize = 1;
    while i < arr.len()
        invariant
            1 <= i <= arr.len(),
            forall|k: int| 0 <= k < i ==> arr[k] >= min,
            exists|k: int| 0 <= k < i && arr[k] == min,
        decreases arr.len() - i,
    {
        if arr[i] < min {
            min = arr[i];
        }
        i += 1;
    }
    min
}

/// `n` zeros.
fn zeros(n: usize) -> (v: Vec<usize>)
    ensures
        v.len() == n,
        forall|i: int| 0 <= i < n ==> v[i] == 0,
{
    let mut v: Vec<usize> = Vec::new();
    let mut i: usize = 0;
    while i < n
        invariant
            i <= n,
            v.len() == i,
            forall|k: int| 0 <= k < i ==> v[k] == 0,
        decreases n - i,
    {
        v.push(0);
        i += 1;
    }
    v
}

/// Counts into `count` how many items of `arr` have each key, where the
/// key of an item is the item itself or, with `exp` given, its digit at
/// the place `exp`.
fn count_keys(arr: &[u16], count: &mut Vec<usize>, exp: Option<u16>)
    requires
        forall|v: int| 0 <= v < old(count).len() ==> old(count)[v] == 0,
        match exp {
            Some(e) => e > 0 && old(count).len() == 10,
            None => forall|i: int| 0 <= i < arr.len() ==> arr[i] < old(count).len(),
        },
    ensures
        final(count).len() == old(count).len(),
        forall|v: int|
            0 <= v < final(count).len() ==> #[trigger] final(count)[v] == occ(arr@, key_of(exp), v),
{
    let ghost key = key_of(exp);
    let mut i: usize = 0;
    while i < arr.len()
        invariant
            i <= arr.len(),
            key == key_of(exp),
            count.len() == old(count).len(),
            match exp {
                Some(e) => e > 0 && count.len() == 10,
                None => forall|i: int| 0 <= i < arr.len() ==> arr[i] < count.len(),
            },
            forall|v: int|
                0 <= v < count.len() ==> #[trigger] count[v] == occ(arr@.take(i as int), key, v),
        decreases arr.len() - i,
    {
        let num = arr[i];
        let index = key_index(num, exp);
        proof {
            assert(arr@.take(i + 1) =~= arr@.take(i as int).push(num));
            assert forall|v: int| 0 <= v < count.len() implies occ(arr@.take(i + 1), key, v) == occ(
                arr@.take(i as int),
                key,
                v,
            ) + if v == index {
                1nat
            } else {
                0nat
            } by {
                lemma_occ_push(arr@.take(i as int), key, num, v);
            }
            lemma_below(arr@.take(i as int), key, index as int, index as int);
        }
        let seen = count[index];
        count.set(index, seen + 1);
        i += 1;
    }
    proof {
        assert(arr@.take(arr.len() as int) =~= arr@);
    }
}

/// The key of an item: the item itself or, with `exp` given, its digit at
/// the place `exp`.
pub open spec fn key_of(exp: Option<u16>) -> spec_fn(u16) -> int {
    match exp {
        Some(e) => digit(e as int),
        None => itself(),
    }
}

/// The key of `num` as an index.
fn key_index(num: u16, exp: Option<u16>) -> (index: usize)
    requires
        exp matches Some(e) ==> e > 0,
    ensures
        index == key_of(exp)(num),
        exp.is_some() ==> index < 10,
{
    match exp {
        Some(e) => ((num / e) % 10) as usize,
        None => num as usize,
    }
}

/// Turns the counts of the keys into the counts of the items up to and
/// with each key.
fn sum_counts(count: &mut Vec<usize>, Ghost(items): Ghost<Seq<u16>>, Ghost(key): Ghost<
    spec_fn(u16) -> int,
>)
    requires
        forall|v: int| 0 <= v < old(count).len() ==> #[trigger] old(count)[v] == occ(items, key, v),
        below(items, key, 0) == 0,
        items.len() <= usize::MAX,
    ensures
        final(count).len() == old(count).len(),
        forall|v: int|
            0 <= v < final(count).len() ==> #[trigger] final(count)[v] == below(items, key, v + 1),
{
    if count.len() == 0 {
        return;
    }
    proof {
        lemma_below(items, key, 0, 0);
    }
    let mut i: usize = 1;
    while i < count.len()
        invariant
            1 <= i <= count.len(),
            count.len() == old(count).len(),
            items.len() <= usize::MAX,
            forall|v: int| 0 <= v < i ==> #[trigger] count[v] == below(items, key, v + 1),
            forall|v: int| i <= v < count.len() ==> #[trigger] count[v] == occ(items, key, v),
        decreases count.len() - i,
    {
        proof {
            lemma_below(items, key, i as int, i as int + 1);
            lemma_below(items, key, i as int + 1, i as int + 1);
        }
        let sum = count[i] + count[i - 1];
        count.set(i, sum);
        i += 1;
    }
}

/// The place to which a sort by counting that keeps equal keys in their
/// order sends the item `i`: behind the items of smaller keys and behind
/// the earlier items of its key.
pub open spec fn place_of(a: Seq<u16>, key: spec_fn(u16) -> int, i: int) -> int {
    (below(a, key, key(a[i])) + occ(a.take(i), key, key(a[i]))) as int
}

/// Whether the item at the place `p` of `out` is the item `i` of `a`, sent
/// to its place.
pub open spec fn came_from(
    a: Seq<u16>,
    key: spec_fn(u16) -> int,
    out: Seq<u16>,
    p: int,
    i: int,
) -> bool {
    0 <= i < a.len() && place_of(a, key, i) == p && out[p] == a[i]
}

/// Whether the item at the place `p` of `out` is an item of `a`, sent to
/// its place.
pub open spec fn has_source(a: Seq<u16>, key: spec_fn(u16) -> int, out: Seq<u16>, p: int) -> bool {
    exists|i: int| #[trigger] came_from(a, key, out, p, i)
}

/// Among the first items there are no more of a key than among more of
/// the first items, and fewer than among all where an item of the key
/// follows.
pub proof fn lemma_occ_prefix(a: Seq<u16>, key: spec_fn(u16) -> int, i: int, j: int, v: int)
    requires
        0 <= i <= j <= a.len(),
    ensures
        occ(a.take(i), key, v) <= occ(a.take(j), key, v),
        i < j && key(a[i]) == v ==> occ(a.take(i), key, v) < occ(a.take(j), key, v),
    decreases j - i,
{
    if i < j {
        assert(a.take(i + 1).drop_last() =~= a.take(i));
        assert(a.take(i + 1).last() == a[i]);
        lemma_occ_prefix(a, key, i + 1, j, v);
    }
}

/// The place of an item lies among the places of its key.
pub proof fn lemma_place_in_key(a: Seq<u16>, key: spec_fn(u16) -> int, i: int)
    requires
        0 <= i < a.len(),
    ensures
        below(a, key, key(a[i])) <= place_of(a, key, i) < below(a, key, key(a[i]) + 1),
{
    let v = key(a[i]);
    lemma_occ_prefix(a, key, i, a.len() as int, v);
    assert(a.take(a.len() as int) =~= a);
    lemma_below(a, key, v, v);
}

/// Whether the item `i` comes before the item `j` by its key or, where the
/// keys are the same, by its place.
pub open spec fn in_turn(a: Seq<u16>, key: spec_fn(u16) -> int, i: int, j: int) -> bool {
    key(a[i]) < key(a[j]) || (key(a[i]) == key(a[j]) && i < j)
}

/// Of two items the one that is sent to the earlier place comes first by
/// its key or, where the keys are the same, by its place.
pub proof fn lemma_places_in_turn(a: Seq<u16>, key: spec_fn(u16) -> int, i: int, j: int)
    requires
        0 <= i < a.len(),
        0 <= j < a.len(),
        place_of(a, key, i) < place_of(a, key, j),
    ensures
        in_turn(a, key, i, j),
{
    let ki = key(a[i]);
    let kj = key(a[j]);
    lemma_place_in_key(a, key, i);
    lemma_place_in_key(a, key, j);
    if ki > kj {
        lemma_below(a, key, kj + 1, ki);
    } else if ki == kj {
        if i >= j {
            lemma_occ_prefix(a, key, j, i, ki);
        }
    }
}

/// Puts every item of `arr` into `output` at the place that the counts
/// give to its key, the last item of each key first.
fn place_items(arr: &[u16], count: &mut Vec<usize>, output: &mut Vec<u16>, exp: Option<u16>)
    requires
        old(output).len() == arr.len(),
        forall|p: int| 0 <= p < old(output).len() ==> old(output)[p] == 0,
        exp matches Some(e) ==> e > 0 && old(count).len() == 10,
        exp.is_none() ==> forall|i: int| 0 <= i < arr.len() ==> arr[i] < old(count).len(),
        forall|v: int|
            0 <= v < old(count).len() ==> #[trigger] old(count)[v] == below(
                arr@,
                key_of(exp),
                v + 1,
            ),
        below(arr@, key_of(exp), 0) == 0,
        below(arr@, key_of(exp), old(count).len() as int) == arr.len(),
    ensures
        final(output).len() == arr.len(),
        same_items(final(output)@, arr@),
        forall|v: int, p: int|
            0 <= v < old(count).len() && below(arr@, key_of(exp), v) <= p < below(
                arr@,
                key_of(exp),
                v + 1,
            ) ==> key_of(exp)(#[trigger] final(output)[p]) == #[trigger] id(v),
        forall|p: int|
            0 <= p < arr.len() ==> #[trigger] has_source(arr@, key_of(exp), final(output)@, p),
{
    let ghost key = key_of(exp);
    let ghost a = arr@;
    let ghost m = count.len() as int;
    let ghost mut src: Seq<int> = Seq::new(arr.len() as nat, |p: int| 0int);
    let mut idx = arr.len();
    proof {
        assert(output@ =~= blank(idx as int));
        lemma_place_ends(a, output@);
        assert(a.take(idx as int) =~= a);
        assert forall|v: int| 0 <= v < m implies #[trigger] count[v] == below(a, key, v) + occ(
            a.take(idx as int),
            key,
            v,
        ) by {
            lemma_below(a, key, v, v);
        }
    }
    while idx > 0
        invariant
            idx <= arr.len(),
            a == arr@,
            key == key_of(exp),
            m == count.len(),
            output.len() == arr.len(),
            exp matches Some(e) ==> e > 0 && count.len() == 10,
            exp.is_none() ==> forall|i: int| 0 <= i < arr.len() ==> arr[i] < count.len(),
            forall|v: int|
                0 <= v < m ==> #[trigger] count[v] == below(a, key, v) + occ(
                    a.take(idx as int),
                    key,
                    v,
                ),
            forall|v: int, p: int|
                0 <= v < m && count[v] <= p < below(a, key, v + 1) ==> key(#[trigger] output[p])
                    == #[trigger] id(v),
            forall|v: int, p: int|
                0 <= v < m && below(a, key, v) <= p < #[trigger] count[v] && p < output.len()
                    ==> #[trigger] output[p] == 0,
            src.len() == arr.len(),
            forall|v: int, p: int|
                0 <= v < m && #[trigger] count[v] <= p < below(a, key, v + 1) ==> came_from(
                    a,
                    key,
                    output@,
                    p,
                    #[trigger] src[p],
                ),
            output@.to_multiset() == a.skip(idx as int).to_multiset().add(
                blank(idx as int).to_multiset(),
            ),
        decreases idx,
    {
        idx -= 1;
        let num = arr[idx];
        let index = key_index(num, exp);
        let ghost before = output@;
        let ghost counted = count@;
        proof {
            assert(a.take(idx + 1) =~= a.take(idx as int).push(num));
            assert forall|v: int| 0 <= v < m implies occ(a.take(idx + 1), key, v) == occ(
                a.take(idx as int),
                key,
                v,
            ) + if v == index {
                1nat
            } else {
                0nat
            } by {
                lemma_occ_push(a.take(idx as int), key, num, v);
            }
            lemma_below(a, key, index as int, index as int);
            lemma_below(a, key, index as int + 1, index as int + 1);
            lemma_occ_split(a, idx + 1, key, index as int);
            assert(occ(a.take(idx + 1), key, index as int) == occ(a.take(idx as int), key, index as int)
                + 1);
            assert(count[index as int] == below(a, key, index as int) + occ(
                a.take(idx + 1),
                key,
                index as int,
            ));
        }
        let place = count[index] - 1;
        proof {
            assert(place < counted[index as int]);
            assert(before[place as int] == 0);
            lemma_place(a, before, idx as int, place as int);
        }
        let ghost sources = src;
        output.set(place, num);
        count.set(index, place);
        proof {
            src = sources.update(place as int, idx as int);
            assert(place_of(a, key, idx as int) == place);
            assert forall|v: int, p: int|
                0 <= v < m && #[trigger] count[v] <= p < below(a, key, v + 1) implies came_from(
                a,
                key,
                output@,
                p,
                #[trigger] src[p],
            ) by {
                lemma_below(a, key, v + 1, v + 1);
                if p != place {
                    if v == index {
                        assert(counted[v] <= p);
                    } else {
                        assert(count[v] == counted[v]);
                    }
                    assert(came_from(a, key, before, p, sources[p]));
                    assert(output[p] == before[p]);
                    assert(src[p] == sources[p]);
                } else {
                    assert(output[p] == num);
                    assert(src[p] == idx);
                }
            }
        }
        proof {
            assert forall|v: int, p: int|
                0 <= v < m && count[v] <= p < below(a, key, v + 1) implies key(
                #[trigger] output[p],
            ) == #[trigger] id(v) by {
                lemma_below(a, key, v + 1, v + 1);
                assert(0 <= p < output.len());
                if v == index {
                    if p != place {
                        assert(counted[v] <= p);
                        assert(key(before[p]) == id(v));
                        assert(output[p] == before[p]);
                    } else {
                        assert(output[p] == num);
                    }
                } else {
                    assert(count[v] == counted[v]);
                    assert(counted[v] == below(a, key, v) + occ(a.take(idx + 1), key, v));
                    if v < index {
                        lemma_below(a, key, v + 1, index as int);
                        assert(p < place);
                    } else {
                        lemma_below(a, key, index as int + 1, v);
                        assert(p > place);
                    }
                    assert(key(before[p]) == id(v));
                    assert(output[p] == before[p]);
                }
            }
        }
        proof {
            assert forall|v: int, p: int|
                0 <= v < m && below(a, key, v) <= p < #[trigger] count[v] && p < output.len()
                implies #[trigger] output[p] == 0 by {
                lemma_below(a, key, v, v);
                lemma_occ_split(a, idx + 1, key, v);
                if v == index {
                    assert(p < place);
                    assert(p < counted[v]);
                    assert(before[p] == 0);
                } else {
                    assert(count[v] == counted[v]);
                    assert(counted[v] == below(a, key, v) + occ(a.take(idx + 1), key, v));
                    if v < index {
                        lemma_below(a, key, v + 1, index as int);
                        assert(p < place);
                    } else {
                        lemma_below(a, key, index as int + 1, v);
                        assert(p > place);
                    }
                    assert(below(a, key, v) <= p);
                    assert(p < counted[v]);
                    assert(p < before.len());
                    assert(before[p] == 0);
                }
            }
        }
    }
    proof {
        assert forall|v: int, p: int|
            0 <= v < m && below(a, key, v) <= p < below(a, key, v + 1) implies key(
            #[trigger] output[p],
        ) == #[trigger] id(v) by {
            assert(a.take(0).len() == 0);
        }
        assert forall|p: int| 0 <= p < arr.len() implies #[trigger] has_source(
            a,
            key,
            output@,
            p,
        ) by {
            let v = lemma_key_of_place(a, key, m, p);
            assert(a.take(0).len() == 0);
            assert(count[v] == below(a, key, v));
            assert(came_from(a, key, output@, p, src[p]));
        }
        lemma_place_ends(a, output@);
    }
}

/// `k` zeros.
pub open spec fn blank(k: int) -> Seq<u16> {
    Seq::new(k as nat, |i: int| 0u16)
}

/// Writing the item before the index `idx` onto a place of `out` that
/// holds a zero turns what `out` held, the items from `idx` on and `idx`
/// zeros, into the items from before `idx` on and one zero less.
pub proof fn lemma_place(a: Seq<u16>, out: Seq<u16>, idx: int, place: int)
    requires
        0 <= idx < a.len(),
        0 <= place < out.len(),
        out[place] == 0,
        out.to_multiset() == a.skip(idx + 1).to_multiset().add(blank(idx + 1).to_multiset()),
    ensures
        out.update(place, a[idx]).to_multiset() == a.skip(idx).to_multiset().add(
            blank(idx).to_multiset(),
        ),
{
    broadcast use vstd::seq_lib::group_to_multiset_ensures;

    let num = a[idx];
    assert(a.skip(idx) =~= seq![num] + a.skip(idx + 1));
    vstd::seq_lib::lemma_multiset_commutative(seq![num], a.skip(idx + 1));
    assert(seq![num] =~= Seq::<u16>::empty().push(num));
    assert(seq![num].to_multiset() =~= vstd::multiset::Multiset::<u16>::empty().insert(num));
    assert(blank(idx + 1) =~= blank(idx).push(0u16));
    assert(blank(idx + 1).to_multiset() =~= blank(idx).to_multiset().insert(0u16));
    assert(out.update(place, num).to_multiset() =~= out.to_multiset().insert(num).remove(0u16));
    assert(out.update(place, num).to_multiset() =~= a.skip(idx).to_multiset().add(
        blank(idx).to_multiset(),
    ));
}

/// A sequence of zeros holds nothing of `a` and as many zeros as `a` is
/// long; what holds all of `a` and no zero beside holds what `a` holds.
pub proof fn lemma_place_ends(a: Seq<u16>, out: Seq<u16>)
    ensures
        out == blank(a.len() as int) ==> out.to_multiset() == a.skip(
            a.len() as int,
        ).to_multiset().add(blank(a.len() as int).to_multiset()),
        out.to_multiset() == a.skip(0).to_multiset().add(blank(0).to_multiset())
            ==> out.to_multiset() == a.to_multiset(),
{
    broadcast use vstd::seq_lib::group_to_multiset_ensures;

    assert(a.skip(a.len() as int) =~= Seq::<u16>::empty());
    assert(a.skip(a.len() as int).to_multiset().add(blank(a.len() as int).to_multiset()) =~= blank(
        a.len() as int,
    ).to_multiset());
    assert(a.skip(0) =~= a);
    assert(blank(0) =~= Seq::<u16>::empty());
    assert(a.skip(0).to_multiset().add(blank(0).to_multiset()) =~= a.to_multiset());
}

/// The identity, to name a key in a trigger.
pub open spec fn id(v: int) -> int {
    v
}

/// The items with a key among the first `k` items are among all items.
pub proof fn lemma_occ_split(s: Seq<u16>, k: int, key: spec_fn(u16) -> int, v: int)
    requires
        0 <= k <= s.len(),
    ensures
        occ(s.take(k), key, v) <= occ(s, key, v),
    decreases s.len() - k,
{
    if k < s.len() {
        lemma_occ_split(s, k + 1, key, v);
        assert(s.take(k + 1).drop_last() =~= s.take(k));
    } else {
        assert(s.take(k) =~= s);
    }
}

/// Where every key lies below `m` and the places of `out` behind the items
/// below a key and among the items below the next hold items of that key,
/// the keys of `out` do not fall.
pub proof fn lemma_placed_in_key_order(
    a: Seq<u16>,
    out: Seq<u16>,
    key: spec_fn(u16) -> int,
    m: int,
)
    requires
        out.len() == a.len(),
        forall|i: int| 0 <= i < a.len() ==> 0 <= key(#[trigger] a[i]) < m,
        forall|v: int, p: int|
            0 <= v < m && below(a, key, v) <= p < below(a, key, v + 1) ==> key(#[trigger] out[p])
                == #[trigger] id(v),
    ensures
        forall|p: int, q: int| 0 <= p <= q < out.len() ==> key(out[p]) <= key(out[q]),
{
    lemma_below_ends(a, key, 0, m);
    assert forall|p: int, q: int| 0 <= p <= q < out.len() implies key(out[p]) <= key(out[q]) by {
        let vp = lemma_key_of_place(a, key, m, p);
        let vq = lemma_key_of_place(a, key, m, q);
        assert(key(out[p]) == id(vp));
        assert(key(out[q]) == id(vq));
        if vp > vq {
            lemma_below(a, key, vq + 1, vp);
        }
    }
}

/// Copies `output` over `arr`.
fn copy_back(arr: &mut [u16], output: &Vec<u16>)
    requires
        output.len() == old(arr).len(),
    ensures
        final(arr)@ == output@,
{
    let mut k: usize = 0;
    while k < arr.len()
        invariant
            k <= arr.len(),
            arr.len() == output.len(),
            forall|i: int| 0 <= i < k ==> arr[i] == output[i],
        decreases arr.len() - k,
    {
        arr[k] = output[k];
        k += 1;
    }
    proof {
        assert(arr@ =~= output@);
    }
}

/// As many zeros as `n`, as items.
fn blank_items(n: usize) -> (v: Vec<u16>)
    ensures
        v.len() == n,
        forall|i: int| 0 <= i < n ==> v[i] == 0,
{
    let mut v: Vec<u16> = Vec::new();
    let mut i: usize = 0;
    while i < n
        invariant
            i <= n,
            v.len() == i,
            forall|k: int| 0 <= k < i ==> v[k] == 0,
        decreases n - i,
    {
        v.push(0);
        i += 1;
    }
    v
}

/// Sorts by counting how often every number up to the largest occurs.
pub fn counting_sort(arr: &mut [u16])
    ensures
        sorted(final(arr)@),
        same_items(final(arr)@, old(arr)@),
{
    if arr.len() == 0 {
        return;
    }
    let max = max_of(arr) as usize;
    let mut count = zeros(max + 1);
    let mut output = blank_items(arr.len());
    let ghost a = arr@;
    let ghost key = itself();
    count_keys(arr, &mut count, None);
    proof {
        lemma_below_ends(a, key, 0, max + 1);
    }
    sum_counts(&mut count, Ghost(a), Ghost(key));
    place_items(arr, &mut count, &mut output, None);
    proof {
        lemma_placed_in_key_order(a, output@, key, max + 1);
    }
    copy_back(arr, &output);
}

/// Rearranges the items so that their digits at the place `exp`, a power
/// of ten, do not fall.
pub fn counting_sort_by_digit(arr: &mut [u16], exp: u16)
    requires
        exp > 0,
    ensures
        same_items(final(arr)@, old(arr)@),
        final(arr).len() == old(arr).len(),
        forall|p: int, q: int|
            0 <= p <= q < final(arr).len() ==> digit(exp as int)(final(arr)[p]) <= digit(
                exp as int,
            )(final(arr)[q]),
        forall|p: int|
            0 <= p < final(arr).len() ==> #[trigger] has_source(
                old(arr)@,
                digit(exp as int),
                final(arr)@,
                p,
            ),
{
    let n = arr.len();
    let mut output = blank_items(n);
    let mut count = zeros(10);
    let ghost a = arr@;
    let ghost key = digit(exp as int);
    count_keys(arr, &mut count, Some(exp));
    proof {
        lemma_below_ends(a, key, 0, 10);
    }
    sum_counts(&mut count, Ghost(a), Ghost(key));
    place_items(arr, &mut count, &mut output, Some(exp));
    proof {
        lemma_placed_in_key_order(a, output@, key, 10);
    }
    copy_back(arr, &output);
}

/// Whether the items of `s`, each taken without its digits from the place
/// `e` on, do not fall.
pub open spec fn sorted_below(s: Seq<u16>, e: int) -> bool {
    forall|p: int, q: int| 0 <= p <= q < s.len() ==> s[p] as int % e <= s[q] as int % e
}

/// Whether `e` is a power of ten that a digit of the items can stand at.
pub open spec fn decimal_place(e: int) -> bool {
    e == 1 || e == 10 || e == 100 || e == 1000 || e == 10000
}

/// What a number has below the next place is its digit at the place `e`
/// before what it has below that place.
pub proof fn lemma_digit_splits(x: u16, e: int)
    requires
        decimal_place(e),
    ensures
        x as int % (10 * e) == ((x as int / e) % 10) * e + x as int % e,
        0 <= x as int % e < e,
        0 <= (x as int / e) % 10 < 10,
{
    let v = x as u32;
    if e == 1 {
        assert(v % 10 == ((v / 1) % 10) * 1 + v % 1 && v % 1 == 0) by (bit_vector);
    } else if e == 10 {
        assert(v % 100 == ((v / 10) % 10) * 10 + v % 10 && v % 10 < 10 && (v / 10) % 10 < 10) by (
            bit_vector)
            requires
                v < 65536,
        ;
    } else if e == 100 {
        assert(v % 1000 == ((v / 100) % 10) * 100 + v % 100 && v % 100 < 100 && (v / 100) % 10
            < 10) by (bit_vector)
            requires
                v < 65536,
        ;
    } else if e == 1000 {
        assert(v % 10000 == ((v / 1000) % 10) * 1000 + v % 1000 && v % 1000 < 1000 && (v / 1000)
            % 10 < 10) by (bit_vector)
            requires
                v < 65536,
        ;
    } else {
        assert(v % 100000 == ((v / 10000) % 10) * 10000 + v % 10000 && v % 10000 < 10000 && (v
            / 10000) % 10 < 10) by (bit_vector)
            requires
                v < 65536,
        ;
    }
}

/// Of two numbers, the one with the smaller digit at the place `e`, or
/// with the same digit and no more below it, has no more below the next
/// place.
pub proof fn lemma_next_place(x: u16, y: u16, e: int)
    requires
        decimal_place(e),
        (x as int / e) % 10 < (y as int / e) % 10 || ((x as int / e) % 10 == (y as int / e) % 10
            && x as int % e <= y as int % e),
    ensures
        x as int % (10 * e) <= y as int % (10 * e),
{
    lemma_digit_splits(x, e);
    lemma_digit_splits(y, e);
    let dx = (x as int / e) % 10;
    let dy = (y as int / e) % 10;
    if dx < dy {
        assert(dx * e + e <= dy * e) by (nonlinear_arith)
            requires
                dx + 1 <= dy,
                e > 0,
        ;
    }
}

/// A pass by the digit at the place `e` over items that do not fall below
/// that place leaves items that do not fall below the next place.
pub proof fn lemma_pass_sorts(before: Seq<u16>, after: Seq<u16>, e: int)
    requires
        decimal_place(e),
        after.len() == before.len(),
        sorted_below(before, e),
        forall|p: int| 0 <= p < after.len() ==> #[trigger] has_source(before, digit(e), after, p),
    ensures
        sorted_below(after, 10 * e),
        forall|p: int| 0 <= p < after.len() ==> before.contains(#[trigger] after[p]),
{
    let key = digit(e);
    assert forall|p: int, q: int| 0 <= p <= q < after.len() implies after[p] as int % (10 * e)
        <= after[q] as int % (10 * e) by {
        assert(has_source(before, key, after, p));
        assert(has_source(before, key, after, q));
        let i = choose|i: int| #[trigger] came_from(before, key, after, p, i);
        let j = choose|j: int| #[trigger] came_from(before, key, after, q, j);
        if p < q {
            lemma_places_in_turn(before, key, i, j);
            if key(before[i]) == key(before[j]) {
                assert(before[i] as int % e <= before[j] as int % e);
            }
            lemma_next_place(before[i], before[j], e);
        }
    }
    assert forall|p: int| 0 <= p < after.len() implies before.contains(#[trigger] after[p]) by {
        assert(has_source(before, key, after, p));
        let i = choose|i: int| #[trigger] came_from(before, key, after, p, i);
        assert(before[i] == after[p]);
    }
}

/// Sorts by the decimal digits of the items, from the last digit to the
/// first digit of the largest item.
pub fn radix_sort(arr: &mut [u16])
    ensures
        sorted(final(arr)@),
        same_items(final(arr)@, old(arr)@),
        final(arr).len() == old(arr).len(),
{
    if arr.len() == 0 {
        return;
    }
    let max = max_of(arr);
    if max == 0 {
        proof {
            assert forall|i: int, j: int| 0 <= i <= j < arr.len() implies arr[i] <= arr[j] by {
                assert(arr[i] <= max && arr[j] <= max);
            }
        }
        return;
    }
    let mut exp: u16 = 1;
    while max / exp > 0
        invariant
            exp > 0,
            decimal_place(exp as int),
            same_items(arr@, old(arr)@),
            arr.len() == old(arr).len(),
            sorted_below(arr@, exp as int),
            forall|k: int| 0 <= k < arr.len() ==> #[trigger] arr[k] <= max,
        decreases u16::MAX - exp,
    {
        let ghost before = arr@;
        counting_sort_by_digit(arr, exp);
        proof {
            lemma_pass_sorts(before, arr@, exp as int);
            assert forall|k: int| 0 <= k < arr.len() implies #[trigger] arr[k] <= max by {
                assert(before.contains(arr[k]));
                let i = choose|i: int| 0 <= i < before.len() && before[i] == arr[k];
                assert(before[i] <= max);
            }
        }
        if exp > u16::MAX / 10 {
            proof {
                assert forall|i: int, j: int| 0 <= i <= j < arr.len() implies arr[i] <= arr[j] by {
                    assert(arr[i] as int % 100000 <= arr[j] as int % 100000);
                }
            }
            return;
        }
        exp *= 10;
    }
    proof {
        assert forall|i: int, j: int| 0 <= i <= j < arr.len() implies arr[i] <= arr[j] by {
            assert(arr[i] as int % (exp as int) <= arr[j] as int % (exp as int));
            assert(arr[i] <= max && arr[j] <= max);
        }
    }
}

/// A sequence with one item more holds that item once more.
pub proof fn lemma_push_item(s: Seq<u16>, item: u16)
    ensures
        s.push(item).to_multiset() == s.to_multiset().insert(item),
{
    broadcast use vstd::seq_lib::group_to_multiset_ensures;

    assert(s.push(item).to_multiset() =~= s.to_multiset().insert(item));
}

/// Sorts a bucket: `<[u16]>::sort_unstable` on its items, which sorts the
/// slice, without keeping equal items in their order.
#[verifier::external_body]
fn sort_bucket(bucket: &mut Vec<u16>)
    ensures
        sorted(final(bucket)@),
        same_items(final(bucket)@, old(bucket)@),
{
    bucket.sort_unstable();
}

/// The items of the buckets, bucket by bucket.
pub open spec fn flat(buckets: Seq<Vec<u16>>) -> Seq<u16>
    decreases buckets.len(),
{
    if buckets.len() == 0 {
        Seq::empty()
    } else {
        flat(buckets.drop_last()) + buckets.last()@
    }
}

/// Where one bucket is exchanged for another, the buckets hold what they
/// held without the items of the one and with the items of the other.
pub proof fn lemma_flat_update(buckets: Seq<Vec<u16>>, b: int, bucket: Vec<u16>)
    requires
        0 <= b < buckets.len(),
    ensures
        flat(buckets.update(b, bucket)).to_multiset().add(buckets[b]@.to_multiset()) == flat(
            buckets,
        ).to_multiset().add(bucket@.to_multiset()),
        flat(buckets.update(b, bucket)).len() + buckets[b]@.len() == flat(buckets).len()
            + bucket@.len(),
    decreases buckets.len(),
{
    let changed = buckets.update(b, bucket);
    let rest = buckets.drop_last();
    vstd::seq_lib::lemma_multiset_commutative(flat(rest), buckets.last()@);
    if b == buckets.len() - 1 {
        assert(changed.drop_last() =~= rest);
        vstd::seq_lib::lemma_multiset_commutative(flat(rest), bucket@);
        assert(flat(changed).to_multiset().add(buckets[b]@.to_multiset()) =~= flat(
            buckets,
        ).to_multiset().add(bucket@.to_multiset()));
    } else {
        assert(changed.drop_last() =~= rest.update(b, bucket));
        assert(changed.last() == buckets.last());
        lemma_flat_update(rest, b, bucket);
        vstd::seq_lib::lemma_multiset_commutative(flat(rest.update(b, bucket)), buckets.last()@);
        assert(flat(changed).to_multiset().add(buckets[b]@.to_multiset()) =~= flat(
            rest.update(b, bucket),
        ).to_multiset().add(rest[b]@.to_multiset()).add(buckets.last()@.to_multiset()));
        assert(flat(changed).to_multiset().add(buckets[b]@.to_multiset()) =~= flat(
            buckets,
        ).to_multiset().add(bucket@.to_multiset()));
    }
}

/// Where a bucket gains an item, the buckets hold that item once more.
pub proof fn lemma_bucket_grows(buckets: Seq<Vec<u16>>, b: int, grown: Vec<u16>, num: u16)
    requires
        0 <= b < buckets.len(),
        grown@ == buckets[b]@.push(num),
    ensures
        flat(buckets.update(b, grown)).to_multiset() == flat(buckets).to_multiset().insert(num),
{
    broadcast use vstd::seq_lib::group_to_multiset_ensures;

    lemma_flat_update(buckets, b, grown);
    let now = flat(buckets.update(b, grown)).to_multiset();
    let was = flat(buckets).to_multiset();
    let taken = buckets[b]@.to_multiset();
    assert(grown@.to_multiset() =~= taken.insert(num));
    assert forall|v: u16| now.count(v) == was.insert(num).count(v) by {
        assert(now.add(taken).count(v) == was.add(grown@.to_multiset()).count(v));
    }
    assert(now =~= was.insert(num));
}

/// Where a bucket is exchanged for one with the same items, the buckets
/// hold what they held, and every item of the new bucket is an item of
/// the old.
pub proof fn lemma_bucket_reordered(buckets: Seq<Vec<u16>>, b: int, ordered: Vec<u16>)
    requires
        0 <= b < buckets.len(),
        same_items(ordered@, buckets[b]@),
    ensures
        flat(buckets.update(b, ordered)).to_multiset() == flat(buckets).to_multiset(),
        forall|k: int| 0 <= k < ordered@.len() ==> buckets[b]@.contains(#[trigger] ordered@[k]),
{
    lemma_flat_update(buckets, b, ordered);
    let now = flat(buckets.update(b, ordered)).to_multiset();
    let was = flat(buckets).to_multiset();
    let taken = buckets[b]@.to_multiset();
    assert forall|v: u16| now.count(v) == was.count(v) by {
        assert(now.add(taken).count(v) == was.add(ordered@.to_multiset()).count(v));
    }
    assert(now =~= was);
    assert forall|k: int| 0 <= k < ordered@.len() implies buckets[b]@.contains(
        #[trigger] ordered@[k],
    ) by {
        let x = ordered@[k];
        assert(ordered@.contains(x));
        vstd::seq_lib::to_multiset_contains(ordered@, x);
        vstd::seq_lib::to_multiset_contains(buckets[b]@, x);
        assert(buckets[b]@.contains(x));
    }
}

/// Sequences with the same items are of the same length.
pub proof fn lemma_same_len(a: Seq<u16>, b: Seq<u16>)
    requires
        same_items(a, b),
    ensures
        a.len() == b.len(),
{
    vstd::seq_lib::to_multiset_len(a);
    vstd::seq_lib::to_multiset_len(b);
}

/// The place in the flat sequence at which the bucket `b` starts.
pub open spec fn start_of(buckets: Seq<Vec<u16>>, b: int) -> int {
    flat(buckets.take(b)).len() as int
}

/// The item `k` of the bucket `b` stands in the flat sequence at the
/// start of the bucket and `k`; the buckets start one behind the other.
pub proof fn lemma_flat_index(buckets: Seq<Vec<u16>>, b: int, k: int)
    requires
        0 <= b < buckets.len(),
        0 <= k < buckets[b]@.len(),
    ensures
        start_of(buckets, b) + k < flat(buckets).len(),
        flat(buckets)[start_of(buckets, b) + k] == buckets[b]@[k],
        start_of(buckets, b + 1) == start_of(buckets, b) + buckets[b]@.len(),
    decreases buckets.len(),
{
    let rest = buckets.drop_last();
    assert(buckets.take(b + 1).drop_last() =~= buckets.take(b));
    if b == buckets.len() - 1 {
        assert(buckets.take(b) =~= rest);
    } else {
        lemma_flat_index(rest, b, k);
        assert(rest.take(b) =~= buckets.take(b));
        assert(rest.take(b + 1) =~= buckets.take(b + 1));
    }
}

/// Every place of the flat sequence lies in one bucket.
pub proof fn lemma_bucket_of_place(buckets: Seq<Vec<u16>>, p: int) -> (at: (int, int))
    requires
        0 <= p < flat(buckets).len(),
    ensures
        0 <= at.0 < buckets.len(),
        0 <= at.1 < buckets[at.0]@.len(),
        p == start_of(buckets, at.0) + at.1,
        flat(buckets)[p] == buckets[at.0]@[at.1],
    decreases buckets.len(),
{
    let rest = buckets.drop_last();
    let last = buckets.len() - 1;
    if p >= flat(rest).len() {
        assert(buckets.take(last) =~= rest);
        lemma_flat_index(buckets, last, p - flat(rest).len());
        (last, p - flat(rest).len())
    } else {
        let at = lemma_bucket_of_place(rest, p);
        assert(rest.take(at.0) =~= buckets.take(at.0));
        lemma_flat_index(buckets, at.0, at.1);
        at
    }
}

/// The starts of the buckets do not fall.
pub proof fn lemma_starts_rise(buckets: Seq<Vec<u16>>, b: int, c: int)
    requires
        0 <= b <= c <= buckets.len(),
    ensures
        start_of(buckets, b) <= start_of(buckets, c),
    decreases c - b,
{
    if b < c {
        lemma_starts_rise(buckets, b, c - 1);
        assert(buckets.take(c).drop_last() =~= buckets.take(c - 1));
    }
}

/// Sorts by parting the span of the numbers into ten buckets, sorting
/// each, and putting them one behind the other.
pub fn bucket_sort(arr: &mut [u16])
    ensures
        sorted(final(arr)@),
        same_items(final(arr)@, old(arr)@),
{
    if arr.len() == 0 {
        return;
    }
    let max = max_of(arr) as usize;
    let min = min_of(arr) as usize;
    let bucket_count: usize = 10;
    let bucket_range = (max - min) / bucket_count + 1;
    let ghost a = arr@;
    let mut buckets: Vec<Vec<u16>> = Vec::new();
    let mut b: usize = 0;
    while b < bucket_count
        invariant
            b <= bucket_count,
            buckets.len() == b,
            forall|k: int| 0 <= k < b ==> (#[trigger] buckets[k])@.len() == 0,
            flat(buckets@) =~= Seq::<u16>::empty(),
        decreases bucket_count - b,
    {
        let ghost before = buckets@;
        buckets.push(Vec::new());
        proof {
            assert(buckets@.drop_last() =~= before);
        }
        b += 1;
    }
    let mut i: usize = 0;
    proof {
        assert(a.take(0) =~= Seq::<u16>::empty());
    }
    while i < arr.len()
        invariant
            i <= arr.len(),
            arr@ == a,
            bucket_count == 10,
            buckets.len() == 10,
            min <= max,
            bucket_range == (max - min) / 10 + 1,
            forall|k: int| 0 <= k < a.len() ==> min <= #[trigger] a[k] <= max,
            same_items(flat(buckets@), a.take(i as int)),
            forall|c: int, k: int|
                0 <= c < 10 && 0 <= k < buckets[c]@.len() ==> min <= #[trigger] buckets[c]@[k]
                    <= max && (buckets[c]@[k] - min) / (bucket_range as int) == c,
        decreases arr.len() - i,
    {
        let num = arr[i];
        let bucket_index = (num as usize - min) / bucket_range;
        proof {
            let d = (max - min) as int;
            let r = bucket_range as int;
            let x = (num - min) as int;
            assert(x / r < 10) by (nonlinear_arith)
                requires
                    0 <= x <= d,
                    r == d / 10 + 1,
            ;
            assert(a.take(i + 1) =~= a.take(i as int).push(num));
        }
        let ghost before = buckets@;
        let mut bucket: Vec<u16> = Vec::new();
        std::mem::swap(&mut bucket, &mut buckets[bucket_index]);
        bucket.push(num);
        buckets.set(bucket_index, bucket);
        proof {
            let taken = before[bucket_index as int];
            let grown = buckets@[bucket_index as int];
            assert(grown@ =~= taken@.push(num));
            assert(buckets@ =~= before.update(bucket_index as int, grown));
            lemma_bucket_grows(before, bucket_index as int, grown, num);
            lemma_push_item(a.take(i as int), num);
            assert forall|c: int, k: int|
                0 <= c < 10 && 0 <= k < buckets[c]@.len() implies min <= #[trigger] buckets[c]@[k]
                <= max && (buckets[c]@[k] - min) / (bucket_range as int) == c by {
                if c == bucket_index {
                    if k < taken@.len() {
                        assert(grown@[k] == before[c]@[k]);
                    }
                } else {
                    assert(buckets[c] == before[c]);
                }
            }
        }
        i += 1;
    }
    proof {
        assert(a.take(a.len() as int) =~= a);
    }
    let mut b: usize = 0;
    while b < bucket_count
        invariant
            b <= bucket_count,
            bucket_count == 10,
            buckets.len() == 10,
            arr@ == a,
            min <= max,
            same_items(flat(buckets@), a),
            forall|c: int| 0 <= c < b ==> sorted((#[trigger] buckets[c])@),
            forall|c: int, k: int|
                0 <= c < 10 && 0 <= k < buckets[c]@.len() ==> min <= #[trigger] buckets[c]@[k]
                    <= max && (buckets[c]@[k] - min) / (bucket_range as int) == c,
        decreases bucket_count - b,
    {
        let ghost before = buckets@;
        let mut bucket: Vec<u16> = Vec::new();
        std::mem::swap(&mut bucket, &mut buckets[b]);
        sort_bucket(&mut bucket);
        buckets.set(b, bucket);
        proof {
            assert(buckets@ =~= before.update(b as int, buckets@[b as int]));
            lemma_bucket_reordered(before, b as int, buckets@[b as int]);
            assert forall|c: int, k: int|
                0 <= c < 10 && 0 <= k < buckets[c]@.len() implies min <= #[trigger] buckets[c]@[k]
                <= max && (buckets[c]@[k] - min) / (bucket_range as int) == c by {
                if c == b {
                    assert(before[c]@.contains(buckets[c]@[k]));
                    let j = choose|j: int|
                        0 <= j < before[c]@.len() && before[c]@[j] == buckets[c]@[k];
                    assert(before[c]@[j] == buckets[c]@[k]);
                } else {
                    assert(buckets[c] == before[c]);
                }
            }
            assert forall|c: int| 0 <= c < b + 1 implies sorted((#[trigger] buckets[c])@) by {
                if c < b {
                    assert(buckets[c] == before[c]);
                }
            }
        }
        b += 1;
    }
    let ghost whole = flat(buckets@);
    proof {
        lemma_same_len(whole, a);
        assert forall|p: int, q: int| 0 <= p <= q < whole.len() implies whole[p] <= whole[q] by {
            let at_p = lemma_bucket_of_place(buckets@, p);
            let at_q = lemma_bucket_of_place(buckets@, q);
            let x = buckets[at_p.0]@[at_p.1];
            let y = buckets[at_q.0]@[at_q.1];
            let r = bucket_range as int;
            if at_p.0 == at_q.0 {
            } else if at_p.0 > at_q.0 {
                lemma_flat_index(buckets@, at_q.0, at_q.1);
                lemma_starts_rise(buckets@, at_q.0 + 1, at_p.0);
            } else {
                assert(x <= y) by (nonlinear_arith)
                    requires
                        (x - min) / r < (y - min) / r,
                        r > 0,
                ;
            }
        }
    }
    let mut index: usize = 0;
    let mut b: usize = 0;
    proof {
        assert(buckets@.take(0) =~= Seq::<Vec<u16>>::empty());
    }
    while b < bucket_count
        invariant
            b <= bucket_count,
            bucket_count == 10,
            buckets.len() == 10,
            arr.len() == a.len(),
            whole == flat(buckets@),
            whole.len() == a.len(),
            index == start_of(buckets@, b as int),
            forall|p: int| 0 <= p < index ==> arr[p] == whole[p],
        decreases bucket_count - b,
    {
        let mut k: usize = 0;
        proof {
            assert(buckets@.take(b + 1).drop_last() =~= buckets@.take(b as int));
        }
        while k < buckets[b].len()
            invariant
                k <= buckets[b as int]@.len(),
                b < 10,
                buckets.len() == 10,
                arr.len() == a.len(),
                whole == flat(buckets@),
                whole.len() == a.len(),
                index == start_of(buckets@, b as int) + k,
                forall|p: int| 0 <= p < index ==> arr[p] == whole[p],
            decreases buckets[b as int]@.len() - k,
        {
            proof {
                lemma_flat_index(buckets@, b as int, k as int);
            }
            let num = buckets[b][k];
            arr[index] = num;
            index += 1;
            k += 1;
        }
        proof {
            if buckets[b as int]@.len() > 0 {
                lemma_flat_index(buckets@, b as int, 0);
            }
        }
        b += 1;
    }
    proof {
        assert(buckets@.take(10) =~= buckets@);
        assert(arr@ =~= whole);
    }
}

/// `size` numbers drawn at random from all that the type has.
pub fn generate_random_array(size: usize) -> (numbers: Vec<u16>)
    ensures
        numbers.len() == size,
{
    let mut numbers: Vec<u16> = Vec::new();
    let mut k: usize = 0;
    while k < size
        invariant
            k <= size,
            numbers.len() == k,
        decreases size - k,
    {
        let drawn = crate::sorts::random_in(0, 65536);
        numbers.push(drawn as u16);
        k += 1;
    }
    numbers
}

} // verus!
