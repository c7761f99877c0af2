//! Searching a text for a pattern: by trying every place, by shifts that
//! the pattern allows, and by the tables of Boyer and Moore and of Knuth,
//! Morris and Pratt.

use vstd::prelude::*;

verus! {

/// Whether `pattern` stands in `text` at the index `at`.
pub open spec fn matches_at<T>(text: Seq<T>, pattern: Seq<T>, at: int) -> bool {
    &&& 0 <= at
    &&& at + pattern.len() <= text.len()
    &&& forall|j: int| 0 <= j < pattern.len() ==> text[at + j] == #[trigger] pattern[j]
}

/// Whether `pattern` without its first item stands in `text` behind the
/// index `at`.
pub open spec fn tail_matches_at<T>(text: Seq<T>, pattern: Seq<T>, at: int) -> bool {
    &&& 0 <= at
    &&& at + pattern.len() <= text.len()
    &&& forall|j: int| 1 <= j < pattern.len() ==> text[at + j] == #[trigger] pattern[j]
}

/// Whether `pattern` stands in `text` at the index `at`, which must leave
/// room for it.
pub fn stands_at(text: &[char], pattern: &[char], at: usize) -> (found: bool)
    requires
        at + pattern.len() <= text.len(),
    ensures
        found == matches_at(text@, pattern@, at as int),
{
    let mut j: usize = 0;
    while j < pattern.len()
        invariant
            j <= pattern.len(),
            at + pattern.len() <= text.len(),
            forall|k: int| 0 <= k < j ==> text[at + k] == #[trigger] pattern[k],
        decreases pattern.len() - j,
    {
        if text[at + j] != pattern[j] {
            return false;
        }
        j += 1;
    }
    true
}

/// The first place at which `pattern` stands in `text`, found by trying
/// every place. The pattern may not be longer than the text.
pub fn brute_force_search(text: &[char], pattern: &[char]) -> (found: Option<usize>)
    requires
        pattern.len() <= text.len(),
    ensures
        match found {
            Some(at) => matches_at(text@, pattern@, at as int) && forall|k: int|
                0 <= k < at ==> !matches_at(text@, pattern@, k),
            None => forall|k: int| !matches_at(text@, pattern@, k),
        },
{
    let last = text.len() - pattern.len();
    let mut i: usize = 0;
    while i <= last
        invariant
            i <= last + 1,
            last == text.len() - pattern.len(),
            pattern.len() <= text.len(),
            forall|k: int| 0 <= k < i ==> !matches_at(text@, pattern@, k),
        decreases last + 1 - i,
    {
        if stands_at(text, pattern, i) {
            return Some(i);
        }
        i += 1;
    }
    None
}

/// The last index from 1 up to `upto` at which the pattern differs from
/// the text behind the place `at`; 0 where it differs at none of them.
pub open spec fn last_difference(text: Seq<char>, pattern: Seq<char>, at: int, upto: int) -> int
    decreases upto,
{
    if upto <= 0 {
        0
    } else if pattern[upto] != text[at + upto] {
        upto
    } else {
        last_difference(text, pattern, at, upto - 1)
    }
}

/// Where the pattern differs nowhere from 1 up to `upto`, its items from
/// 1 up to `upto` stand in the text, and the other way round.
pub proof fn lemma_last_difference(text: Seq<char>, pattern: Seq<char>, at: int, upto: int)
    requires
        0 <= upto,
    ensures
        0 <= last_difference(text, pattern, at, upto) <= upto,
        last_difference(text, pattern, at, upto) == 0 <==> forall|k: int|
            1 <= k <= upto ==> text[at + k] == #[trigger] pattern[k],
    decreases upto,
{
    if upto > 0 {
        lemma_last_difference(text, pattern, at, upto - 1);
    }
}

/// What the search by the place of the difference finds from the place
/// `from` on: nothing where the pattern has no room; the place itself
/// where the pattern differs at no index from 1 on; else what the search
/// finds from the place that lies further on by the last index at which
/// the pattern differs.
pub open spec fn prefix_shift_from(text: Seq<char>, pattern: Seq<char>, from: int) -> Option<usize>
    decreases
            if from <= text.len() {
                text.len() - from
            } else {
                0
            },
{
    if from < 0 || pattern.len() == 0 || from + pattern.len() > text.len() {
        None
    } else {
        let j = last_difference(text, pattern, from, pattern.len() - 1);
        if j <= 0 {
            Some(from as usize)
        } else {
            prefix_shift_from(text, pattern, from + j)
        }
    }
}

/// A place behind which the pattern without its first item stands in the
/// text, found by comparing from the end of the pattern and shifting by
/// the index of the first item that differs. The first item of the
/// pattern is never compared. The pattern may not be empty nor longer
/// than the text.
pub fn prefix_shift_search(text: &[char], pattern: &[char]) -> (found: Option<usize>)
    requires
        1 <= pattern.len() <= text.len(),
    ensures
        found == prefix_shift_from(text@, pattern@, 0),
        match found {
            Some(at) => tail_matches_at(text@, pattern@, at as int),
            None => true,
        },
{
    let last = text.len() - pattern.len();
    let mut i: usize = 0;
    while i <= last
        invariant
            last == text.len() - pattern.len(),
            1 <= pattern.len() <= text.len(),
            i <= text.len(),
            prefix_shift_from(text@, pattern@, i as int) == prefix_shift_from(text@, pattern@, 0),
        decreases text.len() - i,
    {
        let mut j = pattern.len() - 1;
        while j > 0 && pattern[j] == text[i + j]
            invariant
                i <= last,
                last == text.len() - pattern.len(),
                j < pattern.len() <= text.len(),
                forall|k: int| j < k < pattern.len() ==> text[i + k] == #[trigger] pattern[k],
                last_difference(text@, pattern@, i as int, j as int) == last_difference(
                    text@,
                    pattern@,
                    i as int,
                    pattern.len() - 1,
                ),
            decreases j,
        {
            j -= 1;
        }
        if j == 0 {
            return Some(i);
        }
        i += j;
    }
    None
}

/// The code of a character is the same as a number of any width.
pub proof fn lemma_code(c: char)
    ensures
        c as usize == c as int,
        0 <= c as int <= 0x10FFFF,
{
    assert((c as u32) as char == c);
    assert(c as u32 == c as int);
    assert(c as usize == (c as u32) as usize);
}

/// The last index at which the character with the code `code` stands in
/// the pattern; -1 where it stands nowhere.
pub open spec fn last_index(pattern: Seq<char>, code: int) -> int
    decreases pattern.len(),
{
    if pattern.len() == 0 {
        -1
    } else if pattern.last() as int == code {
        pattern.len() - 1
    } else {
        last_index(pattern.drop_last(), code)
    }
}

/// The last index of a character lies within the pattern, or is -1.
pub proof fn lemma_last_index(pattern: Seq<char>, code: int)
    ensures
        -1 <= last_index(pattern, code) < pattern.len(),
    decreases pattern.len(),
{
    if pattern.len() > 0 {
        lemma_last_index(pattern.drop_last(), code);
    }
}

/// How far the table of the last places lets the search go on from the
/// character with the code `code`: as many places as lie behind the last
/// place of that character in the pattern, and the length of the pattern
/// where the character is not in it.
pub open spec fn shift_of(pattern: Seq<char>, code: int) -> int {
    pattern.len() - 1 - last_index(pattern, code)
}

/// What the search by the table of the last places finds with the end of
/// the pattern at the index `end` of the text: nothing where the text
/// ends before; the place at which the pattern then starts, where the
/// pattern differs at no index from 1 on; else what the search finds
/// further on, from the place in the text of the last difference, by what
/// the table gives for the character of the text there, and by at least
/// so much that the end of the pattern moves on.
pub open spec fn suffix_shift_from(text: Seq<char>, pattern: Seq<char>, end: int) -> Option<usize>
    decreases
            if end <= text.len() {
                text.len() - end
            } else {
                0
            },
{
    let m = pattern.len() as int;
    if m == 0 || end < m - 1 || end >= text.len() {
        None
    } else {
        let start = end - (m - 1);
        let j = last_difference(text, pattern, start, m - 1);
        if j <= 0 {
            Some(start as usize)
        } else {
            let by_table = shift_of(pattern, text[start + j] as int);
            let by_place = m - j;
            suffix_shift_from(
                text,
                pattern,
                start + j + if by_table > by_place {
                    by_table
                } else {
                    by_place
                },
            )
        }
    }
}

/// A place behind which the pattern without its first item stands in the
/// text, found by comparing from the end of the pattern and shifting by a
/// table of the last place of every character in the pattern. The first
/// item of the pattern is never compared. The pattern may not be empty,
/// and every character must have a code below 256, for which the table
/// has a place.
pub fn suffix_shift_search(text: &[char], pattern: &[char]) -> (found: Option<usize>)
    requires
        1 <= pattern.len(),
        text.len() + pattern.len() < usize::MAX,
        forall|k: int| 0 <= k < pattern.len() ==> ((#[trigger] pattern[k]) as usize) < 256,
        forall|k: int| 0 <= k < text.len() ==> ((#[trigger] text[k]) as usize) < 256,
    ensures
        found == suffix_shift_from(text@, pattern@, pattern.len() - 1),
        match found {
            Some(at) => tail_matches_at(text@, pattern@, at as int),
            None => true,
        },
{
    let m = pattern.len();
    let mut skip: Vec<usize> = Vec::new();
    let mut c: usize = 0;
    while c < 256
        invariant
            c <= 256,
            skip.len() == c,
            forall|k: int| 0 <= k < c ==> skip[k] == m,
        decreases 256 - c,
    {
        skip.push(m);
        c += 1;
    }
    let mut k: usize = 0;
    proof {
        assert(pattern@.take(0) =~= Seq::<char>::empty());
    }
    while k < m
        invariant
            k <= m,
            m == pattern.len(),
            skip.len() == 256,
            forall|a: int| 0 <= a < 256 ==> #[trigger] skip[a] <= m,
            forall|a: int| 0 <= a < pattern.len() ==> ((#[trigger] pattern[a]) as usize) < 256,
            forall|code: int|
                0 <= code < 256 ==> #[trigger] skip[code] == m - 1 - last_index(
                    pattern@.take(k as int),
                    code,
                ),
        decreases m - k,
    {
        let here = pattern[k];
        skip.set(here as usize, m - k - 1);
        proof {
            let shorter = pattern@.take(k as int);
            let longer = pattern@.take(k + 1);
            assert(longer.drop_last() =~= shorter);
            assert(longer.last() == here);
            lemma_code(here);
            assert forall|code: int| 0 <= code < 256 implies #[trigger] skip[code] == m - 1
                - last_index(longer, code) by {}
        }
        k += 1;
    }
    proof {
        assert(pattern@.take(m as int) =~= pattern@);
    }
    let mut i = m - 1;
    while i < text.len()
        invariant
            m == pattern.len(),
            1 <= m,
            m - 1 <= i,
            text.len() + m < usize::MAX,
            skip.len() == 256,
            forall|a: int| 0 <= a < 256 ==> #[trigger] skip[a] <= m,
            forall|a: int| 0 <= a < text.len() ==> ((#[trigger] text[a]) as usize) < 256,
            forall|code: int| 0 <= code < 256 ==> #[trigger] skip[code] == shift_of(pattern@, code),
            suffix_shift_from(text@, pattern@, i as int) == suffix_shift_from(
                text@,
                pattern@,
                m - 1,
            ),
        decreases text.len() + m - i,
    {
        let ghost end = i;
        let ghost start = i - (m - 1);
        let mut j = m - 1;
        while j > 0 && pattern[j] == text[i]
            invariant
                m == pattern.len(),
                j < m,
                m - 1 <= end < text.len(),
                start == end - (m - 1),
                i + (m - 1 - j) == end,
                forall|a: int| j < a < m ==> text[end - (m - 1) + a] == #[trigger] pattern[a],
                last_difference(text@, pattern@, start, j as int) == last_difference(
                    text@,
                    pattern@,
                    start,
                    m - 1,
                ),
            decreases j,
        {
            i -= 1;
            j -= 1;
        }
        if j == 0 {
            return Some(i);
        }
        proof {
            assert(last_difference(text@, pattern@, start, j as int) == j);
            assert(i == start + j);
        }
        let by_table = skip[text[i] as usize];
        let by_place = m - j;
        proof {
            let ch = text[i as int];
            lemma_code(ch);
            assert(skip[ch as int] == shift_of(pattern@, ch as int));
            lemma_last_index(pattern@, ch as int);
            let further = start + j + if by_table > by_place {
                by_table as int
            } else {
                by_place as int
            };
            assert(suffix_shift_from(text@, pattern@, end as int) == suffix_shift_from(
                text@,
                pattern@,
                further,
            ));
        }
        i += if by_table > by_place {
            by_table
        } else {
            by_place
        };
    }
    None
}

/// Whether the pattern from the index `p` on repeats its own start.
pub fn is_prefix(pattern: &[u8], p: usize) -> (repeats: bool)
    ensures
        repeats == forall|i: int, k: int|
            p <= i < pattern.len() && k == i - p ==> #[trigger] pattern[i] == #[trigger] pattern[k],
{
    let mut i = p;
    while i < pattern.len()
        invariant
            p <= i,
            forall|a: int, b: int|
                p <= a < i && a < pattern.len() && b == a - p ==> #[trigger] pattern[a]
                    == #[trigger] pattern[b],
        decreases pattern.len() - i,
    {
        if pattern[i] != pattern[i - p] {
            return false;
        }
        i += 1;
    }
    true
}

/// Whether the `len` items before the index `p` are the last `len` items
/// of the pattern.
pub open spec fn ends_alike(pattern: Seq<u8>, p: int, len: int) -> bool {
    forall|a: int, b: int|
        p - len <= a < p && b == a + pattern.len() - p ==> #[trigger] pattern[a]
            == #[trigger] pattern[b]
}

/// The number of items before the index `p` that are the last items of
/// the pattern, counted backward from `p` to the first that differs. The
/// index must lie within the pattern.
pub fn suffix_length(pattern: &[u8], p: usize) -> (len: usize)
    requires
        p < pattern.len(),
    ensures
        len <= p,
        ends_alike(pattern@, p as int, len as int),
        len < p ==> pattern[p - 1 - len] != pattern[pattern.len() - 1 - len],
{
    let mut len: usize = 0;
    let mut i = p;
    let mut j = pattern.len() - 1;
    while i > 0 && pattern[i - 1] == pattern[j]
        invariant
            i + len == p,
            j + len == pattern.len() - 1,
            p < pattern.len(),
            ends_alike(pattern@, p as int, len as int),
        decreases i,
    {
        len += 1;
        i -= 1;
        j -= 1;
    }
    len
}

/// A place at which `pattern` stands in `text`, found with the two shift
/// tables of Boyer and Moore. An empty pattern stands at the start; a
/// pattern longer than the text stands nowhere.
pub fn boyer_moore_search(text: &[u8], pattern: &[u8]) -> (found: Option<usize>)
    requires
        text.len() + 2 * pattern.len() < usize::MAX,
    ensures
        match found {
            Some(at) => matches_at(text@, pattern@, at as int),
            None => pattern.len() > 0,
        },
        pattern.len() == 0 ==> found == Some(0usize),
        text.len() < pattern.len() ==> found.is_none(),
{
    let m = pattern.len();
    if m == 0 {
        return Some(0);
    }
    if text.len() < m {
        return None;
    }
    let mut bad_char: Vec<usize> = Vec::new();
    let mut c: usize = 0;
    while c < 256
        invariant
            c <= 256,
            bad_char.len() == c,
            forall|k: int| 0 <= k < c ==> bad_char[k] == m,
        decreases 256 - c,
    {
        bad_char.push(m);
        c += 1;
    }
    let mut k: usize = 0;
    while k < m
        invariant
            k <= m,
            m == pattern.len(),
            bad_char.len() == 256,
            forall|a: int| 0 <= a < 256 ==> #[trigger] bad_char[a] <= m,
        decreases m - k,
    {
        bad_char.set(pattern[k] as usize, m - 1 - k);
        k += 1;
    }
    let mut good_suffix: Vec<usize> = Vec::new();
    let mut c: usize = 0;
    while c < m + 1
        invariant
            c <= m + 1,
            2 * m < usize::MAX,
            good_suffix.len() == c,
        decreases m + 1 - c,
    {
        good_suffix.push(0);
        c += 1;
    }
    let mut last_prefix_position = m;
    let mut i = m;
    while i > 0
        invariant
            i <= m,
            m == pattern.len(),
            good_suffix.len() == m + 1,
            2 * m < usize::MAX,
            i <= last_prefix_position <= m,
            forall|a: int| i <= a < m ==> m - a <= #[trigger] good_suffix[a] <= 2 * m,
        decreases i,
    {
        i -= 1;
        if is_prefix(pattern, i + 1) {
            last_prefix_position = i + 1;
        }
        good_suffix.set(i, last_prefix_position - i + m - 1);
    }
    let mut i: usize = 0;
    while i < m - 1
        invariant
            i <= m - 1,
            m == pattern.len(),
            1 <= m,
            good_suffix.len() == m + 1,
            forall|a: int| 0 <= a < m ==> m - a <= #[trigger] good_suffix[a] <= 2 * m,
        decreases m - 1 - i,
    {
        let len = suffix_length(pattern, i);
        if pattern[i - len] != pattern[m - 1 - len] {
            good_suffix.set(m - 1 - len, m - 1 - i + len);
        }
        i += 1;
    }
    let mut i = m - 1;
    while i < text.len()
        invariant
            m == pattern.len(),
            1 <= m <= text.len(),
            m - 1 <= i,
            text.len() + 2 * m < usize::MAX,
            bad_char.len() == 256,
            good_suffix.len() == m + 1,
            forall|a: int| 0 <= a < 256 ==> #[trigger] bad_char[a] <= m,
            forall|a: int| 0 <= a < m ==> m - a <= #[trigger] good_suffix[a] <= 2 * m,
        decreases text.len() + 2 * m - i,
    {
        let ghost end = i;
        let mut j = m - 1;
        while j > 0 && pattern[j] == text[i]
            invariant
                m == pattern.len(),
                j < m,
                m - 1 <= end < text.len(),
                i + (m - 1 - j) == end,
                forall|a: int| j < a < m ==> text[end - (m - 1) + a] == #[trigger] pattern[a],
            decreases j,
        {
            i -= 1;
            j -= 1;
        }
        if j == 0 && pattern[0] == text[i] {
            return Some(i);
        } else {
            let bad_char_shift = bad_char[text[i] as usize].saturating_sub(m - 1 - j);
            let good_suffix_shift = good_suffix[j];
            i += if bad_char_shift > good_suffix_shift {
                bad_char_shift
            } else {
                good_suffix_shift
            };
        }
    }
    None
}

/// Whether the first `b` items of `pattern` are its `b` items up to and
/// with the index `end`.
pub open spec fn is_border<T>(pattern: Seq<T>, end: int, b: int) -> bool {
    forall|t: int, u: int|
        0 <= t < b && u == end + 1 - b + t ==> #[trigger] pattern[t] == #[trigger] pattern[u]
}

/// For every index of the pattern, the length of a start of the pattern
/// that also ends at that index, and is not all of the pattern up to it:
/// the one that the method of Knuth, Morris and Pratt falls back to.
pub fn kmp_prefix_function(pattern: &[char]) -> (pi: Vec<usize>)
    ensures
        pi.len() == pattern.len(),
        forall|i: int| 0 <= i < pi.len() ==> #[trigger] pi[i] <= i,
        forall|i: int| 0 <= i < pi.len() ==> is_border(pattern@, i, #[trigger] pi[i] as int),
{
    let m = pattern.len();
    let mut pi: Vec<usize> = Vec::new();
    let mut c: usize = 0;
    while c < m
        invariant
            c <= m,
            pi.len() == c,
            forall|i: int| 0 <= i < c ==> pi[i] == 0,
        decreases m - c,
    {
        pi.push(0);
        c += 1;
    }
    let mut k: usize = 0;
    let mut i: usize = 1;
    while i < m
        invariant
            1 <= i,
            m == pattern.len(),
            pi.len() == m,
            k < i,
            is_border(pattern@, i - 1, k as int),
            forall|a: int| 0 <= a < m ==> #[trigger] pi[a] <= a,
            forall|a: int| 0 <= a < i && a < m ==> is_border(pattern@, a, #[trigger] pi[a] as int),
            forall|a: int| i <= a < m ==> pi[a] == 0,
        decreases m - i,
    {
        while k > 0 && pattern[k] != pattern[i]
            invariant
                1 <= i < m,
                m == pattern.len(),
                pi.len() == m,
                k < i,
                is_border(pattern@, i - 1, k as int),
                forall|a: int| 0 <= a < m ==> #[trigger] pi[a] <= a,
                forall|a: int|
                    0 <= a < i && a < m ==> is_border(pattern@, a, #[trigger] pi[a] as int),
            decreases k,
        {
            proof {
                let shorter = pi[k - 1] as int;
                assert(is_border(pattern@, k - 1, shorter));
                assert forall|t: int, u: int|
                    0 <= t < shorter && u == i - 1 + 1 - shorter + t implies #[trigger] pattern[t]
                    == #[trigger] pattern[u] by {
                    let mid = k - shorter + t;
                    assert(pattern[t] == pattern[mid]);
                    assert(pattern[mid] == pattern[u]);
                }
            }
            k = pi[k - 1];
        }
        if pattern[k] == pattern[i] {
            proof {
                assert forall|t: int, u: int|
                    0 <= t < k + 1 && u == i + 1 - (k + 1) + t implies #[trigger] pattern[t]
                    == #[trigger] pattern[u] by {
                    if t < k {
                        assert(pattern[t] == pattern[i - 1 + 1 - k + t]);
                    }
                }
            }
            k += 1;
        }
        pi.set(i, k);
        i += 1;
    }
    pi
}

/// A place at which `pattern` stands in `text`, found by the method of
/// Knuth, Morris and Pratt. For the empty pattern the search stops at the
/// first item of the text and returns 1.
pub fn kmp_search(text: &[char], pattern: &[char]) -> (found: Option<usize>)
    ensures
        pattern.len() > 0 ==> match found {
            Some(at) => matches_at(text@, pattern@, at as int),
            None => true,
        },
        pattern.len() == 0 ==> found == if text.len() == 0 {
            None
        } else {
            Some(1usize)
        },
{
    let pi = kmp_prefix_function(pattern);
    let m = pattern.len();
    let mut j: usize = 0;
    let mut i: usize = 0;
    while i < text.len()
        invariant
            i <= text.len(),
            m == pattern.len(),
            pi.len() == m,
            j <= i,
            j <= m,
            m > 0 ==> j < m,
            m == 0 ==> i == 0,
            is_start(text@, pattern@, i as int, j as int),
            forall|a: int| 0 <= a < m ==> #[trigger] pi[a] <= a,
            forall|a: int| 0 <= a < m ==> is_border(pattern@, a, #[trigger] pi[a] as int),
        decreases text.len() - i,
    {
        let c = text[i];
        while j > 0 && (j >= m || pattern[j] != c)
            invariant
                i < text.len(),
                m == pattern.len(),
                pi.len() == m,
                j <= i,
                m > 0 ==> j < m,
                m == 0 ==> j == 0,
                is_start(text@, pattern@, i as int, j as int),
                forall|a: int| 0 <= a < m ==> #[trigger] pi[a] <= a,
                forall|a: int| 0 <= a < m ==> is_border(pattern@, a, #[trigger] pi[a] as int),
            decreases j,
        {
            proof {
                let shorter = pi[j - 1] as int;
                assert(is_border(pattern@, j - 1, shorter));
                assert forall|t: int, u: int|
                    0 <= t < shorter && u == i - shorter + t implies #[trigger] pattern[t]
                    == #[trigger] text[u] by {
                    let mid = j - shorter + t;
                    assert(pattern[t] == pattern[mid]);
                    assert(pattern[mid] == text[i - j + mid]);
                }
            }
            j = pi[j - 1];
        }
        if j < m && pattern[j] == c {
            proof {
                assert forall|t: int, u: int|
                    0 <= t < j + 1 && u == i + 1 - (j + 1) + t implies #[trigger] pattern[t]
                    == #[trigger] text[u] by {
                    if t < j {
                        assert(pattern[t] == text[i - j + t]);
                    }
                }
            }
            j += 1;
        } else {
            proof {
                assert(j == 0);
            }
        }
        if j == m {
            proof {
                if m > 0 {
                    assert forall|t: int| 0 <= t < m implies text[i - m + 1 + t]
                        == #[trigger] pattern[t] by {
                        assert(pattern[t] == text[i + 1 - j + t]);
                    }
                }
            }
            return Some(i + 1 - m);
        }
        i += 1;
    }
    None
}

/// Whether the first `j` items of `pattern` are the `j` items of `text`
/// before the index `end`.
pub open spec fn is_start<T>(text: Seq<T>, pattern: Seq<T>, end: int, j: int) -> bool {
    forall|t: int, u: int|
        0 <= t < j && u == end - j + t ==> #[trigger] pattern[t] == #[trigger] text[u]
}

/// Whether, after the first `s` items of `pattern` and then the byte `c`,
/// the first `r` items of `pattern` have just been read.
pub open spec fn step_ok(pattern: Seq<u8>, s: int, c: int, r: int) -> bool {
    r == 0 || {
        &&& 1 <= r <= s + 1
        &&& r <= pattern.len()
        &&& pattern[r - 1] == c
        &&& forall|t: int, u: int|
            0 <= t < r - 1 && u == s - (r - 1) + t ==> #[trigger] pattern[t] == #[trigger] pattern[u]
    }
}

/// The start of a border, without its last item, is a border of the
/// pattern without its last item, and the last items are the same.
pub proof fn lemma_border_shrinks(pattern: Seq<u8>, end: int, b: int)
    requires
        1 <= b,
        is_border(pattern, end, b),
    ensures
        is_border(pattern, end - 1, b - 1),
        pattern[b - 1] == pattern[end],
{
    assert forall|t: int, u: int| 0 <= t < b - 1 && u == end - 1 + 1 - (b - 1) + t implies #[trigger] pattern[t]
        == #[trigger] pattern[u] by {
        assert(u == end + 1 - b + t);
    }
    assert(pattern[b - 1] == pattern[end]) by {
        let t = b - 1;
        let u = end + 1 - b + t;
        assert(pattern[t] == pattern[u]);
    }
}

/// Of two borders the shorter is a border of the longer.
pub proof fn lemma_border_of_border(pattern: Seq<u8>, end: int, len: int, b: int)
    requires
        0 <= b <= len,
        is_border(pattern, end, len),
        is_border(pattern, end, b),
    ensures
        is_border(pattern, len - 1, b),
{
    assert forall|t: int, u: int| 0 <= t < b && u == len - 1 + 1 - b + t implies #[trigger] pattern[t]
        == #[trigger] pattern[u] by {
        let far = end + 1 - b + t;
        assert(pattern[t] == pattern[far]);
        assert(far == end + 1 - len + u);
        assert(pattern[u] == pattern[far]);
    }
}

/// What has just been read after a byte, without that byte, is a border
/// of what was read before.
pub proof fn lemma_step_border(pattern: Seq<u8>, s: int, c: int, r: int)
    requires
        1 <= r,
        step_ok(pattern, s, c, r),
    ensures
        is_border(pattern, s - 1, r - 1),
{
    assert forall|t: int, u: int| 0 <= t < r - 1 && u == s - 1 + 1 - (r - 1) + t implies #[trigger] pattern[t]
        == #[trigger] pattern[u] by {
        assert(u == s - (r - 1) + t);
    }
}

/// What can have been read after `s` items and a byte can have been read
/// after a border of those items and that byte, where it fits in.
pub proof fn lemma_step_falls(pattern: Seq<u8>, s: int, back: int, c: int, r: int)
    requires
        1 <= r,
        r - 1 <= back,
        is_border(pattern, s - 1, back),
        step_ok(pattern, s, c, r),
    ensures
        step_ok(pattern, back, c, r),
{
    assert forall|t: int, u: int| 0 <= t < r - 1 && u == back - (r - 1) + t implies #[trigger] pattern[t]
        == #[trigger] pattern[u] by {
        let far = s - (r - 1) + t;
        assert(pattern[t] == pattern[far]);
        assert(far == s - 1 + 1 - back + u);
        assert(pattern[u] == pattern[far]);
    }
}

/// A start of the pattern that has just been read in the text, without
/// its last item, had been read one place before.
pub proof fn lemma_start_shrinks(text: Seq<u8>, pattern: Seq<u8>, end: int, r: int)
    requires
        1 <= r,
        is_start(text, pattern, end + 1, r),
    ensures
        is_start(text, pattern, end, r - 1),
        pattern[r - 1] == text[end],
{
    assert forall|t: int, u: int| 0 <= t < r - 1 && u == end - (r - 1) + t implies #[trigger] pattern[t]
        == #[trigger] text[u] by {
        assert(u == end + 1 - r + t);
    }
    assert(pattern[r - 1] == text[end]) by {
        let t = r - 1;
        let u = end + 1 - r + t;
        assert(pattern[t] == text[u]);
    }
}

/// A start of the pattern that has just been read in the text can have
/// been read after the longer start that had been read one place before.
pub proof fn lemma_start_step(text: Seq<u8>, pattern: Seq<u8>, end: int, state: int, r: int)
    requires
        1 <= r <= pattern.len(),
        r - 1 <= state,
        is_start(text, pattern, end, state),
        is_start(text, pattern, end + 1, r),
    ensures
        step_ok(pattern, state, text[end] as int, r),
{
    lemma_start_shrinks(text, pattern, end, r);
    assert forall|t: int, u: int| 0 <= t < r - 1 && u == state - (r - 1) + t implies #[trigger] pattern[t]
        == #[trigger] pattern[u] by {
        let far = end - (r - 1) + t;
        assert(pattern[t] == text[far]);
        assert(far == end - state + u);
        assert(pattern[u] == text[far]);
    }
}

/// The automaton of Knuth, Morris and Pratt for `pattern`, which may not
/// be empty: for every number of items matched so far and every byte, the
/// largest number of items of the pattern that have just been read after
/// that byte.
pub fn build_kmp_automaton(pattern: &[u8]) -> (automaton: Vec<Vec<usize>>)
    requires
        1 <= pattern.len() < usize::MAX,
    ensures
        automaton.len() == pattern.len() + 1,
        forall|s: int| 0 <= s < automaton.len() ==> (#[trigger] automaton[s]).len() == 256,
        forall|s: int, c: int|
            0 <= s < automaton.len() && 0 <= c < 256 ==> step_ok(
                pattern@,
                s,
                c,
                #[trigger] automaton[s][c] as int,
            ),
        forall|s: int, c: int, r: int|
            0 <= s < automaton.len() && 0 <= c < 256 && #[trigger] step_ok(pattern@, s, c, r)
                ==> r <= automaton[s][c],
{
    let m = pattern.len();
    let mut lps: Vec<usize> = Vec::new();
    let mut c: usize = 0;
    while c < m + 1
        invariant
            c <= m + 1,
            m < usize::MAX,
            lps.len() == c,
            forall|a: int| 0 <= a < c ==> lps[a] == 0,
        decreases m + 1 - c,
    {
        lps.push(0);
        c += 1;
    }
    let mut len: usize = 0;
    let mut i: usize = 1;
    while i < m
        invariant
            1 <= i,
            m == pattern.len(),
            lps.len() == m + 1,
            len < i,
            is_border(pattern@, i - 1, len as int),
            forall|a: int| 0 <= a <= m ==> #[trigger] lps[a] <= a,
            forall|a: int| 0 <= a < m ==> is_border(pattern@, a, #[trigger] lps[a] as int),
            forall|a: int, b: int|
                0 <= a < i && a < m && 0 <= b <= a && #[trigger] is_border(pattern@, a, b) ==> b
                    <= lps[a],
            i < m ==> forall|b: int|
                0 <= b < i && #[trigger] is_border(pattern@, i - 1, b) && pattern[b]
                    == pattern[i as int] ==> b <= len,
        decreases 2 * (m - i) + len,
    {
        if pattern[i] == pattern[len] {
            proof {
                assert forall|b: int| 0 <= b <= i && #[trigger] is_border(
                    pattern@,
                    i as int,
                    b,
                ) implies b <= len + 1 by {
                    if b >= 1 {
                        lemma_border_shrinks(pattern@, i as int, b);
                        assert(is_border(pattern@, i - 1, b - 1));
                    }
                }
                assert forall|t: int, u: int|
                    0 <= t < len + 1 && u == i + 1 - (len + 1) + t implies #[trigger] pattern[t]
                    == #[trigger] pattern[u] by {
                    if t < len {
                        assert(pattern[t] == pattern[i - 1 + 1 - len + t]);
                    }
                }
            }
            len += 1;
            lps.set(i, len);
            i += 1;
        } else if len != 0 {
            proof {
                assert forall|b: int|
                    0 <= b < i && #[trigger] is_border(pattern@, i - 1, b) && pattern[b]
                        == pattern[i as int] implies b <= lps[len - 1] by {
                    assert(b <= len);
                    lemma_border_of_border(pattern@, i - 1, len as int, b);
                    assert(is_border(pattern@, len - 1, b));
                }
                let shorter = lps[len - 1] as int;
                assert(is_border(pattern@, len - 1, shorter));
                assert forall|t: int, u: int|
                    0 <= t < shorter && u == i - 1 + 1 - shorter + t implies #[trigger] pattern[t]
                    == #[trigger] pattern[u] by {
                    let mid = len - shorter + t;
                    assert(pattern[t] == pattern[mid]);
                    assert(pattern[mid] == pattern[u]);
                }
            }
            len = lps[len - 1];
        } else {
            proof {
                assert forall|b: int| 0 <= b <= i && #[trigger] is_border(
                    pattern@,
                    i as int,
                    b,
                ) implies b <= 0 by {
                    if b >= 1 {
                        lemma_border_shrinks(pattern@, i as int, b);
                        assert(is_border(pattern@, i - 1, b - 1));
                    }
                }
            }
            lps.set(i, 0);
            i += 1;
        }
    }
    let mut automaton: Vec<Vec<usize>> = Vec::new();
    let mut first: Vec<usize> = Vec::new();
    let mut j: usize = 0;
    while j < 256
        invariant
            j <= 256,
            first.len() == j,
            forall|a: int| 0 <= a < j ==> first[a] == 0,
        decreases 256 - j,
    {
        first.push(0);
        j += 1;
    }
    first.set(pattern[0] as usize, 1);
    automaton.push(first);
    proof {
        assert forall|c: int, r: int| 0 <= c < 256 && #[trigger] step_ok(pattern@, 0, c, r) implies r
            <= automaton[0][c] by {}
    }
    let mut i: usize = 1;
    while i <= m
        invariant
            1 <= i <= m + 1,
            m == pattern.len(),
            m < usize::MAX,
            lps.len() == m + 1,
            forall|a: int| 0 <= a <= m ==> #[trigger] lps[a] <= a,
            forall|a: int| 0 <= a < m ==> is_border(pattern@, a, #[trigger] lps[a] as int),
            forall|a: int, b: int|
                0 <= a < m && 0 <= b <= a && #[trigger] is_border(pattern@, a, b) ==> b <= lps[a],
            automaton.len() == i,
            forall|s: int| 0 <= s < i ==> (#[trigger] automaton[s]).len() == 256,
            forall|s: int, c: int|
                0 <= s < i && 0 <= c < 256 ==> step_ok(
                    pattern@,
                    s,
                    c,
                    #[trigger] automaton[s][c] as int,
                ),
            forall|s: int, c: int, r: int|
                0 <= s < i && 0 <= c < 256 && #[trigger] step_ok(pattern@, s, c, r) ==> r
                    <= automaton[s][c],
        decreases m + 1 - i,
    {
        let back = lps[i - 1];
        let mut row: Vec<usize> = Vec::new();
        let mut j: usize = 0;
        while j < 256
            invariant
                j <= 256,
                1 <= i <= m,
                m == pattern.len(),
                back < i,
                is_border(pattern@, i - 1, back as int),
                automaton.len() == i,
                forall|s: int| 0 <= s < i ==> (#[trigger] automaton[s]).len() == 256,
                forall|s: int, c: int|
                    0 <= s < i && 0 <= c < 256 ==> step_ok(
                        pattern@,
                        s,
                        c,
                        #[trigger] automaton[s][c] as int,
                    ),
                row.len() == j,
                forall|c: int|
                    0 <= c < j ==> step_ok(pattern@, i as int, c, #[trigger] row[c] as int),
                forall|b: int|
                    0 <= b <= i - 1 && #[trigger] is_border(pattern@, i - 1, b) ==> b <= back,
                forall|s: int, c: int, r: int|
                    0 <= s < i && 0 <= c < 256 && #[trigger] step_ok(pattern@, s, c, r) ==> r
                        <= automaton[s][c],
                forall|c: int, r: int|
                    0 <= c < j && #[trigger] step_ok(pattern@, i as int, c, r) ==> r <= row[c],
            decreases 256 - j,
        {
            if i < m && j == pattern[i] as usize {
                row.push(i + 1);
            } else {
                let fallen = automaton[back][j];
                proof {
                    assert forall|r: int| #[trigger] step_ok(
                        pattern@,
                        i as int,
                        j as int,
                        r,
                    ) implies r <= fallen by {
                        if r >= 1 {
                            if r == i + 1 {
                                assert(pattern[i as int] == j);
                            } else {
                                lemma_step_border(pattern@, i as int, j as int, r);
                                assert(r - 1 <= back);
                                lemma_step_falls(pattern@, i as int, back as int, j as int, r);
                                assert(step_ok(pattern@, back as int, j as int, r));
                            }
                        }
                    }
                    let r = fallen as int;
                    assert(step_ok(pattern@, back as int, j as int, automaton[back as int][j as int] as int));
                    if r != 0 {
                        assert forall|t: int, u: int|
                            0 <= t < r - 1 && u == i - (r - 1) + t implies #[trigger] pattern[t]
                            == #[trigger] pattern[u] by {
                            let mid = back - (r - 1) + t;
                            assert(pattern[t] == pattern[mid]);
                            assert(pattern[mid] == pattern[i - 1 + 1 - back + mid]);
                        }
                    }
                }
                row.push(fallen);
            }
            j += 1;
        }
        automaton.push(row);
        i += 1;
    }
    automaton
}

/// The first place at which `pattern`, which may not be empty, stands in
/// `text`, if it stands anywhere: the place at which the automaton of
/// Knuth, Morris and Pratt has first read the whole pattern.
pub fn kmp_search_automaton(text: &[u8], pattern: &[u8]) -> (found: Option<usize>)
    requires
        1 <= pattern.len() < usize::MAX,
    ensures
        match found {
            Some(at) => matches_at(text@, pattern@, at as int) && forall|k: int|
                0 <= k < at ==> !matches_at(text@, pattern@, k),
            None => forall|k: int| !matches_at(text@, pattern@, k),
        },
{
    let automaton = build_kmp_automaton(pattern);
    let m = pattern.len();
    let mut state: usize = 0;
    let mut i: usize = 0;
    while i < text.len()
        invariant
            i <= text.len(),
            m == pattern.len(),
            state <= i,
            state < m,
            1 <= m,
            is_start(text@, pattern@, i as int, state as int),
            forall|r: int|
                0 <= r <= m && r <= i && #[trigger] is_start(text@, pattern@, i as int, r) ==> r
                    <= state,
            forall|k: int| 0 <= k && k + m <= i ==> !matches_at(text@, pattern@, k),
            forall|s: int, c: int, r: int|
                0 <= s < automaton.len() && 0 <= c < 256 && #[trigger] step_ok(pattern@, s, c, r)
                    ==> r <= automaton[s][c],
            automaton.len() == m + 1,
            forall|s: int| 0 <= s < automaton.len() ==> (#[trigger] automaton[s]).len() == 256,
            forall|s: int, c: int|
                0 <= s < automaton.len() && 0 <= c < 256 ==> step_ok(
                    pattern@,
                    s,
                    c,
                    #[trigger] automaton[s][c] as int,
                ),
        decreases text.len() - i,
    {
        let c = text[i];
        let ghost was = state as int;
        proof {
            assert(step_ok(pattern@, was, c as int, automaton[was][c as int] as int));
        }
        state = automaton[state][c as usize];
        proof {
            let r = state as int;
            assert forall|t: int, u: int| 0 <= t < r && u == i + 1 - r + t implies #[trigger] pattern[t]
                == #[trigger] text[u] by {
                if t < r - 1 {
                    let mid = was - (r - 1) + t;
                    assert(pattern[t] == pattern[mid]);
                    assert(pattern[mid] == text[i - was + mid]);
                }
            }
        }
        proof {
            assert forall|r: int|
                0 <= r <= m && r <= i + 1 && #[trigger] is_start(
                    text@,
                    pattern@,
                    i + 1,
                    r,
                ) implies r <= state by {
                if r >= 1 {
                    lemma_start_shrinks(text@, pattern@, i as int, r);
                    assert(is_start(text@, pattern@, i as int, r - 1));
                    lemma_start_step(text@, pattern@, i as int, was, r);
                    assert(step_ok(pattern@, was, c as int, r));
                }
            }
        }
        if state == m {
            proof {
                assert forall|t: int| 0 <= t < m implies text[i + 1 - m + t] == #[trigger] pattern[t] by {
                    assert(pattern[t] == text[i + 1 - state + t]);
                }
            }
            return Some(i + 1 - m);
        }
        proof {
            assert forall|k: int| 0 <= k && k + m <= i + 1 implies !matches_at(
                text@,
                pattern@,
                k,
            ) by {
                if k + m == i + 1 && matches_at(text@, pattern@, k) {
                    assert forall|t: int, u: int| 0 <= t < m && u == i + 1 - m + t implies #[trigger] pattern[t]
                        == #[trigger] text[u] by {
                        assert(text[k + t] == pattern[t]);
                    }
                    assert(is_start(text@, pattern@, i + 1, m as int));
                }
            }
        }
        i += 1;
    }
    None
}

} // verus!
