//! Detection of the first window of pairwise distinct symbols in a stream.
use vstd::prelude::*;
use vstd::string::{StrSliceExecFns, StringSliceAdditionalSpecFns};

use crate::error::AppError;

verus! {

/// No two positions of `s` hold the same symbol.
pub open spec fn all_distinct<A>(s: Seq<A>) -> bool {
    forall|i: int, j: int| 0 <= i < j < s.len() ==> s[i] != s[j]
}

/// The `w` symbols that end just before offset `p` form a marker.
pub open spec fn is_marker_end<A>(s: Seq<A>, w: int, p: int) -> bool {
    0 <= w <= p <= s.len() && all_distinct(s.subrange(p - w, p))
}

/// `r` is the end offset of the first marker of width `w` in `s`, or `None`
/// when `s` holds no such marker.
pub open spec fn is_first_marker<A>(s: Seq<A>, w: int, r: Option<usize>) -> bool {
    match r {
        Some(p) => is_marker_end(s, w, p as int) && forall|q: int|
            #![trigger is_marker_end(s, w, q)]
            q < p ==> !is_marker_end(s, w, q),
        None => forall|q: int| !is_marker_end(s, w, q),
    }
}

/// Every byte of `s` is a lowercase ASCII letter.
pub open spec fn is_lowercase_stream(s: Seq<u8>) -> bool {
    forall|i: int| 0 <= i < s.len() ==> 97 <= #[trigger] s[i] <= 122
}

/// Number of occurrences of `x` in `s`.
pub open spec fn count<A>(s: Seq<A>, x: A) -> nat
    decreases s.len(),
{
    if s.len() == 0 {
        0
    } else {
        count(s.drop_last(), x) + if s.last() == x {
            1nat
        } else {
            0nat
        }
    }
}

/// Number of slots below `n` of the table `t` that hold more than one.
pub open spec fn repeats(t: Seq<usize>, n: int) -> nat
    decreases n,
{
    if n <= 0 {
        0
    } else {
        repeats(t, n - 1) + if t[n - 1] > 1 {
            1nat
        } else {
            0nat
        }
    }
}

/// Occurrences in `s` of the `k`-th lowercase letter.
pub open spec fn letter_count(s: Seq<u8>, k: int) -> nat {
    count(s, (k + 97) as u8)
}

/// The frequency table `t` counts the letters of `window`.
pub open spec fn counts_window(t: Seq<usize>, window: Seq<u8>) -> bool {
    t.len() == 26 && forall|k: int| 0 <= k < 26 ==> #[trigger] t[k] == letter_count(window, k)
}

proof fn lemma_count_le_len<A>(s: Seq<A>, x: A)
    ensures
        count(s, x) <= s.len(),
    decreases s.len(),
{
    if s.len() > 0 {
        lemma_count_le_len(s.drop_last(), x);
    }
}

proof fn lemma_count_zero<A>(s: Seq<A>, x: A)
    ensures
        count(s, x) == 0 <==> !s.contains(x),
    decreases s.len(),
{
    if s.len() > 0 {
        let t = s.drop_last();
        lemma_count_zero(t, x);
        if t.contains(x) {
            let i = choose|i: int| 0 <= i < t.len() && t[i] == x;
            assert(s[i] == x);
        }
        if s.contains(x) {
            let i = choose|i: int| 0 <= i < s.len() && s[i] == x;
            if i < t.len() {
                assert(t[i] == x);
            }
        }
    }
}

proof fn lemma_count_concat<A>(a: Seq<A>, b: Seq<A>, x: A)
    ensures
        count(a + b, x) == count(a, x) + count(b, x),
    decreases b.len(),
{
    if b.len() > 0 {
        lemma_count_concat(a, b.drop_last(), x);
        assert((a + b).drop_last() =~= a + b.drop_last());
    }
}

proof fn lemma_count_single<A>(y: A, x: A)
    ensures
        count(seq![y], x) == if y == x {
            1nat
        } else {
            0nat
        },
{
    assert(seq![y].drop_last() =~= Seq::<A>::empty());
    assert(count(Seq::<A>::empty(), x) == 0);
    assert(seq![y].last() == y);
}

/// A sequence is pairwise distinct exactly when no symbol occurs twice.
proof fn lemma_distinct_iff_counts<A>(s: Seq<A>)
    ensures
        all_distinct(s) <==> forall|x: A| count(s, x) <= 1,
    decreases s.len(),
{
    if s.len() > 0 {
        let t = s.drop_last();
        let a = s.last();
        lemma_distinct_iff_counts(t);
        lemma_count_zero(t, a);
        if all_distinct(s) {
            assert(all_distinct(t)) by {
                assert forall|i: int, j: int| 0 <= i < j < t.len() implies t[i] != t[j] by {
                    assert(s[i] == t[i] && s[j] == t[j]);
                }
            }
            assert(!t.contains(a)) by {
                if t.contains(a) {
                    let i = choose|i: int| 0 <= i < t.len() && t[i] == a;
                    assert(s[i] == a && s[s.len() - 1] == a);
                }
            }
            assert forall|x: A| count(s, x) <= 1 by {
                assert(count(t, x) <= 1);
            }
        }
        if forall|x: A| count(s, x) <= 1 {
            assert forall|x: A| count(t, x) <= 1 by {
                assert(count(s, x) <= 1);
            }
            assert(count(t, a) == 0) by {
                assert(count(s, a) <= 1);
            }
            assert forall|i: int, j: int| 0 <= i < j < s.len() implies s[i] != s[j] by {
                if j < s.len() - 1 {
                    assert(s[i] == t[i] && s[j] == t[j]);
                } else {
                    assert(t[i] == s[i]);
                    assert(t.contains(t[i]));
                }
            }
        }
    }
}

/// For a lowercase window, distinctness is read off the 26 letter counts.
proof fn lemma_distinct_iff_letter_counts(s: Seq<u8>)
    requires
        is_lowercase_stream(s),
    ensures
        all_distinct(s) <==> forall|k: int| 0 <= k < 26 ==> #[trigger] letter_count(s, k) <= 1,
{
    lemma_distinct_iff_counts(s);
    if forall|k: int| 0 <= k < 26 ==> #[trigger] letter_count(s, k) <= 1 {
        assert forall|x: u8| count(s, x) <= 1 by {
            if 97 <= x <= 122 {
                let k = x - 97;
                assert(((k + 97) as u8) == x);
                assert(letter_count(s, k) <= 1);
            } else {
                lemma_count_zero(s, x);
                if s.contains(x) {
                    let i = choose|i: int| 0 <= i < s.len() && s[i] == x;
                    assert(97 <= s[i] <= 122);
                }
            }
        }
    }
}

proof fn lemma_repeats_zero(t: Seq<usize>, n: int)
    requires
        0 <= n <= t.len(),
    ensures
        repeats(t, n) == 0 <==> forall|k: int| 0 <= k < n ==> t[k] <= 1,
        repeats(t, n) <= n,
    decreases n,
{
    if n > 0 {
        lemma_repeats_zero(t, n - 1);
    }
}

proof fn lemma_repeats_update(t: Seq<usize>, n: int, k: int, v: usize)
    requires
        0 <= k < n <= t.len(),
    ensures
        repeats(t.update(k, v), n) + (if t[k] > 1 {
            1int
        } else {
            0int
        }) == repeats(t, n) + (if v > 1 {
            1int
        } else {
            0int
        }),
    decreases n,
{
    if k < n - 1 {
        lemma_repeats_update(t, n - 1, k, v);
    } else {
        assert forall|j: int| 0 <= j < n - 1 implies t.update(k, v)[j] == t[j] by {}
        lemma_repeats_same_prefix(t.update(k, v), t, n - 1);
    }
}

proof fn lemma_repeats_same_prefix(a: Seq<usize>, b: Seq<usize>, n: int)
    requires
        0 <= n <= a.len(),
        n <= b.len(),
        forall|j: int| 0 <= j < n ==> a[j] == b[j],
    ensures
        repeats(a, n) == repeats(b, n),
    decreases n,
{
    if n > 0 {
        lemma_repeats_same_prefix(a, b, n - 1);
    }
}

/// Returns the end offset of the first window of `marker_size` pairwise
/// distinct letters in `bytestream`, keeping a table of letter counts and the
/// number of letters that occur more than once while the window slides.
pub fn find_marker_hashset(bytestream: &[u8], marker_size: usize) -> (r: Option<usize>)
    requires
        is_lowercase_stream(bytestream@),
    ensures
        is_first_marker(bytestream@, marker_size as int, r),
{
    let ghost s = bytestream@;
    let len = bytestream.len();
    if marker_size > len {
        return None;
    }
    let mut table: [usize; 26] = [0usize; 26];
    let mut i: usize = 0;
    while i < marker_size
        invariant
            marker_size <= len == s.len(),
            s == bytestream@,
            is_lowercase_stream(s),
            0 <= i <= marker_size,
            counts_window(table@, s.subrange(0, i as int)),
        decreases marker_size - i,
    {
        let c = bytestream[i];
        assert(97 <= s[i as int] <= 122);
        let k = (c - 97u8) as usize;
        let ghost before = s.subrange(0, i as int);
        assert(s.subrange(0, i + 1).drop_last() =~= before);
        proof {
            lemma_count_le_len(before, c);
        }
        assert(((k + 97) as u8) == c);
        table[k] = table[k] + 1;
        i = i + 1;
    }
    let mut num_repeats: usize = 0;
    let mut k: usize = 0;
    while k < 26
        invariant
            0 <= k <= 26,
            table@.len() == 26,
            num_repeats == repeats(table@, k as int),
            num_repeats <= k,
        decreases 26 - k,
    {
        if table[k] > 1 {
            num_repeats = num_repeats + 1;
        }
        k = k + 1;
    }
    let mut index: usize = 0;
    loop
        invariant
            marker_size <= len == s.len(),
            s == bytestream@,
            is_lowercase_stream(s),
            index + marker_size <= len,
            counts_window(table@, s.subrange(index as int, index + marker_size)),
            num_repeats == repeats(table@, 26),
            forall|q: int|
                #![trigger is_marker_end(s, marker_size as int, q)]
                q < index + marker_size ==> !is_marker_end(s, marker_size as int, q),
        decreases len - index,
    {
        let ghost window = s.subrange(index as int, index + marker_size);
        proof {
            lemma_repeats_zero(table@, 26);
            assert(is_lowercase_stream(window)) by {
                assert forall|j: int| 0 <= j < window.len() implies 97 <= #[trigger] window[j]
                    <= 122 by {
                    assert(window[j] == s[index + j]);
                }
            }
            lemma_distinct_iff_letter_counts(window);
        }
        if num_repeats == 0 {
            assert forall|k: int| 0 <= k < 26 implies #[trigger] letter_count(window, k) <= 1 by {
                assert(table@[k] == letter_count(window, k));
                assert(table@[k] <= 1);
            }
            return Some(index + marker_size);
        }
        assert(!is_marker_end(s, marker_size as int, index + marker_size));
        if index + marker_size >= len {
            return None;
        }
        let c = bytestream[index];
        let d = bytestream[index + marker_size];
        assert(97 <= s[index as int] <= 122);
        assert(97 <= s[index + marker_size] <= 122);
        let kc = (c - 97u8) as usize;
        let kd = (d - 97u8) as usize;
        assert(((kc + 97) as u8) == c);
        assert(((kd + 97) as u8) == d);
        let ghost middle = s.subrange(index + 1, index + marker_size);
        let ghost next = s.subrange(index + 1, index + marker_size + 1);
        proof {
            assert(window =~= seq![c] + middle);
            assert(next.drop_last() =~= middle);
            assert forall|x: u8| count(window, x) == count(middle, x) + (if c == x {
                1nat
            } else {
                0nat
            }) by {
                lemma_count_concat(seq![c], middle, x);
                lemma_count_single(c, x);
            }
            lemma_count_le_len(middle, d);
        }
        let ghost t0 = table@;
        if table[kc] == 2 {
            num_repeats = num_repeats - 1;
        }
        table[kc] = table[kc] - 1;
        proof {
            lemma_repeats_update(t0, 26, kc as int, table@[kc as int]);
            assert(table@ == t0.update(kc as int, table@[kc as int]));
            assert(counts_window(table@, middle));
        }
        let ghost t1 = table@;
        if table[kd] == 1 {
            num_repeats = num_repeats + 1;
        }
        table[kd] = table[kd] + 1;
        proof {
            lemma_repeats_update(t1, 26, kd as int, table@[kd as int]);
            assert(table@ == t1.update(kd as int, table@[kd as int]));
            assert(counts_window(table@, next));
            lemma_repeats_zero(table@, 26);
        }
        index = index + 1;
    }
}

} // verus!

verus! {

/// Reference finder: tests every window by comparing all of its pairs.
pub fn find_marker_pairwise(bytestream: &[u8], marker_size: usize) -> (r: Option<usize>)
    ensures
        is_first_marker(bytestream@, marker_size as int, r),
{
    let ghost s = bytestream@;
    let len = bytestream.len();
    if marker_size > len {
        return None;
    }
    let mut p: usize = marker_size;
    loop
        invariant
            marker_size <= p <= len,
            len == s.len(),
            s == bytestream@,
            forall|q: int|
                #![trigger is_marker_end(s, marker_size as int, q)]
                q < p ==> !is_marker_end(s, marker_size as int, q),
        decreases len - p,
    {
        let start = p - marker_size;
        let ghost window = s.subrange(start as int, p as int);
        let mut distinct = true;
        let mut i: usize = start;
        while i < p
            invariant
                start <= i <= p <= len,
                start == p - marker_size,
                len == s.len(),
                s == bytestream@,
                window == s.subrange(start as int, p as int),
                distinct <==> forall|a: int, b: int|
                    start <= a < b < p && a < i ==> s[a] != s[b],
            decreases p - i,
        {
            let mut j: usize = i + 1;
            while j < p
                invariant
                    start <= i < j <= p,
                    p <= len,
                    len == s.len(),
                    s == bytestream@,
                    distinct <==> (forall|a: int, b: int|
                        start <= a < b < p && a < i ==> s[a] != s[b]) && (forall|b: int|
                        i < b < j ==> s[i as int] != #[trigger] s[b]),
                decreases p - j,
            {
                if bytestream[i] == bytestream[j] {
                    distinct = false;
                }
                j = j + 1;
            }
            i = i + 1;
        }
        if distinct {
            assert(all_distinct(window)) by {
                assert forall|a: int, b: int| 0 <= a < b < window.len() implies window[a]
                    != window[b] by {
                    assert(window[a] == s[start + a] && window[b] == s[start + b]);
                }
            }
            return Some(p);
        }
        assert(!all_distinct(window)) by {
            let (a, b) = choose|a: int, b: int| start <= a < b < p && s[a] == s[b];
            assert(window[a - start] == s[a] && window[b - start] == s[b]);
        }
        if p == len {
            return None;
        }
        p = p + 1;
    }
}

/// Returns the end offset of the first four pairwise distinct characters of
/// `bytestream`, checking the six pairs of each window.
pub fn _find_marker(bytestream: &str) -> (r: Option<usize>)
    ensures
        is_first_marker(bytestream@, 4, r),
{
    let ghost s = bytestream@;
    let len = bytestream.unicode_len();
    if len < 4 {
        return None;
    }
    let mut p: usize = 4;
    loop
        invariant
            4 <= p <= len,
            len == s.len(),
            s == bytestream@,
            forall|q: int| #![trigger is_marker_end(s, 4, q)] q < p ==> !is_marker_end(s, 4, q),
        decreases len + 1 - p,
    {
        let a = bytestream.get_char(p - 4);
        let b = bytestream.get_char(p - 3);
        let c = bytestream.get_char(p - 2);
        let d = bytestream.get_char(p - 1);
        let ghost window = s.subrange(p - 4, p as int);
        assert(window[0] == a && window[1] == b && window[2] == c && window[3] == d);
        if a != b && a != c && a != d && b != c && b != d && c != d {
            assert(all_distinct(window)) by {
                assert forall|i: int, j: int| 0 <= i < j < window.len() implies window[i]
                    != window[j] by {}
            }
            return Some(p);
        }
        if p == len {
            return None;
        }
        p = p + 1;
    }
}

/// Two results that both meet `is_first_marker` for one stream and width are
/// equal: the sliding-window finder and the pairwise reference agree on every
/// stream they both accept.
pub proof fn lemma_first_marker_unique<A>(s: Seq<A>, w: int, r1: Option<usize>, r2: Option<usize>)
    requires
        is_first_marker(s, w, r1),
        is_first_marker(s, w, r2),
    ensures
        r1 == r2,
{
    match (r1, r2) {
        (Some(p1), Some(p2)) => {
            assert(is_marker_end(s, w, p1 as int));
            assert(is_marker_end(s, w, p2 as int));
        },
        (Some(p1), None) => {
            assert(is_marker_end(s, w, p1 as int));
        },
        (None, Some(p2)) => {
            assert(is_marker_end(s, w, p2 as int));
        },
        (None, None) => {},
    }
}

/// Whether every byte of `bytes` is a lowercase ASCII letter.
pub fn all_lowercase(bytes: &[u8]) -> (r: bool)
    ensures
        r == is_lowercase_stream(bytes@),
{
    let mut i: usize = 0;
    while i < bytes.len()
        invariant
            0 <= i <= bytes.len(),
            forall|j: int| 0 <= j < i ==> 97 <= #[trigger] bytes@[j] <= 122,
        decreases bytes.len() - i,
    {
        if bytes[i] < 97 || bytes[i] > 122 {
            assert(!(97 <= bytes@[i as int] <= 122));
            return false;
        }
        i = i + 1;
    }
    true
}

/// Finds the first marker of `marker_size` letters in a line of input; a line
/// holding anything but lowercase letters, or no marker, is bad input.
pub fn marker_in_line(input: &str, marker_size: usize) -> (r: Result<usize, AppError>)
    ensures
        match r {
            Ok(p) => is_lowercase_stream(input.spec_bytes()) && is_first_marker(
                input.spec_bytes(),
                marker_size as int,
                Some(p),
            ),
            Err(e) => e is BadInput && (!is_lowercase_stream(input.spec_bytes())
                || is_first_marker(input.spec_bytes(), marker_size as int, None)),
        },
{
    let bytes = input.as_bytes();
    if !all_lowercase(bytes) {
        return Err(AppError::BadInput);
    }
    match find_marker_hashset(bytes, marker_size) {
        Some(p) => Ok(p),
        None => Err(AppError::BadInput),
    }
}

/// The start-of-packet marker: four distinct letters.
pub fn day_6_1(input: &str) -> (r: Result<usize, AppError>)
    ensures
        match r {
            Ok(p) => is_lowercase_stream(input.spec_bytes()) && is_first_marker(
                input.spec_bytes(),
                4,
                Some(p),
            ),
            Err(e) => e is BadInput && (!is_lowercase_stream(input.spec_bytes())
                || is_first_marker(input.spec_bytes(), 4, None)),
        },
{
    marker_in_line(input, 4)
}

/// The start-of-message marker: fourteen distinct letters.
pub fn day_6_2(input: &str) -> (r: Result<usize, AppError>)
    ensures
        match r {
            Ok(p) => is_lowercase_stream(input.spec_bytes()) && is_first_marker(
                input.spec_bytes(),
                14,
                Some(p),
            ),
            Err(e) => e is BadInput && (!is_lowercase_stream(input.spec_bytes())
                || is_first_marker(input.spec_bytes(), 14, None)),
        },
{
    marker_in_line(input, 14)
}

} // verus!
