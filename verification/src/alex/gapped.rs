//! Integer search and shifting in the gapped arrays of learned index leaves.
//!
//! A leaf keeps its keys in key order in an array of slots, each holding a
//! key or a gap (`None`). A linear model, kept outside this module, predicts
//! the slot of a key; the functions here search around that prediction,
//! widening the window exponentially, and shift keys towards the nearest gap
//! to make room for an insert.

use vstd::prelude::*;
use vstd::slice::slice_subrange;
use crate::alex::simd_search::simd_search_i64;
use crate::codec::copy_range;

verus! {

/// The key in slot `pos`; `None` for a gap or a position past the end.
pub open spec fn key_at(keys: Seq<Option<i64>>, pos: int) -> Option<i64> {
    if 0 <= pos < keys.len() {
        keys[pos]
    } else {
        None
    }
}

/// The first slot in `[start, end)` that holds `key`.
pub open spec fn first_match(keys: Seq<Option<i64>>, start: int, end: int, key: i64) -> Option<int>
    decreases end - start,
{
    if start >= end {
        None
    } else if keys[start] == Some(key) {
        Some(start)
    } else {
        first_match(keys, start + 1, end, key)
    }
}

/// Whether slot `i` is where `key` goes when scanning forward: a key not
/// below `key`, or a gap that follows a gap, a smaller key or the start.
pub open spec fn gap_fits(keys: Seq<Option<i64>>, i: int, key: i64) -> bool {
    match keys[i] {
        Some(k) => k >= key,
        None => i == 0 || match keys[i - 1] {
            None => true,
            Some(k) => k < key,
        },
    }
}

/// The first slot in `[i, end)` where `key` goes.
pub open spec fn gap_scan(keys: Seq<Option<i64>>, i: int, end: int, key: i64) -> Option<int>
    decreases end - i,
{
    if i >= end {
        None
    } else if gap_fits(keys, i, key) {
        Some(i)
    } else {
        gap_scan(keys, i + 1, end, key)
    }
}

/// `x - 1`, but not below 0.
pub open spec fn pred_sat(x: int) -> int {
    if x > 0 {
        x - 1
    } else {
        0
    }
}

/// The insertion slot for `key` in `[start, end)`: the first slot where it
/// goes, or else the last slot of the window (within the array).
pub open spec fn gap_position(keys: Seq<Option<i64>>, start: int, end: int, key: i64) -> int {
    match gap_scan(keys, start, end, key) {
        Some(i) => i,
        None => if pred_sat(end) < pred_sat(keys.len() as int) {
            pred_sat(end)
        } else {
            pred_sat(keys.len() as int)
        },
    }
}

/// The gap nearest to `pos`, looking at distance `radius` and beyond: at
/// each distance the slot to the right first, then the one to the left;
/// `pos` itself if there is no gap.
pub open spec fn nearest_gap_from(keys: Seq<Option<i64>>, pos: int, radius: int) -> int
    decreases keys.len() - radius,
{
    if radius >= keys.len() {
        pos
    } else if pos + radius < keys.len() && keys[pos + radius] is None {
        pos + radius
    } else if radius <= pos && keys[pos - radius] is None {
        pos - radius
    } else {
        nearest_gap_from(keys, pos, radius + 1)
    }
}

/// The gap nearest to `pos`.
pub open spec fn nearest_gap(keys: Seq<Option<i64>>, pos: int) -> int {
    nearest_gap_from(keys, pos, 0)
}

/// The first gap at or after slot `i`, if any.
pub open spec fn first_gap_from(keys: Seq<Option<i64>>, i: int) -> Option<int>
    decreases keys.len() - i,
{
    if i >= keys.len() {
        None
    } else if keys[i] is None {
        Some(i)
    } else {
        first_gap_from(keys, i + 1)
    }
}

/// `s` with slot `pos` set to `x` after shifting the slots between `pos`
/// and the gap `g` one step towards the gap.
pub open spec fn shifted<T>(s: Seq<T>, pos: int, g: int, x: T) -> Seq<T> {
    Seq::new(
        s.len(),
        |i: int|
            if i == pos {
                x
            } else if g > pos && pos < i <= g {
                s[i - 1]
            } else if g < pos && g <= i < pos {
                s[i + 1]
            } else {
                s[i]
            },
    )
}

/// The search window of radius `radius` around the predicted slot `p`.
pub open spec fn window(len: int, p: int, radius: int) -> (int, int) {
    (if p > radius { p - radius } else { 0 }, if p + radius < len { p + radius } else { len })
}

/// Whether the window's first and last slots hold keys that bracket `key`.
pub open spec fn window_brackets(keys: Seq<Option<i64>>, key: i64, w: (int, int)) -> bool {
    match (key_at(keys, w.0), key_at(keys, pred_sat(w.1))) {
        (Some(sk), Some(ek)) => sk <= key && key <= ek,
        _ => false,
    }
}

/// The window an exponential search around `p` settles on: the first
/// window (radius 1, 2, 4, ...) whose end keys bracket `key`, or the whole
/// array once the radius reaches `max_radius`, exceeds the array, or (when
/// `stop_at_whole`) the window already covers the array.
pub open spec fn search_window(
    keys: Seq<Option<i64>>,
    key: i64,
    p: int,
    radius: int,
    max_radius: int,
    stop_at_whole: bool,
) -> (int, int)
    decreases keys.len() + 1 - radius,
{
    let len = keys.len() as int;
    let w = window(len, p, radius);
    if radius < 1 {
        (0, len)
    } else if window_brackets(keys, key, w) {
        w
    } else if radius >= max_radius {
        (0, len)
    } else if stop_at_whole && w.0 == 0 && w.1 == len {
        (0, len)
    } else if 2 * radius > len {
        (0, len)
    } else {
        search_window(keys, key, p, 2 * radius, max_radius, stop_at_whole)
    }
}

/// The radius bound of the exponential searches: the model's error bound,
/// but at least 16.
pub open spec fn max_radius(max_error_bound: usize) -> int {
    if max_error_bound > 16 {
        max_error_bound as int
    } else {
        16
    }
}

/// Lemma: the first match is the slot that holds the key with no earlier
/// slot of the range holding it.
proof fn lemma_first_match(keys: Seq<Option<i64>>, start: int, end: int, key: i64, found: Option<int>)
    requires
        start <= end <= keys.len(),
        0 <= start,
        match found {
            Some(i) => start <= i < end && keys[i] == Some(key) && forall|j: int| start <= j < i ==> keys[j] != Some(key),
            None => forall|j: int| start <= j < end ==> keys[j] != Some(key),
        },
    ensures
        first_match(keys, start, end, key) == found,
    decreases end - start,
{
    if start < end {
        if keys[start] != Some(key) {
            lemma_first_match(keys, start + 1, end, key, found);
        }
    }
}

/// The key in slot `pos`, or `None` for a gap or a position past the end.
pub fn get_key_at(keys: &[Option<i64>], pos: usize) -> (r: Option<i64>)
    ensures
        r == key_at(keys@, pos as int),
{
    if pos >= keys.len() {
        None
    } else {
        keys[pos]
    }
}

/// The first slot in `[start, end)` that holds `key`.
pub fn binary_search_exact(keys: &[Option<i64>], start: usize, end: usize, key: i64) -> (r: Option<usize>)
    requires
        start <= end <= keys@.len(),
    ensures
        match r {
            Some(i) => first_match(keys@, start as int, end as int, key) == Some(i as int),
            None => first_match(keys@, start as int, end as int, key) is None,
        },
{
    let sub = slice_subrange(keys, start, end);
    let found = simd_search_i64(sub, key);
    match found {
        Some(p) => {
            proof {
                assert forall|j: int| start <= j < start + p implies keys@[j] != Some(key) by {
                    assert(sub@[j - start] == keys@[j]);
                }
                assert(sub@[p as int] == keys@[start + p]);
                lemma_first_match(keys@, start as int, end as int, key, Some(start + p));
            }
            Some(start + p)
        },
        None => {
            proof {
                assert forall|j: int| start <= j < end implies keys@[j] != Some(key) by {
                    assert(sub@[j - start] == keys@[j]);
                }
                lemma_first_match(keys@, start as int, end as int, key, None);
            }
            None
        },
    }
}

/// The slot in `[start, end)` where `key` should go to keep the keys in
/// order; the caller moves keys aside when the slot is taken.
pub fn binary_search_gap(keys: &[Option<i64>], start: usize, end: usize, key: i64) -> (r: usize)
    requires
        start <= end <= keys@.len(),
    ensures
        r == gap_position(keys@, start as int, end as int, key),
{
    let mut i = start;
    while i < end
        invariant
            start <= i <= end <= keys@.len(),
            gap_scan(keys@, i as int, end as int, key) == gap_scan(keys@, start as int, end as int, key),
        decreases end - i,
    {
        match keys[i] {
            Some(k) => {
                if k >= key {
                    return i;
                }
            },
            None => {
                if i == 0 {
                    return i;
                }
                match keys[i - 1] {
                    None => {
                        return i;
                    },
                    Some(k) => {
                        if k < key {
                            return i;
                        }
                    },
                }
            },
        }
        i = i + 1;
    }
    let a = if end > 0 {
        end - 1
    } else {
        0
    };
    let b = if keys.len() > 0 {
        keys.len() - 1
    } else {
        0
    };
    if a < b {
        a
    } else {
        b
    }
}

/// The gap nearest to `pos` (right before left at equal distance); `pos`
/// itself if the array has no gap.
pub fn find_nearest_gap(keys: &[Option<i64>], pos: usize) -> (r: usize)
    requires
        pos < keys@.len(),
        pos + keys@.len() <= usize::MAX,
    ensures
        r == nearest_gap(keys@, pos as int),
{
    let len = keys.len();
    let mut radius: usize = 0;
    while radius < len
        invariant
            len == keys@.len(),
            pos < len,
            pos + len <= usize::MAX,
            radius <= len,
            nearest_gap_from(keys@, pos as int, radius as int) == nearest_gap(keys@, pos as int),
        decreases len - radius,
    {
        if pos + radius < len && keys[pos + radius].is_none() {
            return pos + radius;
        }
        if radius <= pos && keys[pos - radius].is_none() {
            return pos - radius;
        }
        radius = radius + 1;
    }
    pos
}

/// The first gap, or the last slot if there is none.
pub fn find_any_gap(keys: &[Option<i64>]) -> (r: usize)
    requires
        keys@.len() > 0,
    ensures
        r == match first_gap_from(keys@, 0) {
            Some(i) => i,
            None => keys@.len() - 1,
        },
{
    let len = keys.len();
    let mut i: usize = 0;
    while i < len
        invariant
            len == keys@.len(),
            i <= len,
            first_gap_from(keys@, i as int) == first_gap_from(keys@, 0),
        decreases len - i,
    {
        if keys[i].is_none() {
            return i;
        }
        i = i + 1;
    }
    len - 1
}

/// Insert `key` with `value` at slot `pos`, first shifting the slots between
/// `pos` and the nearest gap one step towards that gap.
pub fn shift_and_insert(keys: &mut Vec<Option<i64>>, values: &mut Vec<Option<Vec<u8>>>, pos: usize, key: i64, value: Vec<u8>)
    requires
        old(keys)@.len() == old(values)@.len(),
        pos < old(keys)@.len(),
        old(keys)@.len() <= usize::MAX / 2,
    ensures
        final(keys)@ == shifted(old(keys)@, pos as int, nearest_gap(old(keys)@, pos as int), Some(key)),
        final(values)@ == shifted(old(values)@, pos as int, nearest_gap(old(keys)@, pos as int), Some(value)),
{
    let ghost k0 = keys@;
    let ghost v0 = values@;
    let len = keys.len();
    let gap_pos = find_nearest_gap(keys.as_slice(), pos);
    proof {
        lemma_nearest_gap_range(k0, pos as int, 0);
    }
    if gap_pos > pos {
        let mut i = gap_pos;
        while i > pos
            invariant
                pos < gap_pos < len,
                pos <= i <= gap_pos,
                keys@.len() == len,
                values@.len() == len,
                k0.len() == len,
                v0.len() == len,
                forall|j: int| 0 <= j < len && !(i < j <= gap_pos) && j != i ==> keys@[j] == k0[j],
                forall|j: int| i < j <= gap_pos ==> keys@[j] == k0[j - 1],
                forall|j: int| 0 <= j < len && !(i < j <= gap_pos) && j != i ==> values@[j] == v0[j],
                forall|j: int| i < j <= gap_pos ==> values@[j] == v0[j - 1],
                i == gap_pos ==> keys@[i as int] == k0[i as int] && values@[i as int] == v0[i as int],
                i < gap_pos ==> keys@[i as int] == k0[i as int] && values@[i as int] is None,
            decreases i,
        {
            let k = keys[i - 1];
            keys.set(i, k);
            let v = values[i - 1].take();
            values.set(i, v);
            i = i - 1;
        }
    } else {
        let mut i = gap_pos;
        while i < pos
            invariant
                gap_pos <= i <= pos < len,
                keys@.len() == len,
                values@.len() == len,
                k0.len() == len,
                v0.len() == len,
                forall|j: int| 0 <= j < len && !(gap_pos <= j < i) && j != i ==> keys@[j] == k0[j],
                forall|j: int| gap_pos <= j < i ==> keys@[j] == k0[j + 1],
                forall|j: int| 0 <= j < len && !(gap_pos <= j < i) && j != i ==> values@[j] == v0[j],
                forall|j: int| gap_pos <= j < i ==> values@[j] == v0[j + 1],
                i == gap_pos ==> keys@[i as int] == k0[i as int] && values@[i as int] == v0[i as int],
                i > gap_pos ==> keys@[i as int] == k0[i as int] && values@[i as int] is None,
            decreases pos - i,
        {
            let k = keys[i + 1];
            keys.set(i, k);
            let v = values[i + 1].take();
            values.set(i, v);
            i = i + 1;
        }
    }
    keys.set(pos, Some(key));
    values.set(pos, Some(value));
    proof {
        let g = gap_pos as int;
        assert(keys@ =~= shifted(k0, pos as int, g, Some(key)));
        assert(values@ =~= shifted(v0, pos as int, g, Some(value)));
    }
}

/// Lemma: the nearest gap of a position inside the array lies inside it.
proof fn lemma_nearest_gap_range(keys: Seq<Option<i64>>, pos: int, radius: int)
    requires
        0 <= pos < keys.len(),
        0 <= radius,
    ensures
        0 <= nearest_gap_from(keys, pos, radius) < keys.len(),
    decreases keys.len() - radius,
{
    if radius < keys.len() {
        lemma_nearest_gap_range(keys, pos, radius + 1);
    }
}

/// Whether the keys of the non-gap slots never decrease.
pub open spec fn keys_sorted(keys: Seq<Option<i64>>) -> bool {
    forall|i: int, j: int|
        0 <= i < j < keys.len() && (#[trigger] keys[i]) is Some && (#[trigger] keys[j]) is Some ==> keys[i]->0 <= keys[j]->0
}

/// Whether some slot holds `key`.
pub open spec fn holds_key(keys: Seq<Option<i64>>, key: i64) -> bool {
    exists|j: int| 0 <= j < keys.len() && keys[j] == Some(key)
}

/// Lemma: a first match is a slot of the range that holds the key.
proof fn lemma_first_match_sound(keys: Seq<Option<i64>>, start: int, end: int, key: i64)
    requires
        0 <= start,
        end <= keys.len(),
    ensures
        first_match(keys, start, end, key) matches Some(i) ==> start <= i < end && keys[i] == Some(key),
    decreases end - start,
{
    if start < end && keys[start] != Some(key) {
        lemma_first_match_sound(keys, start + 1, end, key);
    }
}

/// Lemma: a range with a slot holding the key has a first match.
proof fn lemma_first_match_complete(keys: Seq<Option<i64>>, start: int, end: int, key: i64, j: int)
    requires
        0 <= start <= j < end <= keys.len(),
        keys[j] == Some(key),
    ensures
        first_match(keys, start, end, key) is Some,
    decreases end - start,
{
    if keys[start] != Some(key) {
        lemma_first_match_complete(keys, start + 1, end, key, j);
    }
}

/// Lemma: the window an exponential search settles on is the whole array,
/// or a non-empty window inside it whose first and last slots bracket `key`.
proof fn lemma_search_window_shape(
    keys: Seq<Option<i64>>,
    key: i64,
    p: int,
    radius: int,
    max_radius: int,
    stop_at_whole: bool,
)
    requires
        0 <= p < keys.len(),
    ensures
        ({
            let w = search_window(keys, key, p, radius, max_radius, stop_at_whole);
            ||| w == (0int, keys.len() as int)
            ||| (0 <= w.0 < w.1 <= keys.len() && window_brackets(keys, key, w))
        }),
    decreases keys.len() + 1 - radius,
{
    let len = keys.len() as int;
    let w = window(len, p, radius);
    if radius >= 1 && !window_brackets(keys, key, w) && radius < max_radius && !(stop_at_whole && w.0 == 0
        && w.1 == len) && 2 * radius <= len {
        lemma_search_window_shape(keys, key, p, 2 * radius, max_radius, stop_at_whole);
    }
}

/// Law: an exponential search finds every key the leaf holds. When the
/// keys are in order among the non-gap slots and some slot holds `key`,
/// the window the search settles on has a slot holding `key`: a window that
/// its end keys bracket contains every slot whose key lies between them,
/// the end slots included.
pub proof fn law_exponential_search_finds_present_keys(
    keys: Seq<Option<i64>>,
    key: i64,
    p: int,
    max_error_bound: usize,
)
    requires
        0 <= p < keys.len(),
        keys_sorted(keys),
        holds_key(keys, key),
    ensures
        ({
            let w = search_window(keys, key, p, 1, max_radius(max_error_bound), true);
            first_match(keys, w.0, w.1, key) is Some
        }),
{
    let len = keys.len() as int;
    let w = search_window(keys, key, p, 1, max_radius(max_error_bound), true);
    lemma_search_window_shape(keys, key, p, 1, max_radius(max_error_bound), true);
    let j = choose|j: int| 0 <= j < keys.len() && keys[j] == Some(key);
    if w == (0int, len) {
        lemma_first_match_complete(keys, 0, len, key, j);
    } else {
        let lo = w.0;
        let hi = w.1 - 1;
        assert(pred_sat(w.1) == hi);
        assert(keys[lo] is Some && keys[hi] is Some);
        if j < lo {
            assert(keys[j]->0 <= keys[lo]->0);
            lemma_first_match_complete(keys, lo, w.1, key, lo);
        } else if j > hi {
            assert(keys[hi]->0 <= keys[j]->0);
            lemma_first_match_complete(keys, lo, w.1, key, hi);
        } else {
            lemma_first_match_complete(keys, lo, w.1, key, j);
        }
    }
}

/// Exponential search for `key` around the predicted slot `predicted_pos`:
/// the first slot holding `key` in the window the search settles on.
pub fn exponential_search(keys: &[Option<i64>], key: i64, predicted_pos: usize, max_error_bound: usize) -> (r: Option<usize>)
    requires
        predicted_pos < keys@.len(),
        keys@.len() <= usize::MAX / 4,
    ensures
        ({
            let w = search_window(keys@, key, predicted_pos as int, 1, max_radius(max_error_bound), true);
            match r {
                Some(i) => first_match(keys@, w.0, w.1, key) == Some(i as int),
                None => first_match(keys@, w.0, w.1, key) is None,
            }
        }),
        r matches Some(i) ==> i < keys@.len() && keys@[i as int] == Some(key),
        keys_sorted(keys@) && holds_key(keys@, key) ==> r is Some,
{
    let len = keys.len();
    let mut radius: usize = 1;
    let max_r = if max_error_bound > 16 {
        max_error_bound
    } else {
        16
    };
    let ghost target = search_window(keys@, key, predicted_pos as int, 1, max_radius(max_error_bound), true);
    proof {
        lemma_search_window_shape(keys@, key, predicted_pos as int, 1, max_radius(max_error_bound), true);
        lemma_first_match_sound(keys@, target.0, target.1, key);
        if keys_sorted(keys@) && holds_key(keys@, key) {
            law_exponential_search_finds_present_keys(keys@, key, predicted_pos as int, max_error_bound);
        }
    }
    loop
        invariant
            len == keys@.len(),
            len <= usize::MAX / 4,
            predicted_pos < len,
            1 <= radius <= len + 1,
            radius == 1 || radius <= len,
            max_r as int == max_radius(max_error_bound),
            search_window(keys@, key, predicted_pos as int, radius as int, max_r as int, true) == target,
            target == search_window(keys@, key, predicted_pos as int, 1, max_radius(max_error_bound), true),
            0 <= target.0,
            target.1 <= len,
            first_match(keys@, target.0, target.1, key) matches Some(i) ==> 0 <= i < len && keys@[i] == Some(key),
            keys_sorted(keys@) && holds_key(keys@, key) ==> first_match(keys@, target.0, target.1, key) is Some,
        decreases len + 1 - radius,
    {
        let start = if predicted_pos > radius {
            predicted_pos - radius
        } else {
            0
        };
        let end = if predicted_pos + radius < len {
            predicted_pos + radius
        } else {
            len
        };
        let start_key = get_key_at(keys, start);
        let end_key = get_key_at(keys, if end > 0 {
            end - 1
        } else {
            0
        });
        let can_bound = match (start_key, end_key) {
            (Some(sk), Some(ek)) => sk <= key && key <= ek,
            _ => false,
        };
        proof {
            assert(window(len as int, predicted_pos as int, radius as int) == (start as int, end as int));
            assert(window_brackets(keys@, key, (start as int, end as int)) == can_bound);
        }
        if can_bound {
            return binary_search_exact(keys, start, end, key);
        }
        if radius >= max_r {
            return binary_search_exact(keys, 0, len, key);
        }
        if start == 0 && end == len {
            return binary_search_exact(keys, 0, len, key);
        }
        if radius > len / 2 {
            return binary_search_exact(keys, 0, len, key);
        }
        radius = radius * 2;
    }
}

/// The slot where `key` should be inserted, searching exponentially around
/// the predicted slot `predicted_pos`; slot 0 in a leaf without keys.
pub fn find_insert_position(
    keys: &[Option<i64>],
    num_keys: usize,
    key: i64,
    predicted_pos: usize,
    max_error_bound: usize,
) -> (r: usize)
    requires
        predicted_pos < keys@.len(),
        keys@.len() <= usize::MAX / 4,
    ensures
        r == if num_keys == 0 {
            0
        } else {
            let w = search_window(keys@, key, predicted_pos as int, 1, max_radius(max_error_bound), false);
            gap_position(keys@, w.0, w.1, key)
        },
{
    if num_keys == 0 {
        return 0;
    }
    let len = keys.len();
    let mut radius: usize = 1;
    let max_r = if max_error_bound > 16 {
        max_error_bound
    } else {
        16
    };
    let ghost target = search_window(keys@, key, predicted_pos as int, 1, max_radius(max_error_bound), false);
    loop
        invariant
            len == keys@.len(),
            len <= usize::MAX / 4,
            predicted_pos < len,
            1 <= radius <= len + 1,
            radius == 1 || radius <= len,
            max_r as int == max_radius(max_error_bound),
            search_window(keys@, key, predicted_pos as int, radius as int, max_r as int, false) == target,
            num_keys != 0,
            target == search_window(keys@, key, predicted_pos as int, 1, max_radius(max_error_bound), false),
        decreases len + 1 - radius,
    {
        let start = if predicted_pos > radius {
            predicted_pos - radius
        } else {
            0
        };
        let end = if predicted_pos + radius < len {
            predicted_pos + radius
        } else {
            len
        };
        let start_key = get_key_at(keys, start);
        let end_key = get_key_at(keys, if end > 0 {
            end - 1
        } else {
            0
        });
        let can_bound = match (start_key, end_key) {
            (Some(sk), Some(ek)) => sk <= key && key <= ek,
            _ => false,
        };
        proof {
            assert(window(len as int, predicted_pos as int, radius as int) == (start as int, end as int));
            assert(window_brackets(keys@, key, (start as int, end as int)) == can_bound);
        }
        if can_bound {
            return binary_search_gap(keys, start, end, key);
        }
        if radius >= max_r {
            return binary_search_gap(keys, 0, len, key);
        }
        if radius > len / 2 {
            return binary_search_gap(keys, 0, len, key);
        }
        radius = radius * 2;
    }
}

/// The leaf of a single-level learned index that `key` belongs to, given
/// the split keys between leaves (leaf `i + 1` starts at `split_keys[i]`):
/// the number of split keys not above `key`.
pub fn find_leaf_index(split_keys: &[i64], key: i64) -> (r: usize)
    ensures
        r <= split_keys@.len(),
        (forall|i: int, j: int| 0 <= i <= j < split_keys@.len() ==> split_keys@[i] <= split_keys@[j]) ==> {
            &&& forall|i: int| 0 <= i < r ==> split_keys@[i] <= key
            &&& forall|i: int| r <= i < split_keys@.len() ==> split_keys@[i] > key
        },
{
    let mut lo: usize = 0;
    let mut hi: usize = split_keys.len();
    while lo < hi
        invariant
            lo <= hi <= split_keys@.len(),
            (forall|i: int, j: int| 0 <= i <= j < split_keys@.len() ==> split_keys@[i] <= split_keys@[j]) ==> {
                &&& forall|i: int| 0 <= i < lo ==> split_keys@[i] <= key
                &&& forall|i: int| hi <= i < split_keys@.len() ==> split_keys@[i] > key
            },
        decreases hi - lo,
    {
        let mid = lo + (hi - lo) / 2;
        if split_keys[mid] <= key {
            lo = mid + 1;
        } else {
            hi = mid;
        }
    }
    lo
}

/// The entries of a leaf, in key order, that a range scan over
/// `[start_key, end_key]` takes: the entries before the first key above
/// `end_key`, from `start_key` on.
pub open spec fn range_take(pairs: Seq<(i64, Seq<u8>)>, start_key: i64, end_key: i64) -> Seq<(i64, Seq<u8>)>
    decreases pairs.len(),
{
    if pairs.len() == 0 || pairs[0].0 > end_key {
        Seq::empty()
    } else if pairs[0].0 >= start_key {
        seq![pairs[0]] + range_take(pairs.skip(1), start_key, end_key)
    } else {
        range_take(pairs.skip(1), start_key, end_key)
    }
}

/// Whether a leaf holds a key above `end_key`, which ends a range scan.
pub open spec fn range_ends(pairs: Seq<(i64, Seq<u8>)>, end_key: i64) -> bool {
    exists|i: int| 0 <= i < pairs.len() && pairs[i].0 > end_key
}

/// The view of a leaf's entries.
pub open spec fn pairs_view(pairs: Seq<(i64, Vec<u8>)>) -> Seq<(i64, Seq<u8>)> {
    pairs.map_values(|p: (i64, Vec<u8>)| (p.0, p.1@))
}

/// Append to `results` the entries of one leaf (in key order) that a range
/// scan over `[start_key, end_key]` takes; returns whether the scan ends at
/// this leaf.
pub fn range_from_leaf(pairs: &[(i64, Vec<u8>)], start_key: i64, end_key: i64, results: &mut Vec<(i64, Vec<u8>)>) -> (stop: bool)
    ensures
        pairs_view(final(results)@) == pairs_view(old(results)@) + range_take(pairs_view(pairs@), start_key, end_key),
        stop == range_ends(pairs_view(pairs@), end_key),
{
    let ghost pv = pairs_view(pairs@);
    let ghost r0 = pairs_view(results@);
    let n = pairs.len();
    let mut i: usize = 0;
    proof {
        assert(pv.skip(0) =~= pv);
    }
    while i < n
        invariant
            n == pairs@.len(),
            pv == pairs_view(pairs@),
            pv.len() == n,
            r0 == pairs_view(old(results)@),
            i <= n,
            forall|j: int| 0 <= j < i ==> pv[j].0 <= end_key,
            pairs_view(results@) + range_take(pv.skip(i as int), start_key, end_key) == r0 + range_take(pv, start_key, end_key),
        decreases n - i,
    {
        let key = pairs[i].0;
        proof {
            assert(pv[i as int] == (pairs@[i as int].0, pairs@[i as int].1@));
            assert(pv.skip(i as int)[0] == pv[i as int]);
            assert(pv.skip(i as int).skip(1) =~= pv.skip(i + 1));
        }
        if key > end_key {
            proof {
                assert(range_take(pv.skip(i as int), start_key, end_key) =~= Seq::<(i64, Seq<u8>)>::empty());
                assert(pairs_view(results@) + Seq::<(i64, Seq<u8>)>::empty() =~= pairs_view(results@));
                assert(pairs_view(results@) =~= r0 + range_take(pv, start_key, end_key));
                assert(pv[i as int].0 > end_key);
            }
            return true;
        }
        if key >= start_key {
            let ghost before = results@;
            let v = copy_range(pairs[i].1.as_slice(), 0, pairs[i].1.len());
            proof {
                assert(v@ =~= pairs@[i as int].1@);
            }
            results.push((key, v));
            proof {
                assert(pairs_view(results@) =~= pairs_view(before) + seq![pv[i as int]]);
                assert(seq![pv[i as int]] + range_take(pv.skip(i + 1), start_key, end_key) =~= range_take(pv.skip(i as int), start_key, end_key));
                assert(pairs_view(before) + seq![pv[i as int]] + range_take(pv.skip(i + 1), start_key, end_key) =~= pairs_view(before) + (seq![pv[i as int]] + range_take(pv.skip(i + 1), start_key, end_key)));
            }
        }
        i = i + 1;
    }
    proof {
        assert(pv.skip(n as int) =~= Seq::<(i64, Seq<u8>)>::empty());
        assert(pairs_view(results@) =~= r0 + range_take(pv, start_key, end_key));
        assert(!range_ends(pv, end_key));
    }
    false
}

} // verus!
