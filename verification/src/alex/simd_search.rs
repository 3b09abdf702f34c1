//! Search for a key in a gapped array of `Option<i64>` slots.

use vstd::prelude::*;

verus! {

/// Searches for the first occurrence of `Some(key)` in the slice.
///
/// Returns `Some(index)` of the first matching slot, `None` if no slot holds the key.
pub fn simd_search_i64(keys: &[Option<i64>], key: i64) -> (r: Option<usize>)
    ensures
        match r {
            Some(i) => i < keys@.len() && keys@[i as int] == Some(key) && forall|j: int|
                0 <= j < i ==> keys@[j] != Some(key),
            None => forall|j: int| 0 <= j < keys@.len() ==> keys@[j] != Some(key),
        },
{
    let len = keys.len();
    let mut i: usize = 0;
    while i < len
        invariant
            len == keys@.len(),
            i <= len,
            forall|j: int| 0 <= j < i ==> keys@[j] != Some(key),
        decreases len - i,
    {
        match keys[i] {
            Some(k) => {
                if k == key {
                    return Some(i);
                }
            },
            None => {},
        }
        i = i + 1;
    }
    None
}

} // verus!
