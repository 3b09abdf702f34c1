//! Routing within a multi-level learned index: the shape of the tree and
//! the integer bookkeeping of its inner nodes (children and split keys).

use vstd::prelude::*;

verus! {

/// Minimum children per inner node.
pub const MIN_FANOUT: usize = 16;

/// Maximum children per inner node.
pub const MAX_FANOUT: usize = 256;

/// Default fanout when building a tree in bulk.
pub const BULK_BUILD_FANOUT: usize = 64;

/// Tree height for `num_keys` keys: 1 up to 10,000 keys, 2 up to
/// 10,000,000, else 3.
pub fn calculate_height(num_keys: usize) -> (r: usize)
    ensures
        r == if num_keys <= 10_000 {
            1usize
        } else if num_keys <= 10_000_000 {
            2usize
        } else {
            3usize
        },
{
    if num_keys <= 10_000 {
        1
    } else if num_keys <= 10_000_000 {
        2
    } else {
        3
    }
}

/// Fanout of an inner node with `num_children` children: at least
/// `MIN_FANOUT`, the child count up to `BULK_BUILD_FANOUT`, then
/// `BULK_BUILD_FANOUT` (within `MAX_FANOUT`).
pub fn calculate_fanout(num_children: usize) -> (r: usize)
    ensures
        r == if num_children <= MIN_FANOUT {
            MIN_FANOUT
        } else if num_children <= BULK_BUILD_FANOUT {
            num_children
        } else if BULK_BUILD_FANOUT < MAX_FANOUT {
            BULK_BUILD_FANOUT
        } else {
            MAX_FANOUT
        },
{
    if num_children <= MIN_FANOUT {
        MIN_FANOUT
    } else if num_children <= BULK_BUILD_FANOUT {
        num_children
    } else if BULK_BUILD_FANOUT < MAX_FANOUT {
        BULK_BUILD_FANOUT
    } else {
        MAX_FANOUT
    }
}

/// Size of the groups that `partition_leaves` makes: `ceil(n / fanout)`.
pub open spec fn group_size(n: int, fanout: int) -> int {
    (n + fanout - 1) / fanout
}

/// Split the leaves (first key, leaf index) into consecutive groups of
/// `ceil(n / fanout)` (the last one possibly shorter).
pub fn partition_leaves(leaves: &[(i64, usize)], fanout: usize) -> (groups: Vec<Vec<(i64, usize)>>)
    requires
        fanout > 0,
        leaves@.len() > 0,
        leaves@.len() + fanout <= usize::MAX,
    ensures
        ({
            let n = leaves@.len() as int;
            let c = group_size(n, fanout as int);
            &&& c > 0
            &&& groups@.len() == (n + c - 1) / c
            &&& forall|i: int|
                0 <= i < groups@.len() ==> (#[trigger] groups@[i])@ == leaves@.subrange(
                    i * c,
                    if (i + 1) * c < n {
                        (i + 1) * c
                    } else {
                        n
                    },
                )
        }),
{
    let n = leaves.len();
    let chunk_size = (n + fanout - 1) / fanout;
    proof {
        assert(chunk_size > 0) by (nonlinear_arith)
            requires
                n > 0,
                fanout > 0,
                chunk_size as int == (n as int + fanout as int - 1) / (fanout as int),
        ;
    }
    let mut groups: Vec<Vec<(i64, usize)>> = Vec::new();
    let mut start: usize = 0;
    let ghost c = chunk_size as int;
    proof {
        assert(groups@.len() * c == 0) by (nonlinear_arith)
            requires
                groups@.len() == 0,
        ;
    }
    while start < n
        invariant
            n == leaves@.len(),
            chunk_size == c,
            c > 0,
            start <= n,
            start == groups@.len() * c || start == n,
            start < n ==> start == groups@.len() * c,
            start == n ==> groups@.len() == (n + c - 1) / c,
            forall|i: int|
                0 <= i < groups@.len() ==> (#[trigger] groups@[i])@ == leaves@.subrange(
                    i * c,
                    if (i + 1) * c < n {
                        (i + 1) * c
                    } else {
                        n as int
                    },
                ),
        decreases n - start,
    {
        let end = if chunk_size < n - start {
            start + chunk_size
        } else {
            n
        };
        let mut group: Vec<(i64, usize)> = Vec::new();
        let mut j = start;
        while j < end
            invariant
                n == leaves@.len(),
                start <= j <= end <= n,
                group@ == leaves@.subrange(start as int, j as int),
            decreases end - j,
        {
            group.push(leaves[j]);
            proof {
                assert(leaves@.subrange(start as int, j + 1) =~= leaves@.subrange(start as int, j as int).push(leaves@[j as int]));
            }
            j = j + 1;
        }
        let ghost k = groups@.len() as int;
        groups.push(group);
        proof {
            assert((k + 1) * c == k * c + c) by (nonlinear_arith);
            assert(groups@[k]@ == leaves@.subrange(k * c, if (k + 1) * c < n { (k + 1) * c } else { n as int }));
            if end == n {
                assert((n + c - 1) / c == k + 1) by (nonlinear_arith)
                    requires
                        c > 0,
                        k * c < n,
                        n <= k * c + c,
                ;
            }
        }
        start = end;
    }
    groups
}

/// The first keys of the non-empty groups after the first.
pub open spec fn split_keys_of(groups: Seq<Seq<(i64, usize)>>, i: int) -> Seq<i64>
    decreases groups.len() - i,
{
    if i >= groups.len() || i < 0 {
        Seq::empty()
    } else if groups[i].len() > 0 {
        seq![groups[i][0].0] + split_keys_of(groups, i + 1)
    } else {
        split_keys_of(groups, i + 1)
    }
}

/// The views of a sequence of groups.
pub open spec fn groups_view(groups: Seq<Vec<(i64, usize)>>) -> Seq<Seq<(i64, usize)>> {
    groups.map_values(|g: Vec<(i64, usize)>| g@)
}

/// The split keys between groups: the first key of each non-empty group
/// after the first.
pub fn extract_split_keys(groups: &[Vec<(i64, usize)>]) -> (r: Vec<i64>)
    ensures
        r@ == split_keys_of(groups_view(groups@), 1),
{
    let ghost gv = groups_view(groups@);
    let mut keys: Vec<i64> = Vec::new();
    let n = groups.len();
    let mut i: usize = 1;
    if n == 0 {
        return keys;
    }
    while i < n
        invariant
            n == groups@.len(),
            gv == groups_view(groups@),
            1 <= i <= n,
            keys@ + split_keys_of(gv, i as int) == split_keys_of(gv, 1),
        decreases n - i,
    {
        proof {
            assert(gv[i as int] == groups@[i as int]@);
        }
        if groups[i].len() > 0 {
            let ghost before = keys@;
            keys.push(groups[i][0].0);
            proof {
                assert(keys@ + split_keys_of(gv, i + 1) =~= before + split_keys_of(gv, i as int));
            }
        }
        i = i + 1;
    }
    proof {
        assert(keys@ + split_keys_of(gv, n as int) =~= keys@);
    }
    keys
}

/// The child of an inner node that `key` goes to: the number of split keys
/// below `key`, at most the last child.
pub fn find_child(split_keys: &[i64], key: i64, num_children: usize) -> (r: usize)
    requires
        num_children > 0,
    ensures
        r < num_children,
        (forall|i: int, j: int| 0 <= i <= j < split_keys@.len() ==> split_keys@[i] <= split_keys@[j]) ==> {
            &&& forall|i: int| 0 <= i < r && i < split_keys@.len() ==> split_keys@[i] < key
            &&& r <= split_keys@.len()
            &&& r < num_children - 1 ==> forall|i: int| r <= i < split_keys@.len() ==> split_keys@[i] >= key
        },
{
    let mut lo: usize = 0;
    let mut hi: usize = split_keys.len();
    while lo < hi
        invariant
            lo <= hi <= split_keys@.len(),
            (forall|i: int, j: int| 0 <= i <= j < split_keys@.len() ==> split_keys@[i] <= split_keys@[j]) ==> {
                &&& forall|i: int| 0 <= i < lo ==> split_keys@[i] < key
                &&& forall|i: int| hi <= i < split_keys@.len() ==> split_keys@[i] >= key
            },
        decreases hi - lo,
    {
        let mid = lo + (hi - lo) / 2;
        if split_keys[mid] < key {
            lo = mid + 1;
        } else {
            hi = mid;
        }
    }
    if lo < num_children - 1 {
        lo
    } else {
        num_children - 1
    }
}

/// Record a split of leaf `old_leaf` into itself and `new_leaf` in an inner
/// node whose children are leaves: `new_leaf` goes right after `old_leaf`,
/// and `split_key` goes to the split keys at `old_leaf`'s position (or at
/// the end).
pub fn handle_leaf_split(indices: &mut Vec<usize>, split_keys: &mut Vec<i64>, old_leaf: usize, split_key: i64, new_leaf: usize)
    requires
        exists|i: int| 0 <= i < old(indices)@.len() && old(indices)@[i] == old_leaf,
    ensures
        exists|pos: int|
            #![trigger old(indices)@[pos]]
            {
                &&& 0 <= pos < old(indices)@.len()
                &&& old(indices)@[pos] == old_leaf
                &&& forall|q: int| 0 <= q < pos ==> old(indices)@[q] != old_leaf
                &&& final(indices)@ == old(indices)@.insert(pos + 1, new_leaf)
                &&& final(split_keys)@ == if pos < old(split_keys)@.len() {
                    old(split_keys)@.insert(pos, split_key)
                } else {
                    old(split_keys)@.push(split_key)
                }
            },
{
    let ghost s0 = indices@;
    let ghost k0 = split_keys@;
    let n = indices.len();
    let mut pos: usize = 0;
    while pos < n && indices[pos] != old_leaf
        invariant
            n == indices@.len(),
            indices@ == s0,
            pos <= n,
            forall|q: int| 0 <= q < pos ==> s0[q] != old_leaf,
            exists|i: int| 0 <= i < n && s0[i] == old_leaf,
        decreases n - pos,
    {
        pos = pos + 1;
    }
    indices.insert(pos + 1, new_leaf);
    if pos < split_keys.len() {
        split_keys.insert(pos, split_key);
    } else {
        split_keys.push(split_key);
    }
    proof {
        assert(s0[pos as int] == old_leaf);
    }
}

} // verus!
