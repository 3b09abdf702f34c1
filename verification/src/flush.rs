//! The sorted run that a memtable flush writes: the entries of every
//! partition, gathered and ordered by user key.

use vstd::prelude::*;
use vstd::multiset::Multiset;
use crate::btree::order::{bytes_lt, lex_lt, lemma_lex_irreflexive, lemma_lex_total, lemma_lex_transitive};
use crate::memtable::{Entry, EntryView, Memtable, scans, scan_view};

verus! {

/// A run of `(user key, entry)` pairs as byte strings.
pub type RunView = Seq<(Seq<u8>, EntryView)>;

/// Two runs merged by user key: the smaller head goes first, and on equal
/// keys the head of the first run goes first, so that merging keeps the
/// order of equal keys.
pub open spec fn merge_by_key(a: RunView, b: RunView) -> RunView
    decreases a.len() + b.len(),
{
    if a.len() == 0 {
        b
    } else if b.len() == 0 {
        a
    } else if lex_lt(b[0].0, a[0].0) {
        seq![b[0]] + merge_by_key(a, b.drop_first())
    } else {
        seq![a[0]] + merge_by_key(a.drop_first(), b)
    }
}

/// Runs merged by user key in their order: the first run with the second,
/// the result with the third, and so on.
pub open spec fn merged_runs(rs: Seq<RunView>) -> RunView
    decreases rs.len(),
{
    if rs.len() == 0 {
        Seq::empty()
    } else {
        merge_by_key(merged_runs(rs.drop_last()), rs.last())
    }
}

/// Whether the keys of `s` never decrease.
pub open spec fn keys_ordered(s: RunView) -> bool {
    forall|i: int, j: int| 0 <= i < j < s.len() ==> !lex_lt(#[trigger] s[j].0, #[trigger] s[i].0)
}

/// The items of `v`, last one first.
fn reversed<T>(v: Vec<T>) -> (r: Vec<T>)
    ensures
        r@ == v@.reverse(),
{
    let ghost orig = v@;
    let n = v.len();
    let mut v = v;
    let mut r: Vec<T> = Vec::new();
    while v.len() > 0
        invariant
            n == orig.len(),
            v@.len() <= n,
            v@ == orig.take(v@.len() as int),
            r@.len() == n - v@.len(),
            forall|t: int| 0 <= t < r@.len() ==> #[trigger] r@[t] == orig[n - 1 - t],
        decreases v@.len(),
    {
        let ghost before = v@;
        let x = v.pop().unwrap();
        proof {
            assert(x == orig[before.len() - 1]);
            assert(v@ =~= orig.take(v@.len() as int));
        }
        r.push(x);
    }
    proof {
        assert(r@ =~= orig.reverse());
    }
    r
}

/// Lemma: a run with its first `i` items dropped starts with item `i`, and
/// dropping one more item leaves the run with `i + 1` dropped.
proof fn lemma_skip_step(s: RunView, i: int)
    requires
        0 <= i < s.len(),
    ensures
        s.skip(i)[0] == s[i],
        s.skip(i).drop_first() == s.skip(i + 1),
        s.skip(i).len() == s.len() - i,
{
    assert(s.skip(i).drop_first() =~= s.skip(i + 1));
}

/// Merges two runs by user key, as `merge_by_key` states.
fn merge_two(a: Vec<(Vec<u8>, Entry)>, b: Vec<(Vec<u8>, Entry)>) -> (r: Vec<(Vec<u8>, Entry)>)
    ensures
        scan_view(r@) == merge_by_key(scan_view(a@), scan_view(b@)),
{
    let ghost av = scan_view(a@);
    let ghost bv = scan_view(b@);
    let na = a.len();
    let nb = b.len();
    let mut ra = reversed(a);
    let mut rb = reversed(b);
    let mut out: Vec<(Vec<u8>, Entry)> = Vec::new();
    let ghost mut i: int = 0;
    let ghost mut j: int = 0;
    proof {
        assert(av.skip(0) =~= av);
        assert(bv.skip(0) =~= bv);
        assert(scan_view(out@) =~= Seq::<(Seq<u8>, EntryView)>::empty());
    }
    while ra.len() > 0 || rb.len() > 0
        invariant
            av.len() == na,
            bv.len() == nb,
            0 <= i <= na,
            0 <= j <= nb,
            ra@.len() == na - i,
            rb@.len() == nb - j,
            forall|t: int| 0 <= t < ra@.len() ==> #[trigger] scan_view(ra@)[t] == av[na - 1 - t],
            forall|t: int| 0 <= t < rb@.len() ==> #[trigger] scan_view(rb@)[t] == bv[nb - 1 - t],
            merge_by_key(av, bv) == scan_view(out@) + merge_by_key(av.skip(i), bv.skip(j)),
        decreases ra@.len() + rb@.len(),
    {
        let ghost before = scan_view(out@);
        let take_b: bool;
        if ra.len() == 0 {
            take_b = true;
        } else if rb.len() == 0 {
            take_b = false;
        } else {
            let la = ra.len() - 1;
            let lb = rb.len() - 1;
            take_b = bytes_lt(rb[lb].0.as_slice(), ra[la].0.as_slice());
            proof {
                assert(scan_view(ra@)[la as int] == av[i]);
                assert(scan_view(rb@)[lb as int] == bv[j]);
            }
        }
        assert(take_b ==> rb@.len() > 0);
        assert(!take_b ==> ra@.len() > 0);
        if take_b {
            let ghost last = scan_view(rb@)[rb@.len() - 1];
            let ghost old_rb = scan_view(rb@);
            let x = rb.pop().unwrap();
            proof {
                assert(scan_view(rb@) =~= old_rb.drop_last());
                assert(last == bv[j]);
                lemma_skip_step(bv, j);
                if i < na {
                    lemma_skip_step(av, i);
                } else {
                    assert(av.skip(i).len() == 0);
                    assert(bv.skip(j) =~= seq![bv[j]] + bv.skip(j + 1));
                }
                assert(merge_by_key(av.skip(i), bv.skip(j)) == seq![bv[j]] + merge_by_key(av.skip(i), bv.skip(j + 1)));
            }
            out.push(x);
            proof {
                assert(scan_view(out@) =~= before.push(bv[j]));
                assert(scan_view(out@) + merge_by_key(av.skip(i), bv.skip(j + 1))
                    =~= before + (seq![bv[j]] + merge_by_key(av.skip(i), bv.skip(j + 1))));
                j = j + 1;
            }
        } else {
            let ghost last = scan_view(ra@)[ra@.len() - 1];
            let ghost old_ra = scan_view(ra@);
            let x = ra.pop().unwrap();
            proof {
                assert(scan_view(ra@) =~= old_ra.drop_last());
                assert(last == av[i]);
                lemma_skip_step(av, i);
                if j < nb {
                    lemma_skip_step(bv, j);
                } else {
                    assert(bv.skip(j).len() == 0);
                    assert(av.skip(i) =~= seq![av[i]] + av.skip(i + 1));
                }
                assert(merge_by_key(av.skip(i), bv.skip(j)) == seq![av[i]] + merge_by_key(av.skip(i + 1), bv.skip(j)));
            }
            out.push(x);
            proof {
                assert(scan_view(out@) =~= before.push(av[i]));
                assert(scan_view(out@) + merge_by_key(av.skip(i + 1), bv.skip(j))
                    =~= before + (seq![av[i]] + merge_by_key(av.skip(i + 1), bv.skip(j))));
                i = i + 1;
            }
        }
    }
    proof {
        assert(av.skip(i).len() == 0);
        assert(bv.skip(j).len() == 0);
        assert(merge_by_key(av.skip(i), bv.skip(j)) == bv.skip(j));
        assert(scan_view(out@) + bv.skip(j) =~= scan_view(out@));
    }
    out
}

/// The views of a list of runs.
pub open spec fn runs_view(runs: Seq<Vec<(Vec<u8>, Entry)>>) -> Seq<RunView> {
    runs.map_values(|v: Vec<(Vec<u8>, Entry)>| scan_view(v@))
}

/// Merges runs by user key in their order, as `merged_runs` states.
pub fn merge_runs(runs: Vec<Vec<(Vec<u8>, Entry)>>) -> (r: Vec<(Vec<u8>, Entry)>)
    ensures
        scan_view(r@) == merged_runs(runs_view(runs@)),
{
    let ghost rv = runs_view(runs@);
    let n = runs.len();
    let mut rest = reversed(runs);
    let mut acc: Vec<(Vec<u8>, Entry)> = Vec::new();
    proof {
        assert(rv.take(0) =~= Seq::<RunView>::empty());
        assert(scan_view(acc@) =~= Seq::<(Seq<u8>, EntryView)>::empty());
    }
    while rest.len() > 0
        invariant
            rv.len() == n,
            rest@.len() <= n,
            forall|t: int| 0 <= t < rest@.len() ==> scan_view(#[trigger] rest@[t]@) == rv[n - 1 - t],
            scan_view(acc@) == merged_runs(rv.take(n - rest@.len())),
        decreases rest@.len(),
    {
        let ghost i = n - rest@.len();
        let ghost before = rest@;
        let run = rest.pop().unwrap();
        proof {
            assert(run == before[before.len() - 1]);
            assert(scan_view(run@) == rv[i]);
            assert(rv.take(i + 1).drop_last() =~= rv.take(i));
            assert(rv.take(i + 1).last() == rv[i]);
            assert forall|t: int| 0 <= t < rest@.len() implies scan_view(#[trigger] rest@[t]@) == rv[n - 1 - t] by {
                assert(rest@[t] == before[t]);
            }
        }
        acc = merge_two(acc, run);
    }
    proof {
        assert(rv.take(n as int) =~= rv);
    }
    acc
}

/// The run a flush of `partitions` writes: each partition's entries, as
/// `iter_entries` lists them, merged by user key in partition order.
pub fn flush_run(partitions: &[Memtable]) -> (r: Vec<(Vec<u8>, Entry)>)
    ensures
        exists|rs: Seq<RunView>| {
            &&& rs.len() == partitions@.len()
            &&& forall|i: int| 0 <= i < rs.len() ==> scans(#[trigger] rs[i], partitions@[i].entries(), Seq::<u8>::empty(), None)
            &&& scan_view(r@) == merged_runs(rs)
            &&& keys_ordered(scan_view(r@))
            &&& scan_view(r@).to_multiset() == runs_multiset(rs)
        },
{
    let mut runs: Vec<Vec<(Vec<u8>, Entry)>> = Vec::new();
    let mut i: usize = 0;
    while i < partitions.len()
        invariant
            i <= partitions@.len(),
            runs@.len() == i,
            forall|t: int| 0 <= t < i ==> scans(#[trigger] runs_view(runs@)[t], partitions@[t].entries(), Seq::<u8>::empty(), None),
        decreases partitions@.len() - i,
    {
        let run = partitions[i].iter_entries();
        let ghost before = runs@;
        runs.push(run);
        proof {
            assert forall|t: int| 0 <= t < i + 1 implies scans(#[trigger] runs_view(runs@)[t], partitions@[t].entries(), Seq::<u8>::empty(), None) by {
                if t < i {
                    assert(runs@[t] == before[t]);
                    assert(runs_view(before)[t] == runs_view(runs@)[t]);
                } else {
                    assert(runs_view(runs@)[t] == scan_view(runs@[t]@));
                }
            }
        }
        i = i + 1;
    }
    let ghost rs = runs_view(runs@);
    let r = merge_runs(runs);
    proof {
        assert(rs.len() == partitions@.len());
        assert forall|i: int| 0 <= i < rs.len() implies keys_ordered(#[trigger] rs[i]) by {
            assert forall|a: int, b: int| 0 <= a < b < rs[i].len() implies !lex_lt(#[trigger] rs[i][b].0, #[trigger] rs[i][a].0) by {
                lemma_lex_total(rs[i][a].0, rs[i][b].0);
            }
        }
        law_flush_ordered(rs);
        law_flush_keeps_pairs(rs);
    }
    r
}

/// The pairs of all runs together, counted with repetition.
pub open spec fn runs_multiset(rs: Seq<RunView>) -> Multiset<(Seq<u8>, EntryView)>
    decreases rs.len(),
{
    if rs.len() == 0 {
        Multiset::empty()
    } else {
        runs_multiset(rs.drop_last()).add(rs.last().to_multiset())
    }
}

/// Lemma: merging two runs keeps every pair of both, each as often as it
/// occurs, and adds none.
pub proof fn lemma_merge_keeps_pairs(a: RunView, b: RunView)
    ensures
        merge_by_key(a, b).to_multiset() == a.to_multiset().add(b.to_multiset()),
    decreases a.len() + b.len(),
{
    broadcast use vstd::multiset::group_multiset_axioms;
    broadcast use vstd::seq_lib::group_to_multiset_ensures;
    broadcast use vstd::seq_lib::lemma_multiset_commutative;
    if a.len() == 0 {
        assert(a.to_multiset() =~= Multiset::empty());
        assert(a.to_multiset().add(b.to_multiset()) =~= b.to_multiset());
    } else if b.len() == 0 {
        assert(b.to_multiset() =~= Multiset::empty());
        assert(a.to_multiset().add(b.to_multiset()) =~= a.to_multiset());
    } else if lex_lt(b[0].0, a[0].0) {
        lemma_merge_keeps_pairs(a, b.drop_first());
        assert(b =~= seq![b[0]] + b.drop_first());
        assert((seq![b[0]] + merge_by_key(a, b.drop_first())).to_multiset()
            =~= seq![b[0]].to_multiset().add(merge_by_key(a, b.drop_first()).to_multiset()));
        assert((seq![b[0]] + b.drop_first()).to_multiset()
            =~= seq![b[0]].to_multiset().add(b.drop_first().to_multiset()));
        assert(merge_by_key(a, b).to_multiset() =~= a.to_multiset().add(b.to_multiset()));
    } else {
        lemma_merge_keeps_pairs(a.drop_first(), b);
        assert(a =~= seq![a[0]] + a.drop_first());
        assert((seq![a[0]] + merge_by_key(a.drop_first(), b)).to_multiset()
            =~= seq![a[0]].to_multiset().add(merge_by_key(a.drop_first(), b).to_multiset()));
        assert((seq![a[0]] + a.drop_first()).to_multiset()
            =~= seq![a[0]].to_multiset().add(a.drop_first().to_multiset()));
        assert(merge_by_key(a, b).to_multiset() =~= a.to_multiset().add(b.to_multiset()));
    }
}

/// Lemma: a pair of a merge comes from one of the two runs.
proof fn lemma_merge_from(a: RunView, b: RunView, x: (Seq<u8>, EntryView))
    requires
        merge_by_key(a, b).contains(x),
    ensures
        a.contains(x) || b.contains(x),
{
    broadcast use vstd::multiset::group_multiset_axioms;
    broadcast use vstd::seq_lib::group_to_multiset_ensures;
    lemma_merge_keeps_pairs(a, b);
    assert(merge_by_key(a, b).to_multiset().count(x) > 0);
}

/// Lemma: merging two runs whose keys never decrease gives such a run.
pub proof fn lemma_merge_ordered(a: RunView, b: RunView)
    requires
        keys_ordered(a),
        keys_ordered(b),
    ensures
        keys_ordered(merge_by_key(a, b)),
    decreases a.len() + b.len(),
{
    if a.len() == 0 || b.len() == 0 {
    } else {
        let take_b = lex_lt(b[0].0, a[0].0);
        let h = if take_b { b[0] } else { a[0] };
        let ra = if take_b { a } else { a.drop_first() };
        let rb = if take_b { b.drop_first() } else { b };
        assert(keys_ordered(ra));
        assert(keys_ordered(rb));
        lemma_merge_ordered(ra, rb);
        let t = merge_by_key(ra, rb);
        assert(merge_by_key(a, b) == seq![h] + t);
        assert forall|x: (Seq<u8>, EntryView)| #[trigger] t.contains(x) implies !lex_lt(x.0, h.0) by {
            lemma_merge_from(ra, rb, x);
            if ra.contains(x) {
                let p = choose|p: int| 0 <= p < ra.len() && ra[p] == x;
                let q = if take_b { p } else { p + 1 };
                assert(a[q] == x);
                if q > 0 {
                    assert(!lex_lt(a[q].0, a[0].0));
                }
                if take_b && lex_lt(x.0, h.0) {
                    lemma_lex_transitive(x.0, b[0].0, a[0].0);
                    lemma_lex_irreflexive(a[0].0);
                }
            } else {
                let p = choose|p: int| 0 <= p < rb.len() && rb[p] == x;
                let q = if take_b { p + 1 } else { p };
                assert(b[q] == x);
                if q > 0 {
                    assert(!lex_lt(b[q].0, b[0].0));
                }
                if !take_b && lex_lt(x.0, h.0) {
                    lemma_lex_total(x.0, b[0].0);
                    if lex_lt(b[0].0, x.0) {
                        lemma_lex_transitive(b[0].0, x.0, a[0].0);
                    }
                }
            }
        }
        let m = merge_by_key(a, b);
        assert forall|i: int, j: int| 0 <= i < j < m.len() implies !lex_lt(#[trigger] m[j].0, #[trigger] m[i].0) by {
            if i == 0 {
                assert(t.contains(m[j]));
                assert(m[j] == t[j - 1]);
            } else {
                assert(m[i] == t[i - 1] && m[j] == t[j - 1]);
            }
        }
    }
}

/// Law: the run a flush writes keeps every pair of every partition's run,
/// each as often as it occurs, and adds none.
pub proof fn law_flush_keeps_pairs(rs: Seq<RunView>)
    ensures
        merged_runs(rs).to_multiset() == runs_multiset(rs),
    decreases rs.len(),
{
    broadcast use vstd::multiset::group_multiset_axioms;
    broadcast use vstd::seq_lib::group_to_multiset_ensures;
    if rs.len() == 0 {
        assert(Seq::<(Seq<u8>, EntryView)>::empty().to_multiset() =~= Multiset::empty());
    } else {
        law_flush_keeps_pairs(rs.drop_last());
        lemma_merge_keeps_pairs(merged_runs(rs.drop_last()), rs.last());
    }
}

/// Law: when each partition's run lists keys in order, so does the run a
/// flush writes.
pub proof fn law_flush_ordered(rs: Seq<RunView>)
    requires
        forall|i: int| 0 <= i < rs.len() ==> keys_ordered(#[trigger] rs[i]),
    ensures
        keys_ordered(merged_runs(rs)),
    decreases rs.len(),
{
    if rs.len() > 0 {
        assert forall|i: int| 0 <= i < rs.drop_last().len() implies keys_ordered(#[trigger] rs.drop_last()[i]) by {
            assert(rs.drop_last()[i] == rs[i]);
        }
        law_flush_ordered(rs.drop_last());
        assert(keys_ordered(rs[rs.len() - 1]));
        lemma_merge_ordered(merged_runs(rs.drop_last()), rs.last());
    }
}

} // verus!
