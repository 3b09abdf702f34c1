//! Merging the entries of several SSTables for compaction: every key once,
//! in increasing order, with its newest version (or what a compaction
//! filter makes of all its versions).

use vstd::prelude::*;
use std::sync::Arc;
use crate::btree::order::{lex_lt, bytes_lt, bytes_eq, lemma_lex_transitive, lemma_lex_total, lemma_lex_irreflexive};
use crate::compaction::filter::{CompactionFilter, FilterDecision, FilterDecisionView, decision_view, opt_bytes, values_view};
use crate::codec::{append_bytes, copy_range};

verus! {

/// Marker byte in front of a value stored inline in an SSTable.
pub const FLAG_INLINE: u8 = 1;

/// The entries of one source as byte strings.
pub open spec fn entries_view(es: Seq<(Vec<u8>, Vec<u8>)>) -> Seq<(Seq<u8>, Seq<u8>)> {
    es.map_values(|e: (Vec<u8>, Vec<u8>)| (e.0@, e.1@))
}

/// The entries of every source as byte strings.
pub open spec fn sources_view(srcs: Seq<Vec<(Vec<u8>, Vec<u8>)>>) -> Seq<Seq<(Seq<u8>, Seq<u8>)>> {
    srcs.map_values(|s: Vec<(Vec<u8>, Vec<u8>)>| entries_view(s@))
}

/// Every entry, the newest (last) source first, each source in its own order.
pub open spec fn newest_first(srcs: Seq<Seq<(Seq<u8>, Seq<u8>)>>) -> Seq<(Seq<u8>, Seq<u8>)>
    decreases srcs.len(),
{
    if srcs.len() == 0 {
        Seq::empty()
    } else {
        srcs.last() + newest_first(srcs.drop_last())
    }
}

/// The values stored under `key`, in the order of `es`.
pub open spec fn versions(es: Seq<(Seq<u8>, Seq<u8>)>, key: Seq<u8>) -> Seq<Seq<u8>>
    decreases es.len(),
{
    if es.len() == 0 {
        Seq::empty()
    } else {
        let prev = versions(es.drop_last(), key);
        if es.last().0 == key {
            prev.push(es.last().1)
        } else {
            prev
        }
    }
}

/// The versions of a group as byte strings.
pub open spec fn group_view(g: (Vec<u8>, Vec<Vec<u8>>)) -> (Seq<u8>, Seq<Seq<u8>>) {
    (g.0@, g.1@.map_values(|v: Vec<u8>| v@))
}

/// The groups as byte strings.
pub open spec fn groups_view(gs: Seq<(Vec<u8>, Vec<Vec<u8>>)>) -> Seq<(Seq<u8>, Seq<Seq<u8>>)> {
    gs.map_values(|g: (Vec<u8>, Vec<Vec<u8>>)| group_view(g))
}

/// Whether the first components strictly increase.
pub open spec fn keys_increase<T>(s: Seq<(Seq<u8>, T)>) -> bool {
    forall|i: int, j: int| 0 <= i < j < s.len() ==> lex_lt(#[trigger] s[i].0, #[trigger] s[j].0)
}

/// Whether some element of `s` has the first component `key`.
pub open spec fn has_key<T>(s: Seq<(Seq<u8>, T)>, key: Seq<u8>) -> bool {
    exists|i: int| 0 <= i < s.len() && #[trigger] s[i].0 == key
}

/// Whether `groups` lists each key of `es` once, in increasing order, each
/// with all its versions in the order of `es`.
pub open spec fn grouped(groups: Seq<(Seq<u8>, Seq<Seq<u8>>)>, es: Seq<(Seq<u8>, Seq<u8>)>) -> bool {
    &&& keys_increase(groups)
    &&& forall|i: int| 0 <= i < groups.len() ==> #[trigger] groups[i].1 == versions(es, groups[i].0)
    &&& forall|i: int| 0 <= i < groups.len() ==> (#[trigger] groups[i]).1.len() > 0
    &&& forall|k: Seq<u8>| #[trigger] versions(es, k).len() > 0 ==> has_key(groups, k)
}

/// Lemma: appending an entry adds its value to the versions of its key only.
proof fn lemma_versions_push(es: Seq<(Seq<u8>, Seq<u8>)>, e: (Seq<u8>, Seq<u8>), k: Seq<u8>)
    ensures
        versions(es.push(e), k) == (if e.0 == k { versions(es, k).push(e.1) } else { versions(es, k) }),
{
    assert(es.push(e).drop_last() =~= es);
}

/// Lemma: the entries of `a + b`, newest source first, once the newest
/// source of `a + b` is taken off.
proof fn lemma_newest_first_step(srcs: Seq<Seq<(Seq<u8>, Seq<u8>)>>)
    requires
        srcs.len() > 0,
    ensures
        newest_first(srcs) == srcs.last() + newest_first(srcs.drop_last()),
{
}

/// Lemma: the versions in two runs of entries are those of the first run,
/// then those of the second.
proof fn lemma_versions_append(a: Seq<(Seq<u8>, Seq<u8>)>, b: Seq<(Seq<u8>, Seq<u8>)>, k: Seq<u8>)
    ensures
        versions(a + b, k) == versions(a, k) + versions(b, k),
    decreases b.len(),
{
    if b.len() == 0 {
        assert(a + b =~= a);
        assert(versions(a, k) + versions(b, k) =~= versions(a, k));
    } else {
        assert((a + b).drop_last() =~= a + b.drop_last());
        assert((a + b).last() == b.last());
        lemma_versions_append(a, b.drop_last(), k);
        if b.last().0 == k {
            assert(versions(a, k) + versions(b.drop_last(), k).push(b.last().1) =~= (versions(a, k)
                + versions(b.drop_last(), k)).push(b.last().1));
        }
    }
}

/// Lemma: entries that never hold `k` give it no versions.
proof fn lemma_versions_absent(a: Seq<(Seq<u8>, Seq<u8>)>, k: Seq<u8>)
    requires
        forall|j: int| 0 <= j < a.len() ==> (#[trigger] a[j]).0 != k,
    ensures
        versions(a, k) == Seq::<Seq<u8>>::empty(),
    decreases a.len(),
{
    if a.len() > 0 {
        lemma_versions_absent(a.drop_last(), k);
    }
}

/// Law: a key that the newest source holds is merged to the first value
/// that source holds for it, whatever the older sources hold.
pub proof fn law_newest_source_wins(
    srcs: Seq<Seq<(Seq<u8>, Seq<u8>)>>,
    out: Seq<(Seq<u8>, Seq<u8>)>,
    i: int,
)
    requires
        srcs.len() > 0,
        0 <= i < srcs.last().len(),
        forall|j: int| 0 <= j < i ==> (#[trigger] srcs.last()[j]).0 != srcs.last()[i].0,
        keeps_newest(out, newest_first(srcs)),
    ensures
        exists|t: int| 0 <= t < out.len() && out[t] == srcs.last()[i],
{
    let last = srcs.last();
    let k = last[i].0;
    let es = newest_first(srcs);
    let rest = newest_first(srcs.drop_last());
    assert(es == last + rest);
    lemma_versions_append(last, rest, k);
    let head = last.take(i);
    let mid = seq![last[i]];
    let tail = last.skip(i + 1);
    assert(last =~= head + mid + tail);
    lemma_versions_append(head + mid, tail, k);
    lemma_versions_append(head, mid, k);
    assert forall|j: int| 0 <= j < head.len() implies (#[trigger] head[j]).0 != k by {
        assert(head[j] == last[j]);
    }
    lemma_versions_absent(head, k);
    assert(mid.drop_last() =~= Seq::<(Seq<u8>, Seq<u8>)>::empty());
    assert(mid.last() == last[i]);
    assert(versions(mid.drop_last(), k) =~= Seq::<Seq<u8>>::empty());
    assert(versions(mid, k) =~= seq![last[i].1]);
    let vs = versions(es, k);
    assert(vs =~= Seq::<Seq<u8>>::empty() + seq![last[i].1] + versions(tail, k) + versions(rest, k));
    assert(vs[0] == last[i].1);
    assert(versions(es, k).len() > 0);
    assert(has_key(out, k));
    let t = choose|t: int| 0 <= t < out.len() && #[trigger] out[t].0 == k;
    assert(out[t].1 == vs[0]);
    assert(out[t] == last[i]);
}

/// Position of the first group whose key is not below `key`.
fn lower_bound(groups: &Vec<(Vec<u8>, Vec<Vec<u8>>)>, key: &[u8]) -> (p: usize)
    requires
        keys_increase(groups_view(groups@)),
    ensures
        p <= groups@.len(),
        forall|j: int| 0 <= j < p ==> lex_lt(#[trigger] groups_view(groups@)[j].0, key@),
        forall|j: int| p <= j < groups@.len() ==> !lex_lt(#[trigger] groups_view(groups@)[j].0, key@),
{
    let ghost gv = groups_view(groups@);
    let mut lo: usize = 0;
    let mut hi: usize = groups.len();
    while lo < hi
        invariant
            gv == groups_view(groups@),
            keys_increase(gv),
            gv.len() == groups@.len(),
            lo <= hi <= groups@.len(),
            forall|j: int| 0 <= j < lo ==> lex_lt(#[trigger] gv[j].0, key@),
            forall|j: int| hi <= j < gv.len() ==> !lex_lt(#[trigger] gv[j].0, key@),
        decreases hi - lo,
    {
        let mid = lo + (hi - lo) / 2;
        assert(gv[mid as int].0 == groups@[mid as int].0@);
        if bytes_lt(groups[mid].0.as_slice(), key) {
            assert forall|j: int| 0 <= j <= mid implies lex_lt(#[trigger] gv[j].0, key@) by {
                if j < mid {
                    lemma_lex_transitive(gv[j].0, gv[mid as int].0, key@);
                }
            }
            lo = mid + 1;
        } else {
            assert forall|j: int| mid <= j < gv.len() implies !lex_lt(#[trigger] gv[j].0, key@) by {
                if j > mid && lex_lt(gv[j].0, key@) {
                    lemma_lex_transitive(gv[mid as int].0, gv[j].0, key@);
                }
            }
            hi = mid;
        }
    }
    lo
}

/// Adds `value` as the newest-so-far last version of `key`.
fn add_version(
    groups: &mut Vec<(Vec<u8>, Vec<Vec<u8>>)>,
    key: Vec<u8>,
    value: Vec<u8>,
    Ghost(es): Ghost<Seq<(Seq<u8>, Seq<u8>)>>,
)
    requires
        grouped(groups_view(old(groups)@), es),
    ensures
        grouped(groups_view(final(groups)@), es.push((key@, value@))),
{
    let ghost gv = groups_view(groups@);
    let ghost e = (key@, value@);
    let ghost es2 = es.push(e);
    let p = lower_bound(groups, key.as_slice());
    if p < groups.len() && bytes_eq(groups[p].0.as_slice(), key.as_slice()) {
        let ghost old_g = groups@[p as int];
        groups[p].1.push(value);
        proof {
            let gv2 = groups_view(groups@);
            assert(groups@[p as int].1@ == old_g.1@.push(value));
            assert(groups@[p as int].1@.map_values(|v: Vec<u8>| v@) =~= old_g.1@.map_values(|v: Vec<u8>| v@).push(value@));
            assert(gv2 =~= gv.update(p as int, (key@, gv[p as int].1.push(value@))));
            assert forall|i: int| 0 <= i < gv2.len() implies #[trigger] gv2[i].1 == versions(es2, gv2[i].0) by {
                lemma_versions_push(es, e, gv2[i].0);
                if i != p {
                    if gv[i].0 == key@ {
                        if i < p {
                            lemma_lex_irreflexive(key@);
                        } else {
                            lemma_lex_irreflexive(key@);
                        }
                    }
                }
            }
            assert forall|i: int| 0 <= i < gv2.len() implies (#[trigger] gv2[i]).1.len() > 0 by {
                assert(gv[i].1.len() > 0);
            }
            assert forall|k: Seq<u8>| #[trigger] versions(es2, k).len() > 0 implies has_key(gv2, k) by {
                lemma_versions_push(es, e, k);
                if k == key@ {
                    assert(gv2[p as int].0 == k);
                } else {
                    assert(has_key(gv, k));
                    let i = choose|i: int| 0 <= i < gv.len() && #[trigger] gv[i].0 == k;
                    assert(gv2[i].0 == k);
                }
            }
        }
    } else {
        proof {
            assert forall|j: int| 0 <= j < gv.len() implies #[trigger] gv[j].0 != key@ by {
                if j < p {
                    lemma_lex_irreflexive(key@);
                } else if j == p {
                } else {
                    lemma_lex_total(gv[p as int].0, key@);
                    if gv[j].0 == key@ {
                        lemma_lex_transitive(key@, gv[p as int].0, gv[j].0);
                        lemma_lex_irreflexive(key@);
                    }
                }
            }
            if versions(es, key@).len() > 0 {
                assert(has_key(gv, key@));
            }
        }
        let mut vs: Vec<Vec<u8>> = Vec::new();
        vs.push(value);
        let ghost vs_view = vs@.map_values(|v: Vec<u8>| v@);
        groups.insert(p, (key, vs));
        proof {
            let gv2 = groups_view(groups@);
            assert(vs_view =~= seq![value@]);
            assert(gv2 =~= gv.insert(p as int, (key@, seq![value@])));
            assert(keys_increase(gv2)) by {
                assert forall|i: int, j: int| 0 <= i < j < gv2.len() implies lex_lt(#[trigger] gv2[i].0, #[trigger] gv2[j].0) by {
                    if j < p {
                    } else if j == p {
                    } else if i < p {
                        assert(gv2[i] == gv[i] && gv2[j] == gv[j - 1]);
                    } else if i == p {
                        lemma_lex_total(gv[p as int].0, key@);
                        if j - 1 > p {
                            lemma_lex_transitive(key@, gv[p as int].0, gv[j - 1].0);
                        }
                    } else {
                    }
                }
            }
            assert forall|i: int| 0 <= i < gv2.len() implies #[trigger] gv2[i].1 == versions(es2, gv2[i].0) by {
                lemma_versions_push(es, e, gv2[i].0);
                if i == p {
                    assert(versions(es, key@) =~= Seq::<Seq<u8>>::empty());
                } else if i < p {
                    assert(gv2[i] == gv[i]);
                } else {
                    assert(gv2[i] == gv[i - 1]);
                }
            }
            assert forall|i: int| 0 <= i < gv2.len() implies (#[trigger] gv2[i]).1.len() > 0 by {
                if i < p {
                    assert(gv2[i] == gv[i]);
                } else if i > p {
                    assert(gv2[i] == gv[i - 1]);
                }
            }
            assert forall|k: Seq<u8>| #[trigger] versions(es2, k).len() > 0 implies has_key(gv2, k) by {
                lemma_versions_push(es, e, k);
                if k == key@ {
                    assert(gv2[p as int].0 == k);
                } else {
                    assert(has_key(gv, k));
                    let i = choose|i: int| 0 <= i < gv.len() && #[trigger] gv[i].0 == k;
                    if i < p {
                        assert(gv2[i].0 == k);
                    } else {
                        assert(gv2[i + 1].0 == k);
                    }
                }
            }
        }
    }
}

/// Groups the entries of all sources by key: each key once, in increasing
/// order, with its values newest first (the last source first, each source
/// in its own order).
pub fn group_versions(sources: Vec<Vec<(Vec<u8>, Vec<u8>)>>) -> (r: Vec<(Vec<u8>, Vec<Vec<u8>>)>)
    ensures
        grouped(groups_view(r@), newest_first(sources_view(sources@))),
{
    let ghost all = newest_first(sources_view(sources@));
    let mut sources = sources;
    let mut groups: Vec<(Vec<u8>, Vec<Vec<u8>>)> = Vec::new();
    let ghost mut done: Seq<(Seq<u8>, Seq<u8>)> = Seq::empty();
    proof {
        assert(done + all =~= all);
        assert forall|k: Seq<u8>| #[trigger] versions(done, k).len() > 0 implies has_key(groups_view(groups@), k) by {
        }
    }
    while sources.len() > 0
        invariant
            done + newest_first(sources_view(sources@)) == all,
            grouped(groups_view(groups@), done),
        decreases sources@.len(),
    {
        let ghost before = sources@;
        let src = sources.pop().unwrap();
        let ghost src_v = entries_view(src@);
        proof {
            assert(sources_view(before).drop_last() =~= sources_view(sources@));
            assert(sources_view(before).last() == src_v);
            lemma_newest_first_step(sources_view(before));
            assert(done + src_v + newest_first(sources_view(sources@)) =~= all);
        }
        let ghost done0 = done;
        for e in it: src
            invariant
                done0 + src_v + newest_first(sources_view(sources@)) == all,
                src_v == entries_view(it.seq()),
                done == done0 + src_v.take(it.index()),
                grouped(groups_view(groups@), done),
        {
            let (k, v) = e;
            proof {
                assert(it.seq()[it.index() as int] == (k, v));
            }
            add_version(&mut groups, k, v, Ghost(done));
            proof {
                assert(src_v[it.index() as int] == (k@, v@));
                assert(src_v.take(it.index() + 1) =~= src_v.take(it.index() as int).push((k@, v@)));
                done = done.push((k@, v@));
            }
        }
        proof {
            assert(src_v.take(src_v.len() as int) =~= src_v);
            assert(done0 + src_v + newest_first(sources_view(sources@)) =~= done + newest_first(sources_view(sources@)));
        }
    }
    proof {
        assert(sources_view(sources@) =~= Seq::<Seq<(Seq<u8>, Seq<u8>)>>::empty());
        assert(done + newest_first(sources_view(sources@)) =~= done);
    }
    groups
}

/// Whether `out` holds each key of `es` once, in increasing order, with its
/// first version in `es`.
pub open spec fn keeps_newest(out: Seq<(Seq<u8>, Seq<u8>)>, es: Seq<(Seq<u8>, Seq<u8>)>) -> bool {
    &&& keys_increase(out)
    &&& forall|i: int| 0 <= i < out.len() ==> versions(es, (#[trigger] out[i]).0).len() > 0
    &&& forall|i: int| 0 <= i < out.len() ==> (#[trigger] out[i]).1 == versions(es, out[i].0)[0]
    &&& forall|k: Seq<u8>| #[trigger] versions(es, k).len() > 0 ==> has_key(out, k)
}

/// The value a key keeps before filtering: the merged value marked inline,
/// or else the newest version.
pub open spec fn resolved_value(newest: Seq<u8>, merged: Option<Seq<u8>>) -> Seq<u8> {
    match merged {
        Some(m) => seq![FLAG_INLINE] + m,
        None => newest,
    }
}

/// What a filter decision makes of a key and its value: the pair as it is,
/// nothing, or the key with the new value marked inline.
pub open spec fn decided_entry(key: Seq<u8>, value: Seq<u8>, d: FilterDecisionView) -> Option<(Seq<u8>, Seq<u8>)> {
    match d {
        FilterDecisionView::Keep => Some((key, value)),
        FilterDecisionView::Remove => None,
        FilterDecisionView::ChangeValue(nv) => Some((key, seq![FLAG_INLINE] + nv)),
    }
}

/// What filter `f` makes of a key with its versions (newest first): the
/// filter merges the versions, the merged value (or else the newest) is
/// handed to the filter's decision.
pub open spec fn filtered_group<F: CompactionFilter + ?Sized>(
    f: &F,
    level: usize,
    g: (Seq<u8>, Seq<Seq<u8>>),
) -> Option<(Seq<u8>, Seq<u8>)> {
    let v = resolved_value(g.1[0], f.merged_value(level, g.0, g.1));
    decided_entry(g.0, v, f.filter_decision(level, g.0, v))
}

/// What filter `f` makes of each group, in the groups' order, leaving out
/// the keys it removes.
pub open spec fn filtered_groups<F: CompactionFilter + ?Sized>(
    f: &F,
    level: usize,
    gs: Seq<(Seq<u8>, Seq<Seq<u8>>)>,
) -> Seq<(Seq<u8>, Seq<u8>)>
    decreases gs.len(),
{
    if gs.len() == 0 {
        Seq::empty()
    } else {
        let rest = filtered_groups(f, level, gs.drop_first());
        match filtered_group(f, level, gs[0]) {
            Some(e) => seq![e] + rest,
            None => rest,
        }
    }
}

/// Whether filter `f` keeps every key of `es` as it is: it merges none,
/// and keeps each key with its newest version.
pub open spec fn keeps_all<F: CompactionFilter + ?Sized>(
    f: &F,
    level: usize,
    es: Seq<(Seq<u8>, Seq<u8>)>,
) -> bool {
    forall|k: Seq<u8>| #[trigger] versions(es, k).len() > 0 ==> {
        &&& f.merged_value(level, k, versions(es, k)) is None
        &&& f.filter_decision(level, k, versions(es, k)[0]) is Keep
    }
}

/// Lemma: groups that a filter neither merges nor changes come out as
/// their keys with their first versions.
proof fn lemma_filtered_kept<F: CompactionFilter + ?Sized>(
    f: &F,
    level: usize,
    gs: Seq<(Seq<u8>, Seq<Seq<u8>>)>,
)
    requires
        forall|i: int| 0 <= i < gs.len() ==> {
            &&& (#[trigger] gs[i]).1.len() > 0
            &&& f.merged_value(level, gs[i].0, gs[i].1) is None
            &&& f.filter_decision(level, gs[i].0, gs[i].1[0]) is Keep
        },
    ensures
        filtered_groups(f, level, gs).len() == gs.len(),
        forall|i: int| 0 <= i < gs.len() ==> #[trigger] filtered_groups(f, level, gs)[i] == (gs[i].0, gs[i].1[0]),
    decreases gs.len(),
{
    if gs.len() > 0 {
        let rest = gs.drop_first();
        assert forall|i: int| 0 <= i < rest.len() implies {
            &&& (#[trigger] rest[i]).1.len() > 0
            &&& f.merged_value(level, rest[i].0, rest[i].1) is None
            &&& f.filter_decision(level, rest[i].0, rest[i].1[0]) is Keep
        } by {
            assert(rest[i] == gs[i + 1]);
        }
        lemma_filtered_kept(f, level, rest);
        assert(gs[0].1.len() > 0);
        assert(filtered_group(f, level, gs[0]) == Some((gs[0].0, gs[0].1[0])));
        let out = filtered_groups(f, level, gs);
        assert(out == seq![(gs[0].0, gs[0].1[0])] + filtered_groups(f, level, rest));
        assert forall|i: int| 0 <= i < gs.len() implies #[trigger] out[i] == (gs[i].0, gs[i].1[0]) by {
            if i > 0 {
                assert(out[i] == filtered_groups(f, level, rest)[i - 1]);
                assert(rest[i - 1] == gs[i]);
            }
        }
    }
}

/// Lemma: what the filter makes of a group is in the output.
proof fn lemma_filtered_contains<F: CompactionFilter + ?Sized>(
    f: &F,
    level: usize,
    gs: Seq<(Seq<u8>, Seq<Seq<u8>>)>,
    i: int,
)
    requires
        0 <= i < gs.len(),
    ensures
        filtered_group(f, level, gs[i]) matches Some(e) ==> filtered_groups(f, level, gs).contains(e),
    decreases i,
{
    let out = filtered_groups(f, level, gs);
    let rest = gs.drop_first();
    if i == 0 {
        if let Some(e) = filtered_group(f, level, gs[0]) {
            assert(out[0] == e);
        }
    } else {
        lemma_filtered_contains(f, level, rest, i - 1);
        assert(rest[i - 1] == gs[i]);
        if let Some(e) = filtered_group(f, level, gs[i]) {
            let j = choose|j: int| 0 <= j < filtered_groups(f, level, rest).len() && filtered_groups(f, level, rest)[j] == e;
            match filtered_group(f, level, gs[0]) {
                Some(e0) => {
                    assert(out[j + 1] == e);
                },
                None => {
                    assert(out[j] == e);
                },
            }
        }
    }
}

/// Law: a key that the filter neither merges nor changes comes out of the
/// compaction with its newest version (the one in the newest source holding
/// the key), whatever the filter does with other keys.
pub proof fn law_kept_key_keeps_newest<F: CompactionFilter + ?Sized>(
    f: &F,
    level: usize,
    g: Seq<(Seq<u8>, Seq<Seq<u8>>)>,
    es: Seq<(Seq<u8>, Seq<u8>)>,
    k: Seq<u8>,
)
    requires
        grouped(g, es),
        versions(es, k).len() > 0,
        f.merged_value(level, k, versions(es, k)) is None,
        f.filter_decision(level, k, versions(es, k)[0]) is Keep,
    ensures
        filtered_groups(f, level, g).contains((k, versions(es, k)[0])),
{
    assert(has_key(g, k));
    let j = choose|j: int| 0 <= j < g.len() && #[trigger] g[j].0 == k;
    assert(g[j].1 == versions(es, g[j].0));
    assert(filtered_group(f, level, g[j]) == Some((k, versions(es, k)[0])));
    lemma_filtered_contains(f, level, g, j);
}

/// Law: a filter that neither merges nor changes any key leaves the
/// compaction as it is without a filter: each key once, in increasing
/// order, with its newest version (the one in the newest source holding
/// the key).
pub proof fn law_keeping_filter_keeps_newest<F: CompactionFilter + ?Sized>(
    f: &F,
    level: usize,
    g: Seq<(Seq<u8>, Seq<Seq<u8>>)>,
    es: Seq<(Seq<u8>, Seq<u8>)>,
)
    requires
        grouped(g, es),
        keeps_all(f, level, es),
    ensures
        keeps_newest(filtered_groups(f, level, g), es),
{
    assert forall|i: int| 0 <= i < g.len() implies {
        &&& (#[trigger] g[i]).1.len() > 0
        &&& f.merged_value(level, g[i].0, g[i].1) is None
        &&& f.filter_decision(level, g[i].0, g[i].1[0]) is Keep
    } by {
        assert(g[i].1 == versions(es, g[i].0));
        assert(versions(es, g[i].0).len() > 0);
    }
    lemma_filtered_kept(f, level, g);
    let out = filtered_groups(f, level, g);
    assert forall|a: int, b: int| 0 <= a < b < out.len() implies lex_lt(#[trigger] out[a].0, #[trigger] out[b].0) by {
        assert(out[a] == (g[a].0, g[a].1[0]));
        assert(out[b] == (g[b].0, g[b].1[0]));
    }
    assert forall|i: int| 0 <= i < out.len() implies versions(es, (#[trigger] out[i]).0).len() > 0 by {
        assert(out[i] == (g[i].0, g[i].1[0]));
        assert(g[i].1 == versions(es, g[i].0));
    }
    assert forall|i: int| 0 <= i < out.len() implies (#[trigger] out[i]).1 == versions(es, out[i].0)[0] by {
        assert(out[i] == (g[i].0, g[i].1[0]));
        assert(g[i].1 == versions(es, g[i].0));
    }
    assert forall|k: Seq<u8>| #[trigger] versions(es, k).len() > 0 implies has_key(out, k) by {
        assert(has_key(g, k));
        let j = choose|j: int| 0 <= j < g.len() && #[trigger] g[j].0 == k;
        assert(out[j] == (g[j].0, g[j].1[0]));
    }
}

/// An optional entry as byte strings.
pub open spec fn opt_entry(e: Option<(Vec<u8>, Vec<u8>)>) -> Option<(Seq<u8>, Seq<u8>)> {
    match e {
        Some(p) => Some((p.0@, p.1@)),
        None => None,
    }
}

/// Computes `resolved_value`.
pub fn resolve_merge(newest: &[u8], merged: Option<Vec<u8>>) -> (r: Vec<u8>)
    ensures
        r@ == resolved_value(newest@, opt_bytes(merged)),
{
    match merged {
        Some(m) => {
            let mut v: Vec<u8> = Vec::new();
            v.push(FLAG_INLINE);
            append_bytes(&mut v, m.as_slice());
            proof {
                assert(seq![FLAG_INLINE] + m@ =~= v@);
            }
            v
        },
        None => {
            let v = copy_range(newest, 0, newest.len());
            proof {
                assert(newest@.subrange(0, newest@.len() as int) =~= newest@);
            }
            v
        },
    }
}

/// Computes `decided_entry`.
pub fn apply_decision(key: Vec<u8>, value: Vec<u8>, decision: FilterDecision) -> (r: Option<(Vec<u8>, Vec<u8>)>)
    ensures
        opt_entry(r) == decided_entry(key@, value@, decision_view(decision)),
{
    match decision {
        FilterDecision::Keep => Some((key, value)),
        FilterDecision::Remove => None,
        FilterDecision::ChangeValue(nv) => {
            let mut v: Vec<u8> = Vec::new();
            v.push(FLAG_INLINE);
            append_bytes(&mut v, nv.as_slice());
            proof {
                assert(seq![FLAG_INLINE] + nv@ =~= v@);
            }
            Some((key, v))
        },
    }
}

/// The versions of a key as the list of byte slices a filter's `merge` is
/// handed, in the same order.
pub fn version_refs(vs: &Vec<Vec<u8>>) -> (r: Vec<&[u8]>)
    ensures
        values_view(r@) == vs@.map_values(|v: Vec<u8>| v@),
{
    let mut refs: Vec<&[u8]> = Vec::new();
    let mut j: usize = 0;
    while j < vs.len()
        invariant
            j <= vs@.len(),
            refs@.len() == j,
            forall|t: int| 0 <= t < j ==> (#[trigger] refs@[t])@ == vs@[t]@,
        decreases vs@.len() - j,
    {
        refs.push(vs[j].as_slice());
        j = j + 1;
    }
    proof {
        assert(values_view(refs@) =~= vs@.map_values(|v: Vec<u8>| v@));
    }
    refs
}

/// The merged entries of several sources, handed out in increasing key order.
pub struct MergeIterator {
    /// The entries still to hand out, the last one first.
    pending: Vec<(Vec<u8>, Vec<u8>)>,
}

impl MergeIterator {
    /// The entries still to hand out, in order.
    pub closed spec fn remaining(&self) -> Seq<(Seq<u8>, Seq<u8>)> {
        entries_view(self.pending@).reverse()
    }

    /// Merges the entries of `sources`, given oldest source first as the
    /// SSTables of a level list them.
    ///
    /// Without a filter each key is kept once with its newest version: the
    /// one in the last source that holds the key. With a filter, the filter
    /// is asked to merge all versions of a key (newest first) and then
    /// decides whether the key stays and with which value: each key, in
    /// increasing order, gives what `filtered_group` states.
    pub fn new<F: CompactionFilter + ?Sized>(
        sources: Vec<Vec<(Vec<u8>, Vec<u8>)>>,
        level: usize,
        filter: Option<Arc<F>>,
    ) -> (r: Self)
        ensures
            filter is None ==> keeps_newest(r.remaining(), newest_first(sources_view(sources@))),
            filter matches Some(f) ==> exists|g: Seq<(Seq<u8>, Seq<Seq<u8>>)>| grouped(g, newest_first(sources_view(sources@)))
                && #[trigger] filtered_groups(&*f, level, g) == r.remaining(),
            filter matches Some(f) ==> forall|k: Seq<u8>|
                #![trigger versions(newest_first(sources_view(sources@)), k)]
                versions(newest_first(sources_view(sources@)), k).len() > 0
                && f.merged_value(level, k, versions(newest_first(sources_view(sources@)), k)) is None
                && f.filter_decision(level, k, versions(newest_first(sources_view(sources@)), k)[0]) is Keep
                ==> r.remaining().contains((k, versions(newest_first(sources_view(sources@)), k)[0])),
            filter matches Some(f) && keeps_all(&*f, level, newest_first(sources_view(sources@))) ==> keeps_newest(
                r.remaining(),
                newest_first(sources_view(sources@)),
            ),
            keys_increase(r.remaining()),
            forall|i: int| 0 <= i < r.remaining().len() ==> versions(
                newest_first(sources_view(sources@)),
                (#[trigger] r.remaining()[i]).0,
            ).len() > 0,
    {
        let ghost es = newest_first(sources_view(sources@));
        let mut groups = group_versions(sources);
        let ghost g0 = groups_view(groups@);
        let ghost n0 = g0.len();
        proof {
            assert(g0.skip(n0 as int) =~= Seq::<(Seq<u8>, Seq<Seq<u8>>)>::empty());
        }
        let mut pending: Vec<(Vec<u8>, Vec<u8>)> = Vec::new();
        while groups.len() > 0
            invariant
                grouped(g0, es),
                n0 == g0.len(),
                groups@.len() <= n0,
                groups_view(groups@) == g0.take(groups@.len() as int),
                filter is None ==> pending@.len() == n0 - groups@.len(),
                filter is None ==> forall|i: int| 0 <= i < pending@.len() ==>
                    (#[trigger] entries_view(pending@)[i]).0 == g0[n0 - 1 - i].0
                        && entries_view(pending@)[i].1 == g0[n0 - 1 - i].1[0],
                forall|i: int| 0 <= i < pending@.len() ==> exists|j: int|
                    groups@.len() <= j < n0 && (#[trigger] entries_view(pending@)[i]).0 == g0[j].0,
                forall|i: int, i2: int| 0 <= i < i2 < pending@.len() ==> lex_lt(
                    (#[trigger] entries_view(pending@)[i2]).0,
                    (#[trigger] entries_view(pending@)[i]).0,
                ),
                filter matches Some(f) ==> entries_view(pending@).reverse() == filtered_groups(
                    &*f,
                    level,
                    g0.skip(groups@.len() as int),
                ),
            decreases groups@.len(),
        {
            let ghost n = groups@.len();
            let g = groups.pop().unwrap();
            let ghost gk = g.0@;
            proof {
                assert(groups_view(groups@) =~= g0.take(n - 1));
                assert(g0.take(n as int)[n - 1] == group_view(g));
                assert(g0[n - 1] == group_view(g));
                assert(g0[n - 1].1.len() > 0);
            }
            let (key, mut vs) = g;
            let ghost before = entries_view(pending@);
            match &filter {
                None => {
                    let newest = vs.swap_remove(0);
                    pending.push((key, newest));
                    proof {
                        assert(entries_view(pending@) =~= before.push((gk, g0[n - 1].1[0])));
                    }
                },
                Some(f) => {
                    let refs = version_refs(&vs);
                    let merged = f.merge(level, key.as_slice(), refs.as_slice());
                    let value = resolve_merge(vs[0].as_slice(), merged);
                    let decision = f.filter(level, key.as_slice(), value.as_slice());
                    let out = apply_decision(key, value, decision);
                    let ghost oe = opt_entry(out);
                    proof {
                        assert(values_view(refs@) == g0[n - 1].1);
                        assert(oe == filtered_group(&**f, level, g0[n - 1]));
                    }
                    match out {
                        Some(e) => {
                            let ghost ev = (e.0@, e.1@);
                            pending.push(e);
                            proof {
                                assert(ev.0 == gk);
                                assert(entries_view(pending@) =~= before.push(ev));
                            }
                        },
                        None => {},
                    }
                    proof {
                        let gs = g0.skip(n - 1);
                        assert(gs.drop_first() =~= g0.skip(n as int));
                        assert(gs[0] == g0[n - 1]);
                        match oe {
                            Some(e) => {
                                assert(entries_view(pending@) =~= before.push(e));
                                assert(before.push(e).reverse() =~= seq![e] + before.reverse());
                            },
                            None => {
                                assert(entries_view(pending@) =~= before);
                            },
                        }
                        assert(entries_view(pending@).reverse() == filtered_groups(&**f, level, gs));
                    }
                },
            }
            proof {
                let pv = entries_view(pending@);
                assert(pv.len() == before.len() || pv.len() == before.len() + 1);
                assert(pv.len() == before.len() ==> pv =~= before);
                assert(pv.len() == before.len() + 1 ==> pv[before.len() as int].0 == gk);
                assert forall|i: int| 0 <= i < before.len() implies pv[i] == before[i] by {
                }
                assert forall|i: int| 0 <= i < pv.len() implies exists|j: int|
                    groups@.len() <= j < n0 && (#[trigger] pv[i]).0 == g0[j].0 by {
                    if i < before.len() {
                        assert(pv[i] == before[i]);
                        let j0 = choose|j: int| n <= j < n0 && #[trigger] before[i].0 == g0[j].0;
                        assert(groups@.len() <= j0 < n0 && pv[i].0 == g0[j0].0);
                    } else {
                        assert(pv[i].0 == g0[n - 1].0);
                    }
                }
                assert forall|i: int, i2: int| 0 <= i < i2 < pv.len() implies lex_lt(
                    (#[trigger] pv[i2]).0,
                    (#[trigger] pv[i]).0,
                ) by {
                    assert(pv[i] == before[i]);
                    if i2 < before.len() {
                        assert(pv[i2] == before[i2]);
                    } else {
                        let j0 = choose|j: int| n <= j < n0 && #[trigger] before[i].0 == g0[j].0;
                        assert(lex_lt(g0[n - 1].0, g0[j0].0));
                    }
                }
                if filter is None {
                    assert forall|i: int| 0 <= i < pv.len() implies (#[trigger] pv[i]).0 == g0[n0 - 1 - i].0
                        && pv[i].1 == g0[n0 - 1 - i].1[0] by {
                        if i < before.len() {
                            assert(pv[i] == before[i]);
                        }
                    }
                }
            }
        }
        proof {
            let pv = entries_view(pending@);
            let rem = pv.reverse();
            assert(keys_increase(rem)) by {
                assert forall|a: int, b: int| 0 <= a < b < rem.len() implies lex_lt(#[trigger] rem[a].0, #[trigger] rem[b].0) by {
                    assert(rem[a] == pv[pv.len() - 1 - a]);
                    assert(rem[b] == pv[pv.len() - 1 - b]);
                }
            }
            assert forall|i: int| 0 <= i < rem.len() implies versions(es, (#[trigger] rem[i]).0).len() > 0 by {
                assert(rem[i] == pv[pv.len() - 1 - i]);
                let j0 = choose|j: int| 0 <= j < n0 && #[trigger] pv[pv.len() - 1 - i].0 == g0[j].0;
                assert(g0[j0].1 == versions(es, g0[j0].0));
                assert(g0[j0].1.len() > 0);
            }
            if filter is None {
                assert forall|i: int| 0 <= i < rem.len() implies (#[trigger] rem[i]).1 == versions(es, rem[i].0)[0] by {
                    assert(rem[i] == pv[n0 - 1 - i]);
                    assert(pv[n0 - 1 - i].0 == g0[i].0);
                    assert(g0[i].1 == versions(es, g0[i].0));
                }
                assert forall|k: Seq<u8>| #[trigger] versions(es, k).len() > 0 implies has_key(rem, k) by {
                    assert(has_key(g0, k));
                    let j0 = choose|j: int| 0 <= j < g0.len() && #[trigger] g0[j].0 == k;
                    assert(rem[j0] == pv[n0 - 1 - j0]);
                    assert(rem[j0].0 == k);
                }
            }
        }
        proof {
            assert(groups@.len() == 0);
            assert(g0.skip(0) =~= g0);
            match filter {
                Some(f) => {
                    assert(filtered_groups(&*f, level, g0) == entries_view(pending@).reverse());
                    if keeps_all(&*f, level, es) {
                        law_keeping_filter_keeps_newest(&*f, level, g0, es);
                    }
                    assert forall|k: Seq<u8>|
                        #![trigger versions(es, k)]
                        versions(es, k).len() > 0 && f.merged_value(level, k, versions(es, k)) is None
                            && f.filter_decision(level, k, versions(es, k)[0]) is Keep
                        implies entries_view(pending@).reverse().contains((k, versions(es, k)[0])) by {
                        law_kept_key_keeps_newest(&*f, level, g0, es, k);
                    }
                },
                None => {},
            }
        }
        MergeIterator { pending }
    }

    /// Hands out the next entry, or `None` once all are out.
    pub fn next(&mut self) -> (r: Option<(Vec<u8>, Vec<u8>)>)
        ensures
            old(self).remaining().len() == 0 ==> r is None && final(self).remaining() == old(self).remaining(),
            old(self).remaining().len() > 0 ==> (r matches Some(e) && (e.0@, e.1@) == old(self).remaining()[0]
                && final(self).remaining() == old(self).remaining().drop_first()),
    {
        let ghost before = entries_view(self.pending@);
        let r = self.pending.pop();
        proof {
            if before.len() > 0 {
                assert(entries_view(self.pending@) =~= before.drop_last());
                assert(before.drop_last().reverse() =~= before.reverse().drop_first());
            }
        }
        r
    }
}

} // verus!
