//! Hooks that applications run during compaction.

use vstd::prelude::*;
use std::fmt::Debug;

verus! {

/// Decision made by the compaction filter for a key-value pair.
#[derive(Debug, Clone, PartialEq, Eq)]
pub enum FilterDecision {
    /// Keep the key-value pair as is.
    Keep,
    /// Remove the key-value pair.
    Remove,
    /// Change the value of the key-value pair.
    ChangeValue(Vec<u8>),
}

/// A `FilterDecision` as byte strings.
pub enum FilterDecisionView {
    /// Keep the key-value pair as is.
    Keep,
    /// Remove the key-value pair.
    Remove,
    /// Change the value to these bytes.
    ChangeValue(Seq<u8>),
}

/// The view of a decision.
pub open spec fn decision_view(d: FilterDecision) -> FilterDecisionView {
    match d {
        FilterDecision::Keep => FilterDecisionView::Keep,
        FilterDecision::Remove => FilterDecisionView::Remove,
        FilterDecision::ChangeValue(v) => FilterDecisionView::ChangeValue(v@),
    }
}

/// The byte strings of a list of borrowed values.
pub open spec fn values_view(values: Seq<&[u8]>) -> Seq<Seq<u8>> {
    values.map_values(|v: &[u8]| v@)
}

/// The bytes of an optional value.
pub open spec fn opt_bytes(v: Option<Vec<u8>>) -> Option<Seq<u8>> {
    match v {
        Some(b) => Some(b@),
        None => None,
    }
}

/// Trait for custom logic during compaction: discarding expired data,
/// merging versions of a key, or transforming values.
///
/// A filter answers by its arguments: `filter_decision` and `merged_value`
/// name what `filter` and `merge` return for given arguments. A filter
/// written in Verus defines them as its methods compute; the defaults (keep
/// everything, merge nothing) describe a filter that does nothing.
pub trait CompactionFilter: Send + Sync + Debug {
    /// The decision `filter` gives for a key-value pair at a level.
    open spec fn filter_decision(&self, level: usize, key: Seq<u8>, value: Seq<u8>) -> FilterDecisionView {
        FilterDecisionView::Keep
    }

    /// What `merge` returns for the versions of a key at a level.
    open spec fn merged_value(&self, level: usize, key: Seq<u8>, values: Seq<Seq<u8>>) -> Option<Seq<u8>> {
        None
    }

    /// Inspect a key-value pair during compaction and decide what to do with it.
    fn filter(&self, level: usize, key: &[u8], value: &[u8]) -> (r: FilterDecision)
        ensures
            decision_view(r) == self.filter_decision(level, key@, value@),
    ;

    /// Merge all versions of a key, ordered from newest to oldest.
    ///
    /// Returns the merged value, or `None` to keep the newest version. A
    /// filter that does not merge returns `None`: the method has no default
    /// body, since a default could not be held to `merged_value` as each
    /// filter defines it.
    fn merge(&self, level: usize, key: &[u8], values: &[&[u8]]) -> (r: Option<Vec<u8>>)
        ensures
            opt_bytes(r) == self.merged_value(level, key@, values_view(values@)),
    ;
}

} // verus!
