//! Ordered access to the price levels of one side of a book.

use crate::types::{Price, PriceLevel};
use std::collections::BTreeMap;
use vstd::prelude::*;
use vstd::std_specs::btree::{axiom_increasing_seq_meaning, axiom_spec_keys_iter};
use vstd::std_specs::cmp::OrdSpec;
use vstd::std_specs::iter::IteratorSpec;

verus! {

/// `BTreeMap::last_key_value`: the greatest key of the map, or `None` when
/// the map is empty.
#[verifier::external_body]
pub(crate) fn last_key(levels: &BTreeMap<Price, PriceLevel>) -> (key: Option<Price>)
    ensures
        match key {
            Some(k) => levels@.contains_key(k) && forall|q: Price|
                levels@.contains_key(q) ==> q <= k,
            None => forall|q: Price| !levels@.contains_key(q),
        },
{
    match levels.last_key_value() {
        Some((k, _)) => Some(*k),
        None => None,
    }
}

/// `BTreeMap::get_mut`: a handle on the value under `p`, through which the
/// caller may replace it; no other entry changes.
#[verifier::external_body]
pub(crate) fn level_mut(levels: &mut BTreeMap<Price, PriceLevel>, p: Price) -> (level: Option<
    &mut PriceLevel,
>)
    ensures
        !old(levels)@.contains_key(p) ==> level.is_none() && final(levels)@ == old(levels)@,
        old(levels)@.contains_key(p) ==> level.is_some() && *level.unwrap() == old(levels)@[p]
            && final(levels)@ == old(levels)@.insert(p, *final(level.unwrap())),
{
    levels.get_mut(&p)
}

/// The keys of the map, each once, in increasing order.
pub fn keys_ascending(levels: &BTreeMap<Price, PriceLevel>) -> (keys: Vec<Price>)
    ensures
        forall|q: Price| keys@.contains(q) <==> #[trigger] levels@.contains_key(q),
        forall|i: int, j: int| 0 <= i < j < keys@.len() ==> keys@[i] < keys@[j],
{
    broadcast use vstd::std_specs::btree::group_btree_axioms;
    broadcast use vstd::laws_cmp::group_laws_cmp;

    let mut keys: Vec<Price> = Vec::new();
    let it = levels.keys();
    let ghost all = it.remaining();
    for k in iter: it
        invariant
            iter.seq() == all,
            keys@ == all.take(iter.index()).unref(),
    {
        keys.push(*k);
    }
    proof {
        assert(keys@ =~= all.unref());
        axiom_spec_keys_iter(levels);
        assert(vstd::laws_cmp::obeys_cmp::<&Price>());
        axiom_increasing_seq_meaning::<&Price>(all);
        assert forall|i: int, j: int| 0 <= i < j < keys@.len() implies keys@[i] < keys@[j] by {
            assert(OrdSpec::cmp_spec(&all[i], &all[j]) is Less);
        }
        assert(keys@.to_set() == levels@.dom());
        assert forall|q: Price| keys@.contains(q) <==> levels@.contains_key(q) by {
            assert(keys@.to_set().contains(q) <==> levels@.dom().contains(q));
        }
    }
    keys
}

} // verus!
