use crate::path::texts;
use crate::syntax::{property_views, Property, PropertyView};
use vstd::prelude::*;

verus! {

/// The keys that an object pattern refers to, in order, provided that all
/// of them are known statically: a pattern with a computed key or a rest
/// element has no such list.
pub open spec fn static_keys(pattern: Seq<PropertyView>) -> Option<Seq<Seq<char>>> {
    if forall|i: int| 0 <= i < pattern.len() ==> pattern[i] is Static {
        Some(Seq::new(pattern.len(), |i: int| pattern[i]->name))
    } else {
        None
    }
}

/// Whether pruning to `keys` keeps `property`: one with a static key only
/// if the key is among `keys`, any other always.
pub open spec fn keeps(property: PropertyView, keys: Seq<Seq<char>>) -> bool {
    match property {
        PropertyView::Static { name, .. } => keys.contains(name),
        _ => true,
    }
}

/// The properties that pruning to `keys` keeps, in their order.
pub open spec fn pruned(properties: Seq<PropertyView>, keys: Seq<Seq<char>>) -> Seq<PropertyView> {
    properties.filter(|p: PropertyView| keeps(p, keys))
}

/// Pruning keeps exactly the properties that `keeps` admits: a spread and
/// a property with a computed key always, one with a static key if the
/// key is among `keys`. Nothing else comes in.
pub proof fn lemma_pruned_members(properties: Seq<PropertyView>, keys: Seq<Seq<char>>)
    ensures
        pruned(properties, keys).len() <= properties.len(),
        forall|i: int|
            0 <= i < properties.len() && keeps(#[trigger] properties[i], keys) ==> pruned(
                properties,
                keys,
            ).contains(properties[i]),
        forall|j: int|
            0 <= j < pruned(properties, keys).len() ==> keeps(
                #[trigger] pruned(properties, keys)[j],
                keys,
            ) && properties.contains(pruned(properties, keys)[j]),
{
    let admits = |p: PropertyView| keeps(p, keys);
    properties.lemma_filter_len(admits);
    assert forall|i: int|
        0 <= i < properties.len() && keeps(#[trigger] properties[i], keys) implies pruned(
        properties,
        keys,
    ).contains(properties[i]) by {
        properties.lemma_filter_contains(admits, i);
    }
    assert forall|j: int| 0 <= j < pruned(properties, keys).len() implies keeps(
        #[trigger] pruned(properties, keys)[j],
        keys,
    ) && properties.contains(pruned(properties, keys)[j]) by {
        properties.lemma_filter_pred(admits, j);
        assert(properties.filter(admits).contains(properties.filter(admits)[j]));
        properties.lemma_filter_contains_rev(admits, properties.filter(admits)[j]);
    }
}

/// Pruning keeps the order: the properties kept from a longer list start
/// with those kept from its beginning.
pub proof fn lemma_pruned_in_order(properties: Seq<PropertyView>, keys: Seq<Seq<char>>, n: int)
    requires
        0 <= n <= properties.len(),
    ensures
        pruned(properties, keys) == pruned(properties.take(n), keys) + pruned(
            properties.skip(n),
            keys,
        ),
{
    let admits = |p: PropertyView| keeps(p, keys);
    assert(properties =~= properties.take(n) + properties.skip(n));
    Seq::filter_distributes_over_add(properties.take(n), properties.skip(n), admits);
}

/// The keys that `pattern` refers to; `None` exactly when it holds a
/// computed key or a rest element.
pub fn referenced_keys(pattern: &Vec<Property>) -> (keys: Option<Vec<String>>)
    ensures
        match keys {
            Some(k) => static_keys(property_views(pattern@)) == Some(texts(k@)),
            None => static_keys(property_views(pattern@)) is None,
        },
{
    let mut keys: Vec<String> = Vec::new();
    let mut i: usize = 0;
    while i < pattern.len()
        invariant
            i <= pattern.len(),
            keys@.len() == i,
            forall|j: int|
                0 <= j < i ==> (#[trigger] property_views(pattern@)[j]) is Static
                    && property_views(pattern@)[j]->name == keys@[j]@,
        decreases pattern.len() - i,
    {
        match &pattern[i] {
            Property::Static { name, .. } => {
                keys.push(name.clone());
            },
            _ => {
                assert(!(property_views(pattern@)[i as int] is Static));
                return None;
            },
        }
        i += 1;
    }
    assert(texts(keys@) =~= Seq::new(
        property_views(pattern@).len(),
        |i: int| property_views(pattern@)[i]->name,
    ));
    Some(keys)
}

/// Whether `name` is one of `keys`.
pub fn has_key(keys: &Vec<String>, name: &String) -> (found: bool)
    ensures
        found == texts(keys@).contains(name@),
{
    let mut i: usize = 0;
    while i < keys.len()
        invariant
            i <= keys.len(),
            forall|j: int| 0 <= j < i ==> (#[trigger] texts(keys@)[j]) != name@,
        decreases keys.len() - i,
    {
        if keys[i] == *name {
            assert(texts(keys@)[i as int] == name@);
            return true;
        }
        i += 1;
    }
    false
}

/// Copies of the properties that pruning to `keys` keeps, in their order.
pub fn prune(properties: &Vec<Property>, keys: &Vec<String>) -> (kept: Vec<Property>)
    ensures
        property_views(kept@) == pruned(property_views(properties@), texts(keys@)),
{
    let ghost all = property_views(properties@);
    let ghost wanted = texts(keys@);
    let mut kept: Vec<Property> = Vec::new();
    let mut i: usize = 0;
    proof {
        reveal(Seq::filter);
        assert(all.take(0) =~= Seq::<PropertyView>::empty());
        assert(property_views(kept@) =~= pruned(all.take(0), wanted));
    }
    while i < properties.len()
        invariant
            i <= properties.len(),
            all == property_views(properties@),
            wanted == texts(keys@),
            property_views(kept@) == pruned(all.take(i as int), wanted),
        decreases properties.len() - i,
    {
        let keep = match &properties[i] {
            Property::Static { name, .. } => has_key(keys, name),
            _ => true,
        };
        proof {
            reveal(Seq::filter);
            assert(all.take(i + 1).drop_last() =~= all.take(i as int));
            assert(all.take(i + 1).last() == properties@[i as int]@);
            assert(keep == keeps(properties@[i as int]@, wanted));
        }
        if keep {
            let ghost before = property_views(kept@);
            kept.push(properties[i].duplicate());
            assert(property_views(kept@) =~= before.push(properties@[i as int]@));
        }
        i += 1;
    }
    assert(all.take(i as int) =~= all);
    kept
}

} // verus!
