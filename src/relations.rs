//! Directed relations between links, optionally labelled.
use vstd::prelude::*;

use crate::links::{has_link, link_index, position_of_id};
use crate::store::{
    lemma_filter_from, link_exists, LinkView, Relation, RelationView, Store, StoreError,
};
use crate::text::{clone_opt, opt_view};

verus! {

/// Whether an edge matches the endpoints that are given.
pub open spec fn edge_matches(r: RelationView, primary: Option<u128>, related: Option<u128>) -> bool {
    (primary is None || r.primary == primary->0) && (related is None || r.related == related->0)
}

/// The relations left after those matching the given endpoints are removed.
pub open spec fn relations_kept(rels: Seq<RelationView>, primary: Option<u128>, related: Option<u128>) -> Seq<
    RelationView,
> {
    rels.filter(|r: RelationView| !edge_matches(r, primary, related))
}

/// The relations that originate at `id`, as the URL of their target and
/// their label, in the order they were made.
pub open spec fn forward(links: Seq<LinkView>, rels: Seq<RelationView>, id: u128) -> Seq<
    (Seq<char>, Option<Seq<char>>),
>
    decreases rels.len(),
{
    if rels.len() == 0 {
        Seq::empty()
    } else {
        let f = forward(links, rels.drop_last(), id);
        let r = rels.last();
        if r.primary == id && link_exists(links, r.related) {
            f.push((links[link_index(links, r.related)].url, r.relationship))
        } else {
            f
        }
    }
}

/// The links with a relation that ends at `id`, in the order the relations
/// were made.
pub open spec fn inverse(rels: Seq<RelationView>, id: u128) -> Seq<u128>
    decreases rels.len(),
{
    if rels.len() == 0 {
        Seq::empty()
    } else {
        let f = inverse(rels.drop_last(), id);
        if rels.last().related == id {
            f.push(rels.last().primary)
        } else {
            f
        }
    }
}

pub open spec fn pair_view(p: (String, Option<String>)) -> (Seq<char>, Option<Seq<char>>) {
    (p.0@, opt_view(p.1))
}

/// Adds the edge `primary_id` relates to `related_id`, with an optional
/// label; refused with `Storage` where either link does not exist.
pub fn relate_links(store: &mut Store, primary_id: u128, related_id: u128, relationship: &Option<String>) -> (r:
    Result<(), StoreError>)
    requires
        old(store)@.wf(),
    ensures
        final(store)@.wf(),
        link_exists(old(store)@.links, primary_id) && link_exists(old(store)@.links, related_id) ==> r is Ok
            && final(store)@ == old(store)@.with_relations(
            old(store)@.relations.push(
                RelationView { primary: primary_id, related: related_id, relationship: opt_view(*relationship) },
            ),
        ),
        !(link_exists(old(store)@.links, primary_id) && link_exists(old(store)@.links, related_id)) ==> r
            == Err::<(), StoreError>(StoreError::Storage) && final(store)@ == old(store)@,
{
    if !has_link(store, primary_id) || !has_link(store, related_id) {
        return Err(StoreError::Storage);
    }
    let ghost old_view = store@;
    store.relations.push(
        Relation {
            primary_link_id: primary_id,
            related_link_id: related_id,
            relationship: clone_opt(relationship),
        },
    );
    assert(store@.relations =~= old_view.relations.push(
        RelationView { primary: primary_id, related: related_id, relationship: opt_view(*relationship) },
    ));
    assert(store@.links =~= old_view.links);
    assert(store@.notes =~= old_view.notes);
    assert(store@.tags =~= old_view.tags);
    assert(store@.item_tags =~= old_view.item_tags);
    Ok(())
}

/// The relations that originate at `primary_id`: the URL of each target
/// with the relation's label.
pub fn related_links(store: &Store, primary_id: u128) -> (r: Vec<(String, Option<String>)>)
    requires
        store@.wf(),
    ensures
        r@.map_values(|p: (String, Option<String>)| pair_view(p)) == forward(
            store@.links,
            store@.relations,
            primary_id,
        ),
{
    let ghost rels = store@.relations;
    let mut out: Vec<(String, Option<String>)> = Vec::new();
    let mut i: usize = 0;
    while i < store.relations.len()
        invariant
            store@.wf(),
            rels == store@.relations,
            i <= rels.len(),
            out@.map_values(|p: (String, Option<String>)| pair_view(p)) == forward(
                store@.links,
                rels.take(i as int),
                primary_id,
            ),
        decreases rels.len() - i,
    {
        let rel = &store.relations[i];
        assert(rels.take(i + 1).drop_last() =~= rels.take(i as int));
        assert(rels.take(i + 1).last() == rel@);
        if rel.primary_link_id == primary_id {
            if let Some(j) = position_of_id(store, rel.related_link_id) {
                let ghost before = out@.map_values(|p: (String, Option<String>)| pair_view(p));
                out.push((store.links[j].url.clone(), clone_opt(&rel.relationship)));
                assert(out@.map_values(|p: (String, Option<String>)| pair_view(p)) =~= before.push(
                    (store@.links[j as int].url, rel@.relationship),
                ));
            }
        }
        i = i + 1;
    }
    assert(rels.take(rels.len() as int) =~= rels);
    out
}

/// The identifiers of the links with a relation that ends at `link_id`.
pub fn get_inverse_related_links(store: &Store, link_id: u128) -> (r: Vec<u128>)
    requires
        store@.wf(),
    ensures
        r@ == inverse(store@.relations, link_id),
{
    let ghost rels = store@.relations;
    let mut out: Vec<u128> = Vec::new();
    let mut i: usize = 0;
    while i < store.relations.len()
        invariant
            rels == store@.relations,
            i <= rels.len(),
            out@ == inverse(rels.take(i as int), link_id),
        decreases rels.len() - i,
    {
        let rel = &store.relations[i];
        assert(rels.take(i + 1).drop_last() =~= rels.take(i as int));
        assert(rels.take(i + 1).last() == rel@);
        if rel.related_link_id == link_id {
            out.push(rel.primary_link_id);
        }
        i = i + 1;
    }
    assert(rels.take(rels.len() as int) =~= rels);
    out
}

/// Removes the relations that match both given endpoints; refused with
/// `Validation` where neither is given.
pub fn delete_related_links(store: &mut Store, primary_link_id: Option<u128>, related_link_id: Option<u128>) -> (r:
    Result<(), StoreError>)
    requires
        old(store)@.wf(),
    ensures
        final(store)@.wf(),
        primary_link_id is None && related_link_id is None ==> r == Err::<(), StoreError>(StoreError::Validation)
            && final(store)@ == old(store)@,
        !(primary_link_id is None && related_link_id is None) ==> r is Ok && final(store)@ == old(
            store,
        )@.with_relations(relations_kept(old(store)@.relations, primary_link_id, related_link_id)),
{
    if primary_link_id.is_none() && related_link_id.is_none() {
        return Err(StoreError::Validation);
    }
    let ghost old_view = store@;
    let ghost rels = store@.relations;
    let ghost pred = |r: RelationView| !edge_matches(r, primary_link_id, related_link_id);
    let mut kept: Vec<Relation> = Vec::new();
    let mut i: usize = 0;
    while i < store.relations.len()
        invariant
            store@ == old_view,
            old_view.wf(),
            rels == store@.relations,
            pred == (|r: RelationView| !edge_matches(r, primary_link_id, related_link_id)),
            i <= rels.len(),
            kept@.map_values(|r: Relation| r@) == rels.take(i as int).filter(pred),
        decreases rels.len() - i,
    {
        let rel = &store.relations[i];
        assert(rels.take(i + 1) =~= rels.take(i as int).push(rel@));
        proof {
            rels.take(i as int).lemma_filter_push(rel@, pred);
        }
        let p_ok = match primary_link_id {
            Some(p) => rel.primary_link_id == p,
            None => true,
        };
        let q_ok = match related_link_id {
            Some(q) => rel.related_link_id == q,
            None => true,
        };
        if !(p_ok && q_ok) {
            let ghost before = kept@.map_values(|r: Relation| r@);
            kept.push(rel.duplicate());
            assert(kept@.map_values(|r: Relation| r@) =~= before.push(rel@));
        }
        i = i + 1;
    }
    assert(rels.take(rels.len() as int) =~= rels);
    store.relations = kept;
    proof {
        lemma_filter_from(rels, pred);
        assert(store@.links =~= old_view.links);
        assert(store@.notes =~= old_view.notes);
        assert(store@.tags =~= old_view.tags);
        assert forall|k: int| 0 <= k < store@.relations.len() implies link_exists(
            store@.links,
            #[trigger] store@.relations[k].primary,
        ) && link_exists(store@.links, store@.relations[k].related) by {
            assert(store@.relations[k] == rels.filter(pred)[k]);
            assert(rels.contains(store@.relations[k]));
            let j = choose|j: int| 0 <= j < rels.len() && rels[j] == store@.relations[k];
            assert(link_exists(old_view.links, rels[j].primary));
        }
        assert(store@.item_tags =~= old_view.item_tags);
    }
    Ok(())
}

} // verus!
