//! The link table: lookups by URL or identifier, insertion with
//! identifiers drawn from the time, updates, content, and deletion with
//! everything a link owns.
use vstd::prelude::*;

use crate::ids::{draw_id, id_millis, id_time_ok, MAX_ID_SECONDS};
use crate::notes::has_note_id;
use crate::tags::has_tag_id;
use crate::store::{
    id_taken, lemma_contains_all, lemma_ids_apart,
    lemma_filter_from, lemma_filter_unique, lemma_filter_unique_by, link_exists, url_exists,
    Association, IsPrimary, Link, LinkInsert, LinkView, Note, NoteView, Owner, Relation,
    RelationView, Store, StoreError, StoreView, TermOrId,
};
use crate::text::{clone_opt, opt_view, same_text};

verus! {

/// A lookup key as the contracts see it.
pub enum LinkKey {
    Url(Seq<char>),
    Id(u128),
}

pub open spec fn key_of(t: TermOrId) -> LinkKey {
    match t {
        TermOrId::Term(u) => LinkKey::Url(u@),
        TermOrId::Id(i) => LinkKey::Id(i),
    }
}

pub open spec fn key_matches(l: LinkView, key: LinkKey) -> bool {
    match key {
        LinkKey::Url(u) => l.url == u,
        LinkKey::Id(i) => l.id == i,
    }
}

pub open spec fn filter_ok(l: LinkView, f: IsPrimary) -> bool {
    match f {
        IsPrimary::PrimaryOnly => l.is_primary,
        IsPrimary::SecondaryOnly => !l.is_primary,
        IsPrimary::Either => true,
    }
}

pub open spec fn link_matches(l: LinkView, key: LinkKey, f: IsPrimary) -> bool {
    key_matches(l, key) && filter_ok(l, f)
}

/// The link that a lookup finds, if any (keys are unique, so at most one).
pub open spec fn find_link(links: Seq<LinkView>, key: LinkKey, f: IsPrimary) -> Option<LinkView> {
    if exists|i: int| 0 <= i < links.len() && #[trigger] link_matches(links[i], key, f) {
        Some(links[choose|i: int| 0 <= i < links.len() && #[trigger] link_matches(links[i], key, f)])
    } else {
        None
    }
}

/// The position of the link with identifier `id`.
pub open spec fn link_index(links: Seq<LinkView>, id: u128) -> int {
    choose|i: int| 0 <= i < links.len() && #[trigger] links[i].id == id
}

pub open spec fn opt_link_view(o: Option<Link>) -> Option<LinkView> {
    match o {
        Some(l) => Some(l@),
        None => None,
    }
}

/// The row that an insertion adds.
pub open spec fn new_link_row(ins: LinkInsert, id: u128) -> LinkView {
    LinkView {
        id: id,
        url: ins.url@,
        title: opt_view(ins.title),
        description: opt_view(ins.description),
        content: opt_view(ins.content),
        is_primary: ins.is_primary,
        created_at: ins.timestamp,
        modified_at: ins.timestamp,
    }
}

/// The row of an updated link: title, description and primary flag from
/// `l`, modified at `ts`; identifier, URL, content and creation time kept.
pub open spec fn updated_row(row: LinkView, l: LinkView, ts: i64) -> LinkView {
    LinkView {
        title: l.title,
        description: l.description,
        is_primary: l.is_primary,
        modified_at: ts,
        ..row
    }
}

pub open spec fn with_content(row: LinkView, content: Option<Seq<char>>) -> LinkView {
    LinkView { content: content, ..row }
}

/// Relations that pointed at existing links still do after links are
/// replaced or added without losing an identifier.
proof fn lemma_links_grow(old_links: Seq<LinkView>, links: Seq<LinkView>, rels: Seq<RelationView>)
    requires
        old_links.len() <= links.len(),
        forall|i: int| 0 <= i < old_links.len() ==> #[trigger] links[i].id == old_links[i].id,
        forall|i: int|
            0 <= i < rels.len() ==> link_exists(old_links, #[trigger] rels[i].primary)
                && link_exists(old_links, rels[i].related),
    ensures
        forall|x: u128| link_exists(old_links, x) ==> link_exists(links, x),
        forall|i: int|
            0 <= i < rels.len() ==> link_exists(links, #[trigger] rels[i].primary)
                && link_exists(links, rels[i].related),
{
    assert forall|x: u128| link_exists(old_links, x) implies link_exists(links, x) by {
        let j = choose|j: int| 0 <= j < old_links.len() && #[trigger] old_links[j].id == x;
        assert(links[j].id == x);
    }
}

/// The position of the first link that a lookup matches.
fn position_of_link(store: &Store, key: &TermOrId, f: IsPrimary) -> (r: Option<usize>)
    requires
        store@.wf(),
    ensures
        match r {
            Some(i) => i < store@.links.len() && find_link(store@.links, key_of(*key), f) == Some(store@.links[i as int])
                && link_matches(store@.links[i as int], key_of(*key), f),
            None => find_link(store@.links, key_of(*key), f) is None,
        },
{
    let ghost links = store@.links;
    let mut i: usize = 0;
    while i < store.links.len()
        invariant
            links == store@.links,
            store@.wf(),
            i <= links.len(),
            forall|q: int| 0 <= q < i ==> !#[trigger] link_matches(links[q], key_of(*key), f),
        decreases links.len() - i,
    {
        let l = &store.links[i];
        let key_ok = match key {
            TermOrId::Term(u) => same_text(l.url.as_str(), u.as_str()),
            TermOrId::Id(id) => l.id == *id,
        };
        let flag_ok = match f {
            IsPrimary::PrimaryOnly => l.is_primary,
            IsPrimary::SecondaryOnly => !l.is_primary,
            IsPrimary::Either => true,
        };
        assert(links[i as int] == l@);
        if key_ok && flag_ok {
            assert(link_matches(links[i as int], key_of(*key), f));
            let ghost j = choose|j: int| 0 <= j < links.len() && #[trigger] link_matches(links[j], key_of(*key), f);
            assert(link_matches(links[j], key_of(*key), f));
            assert(i == j) by {
                if i != j {
                    match key_of(*key) {
                        LinkKey::Url(u) => {
                            if i < j {
                                assert(links[i as int].url != links[j].url);
                            } else {
                                assert(links[j].url != links[i as int].url);
                            }
                        },
                        LinkKey::Id(id) => {
                            if i < j {
                                assert(links[i as int].id != links[j].id);
                            } else {
                                assert(links[j].id != links[i as int].id);
                            }
                        },
                    }
                }
            }
            return Some(i);
        }
        i = i + 1;
    }
    None
}

/// The link found by URL or identifier among the links that `is_primary`
/// admits, with its content.
pub fn get_link(store: &Store, identifier: &TermOrId, is_primary: IsPrimary) -> (r: Option<Link>)
    requires
        store@.wf(),
    ensures
        opt_link_view(r) == find_link(store@.links, key_of(*identifier), is_primary),
{
    match position_of_link(store, identifier, is_primary) {
        Some(i) => Some(store.links[i].duplicate()),
        None => None,
    }
}

/// The position of the link with identifier `id`.
pub(crate) fn position_of_id(store: &Store, id: u128) -> (r: Option<usize>)
    requires
        store@.wf(),
    ensures
        match r {
            Some(i) => i < store@.links.len() && store@.links[i as int].id == id && link_index(store@.links, id) == i,
            None => !link_exists(store@.links, id),
        },
{
    let key = TermOrId::Id(id);
    let r = position_of_link(store, &key, IsPrimary::Either);
    proof {
        match r {
            Some(i) => {
                let j = link_index(store@.links, id);
                assert(link_matches(store@.links[i as int], key_of(key), IsPrimary::Either));
                if i != j {
                    if i < j {
                        assert(store@.links[i as int].id != store@.links[j].id);
                    } else {
                        assert(store@.links[j].id != store@.links[i as int].id);
                    }
                }
            },
            None => {
                if link_exists(store@.links, id) {
                    let j = choose|j: int| 0 <= j < store@.links.len() && #[trigger] store@.links[j].id == id;
                    assert(link_matches(store@.links[j], key_of(key), IsPrimary::Either));
                }
            },
        }
    }
    r
}

/// Whether a link with this identifier exists.
pub fn has_link(store: &Store, id: u128) -> (r: bool)
    requires
        store@.wf(),
    ensures
        r == link_exists(store@.links, id),
{
    position_of_id(store, id).is_some()
}

/// Replaces the row at `i` by one with the same identifier and URL, which
/// keeps every invariant.
fn set_link_row(store: &mut Store, i: usize, row: Link)
    requires
        old(store)@.wf(),
        i < old(store)@.links.len(),
        row@.id == old(store)@.links[i as int].id,
        row@.url == old(store)@.links[i as int].url,
    ensures
        final(store)@ == old(store)@.with_links(old(store)@.links.update(i as int, row@)),
        final(store)@.wf(),
{
    let ghost old_view = store@;
    let ghost old_links = store@.links;
    let ghost old_rels = store@.relations;
    store.links.set(i, row);
    assert(store@.links =~= old_links.update(i as int, row@));
    proof {
        assert(store@.relations =~= old_rels);
        assert(store@.notes =~= old_view.notes);
        assert(store@.tags =~= old_view.tags);
        assert(store@.item_tags =~= old_view.item_tags);
        lemma_links_grow(old_links, store@.links, store@.relations);
    }
}

/// Adds a link row with identifier `id`: refused with `Storage` where a
/// link, a note or a tag already has that identifier.
pub fn insert_new_link(store: &mut Store, link: &LinkInsert, id: u128) -> (r: Result<u128, StoreError>)
    requires
        old(store)@.wf(),
        !url_exists(old(store)@.links, link.url@),
    ensures
        final(store)@.wf(),
        id_taken(old(store)@, id) ==> r == Err::<u128, StoreError>(StoreError::Storage) && final(store)@ == old(
            store,
        )@,
        !id_taken(old(store)@, id) ==> r == Ok::<u128, StoreError>(id) && final(store)@ == old(store)@.with_links(
            old(store)@.links.push(new_link_row(*link, id)),
        ),
{
    if has_link(store, id) || has_note_id(store, id) || has_tag_id(store, id) {
        return Err(StoreError::Storage);
    }
    let row = Link {
        id: id,
        url: link.url.clone(),
        title: clone_opt(&link.title),
        description: clone_opt(&link.description),
        content: clone_opt(&link.content),
        is_primary: link.is_primary,
        created_at: link.timestamp,
        modified_at: link.timestamp,
    };
    let ghost old_view = store@;
    let ghost old_links = store@.links;
    let ghost old_rels = store@.relations;
    assert forall|q: int| 0 <= q < old_links.len() implies old_links[q].id != id && old_links[q].url
        != link.url@ by {
        if old_links[q].id == id {
            assert(link_exists(old_links, id));
        }
        if old_links[q].url == link.url@ {
            assert(url_exists(old_links, link.url@));
        }
    }
    store.links.push(row);
    assert(store@.links =~= old_links.push(new_link_row(*link, id)));
    proof {
        assert(store@.relations =~= old_rels);
        assert(store@.notes =~= old_view.notes);
        assert(store@.tags =~= old_view.tags);
        assert(store@.item_tags =~= old_view.item_tags);
        lemma_links_grow(old_links, store@.links, store@.relations);
    }
    Ok(id)
}

/// Inserts a link. Where a link with that URL exists, the insertion is
/// refused with `Conflict`, unless `ignore_conflict` is set: then the
/// existing link's identifier is returned and nothing changes. A new link
/// gets an identifier drawn from its timestamp; a timestamp that no
/// identifier can carry is refused with `Validation`, and a drawn identifier
/// that is already taken with `Storage`.
pub fn insert_link(store: &mut Store, link: &LinkInsert, ignore_conflict: bool) -> (r: Result<u128, StoreError>)
    requires
        old(store)@.wf(),
    ensures
        final(store)@.wf(),
        url_exists(old(store)@.links, link.url@) ==> final(store)@ == old(store)@ && if ignore_conflict {
            r == Ok::<u128, StoreError>(find_link(old(store)@.links, LinkKey::Url(link.url@), IsPrimary::Either)->0.id)
        } else {
            r == Err::<u128, StoreError>(StoreError::Conflict)
        },
        !url_exists(old(store)@.links, link.url@) && !id_time_ok(link.timestamp) ==> final(store)@ == old(store)@
            && r == Err::<u128, StoreError>(StoreError::Validation),
        !url_exists(old(store)@.links, link.url@) && id_time_ok(link.timestamp) ==> match r {
            Ok(id) => !id_taken(old(store)@, id) && id_millis(id) == link.timestamp * 1000
                && final(store)@ == old(store)@.with_links(old(store)@.links.push(new_link_row(*link, id))),
            Err(e) => e == StoreError::Storage && final(store)@ == old(store)@,
        },
{
    let key = TermOrId::Term(link.url.clone());
    match position_of_link(store, &key, IsPrimary::Either) {
        Some(i) => {
            if ignore_conflict {
                return Ok(store.links[i].id);
            } else {
                return Err(StoreError::Conflict);
            }
        },
        None => {
            proof {
                if url_exists(store@.links, link.url@) {
                    let j = choose|j: int| 0 <= j < store@.links.len() && #[trigger] store@.links[j].url == link.url@;
                    assert(link_matches(store@.links[j], key_of(key), IsPrimary::Either));
                }
            }
        },
    }
    if link.timestamp < 0 || link.timestamp > MAX_ID_SECONDS {
        return Err(StoreError::Validation);
    }
    let id = draw_id(link.timestamp as u64);
    insert_new_link(store, link, id)
}

/// Sets title, description and primary flag of the link with `link`'s
/// identifier, and its modification time to `timestamp`; returns the
/// updated link, or `None` where there is no such link.
pub fn update_link(store: &mut Store, link: &Link, timestamp: i64) -> (r: Option<Link>)
    requires
        old(store)@.wf(),
    ensures
        final(store)@.wf(),
        !link_exists(old(store)@.links, link.id) ==> r is None && final(store)@ == old(store)@,
        link_exists(old(store)@.links, link.id) ==> {
            let i = link_index(old(store)@.links, link.id);
            let row = updated_row(old(store)@.links[i], link@, timestamp);
            &&& final(store)@ == old(store)@.with_links(old(store)@.links.update(i, row))
            &&& opt_link_view(r) == Some(row)
        },
{
    match position_of_id(store, link.id) {
        None => None,
        Some(i) => {
            let mut row = store.links[i].duplicate();
            row.title = clone_opt(&link.title);
            row.description = clone_opt(&link.description);
            row.is_primary = link.is_primary;
            row.modified_at = timestamp;
            let out = row.duplicate();
            set_link_row(store, i, row);
            Some(out)
        },
    }
}

/// Stores `content` as the text of the link with identifier `link_id`; no
/// change where there is no such link.
pub fn insert_content(store: &mut Store, link_id: u128, content: &str)
    requires
        old(store)@.wf(),
    ensures
        final(store)@.wf(),
        !link_exists(old(store)@.links, link_id) ==> final(store)@ == old(store)@,
        link_exists(old(store)@.links, link_id) ==> {
            let i = link_index(old(store)@.links, link_id);
            final(store)@ == old(store)@.with_links(
                old(store)@.links.update(i, with_content(old(store)@.links[i], Some(content@))),
            )
        },
{
    if let Some(i) = position_of_id(store, link_id) {
        let mut row = store.links[i].duplicate();
        row.content = Some(content.to_string());
        set_link_row(store, i, row);
    }
}

/// Removes the text of the link with identifier `link_id`.
pub fn delete_content(store: &mut Store, link_id: u128)
    requires
        old(store)@.wf(),
    ensures
        final(store)@.wf(),
        !link_exists(old(store)@.links, link_id) ==> final(store)@ == old(store)@,
        link_exists(old(store)@.links, link_id) ==> {
            let i = link_index(old(store)@.links, link_id);
            final(store)@ == old(store)@.with_links(
                old(store)@.links.update(i, with_content(old(store)@.links[i], None)),
            )
        },
{
    if let Some(i) = position_of_id(store, link_id) {
        let mut row = store.links[i].duplicate();
        row.content = None;
        set_link_row(store, i, row);
    }
}

/// A link row that outlives a deletion still exists afterwards.
proof fn lemma_link_kept(links: Seq<LinkView>, pred: spec_fn(LinkView) -> bool, x: u128)
    requires
        link_exists(links, x),
        forall|l: LinkView| l.id == x ==> pred(l),
    ensures
        link_exists(links.filter(pred), x),
{
    let j = choose|j: int| 0 <= j < links.len() && #[trigger] links[j].id == x;
    links.lemma_filter_contains(pred, j);
    let f = links.filter(pred);
    let k = choose|k: int| 0 <= k < f.len() && f[k] == links[j];
    assert(f[k].id == x);
}

/// Whether association `a` belongs to link `id`, directly or through a note
/// attached to it.
pub open spec fn owned_by_link(notes: Seq<NoteView>, a: Association, id: u128) -> bool {
    match a.owner {
        Owner::Link(x) => x == id,
        Owner::Note(n) => exists|k: int| 0 <= k < notes.len() && #[trigger] notes[k].id == n && notes[k].link_id == Some(id),
    }
}

/// The store after link `id` and everything it owns are removed: its tag
/// associations, the notes attached to it with theirs, and every relation
/// that starts or ends at it.
pub open spec fn deleted_link(st: StoreView, id: u128) -> StoreView {
    StoreView {
        links: st.links.filter(|l: LinkView| l.id != id),
        notes: st.notes.filter(|n: NoteView| n.link_id != Some(id)),
        tags: st.tags,
        item_tags: st.item_tags.filter(|a: Association| !owned_by_link(st.notes, a, id)),
        relations: st.relations.filter(|r: RelationView| r.primary != id && r.related != id),
    }
}

/// Whether note `note_id` exists and is attached to link `link_id`.
pub(crate) fn note_attached(store: &Store, note_id: u128, link_id: u128) -> (r: bool)
    ensures
        r == exists|k: int|
            0 <= k < store@.notes.len() && #[trigger] store@.notes[k].id == note_id && store@.notes[k].link_id
                == Some(link_id),
{
    let mut i: usize = 0;
    while i < store.notes.len()
        invariant
            i <= store@.notes.len(),
            forall|q: int|
                0 <= q < i ==> !(#[trigger] store@.notes[q].id == note_id && store@.notes[q].link_id == Some(
                    link_id,
                )),
        decreases store@.notes.len() - i,
    {
        let n = &store.notes[i];
        let attached = match n.link_id {
            Some(l) => l == link_id,
            None => false,
        };
        if n.id == note_id && attached {
            assert(store@.notes[i as int].id == note_id);
            return true;
        }
        i = i + 1;
    }
    false
}

/// Removes the primary link `link_id` with everything it owns (see
/// `deleted_link`); a secondary or missing link is left alone.
pub fn delete_link(store: &mut Store, link_id: u128)
    requires
        old(store)@.wf(),
    ensures
        final(store)@.wf(),
        find_link(old(store)@.links, LinkKey::Id(link_id), IsPrimary::PrimaryOnly) is Some ==> final(store)@
            == deleted_link(old(store)@, link_id),
        find_link(old(store)@.links, LinkKey::Id(link_id), IsPrimary::PrimaryOnly) is None ==> final(store)@
            == old(store)@,
{
    let key = TermOrId::Id(link_id);
    if position_of_link(store, &key, IsPrimary::PrimaryOnly).is_none() {
        return;
    }
    let ghost old_view = store@;
    let ghost target = deleted_link(old_view, link_id);
    // associations, decided against the notes as they were
    let ghost its = store@.item_tags;
    let ghost apred = |a: Association| !owned_by_link(old_view.notes, a, link_id);
    let mut kept_tags: Vec<Association> = Vec::new();
    let mut k: usize = 0;
    while k < store.item_tags.len()
        invariant
            store@ == old_view,
            its == store@.item_tags,
            apred == (|a: Association| !owned_by_link(old_view.notes, a, link_id)),
            k <= its.len(),
            kept_tags@ == its.take(k as int).filter(apred),
        decreases its.len() - k,
    {
        let a = store.item_tags[k];
        assert(its.take(k + 1) =~= its.take(k as int).push(a));
        proof {
            its.take(k as int).lemma_filter_push(a, apred);
        }
        let owned = match a.owner {
            Owner::Link(x) => x == link_id,
            Owner::Note(n) => note_attached(store, n, link_id),
        };
        if !owned {
            kept_tags.push(a);
        }
        k = k + 1;
    }
    assert(its.take(its.len() as int) =~= its);
    // notes attached to the link
    let ghost notes = store@.notes;
    let ghost npred = |n: NoteView| n.link_id != Some(link_id);
    let mut kept_notes: Vec<Note> = Vec::new();
    let mut i: usize = 0;
    while i < store.notes.len()
        invariant
            store@ == old_view,
            notes == store@.notes,
            npred == (|n: NoteView| n.link_id != Some(link_id)),
            i <= notes.len(),
            kept_notes@.map_values(|n: Note| n@) == notes.take(i as int).filter(npred),
        decreases notes.len() - i,
    {
        let n = &store.notes[i];
        assert(notes.take(i + 1) =~= notes.take(i as int).push(n@));
        proof {
            notes.take(i as int).lemma_filter_push(n@, npred);
        }
        let attached = match n.link_id {
            Some(l) => l == link_id,
            None => false,
        };
        if !attached {
            let ghost before = kept_notes@.map_values(|n: Note| n@);
            kept_notes.push(n.duplicate());
            assert(kept_notes@.map_values(|n: Note| n@) =~= before.push(n@));
        }
        i = i + 1;
    }
    assert(notes.take(notes.len() as int) =~= notes);
    // relations that start or end at the link
    let ghost rels = store@.relations;
    let ghost rpred = |r: RelationView| r.primary != link_id && r.related != link_id;
    let mut kept_rels: Vec<Relation> = Vec::new();
    let mut j: usize = 0;
    while j < store.relations.len()
        invariant
            store@ == old_view,
            rels == store@.relations,
            rpred == (|r: RelationView| r.primary != link_id && r.related != link_id),
            j <= rels.len(),
            kept_rels@.map_values(|r: Relation| r@) == rels.take(j as int).filter(rpred),
        decreases rels.len() - j,
    {
        let rel = &store.relations[j];
        assert(rels.take(j + 1) =~= rels.take(j as int).push(rel@));
        proof {
            rels.take(j as int).lemma_filter_push(rel@, rpred);
        }
        if rel.primary_link_id != link_id && rel.related_link_id != link_id {
            let ghost before = kept_rels@.map_values(|r: Relation| r@);
            kept_rels.push(rel.duplicate());
            assert(kept_rels@.map_values(|r: Relation| r@) =~= before.push(rel@));
        }
        j = j + 1;
    }
    assert(rels.take(rels.len() as int) =~= rels);
    // the link itself
    let ghost links = store@.links;
    let ghost lpred = |l: LinkView| l.id != link_id;
    let mut kept_links: Vec<Link> = Vec::new();
    let mut m: usize = 0;
    while m < store.links.len()
        invariant
            store@ == old_view,
            links == store@.links,
            lpred == (|l: LinkView| l.id != link_id),
            m <= links.len(),
            kept_links@.map_values(|l: Link| l@) == links.take(m as int).filter(lpred),
        decreases links.len() - m,
    {
        let l = &store.links[m];
        assert(links.take(m + 1) =~= links.take(m as int).push(l@));
        proof {
            links.take(m as int).lemma_filter_push(l@, lpred);
        }
        if l.id != link_id {
            let ghost before = kept_links@.map_values(|l: Link| l@);
            kept_links.push(l.duplicate());
            assert(kept_links@.map_values(|l: Link| l@) =~= before.push(l@));
        }
        m = m + 1;
    }
    assert(links.take(links.len() as int) =~= links);
    store.item_tags = kept_tags;
    store.notes = kept_notes;
    store.relations = kept_rels;
    store.links = kept_links;
    proof {
        assert(store@.links == target.links);
        assert(store@.notes == target.notes);
        assert(store@.item_tags == target.item_tags);
        assert(store@.relations == target.relations);
        assert(store@.tags =~= target.tags);
        lemma_filter_unique_by(links, lpred, |l: LinkView| l.id);
        lemma_filter_unique_by(links, lpred, |l: LinkView| l.url);
        lemma_filter_unique_by(notes, npred, |n: NoteView| n.id);
        lemma_filter_unique_by(notes, npred, |n: NoteView| n.title);
        lemma_filter_from(links, lpred);
        lemma_filter_from(notes, npred);
        lemma_contains_all(old_view.tags);
        lemma_ids_apart(old_view, store@);
        lemma_filter_unique(its, apred);
        lemma_filter_from(rels, rpred);
        assert forall|q: int| 0 <= q < store@.relations.len() implies link_exists(
            store@.links,
            #[trigger] store@.relations[q].primary,
        ) && link_exists(store@.links, store@.relations[q].related) by {
            let r = store@.relations[q];
            assert(r == rels.filter(rpred)[q]);
            assert(rels.contains(r));
            let w = choose|w: int| 0 <= w < rels.len() && rels[w] == r;
            assert(link_exists(links, rels[w].primary));
            lemma_link_kept(links, lpred, r.primary);
            lemma_link_kept(links, lpred, r.related);
        }
    }
}


/// In a store whose keys are unique, a lookup finds the one link that
/// matches it.
pub proof fn lemma_find_at(st: StoreView, key: LinkKey, f: IsPrimary, j: int)
    requires
        st.wf(),
        0 <= j < st.links.len(),
        link_matches(st.links[j], key, f),
    ensures
        find_link(st.links, key, f) == Some(st.links[j]),
{
    let links = st.links;
    let k = choose|k: int| 0 <= k < links.len() && #[trigger] link_matches(links[k], key, f);
    if k != j {
        match key {
            LinkKey::Url(u) => {
                if k < j {
                    assert(links[k].url != links[j].url);
                } else {
                    assert(links[j].url != links[k].url);
                }
            },
            LinkKey::Id(id) => {
                if k < j {
                    assert(links[k].id != links[j].id);
                } else {
                    assert(links[j].id != links[k].id);
                }
            },
        }
    }
}

/// In a store whose identifiers are unique, the link with identifier `id`
/// stands at the one position that holds it.
pub proof fn lemma_link_index(st: StoreView, id: u128, j: int)
    requires
        st.wf(),
        0 <= j < st.links.len(),
        st.links[j].id == id,
    ensures
        link_index(st.links, id) == j,
        link_exists(st.links, id),
{
    let k = link_index(st.links, id);
    assert(link_exists(st.links, id));
    if k != j {
        if k < j {
            assert(st.links[k].id != st.links[j].id);
        } else {
            assert(st.links[j].id != st.links[k].id);
        }
    }
}

/// A lookup that succeeds names a position that matches it.
pub proof fn lemma_find_some(links: Seq<LinkView>, key: LinkKey, f: IsPrimary) -> (j: int)
    requires
        find_link(links, key, f) is Some,
    ensures
        0 <= j < links.len(),
        link_matches(links[j], key, f),
        find_link(links, key, f) == Some(links[j]),
{
    choose|i: int| 0 <= i < links.len() && #[trigger] link_matches(links[i], key, f)
}


/// Adds a stored link row as it is, as when a store is loaded; refused with
/// `Storage` where its identifier (in any table) or its URL is taken.
pub fn restore_link(store: &mut Store, row: Link) -> (r: Result<(), StoreError>)
    requires
        old(store)@.wf(),
    ensures
        final(store)@.wf(),
        id_taken(old(store)@, row.id) || url_exists(old(store)@.links, row.url@) ==> r == Err::<
            (),
            StoreError,
        >(StoreError::Storage) && final(store)@ == old(store)@,
        !(id_taken(old(store)@, row.id) || url_exists(old(store)@.links, row.url@)) ==> r is Ok
            && final(store)@ == old(store)@.with_links(old(store)@.links.push(row@)),
{
    if has_link(store, row.id) || has_note_id(store, row.id) || has_tag_id(store, row.id) {
        return Err(StoreError::Storage);
    }
    let key = TermOrId::Term(row.url.clone());
    if position_of_link(store, &key, IsPrimary::Either).is_some() {
        return Err(StoreError::Storage);
    }
    let ghost old_view = store@;
    let ghost old_links = store@.links;
    let ghost old_rels = store@.relations;
    proof {
        assert forall|q: int| 0 <= q < old_links.len() implies old_links[q].id != row.id && old_links[q].url
            != row.url@ by {
            if old_links[q].id == row.id {
                assert(link_exists(old_links, row.id));
            }
            if old_links[q].url == row.url@ {
                assert(link_matches(old_links[q], key_of(key), IsPrimary::Either));
            }
        }
    }
    let ghost rv = row@;
    store.links.push(row);
    assert(store@.links =~= old_links.push(rv));
    proof {
        assert(store@.relations =~= old_rels);
        assert(store@.notes =~= old_view.notes);
        assert(store@.tags =~= old_view.tags);
        assert(store@.item_tags =~= old_view.item_tags);
        lemma_links_grow(old_links, store@.links, store@.relations);
        if url_exists(old_links, rv.url) {
            let j = choose|j: int| 0 <= j < old_links.len() && #[trigger] old_links[j].url == rv.url;
            assert(old_links[j].url != rv.url);
        }
    }
    Ok(())
}

} // verus!
