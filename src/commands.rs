//! What the commands decide: checking a link's URL, adding a link (and
//! promoting a secondary link with the same URL), and removing a link
//! (demoting it where other links still point at it).
use vstd::prelude::*;

use crate::ids::{id_time_ok, MAX_ID_SECONDS};
use crate::lifecycle::{transition, LinkAction, LinkEvent, LinkState};
use crate::links::{
    delete_content, delete_link, deleted_link, find_link, get_link, insert_content, insert_link,
    key_of, lemma_find_at, lemma_find_some, lemma_link_index, link_index, link_matches,
    new_link_row, update_link, LinkKey,
};
use crate::notes::{
    new_note_row, rewritten_note,
    delete_note, find_note, get_note_by_title, lemma_find_note, note_index, note_matches,
    note_tags_without, notes_without, upsert_note,
};
use crate::relations::{
    delete_related_links, get_inverse_related_links, inverse, relate_links, relations_kept,
};
use crate::slug::{slugify, slugify_spec, string_from_chars};
use crate::store::{
    note_exists, RelationView, TagView,
    lemma_filter_from, link_exists, slug_exists, title_exists, url_exists, Association, IsPrimary,
    Link, LinkInsert, LinkView, NoteView, Owner, Store, StoreError, StoreView, TermOrId,
};
use crate::tags::{
    lemma_require_tag_keeps, tags_kept,
    delete_item_tags, item_tags_kept, require_tag, require_tag_post, tag_index, tag_link, tag_note,
};
use crate::text::{clone_opt, opt_view, same_text};

verus! {

/// The scheme of `s` where `s` parses as a URL.
pub uninterp spec fn scheme_of(s: Seq<char>) -> Option<Seq<char>>;

/// Relies on `url::Url::parse` and `url::Url::scheme`: the scheme of the URL
/// that `s` parses to, `None` where it does not parse.
#[verifier::external_body]
fn url_scheme(s: &str) -> (r: Option<String>)
    ensures
        opt_view(r) == scheme_of(s@),
{
    match url::Url::parse(s) {
        Ok(u) => Some(u.scheme().to_string()),
        Err(_) => None,
    }
}

pub open spec fn is_web_scheme_spec(scheme: Seq<char>) -> bool {
    scheme == "http"@ || scheme == "https"@
}

/// Whether a URL scheme is one of the web's.
pub fn is_web_scheme(scheme: &str) -> (r: bool)
    ensures
        r == is_web_scheme_spec(scheme@),
{
    same_text(scheme, "http") || same_text(scheme, "https")
}

pub open spec fn web_url(s: Seq<char>) -> bool {
    scheme_of(s) is Some && is_web_scheme_spec(scheme_of(s)->0)
}

/// Accepts a URL that parses and has the scheme `http` or `https`.
pub fn check_web_url(link: &str) -> (r: Result<(), StoreError>)
    ensures
        web_url(link@) ==> r is Ok,
        !web_url(link@) ==> r == Err::<(), StoreError>(StoreError::Validation),
{
    match url_scheme(link) {
        Some(scheme) => {
            if is_web_scheme(scheme.as_str()) {
                Ok(())
            } else {
                Err(StoreError::Validation)
            }
        },
        None => Err(StoreError::Validation),
    }
}


/// The row of a secondary link promoted by an insertion: title,
/// description and content from the insertion, primary, modified at its
/// timestamp; identifier, URL and creation time kept.
pub open spec fn promoted_row(row: LinkView, ins: LinkInsert) -> LinkView {
    LinkView {
        title: opt_view(ins.title),
        description: opt_view(ins.description),
        is_primary: true,
        modified_at: ins.timestamp,
        content: match ins.content {
            Some(c) => Some(c@),
            None => row.content,
        },
        ..row
    }
}

/// Inserts a link, or promotes the secondary link that has its URL: the
/// secondary link keeps its identifier, so relations that point at it stay
/// valid. A primary link with that URL makes it a `Conflict`; otherwise
/// the outcomes are those of `insert_link`.
pub fn upsert_primary_link(store: &mut Store, ins: &LinkInsert) -> (r: Result<u128, StoreError>)
    requires
        old(store)@.wf(),
    ensures
        final(store)@.wf(),
        !url_exists(old(store)@.links, ins.url@) && !id_time_ok(ins.timestamp) ==> final(store)@ == old(store)@
            && r == Err::<u128, StoreError>(StoreError::Validation),
        !url_exists(old(store)@.links, ins.url@) && id_time_ok(ins.timestamp) ==> match r {
            Ok(id) => !link_exists(old(store)@.links, id) && final(store)@ == old(store)@.with_links(
                old(store)@.links.push(new_link_row(*ins, id)),
            ),
            Err(e) => e == StoreError::Storage && final(store)@ == old(store)@,
        },
        find_link(old(store)@.links, LinkKey::Url(ins.url@), IsPrimary::SecondaryOnly) is Some ==> {
            let sec = find_link(old(store)@.links, LinkKey::Url(ins.url@), IsPrimary::SecondaryOnly)->0;
            let i = link_index(old(store)@.links, sec.id);
            &&& r == Ok::<u128, StoreError>(sec.id)
            &&& final(store)@ == old(store)@.with_links(
                old(store)@.links.update(i, promoted_row(old(store)@.links[i], *ins)),
            )
        },
        find_link(old(store)@.links, LinkKey::Url(ins.url@), IsPrimary::PrimaryOnly) is Some ==> r == Err::<
            u128,
            StoreError,
        >(StoreError::Conflict) && final(store)@ == old(store)@,
{
    let ghost old_view = store@;
    let key = TermOrId::Term(ins.url.clone());
    let found = get_link(store, &key, IsPrimary::Either);
    let state = match &found {
        None => LinkState::Absent,
        Some(l) => if l.is_primary {
            LinkState::Primary
        } else {
            LinkState::Secondary
        },
    };
    let (_, action) = transition(state, 0, LinkEvent::Add);
    proof {
        lemma_no_match_when_new(old_view.links, ins.url);
        if found is None && url_exists(old_view.links, ins.url@) {
            let w = choose|w: int| 0 <= w < old_view.links.len() && #[trigger] old_view.links[w].url == ins.url@;
            assert(link_matches(old_view.links[w], key_of(key), IsPrimary::Either));
        }
    }
    match found {
        None => insert_link(store, ins, false),
        Some(l) => {
            let ghost j = lemma_find_some(old_view.links, key_of(key), IsPrimary::Either);
            proof {
                lemma_link_index(old_view, l.id, j);
                assert(key_of(key) == LinkKey::Url(ins.url@));
                assert(url_exists(old_view.links, ins.url@));
                if find_link(old_view.links, LinkKey::Url(ins.url@), IsPrimary::PrimaryOnly) is Some {
                    let k = lemma_find_some(old_view.links, LinkKey::Url(ins.url@), IsPrimary::PrimaryOnly);
                    lemma_same_url(old_view, j, k);
                }
                if find_link(old_view.links, LinkKey::Url(ins.url@), IsPrimary::SecondaryOnly) is Some {
                    let k = lemma_find_some(old_view.links, LinkKey::Url(ins.url@), IsPrimary::SecondaryOnly);
                    lemma_same_url(old_view, j, k);
                }
            }
            if action == LinkAction::Reject {
                return Err(StoreError::Conflict);
            }
            proof {
                assert(link_matches(old_view.links[j], LinkKey::Url(ins.url@), IsPrimary::SecondaryOnly));
                lemma_find_at(old_view, LinkKey::Url(ins.url@), IsPrimary::SecondaryOnly, j);
            }
            let mut promoted = l.duplicate();
            promoted.title = clone_opt(&ins.title);
            promoted.description = clone_opt(&ins.description);
            promoted.is_primary = true;
            update_link(store, &promoted, ins.timestamp);
            let ghost mid = store@;
            match &ins.content {
                Some(c) => {
                    proof {
                        lemma_link_index(mid, l.id, j);
                    }
                    insert_content(store, l.id, c.as_str());
                },
                None => {},
            }
            assert(store@.links =~= old_view.links.update(j, promoted_row(old_view.links[j], *ins)));
            Ok(l.id)
        },
    }
}

/// Two links with one URL are one link.
proof fn lemma_same_url(st: StoreView, j: int, k: int)
    requires
        st.wf(),
        0 <= j < st.links.len(),
        0 <= k < st.links.len(),
        st.links[j].url == st.links[k].url,
    ensures
        j == k,
{
    if j < k {
        assert(st.links[j].url != st.links[k].url);
    } else if k < j {
        assert(st.links[k].url != st.links[j].url);
    }
}

/// Where no link has a URL, no lookup by that URL finds one.
proof fn lemma_no_match_when_new(links: Seq<LinkView>, url: String)
    ensures
        !url_exists(links, url@) ==> find_link(links, LinkKey::Url(url@), IsPrimary::SecondaryOnly) is None
            && find_link(links, LinkKey::Url(url@), IsPrimary::PrimaryOnly) is None,
{
    if !url_exists(links, url@) {
        if find_link(links, LinkKey::Url(url@), IsPrimary::SecondaryOnly) is Some {
            let j = lemma_find_some(links, LinkKey::Url(url@), IsPrimary::SecondaryOnly);
            assert(links[j].url == url@);
        }
        if find_link(links, LinkKey::Url(url@), IsPrimary::PrimaryOnly) is Some {
            let j = lemma_find_some(links, LinkKey::Url(url@), IsPrimary::PrimaryOnly);
            assert(links[j].url == url@);
        }
    }
}


/// The row of a demoted link: secondary, without content, modified at `ts`.
pub open spec fn demoted_row(row: LinkView, ts: i64) -> LinkView {
    LinkView { is_primary: false, content: None, modified_at: ts, ..row }
}

/// The store after link `id` is demoted: it becomes secondary and loses
/// its content, its tag associations and the relations that start at it;
/// the relations that end at it stay.
pub open spec fn demoted(st: StoreView, id: u128, ts: i64) -> StoreView {
    let i = link_index(st.links, id);
    st.with_links(st.links.update(i, demoted_row(st.links[i], ts))).with_item_tags(
        item_tags_kept(st.item_tags, id),
    ).with_relations(relations_kept(st.relations, Some(id), None))
}

/// Removes the primary link with URL `url`. Where other links relate to
/// it, it is demoted instead (see `demoted`), so that their relations stay
/// valid; otherwise it is deleted with everything it owns. Returns whether
/// there was such a link.
pub fn remove_link(store: &mut Store, url: &str, timestamp: i64) -> (r: bool)
    requires
        old(store)@.wf(),
    ensures
        final(store)@.wf(),
        r == find_link(old(store)@.links, LinkKey::Url(url@), IsPrimary::PrimaryOnly) is Some,
        !r ==> final(store)@ == old(store)@,
        r ==> {
            let id = find_link(old(store)@.links, LinkKey::Url(url@), IsPrimary::PrimaryOnly)->0.id;
            &&& inverse(old(store)@.relations, id).len() == 0 ==> final(store)@ == deleted_link(old(store)@, id)
            &&& inverse(old(store)@.relations, id).len() > 0 ==> final(store)@ == demoted(old(store)@, id, timestamp)
        },
        final(store)@ == link_removed(old(store)@, url@, timestamp),
{
    let ghost old_view = store@;
    let key = TermOrId::Term(url.to_string());
    match get_link(store, &key, IsPrimary::PrimaryOnly) {
        None => false,
        Some(link) => {
            let ghost j = lemma_find_some(old_view.links, key_of(key), IsPrimary::PrimaryOnly);
            proof {
                lemma_link_index(old_view, link.id, j);
                assert(link_matches(old_view.links[j], LinkKey::Id(link.id), IsPrimary::PrimaryOnly));
                lemma_find_at(old_view, LinkKey::Id(link.id), IsPrimary::PrimaryOnly, j);
            }
            let inbound = get_inverse_related_links(store, link.id);
            let (_, action) = transition(LinkState::Primary, inbound.len(), LinkEvent::Remove);
            if action == LinkAction::Delete {
                delete_link(store, link.id);
            } else {
                let mut l = link.duplicate();
                l.is_primary = false;
                update_link(store, &l, timestamp);
                delete_item_tags(store, link.id);
                let _ = delete_related_links(store, Some(link.id), None);
                let ghost mid = store@;
                proof {
                    lemma_link_index(mid, link.id, j);
                }
                delete_content(store, link.id);
                assert(store@.links =~= old_view.links.update(j, demoted_row(old_view.links[j], timestamp)));
            }
            true
        },
    }
}

/// The store after the primary link with URL `url` is removed: deleted
/// where no relation ends at it, demoted otherwise; unchanged where there
/// is no such link.
pub open spec fn link_removed(st: StoreView, url: Seq<char>, ts: i64) -> StoreView {
    match find_link(st.links, LinkKey::Url(url), IsPrimary::PrimaryOnly) {
        None => st,
        Some(l) => if inverse(st.relations, l.id).len() == 0 {
            deleted_link(st, l.id)
        } else {
            demoted(st, l.id, ts)
        },
    }
}

/// The store after the note titled `title` is removed with its tag
/// associations; unchanged where there is no such note.
pub open spec fn note_removed(st: StoreView, title: Seq<char>) -> StoreView {
    if title_exists(st.notes, title) {
        let id = st.notes[note_index(st.notes, title)].id;
        st.with_notes(notes_without(st.notes, id)).with_item_tags(note_tags_without(st.item_tags, id))
    } else {
        st
    }
}

/// Which kinds of item a removal found.
#[derive(Debug, Clone, Copy, PartialEq, Eq, Structural)]
pub struct Removed {
    pub link: bool,
    pub note: bool,
}

/// Removes the primary link whose URL is `item` (see `remove_link`) and
/// then the note titled `item`.
pub fn remove_item(store: &mut Store, item: &str, timestamp: i64) -> (r: Removed)
    requires
        old(store)@.wf(),
    ensures
        final(store)@.wf(),
        r.link == find_link(old(store)@.links, LinkKey::Url(item@), IsPrimary::PrimaryOnly) is Some,
        r.note == title_exists(link_removed(old(store)@, item@, timestamp).notes, item@),
        final(store)@ == note_removed(link_removed(old(store)@, item@, timestamp), item@),
        !title_exists(final(store)@.notes, item@),
{
    let link = remove_link(store, item, timestamp);
    let ghost mid = store@;
    let note = match get_note_by_title(store, item) {
        Some(n) => {
            let ghost j = lemma_find_note_title(mid.notes, item@);
            proof {
                lemma_note_index(mid, item@, j);
            }
            delete_note(store, n.id);
            proof {
                lemma_title_gone(mid, n.id, item@, j);
            }
            true
        },
        None => {
            proof {
                lemma_find_note_none(mid.notes, item@);
            }
            false
        },
    };
    Removed { link: link, note: note }
}

/// A note found by title has that title.
proof fn lemma_find_note_title(notes: Seq<NoteView>, t: Seq<char>) -> (j: int)
    requires
        find_note(notes, None, None, Some(t)) is Some,
    ensures
        0 <= j < notes.len(),
        notes[j].title == t,
        find_note(notes, None, None, Some(t)) == Some(notes[j]),
        title_exists(notes, t),
{
    lemma_find_note(notes, None, None, Some(t));
    let j = choose|j: int| 0 <= j < notes.len() && notes[j] == find_note(notes, None, None, Some(t))->0;
    assert(notes[j].title == t);
    j
}

/// A title that no lookup finds is no note's.
proof fn lemma_find_note_none(notes: Seq<NoteView>, t: Seq<char>)
    requires
        find_note(notes, None, None, Some(t)) is None,
    ensures
        !title_exists(notes, t),
{
    lemma_find_note(notes, None, None, Some(t));
    if title_exists(notes, t) {
        let j = choose|j: int| 0 <= j < notes.len() && #[trigger] notes[j].title == t;
        assert(note_matches(notes[j], None, None, Some(t)));
    }
}

/// Removing the note that holds a title leaves no note with it.
proof fn lemma_title_gone(st: StoreView, id: u128, t: Seq<char>, j: int)
    requires
        st.wf(),
        0 <= j < st.notes.len(),
        st.notes[j].id == id,
        st.notes[j].title == t,
    ensures
        !title_exists(notes_without(st.notes, id), t),
{
    let pred = |n: NoteView| n.id != id;
    lemma_filter_from(st.notes, pred);
    let f = notes_without(st.notes, id);
    if title_exists(f, t) {
        let k = choose|k: int| 0 <= k < f.len() && #[trigger] f[k].title == t;
        assert(st.notes.contains(f[k]));
        let w = choose|w: int| 0 <= w < st.notes.len() && st.notes[w] == f[k];
        if w < j {
            assert(st.notes[w].title != st.notes[j].title);
        } else if j < w {
            assert(st.notes[j].title != st.notes[w].title);
        }
    }
}


/// What the content extractor made of a page.
#[derive(Debug, Clone)]
pub struct PageInfo {
    pub title: String,
    pub excerpt: Option<String>,
    /// The page's plain text, trimmed.
    pub text_content: String,
}

/// An `add` command: the URL, its tags, title and description given by the
/// user (the page's own are used where none is given), an optional note,
/// and an optional related link with the label of the relation.
#[derive(Debug, Clone)]
pub struct AddRequest {
    pub link: String,
    pub tags: Vec<String>,
    pub title: Option<String>,
    pub description: Option<String>,
    pub note: Option<String>,
    pub related_link: Option<String>,
    pub relation: Option<String>,
}

/// The title a link gets: the user's, else the page's where it is not empty.
pub open spec fn chosen_title(given: Option<Seq<char>>, page_title: Seq<char>) -> Option<Seq<char>> {
    if given is Some {
        given
    } else if page_title.len() == 0 {
        None
    } else {
        Some(page_title)
    }
}

/// The description a link gets: the user's, else the page's excerpt.
pub open spec fn chosen_description(given: Option<Seq<char>>, excerpt: Option<Seq<char>>) -> Option<Seq<char>> {
    if given is Some {
        given
    } else {
        excerpt
    }
}

/// The title a link gets from the user's and the page's.
pub fn choose_title(given: &Option<String>, page_title: &str) -> (r: Option<String>)
    ensures
        opt_view(r) == chosen_title(opt_view(*given), page_title@),
{
    match given {
        Some(t) => Some(t.clone()),
        None => {
            if page_title.unicode_len() == 0 {
                None
            } else {
                Some(page_title.to_string())
            }
        },
    }
}

/// The description a link gets from the user's and the page's excerpt.
pub fn choose_description(given: &Option<String>, excerpt: &Option<String>) -> (r: Option<String>)
    ensures
        opt_view(r) == chosen_description(opt_view(*given), opt_view(*excerpt)),
{
    match given {
        Some(d) => Some(d.clone()),
        None => clone_opt(excerpt),
    }
}

/// Whether every tag name has a slug.
pub open spec fn tags_valid(tags: Seq<String>) -> bool {
    forall|i: int| 0 <= i < tags.len() ==> #[trigger] slugify_spec(tags[i]@) is Some
}

/// The row an `add` leaves for its URL.
pub open spec fn added_row(l: LinkView, req: AddRequest, page: PageInfo, id: u128) -> bool {
    &&& l.id == id
    &&& l.url == req.link@
    &&& l.is_primary
    &&& l.title == chosen_title(opt_view(req.title), page.title@)
    &&& l.description == chosen_description(opt_view(req.description), opt_view(page.excerpt))
    &&& l.content == Some(page.text_content@)
}

/// Whether item `item` carries a tag with slug `slug`.
pub open spec fn tag_attached(st: StoreView, item: Owner, slug: Seq<char>) -> bool {
    exists|k: int|
        0 <= k < st.tags.len() && #[trigger] st.tags[k].slug == slug && st.item_tags.contains(
            Association { owner: item, tag_id: st.tags[k].id },
        )
}

/// A tag stays attached while tags keep their identifiers and slugs and no
/// association is lost.
proof fn lemma_attached_kept(st: StoreView, after: StoreView, item: Owner, slug: Seq<char>)
    requires
        tag_attached(st, item, slug),
        st.tags.len() <= after.tags.len(),
        forall|k: int|
            0 <= k < st.tags.len() ==> (#[trigger] after.tags[k]).id == st.tags[k].id && after.tags[k].slug
                == st.tags[k].slug,
        forall|a: Association| st.item_tags.contains(a) ==> #[trigger] after.item_tags.contains(a),
    ensures
        tag_attached(after, item, slug),
{
    let k = choose|k: int|
        0 <= k < st.tags.len() && #[trigger] st.tags[k].slug == slug && st.item_tags.contains(
            Association { owner: item, tag_id: st.tags[k].id },
        );
    assert(after.tags[k].slug == slug);
    assert(after.item_tags.contains(Association { owner: item, tag_id: after.tags[k].id }));
}

/// Whether every tag name's slug is a tag of `tags`.
pub open spec fn slugs_present(tags: Seq<TagView>, names: Seq<String>) -> bool {
    forall|q: int| 0 <= q < names.len() ==> slug_exists(tags, #[trigger] slugify_spec(names[q]@)->0)
}

/// The notes after the note titled `title` is given `text` at `ts`: its
/// content and modification time overwritten where it exists (identifier,
/// link and creation time kept), else a new note with identifier `id`,
/// attached to `link_id`.
pub open spec fn note_saved(
    notes: Seq<NoteView>,
    text: Seq<char>,
    title: Seq<char>,
    ts: i64,
    id: u128,
    link_id: Option<u128>,
) -> Seq<NoteView> {
    if title_exists(notes, title) {
        let i = note_index(notes, title);
        notes.update(i, rewritten_note(notes[i], text, ts))
    } else {
        notes.push(new_note_row(id, text, title, link_id, ts))
    }
}

/// Pushing keeps what a sequence contains.
proof fn lemma_push_keeps(s: Seq<Association>, x: Association)
    ensures
        forall|b: Association| s.contains(b) ==> #[trigger] s.push(x).contains(b),
        s.push(x).contains(x),
{
    assert(s.push(x)[s.len() as int] == x);
    assert forall|b: Association| s.contains(b) implies #[trigger] s.push(x).contains(b) by {
        let k = choose|k: int| 0 <= k < s.len() && s[k] == b;
        assert(s.push(x)[k] == b);
    }
}

/// The slugs of all tag names, or `Validation` where one has none.
fn slugs_of(tags: &Vec<String>) -> (r: Result<Vec<String>, StoreError>)
    ensures
        r is Ok <==> tags_valid(tags@),
        r is Err ==> r == Err::<Vec<String>, StoreError>(StoreError::Validation),
        r is Ok ==> r->Ok_0@.len() == tags@.len() && forall|i: int|
            0 <= i < tags@.len() ==> slugify_spec(tags@[i]@) == Some(#[trigger] r->Ok_0@[i]@),
{
    let mut out: Vec<String> = Vec::new();
    let mut i: usize = 0;
    while i < tags.len()
        invariant
            i <= tags@.len(),
            out@.len() == i,
            forall|q: int| 0 <= q < i ==> #[trigger] slugify_spec(tags@[q]@) == Some(out@[q]@),
        decreases tags@.len() - i,
    {
        match slugify(tags[i].as_str()) {
            Ok(s) => out.push(s),
            Err(_) => {
                assert(slugify_spec(tags@[i as int]@) is None);
                return Err(StoreError::Validation);
            },
        }
        i = i + 1;
    }
    Ok(out)
}

/// Rows that keep their positions keep their URLs after an update that
/// keeps the URL at `j`.
proof fn lemma_urls_kept(links: Seq<LinkView>, base: Seq<LinkView>, url: Seq<char>, j: int)
    requires
        url_exists(links, url),
        links.len() <= base.len(),
        0 <= j < links.len() ==> base[j].url == links[j].url,
        forall|k: int| 0 <= k < links.len() && k != j ==> #[trigger] base[k] == links[k],
    ensures
        url_exists(base, url),
{
    let k = choose|k: int| 0 <= k < links.len() && #[trigger] links[k].url == url;
    assert(base[k].url == url);
}

/// Requires the tag of every name (see `require_tag`) and attaches it to
/// `owner`. Only the tag table and the associations change; every tag
/// keeps its identifier and slug and every association stays. It succeeds
/// where every slug exists already; otherwise it fails only where a drawn
/// identifier is taken (`Storage`).
pub fn attach_tags(store: &mut Store, owner: Owner, tags: &Vec<String>, slugs: &Vec<String>, timestamp: i64) -> (r:
    Result<Vec<u128>, StoreError>)
    requires
        old(store)@.wf(),
        slugs@.len() == tags@.len(),
        forall|q: int| 0 <= q < tags@.len() ==> slugify_spec(tags@[q]@) == Some(#[trigger] slugs@[q]@),
        id_time_ok(timestamp),
    ensures
        final(store)@.wf(),
        final(store)@.links == old(store)@.links,
        final(store)@.notes == old(store)@.notes,
        final(store)@.relations == old(store)@.relations,
        tags_kept(old(store)@.tags, final(store)@.tags),
        forall|a: Association| old(store)@.item_tags.contains(a) ==> #[trigger] final(store)@.item_tags.contains(a),
        r is Ok || r == Err::<Vec<u128>, StoreError>(StoreError::Storage),
        slugs_present(old(store)@.tags, tags@) ==> r is Ok,
        r is Ok ==> forall|q: int| 0 <= q < tags@.len() ==> tag_attached(final(store)@, owner, #[trigger] slugs@[q]@),
        r is Ok ==> forall|q: int|
            0 <= q < tags@.len() ==> tag_attached(final(store)@, owner, #[trigger] slugify_spec(tags@[q]@)->0),
{
    let ghost before = store@;
    let mut ids: Vec<u128> = Vec::new();
    let mut i: usize = 0;
    while i < tags.len()
        invariant
            store@.wf(),
            store@.links == before.links,
            store@.notes == before.notes,
            store@.relations == before.relations,
            tags_kept(before.tags, store@.tags),
            forall|a: Association| before.item_tags.contains(a) ==> #[trigger] store@.item_tags.contains(a),
            before == old(store)@,
            id_time_ok(timestamp),
            i <= tags@.len(),
            slugs@.len() == tags@.len(),
            forall|q: int| 0 <= q < tags@.len() ==> slugify_spec(tags@[q]@) == Some(#[trigger] slugs@[q]@),
            slugs_present(before.tags, tags@) ==> forall|q: int|
                0 <= q < tags@.len() ==> slug_exists(store@.tags, #[trigger] slugs@[q]@),
            forall|q: int| 0 <= q < i ==> tag_attached(store@, owner, #[trigger] slugs@[q]@),
        decreases tags@.len() - i,
    {
        let ghost s0 = store@;
        proof {
            if slugs_present(before.tags, tags@) {
                assert(slug_exists(s0.tags, slugs@[i as int]@));
            }
        }
        let required = require_tag(store, tags[i].as_str(), slugs[i].as_str(), timestamp);
        let ghost s1 = store@;
        proof {
            lemma_require_tag_keeps(s0, s1, tags@[i as int]@, slugs@[i as int]@, timestamp, required);
        }
        let tag_id = required?;
        match owner {
            Owner::Link(x) => tag_link(store, x, tag_id),
            Owner::Note(x) => tag_note(store, x, tag_id),
        }
        proof {
            let a = Association { owner: owner, tag_id: tag_id };
            lemma_push_keeps(s1.item_tags, a);
            assert(store@.item_tags.contains(a));
            assert forall|q: int| 0 <= q < i implies tag_attached(store@, owner, #[trigger] slugs@[q]@) by {
                lemma_attached_kept(s0, s1, owner, slugs@[q]@);
                lemma_attached_kept(s1, store@, owner, slugs@[q]@);
            }
            let w = choose|w: int|
                0 <= w < s1.tags.len() && #[trigger] s1.tags[w].slug == slugs@[i as int]@ && s1.tags[w].id == tag_id;
            assert(store@.tags[w].slug == slugs@[i as int]@);
            assert(tag_attached(store@, owner, slugs@[i as int]@));
            if slugs_present(before.tags, tags@) {
                assert forall|q: int| 0 <= q < tags@.len() implies slug_exists(store@.tags, #[trigger] slugs@[q]@) by {
                    assert(slug_exists(s0.tags, slugs@[q]@));
                }
            }
        }
        ids.push(tag_id);
        i = i + 1;
    }
    proof {
        assert forall|q: int| 0 <= q < tags@.len() implies tag_attached(
            store@,
            owner,
            #[trigger] slugify_spec(tags@[q]@)->0,
        ) by {
            assert(slugify_spec(tags@[q]@)->0 == slugs@[q]@);
            assert(tag_attached(store@, owner, slugs@[q]@));
        }
    }
    Ok(ids)
}

/// Saves the note of link `link_id`: the note titled `url` gets `message`
/// as its whole content (see `upsert_note`; a new note is attached to the
/// link) and the tags. Links and relations stay as they are. It succeeds
/// where the note and every tag exist already; otherwise it fails only
/// where a drawn identifier is taken (`Storage`).
pub fn save_link_note(
    store: &mut Store,
    link_id: u128,
    url: &str,
    message: &str,
    tags: &Vec<String>,
    slugs: &Vec<String>,
    timestamp: i64,
) -> (r: Result<u128, StoreError>)
    requires
        old(store)@.wf(),
        slugs@.len() == tags@.len(),
        forall|q: int| 0 <= q < tags@.len() ==> slugify_spec(tags@[q]@) == Some(#[trigger] slugs@[q]@),
        id_time_ok(timestamp),
    ensures
        final(store)@.wf(),
        final(store)@.links == old(store)@.links,
        final(store)@.relations == old(store)@.relations,
        tags_kept(old(store)@.tags, final(store)@.tags),
        forall|a: Association| old(store)@.item_tags.contains(a) ==> #[trigger] final(store)@.item_tags.contains(a),
        r is Ok || r == Err::<u128, StoreError>(StoreError::Storage),
        title_exists(old(store)@.notes, url@) && slugs_present(old(store)@.tags, tags@) ==> r == Ok::<
            u128,
            StoreError,
        >(old(store)@.notes[note_index(old(store)@.notes, url@)].id),
        r is Ok ==> final(store)@.notes == note_saved(old(store)@.notes, message@, url@, timestamp, r->Ok_0, Some(link_id)),
        r is Ok ==> title_exists(final(store)@.notes, url@) && final(store)@.notes[note_index(
            final(store)@.notes,
            url@,
        )].id == r->Ok_0,
        r is Ok && title_exists(old(store)@.notes, url@) ==> r->Ok_0 == old(store)@.notes[note_index(
            old(store)@.notes,
            url@,
        )].id,
        r is Ok && !title_exists(old(store)@.notes, url@) ==> !note_exists(old(store)@.notes, r->Ok_0),
        r is Ok ==> forall|q: int|
            0 <= q < tags@.len() ==> tag_attached(final(store)@, Owner::Note(r->Ok_0), #[trigger] slugify_spec(tags@[q]@)->0),
{
    let ghost before = store@;
    let nid = upsert_note(store, message, url, Some(link_id), timestamp)?;
    let ghost nj: int = if title_exists(before.notes, url@) {
        note_index(before.notes, url@)
    } else {
        before.notes.len() as int
    };
    assert(store@.notes == note_saved(before.notes, message@, url@, timestamp, nid, Some(link_id)));
    assert(store@.notes[nj].title == url@ && store@.notes[nj].id == nid);
    let ghost mid = store@;
    let _ = attach_tags(store, Owner::Note(nid), tags, slugs, timestamp)?;
    proof {
        lemma_note_index(store@, url@, nj);
    }
    Ok(nid)
}

/// Relates link `id` to the link with URL `related`, which is added as a
/// secondary link where no link has it. Notes, tags and associations stay
/// as they are. It succeeds where the related URL exists already;
/// otherwise it fails only where a drawn identifier is taken (`Storage`).
/// Returns the related link's identifier.
pub fn relate_to_url(store: &mut Store, id: u128, related: &String, relation: &Option<String>, timestamp: i64) -> (r:
    Result<u128, StoreError>)
    requires
        old(store)@.wf(),
        link_exists(old(store)@.links, id),
        id_time_ok(timestamp),
    ensures
        final(store)@.wf(),
        final(store)@.notes == old(store)@.notes,
        final(store)@.tags == old(store)@.tags,
        final(store)@.item_tags == old(store)@.item_tags,
        r is Ok || r == Err::<u128, StoreError>(StoreError::Storage),
        url_exists(old(store)@.links, related@) ==> r is Ok,
        r is Ok ==> final(store)@.relations == old(store)@.relations.push(
            RelationView { primary: id, related: r->Ok_0, relationship: opt_view(*relation) },
        ),
        r is Ok && url_exists(old(store)@.links, related@) ==> final(store)@.links == old(store)@.links && r->Ok_0
            == find_link(old(store)@.links, LinkKey::Url(related@), IsPrimary::Either)->0.id,
        r is Ok && !url_exists(old(store)@.links, related@) ==> final(store)@.links == old(store)@.links.push(
            related_row(related@, timestamp, r->Ok_0),
        ) && !link_exists(old(store)@.links, r->Ok_0),
{
    let rel_ins = LinkInsert {
        url: related.clone(),
        title: None,
        description: None,
        content: None,
        is_primary: false,
        timestamp: timestamp,
    };
    let ghost pre = store@;
    let related_id = insert_link(store, &rel_ins, true)?;
    proof {
        let w = choose|w: int| 0 <= w < pre.links.len() && #[trigger] pre.links[w].id == id;
        assert(store@.links[w].id == id);
        if url_exists(pre.links, related@) {
            let v = choose|v: int| 0 <= v < pre.links.len() && #[trigger] pre.links[v].url == related@;
            assert(link_matches(pre.links[v], LinkKey::Url(related@), IsPrimary::Either));
            let k = lemma_find_some(pre.links, LinkKey::Url(related@), IsPrimary::Either);
            assert(store@.links[k].id == related_id);
        } else {
            assert(new_link_row(rel_ins, related_id) == related_row(related@, timestamp, related_id));
            assert(store@.links[pre.links.len() as int].id == related_id);
        }
    }
    relate_links(store, id, related_id, relation)?;
    Ok(related_id)
}

/// The row that an `add` inserts for a new URL.
pub open spec fn added_new_row(req: AddRequest, page: PageInfo, ts: i64, id: u128) -> LinkView {
    LinkView {
        id: id,
        url: req.link@,
        title: chosen_title(opt_view(req.title), page.title@),
        description: chosen_description(opt_view(req.description), opt_view(page.excerpt)),
        content: Some(page.text_content@),
        is_primary: true,
        created_at: ts,
        modified_at: ts,
    }
}

/// A secondary row promoted by an `add`: title, description and content
/// from the request and the page, primary, modified at `ts`; identifier,
/// URL and creation time kept.
pub open spec fn promoted_view(row: LinkView, req: AddRequest, page: PageInfo, ts: i64) -> LinkView {
    LinkView {
        title: chosen_title(opt_view(req.title), page.title@),
        description: chosen_description(opt_view(req.description), opt_view(page.excerpt)),
        content: Some(page.text_content@),
        is_primary: true,
        modified_at: ts,
        ..row
    }
}

/// The links after an `add` has inserted or promoted the row of its URL
/// (`id` is the new row's identifier where the URL is new).
pub open spec fn links_after_add(links: Seq<LinkView>, req: AddRequest, page: PageInfo, ts: i64, id: u128) -> Seq<
    LinkView,
> {
    match find_link(links, LinkKey::Url(req.link@), IsPrimary::SecondaryOnly) {
        Some(sec) => {
            let i = link_index(links, sec.id);
            links.update(i, promoted_view(links[i], req, page, ts))
        },
        None => links.push(added_new_row(req, page, ts, id)),
    }
}

/// The secondary row that a related URL gets where it is new.
pub open spec fn related_row(url: Seq<char>, ts: i64, id: u128) -> LinkView {
    LinkView {
        id: id,
        url: url,
        title: None,
        description: None,
        content: None,
        is_primary: false,
        created_at: ts,
        modified_at: ts,
    }
}

/// Whether a tag with slug `slug` has identifier `id`.
pub open spec fn tag_has_id(tags: Seq<TagView>, slug: Seq<char>, id: u128) -> bool {
    exists|w: int| 0 <= w < tags.len() && #[trigger] tags[w].slug == slug && tags[w].id == id
}

/// Where an `add` needs no new identifier: its URL is a secondary link,
/// every tag exists, the note's title exists (or there is no note) and the
/// related URL exists (or there is none).
pub open spec fn add_needs_no_id(st: StoreView, req: AddRequest) -> bool {
    &&& find_link(st.links, LinkKey::Url(req.link@), IsPrimary::SecondaryOnly) is Some
    &&& slugs_present(st.tags, req.tags@)
    &&& req.note is None || title_exists(st.notes, req.link@)
    &&& req.related_link is None || url_exists(st.links, req.related_link->0@)
}

/// Adds a link as the `add` command does. The URL must be a web URL, every
/// tag name must have a slug and the time must fit an identifier (else
/// `Validation`, nothing changed). A new URL gets a new primary link; a
/// secondary link with the URL is promoted and keeps its identifier; a
/// primary one makes it a `Conflict` (nothing changed). The link then gets
/// its tags, the note (titled with the URL, attached to the link where it
/// is new, tagged alike), and the relation to the related link, which is
/// added as a secondary link where it is new. Every other row stays as it
/// was. The only other failure is a drawn identifier that is taken
/// (`Storage`); it leaves partial changes, and the caller runs the command
/// in a transaction that it drops on failure.
pub fn add_link(store: &mut Store, req: &AddRequest, page: &PageInfo, timestamp: i64) -> (r: Result<
    u128,
    StoreError,
>)
    requires
        old(store)@.wf(),
    ensures
        final(store)@.wf(),
        !web_url(req.link@) ==> r == Err::<u128, StoreError>(StoreError::Validation) && final(store)@ == old(
            store,
        )@,
        web_url(req.link@) && !tags_valid(req.tags@) ==> r == Err::<u128, StoreError>(StoreError::Validation)
            && final(store)@ == old(store)@,
        web_url(req.link@) && tags_valid(req.tags@) && !id_time_ok(timestamp) ==> r == Err::<u128, StoreError>(
            StoreError::Validation,
        ) && final(store)@ == old(store)@,
        web_url(req.link@) && tags_valid(req.tags@) && id_time_ok(timestamp) && find_link(
            old(store)@.links,
            LinkKey::Url(req.link@),
            IsPrimary::PrimaryOnly,
        ) is Some ==> r == Err::<u128, StoreError>(StoreError::Conflict) && final(store)@ == old(store)@,
        web_url(req.link@) && tags_valid(req.tags@) && find_link(
            old(store)@.links,
            LinkKey::Url(req.link@),
            IsPrimary::PrimaryOnly,
        ) is None && id_time_ok(timestamp) ==> r is Ok || r == Err::<u128, StoreError>(StoreError::Storage),
        web_url(req.link@) && tags_valid(req.tags@) && id_time_ok(timestamp) && add_needs_no_id(old(store)@, *req)
            ==> r == Ok::<u128, StoreError>(
            find_link(old(store)@.links, LinkKey::Url(req.link@), IsPrimary::SecondaryOnly)->0.id,
        ),
        // the link's own row
        r is Ok ==> find_link(final(store)@.links, LinkKey::Url(req.link@), IsPrimary::PrimaryOnly) is Some
            && added_row(
            find_link(final(store)@.links, LinkKey::Url(req.link@), IsPrimary::PrimaryOnly)->0,
            *req,
            *page,
            r->Ok_0,
        ),
        r is Ok && find_link(old(store)@.links, LinkKey::Url(req.link@), IsPrimary::SecondaryOnly) is Some ==> r->Ok_0
            == find_link(old(store)@.links, LinkKey::Url(req.link@), IsPrimary::SecondaryOnly)->0.id,
        r is Ok && find_link(old(store)@.links, LinkKey::Url(req.link@), IsPrimary::SecondaryOnly) is None ==> !url_exists(
            old(store)@.links,
            req.link@,
        ) && !link_exists(old(store)@.links, r->Ok_0),
        // the related link and the relation
        r is Ok && req.related_link is None ==> final(store)@.links == links_after_add(
            old(store)@.links,
            *req,
            *page,
            timestamp,
            r->Ok_0,
        ) && final(store)@.relations == old(store)@.relations,
        r is Ok && req.related_link is Some ==> ({
            let base = links_after_add(old(store)@.links, *req, *page, timestamp, r->Ok_0);
            let rels = final(store)@.relations;
            let related = req.related_link->0@;
            &&& rels.len() == old(store)@.relations.len() + 1
            &&& rels.drop_last() == old(store)@.relations
            &&& rels.last().primary == r->Ok_0
            &&& rels.last().relationship == opt_view(req.relation)
            &&& url_exists(base, related) ==> final(store)@.links == base && rels.last().related == find_link(
                base,
                LinkKey::Url(related),
                IsPrimary::Either,
            )->0.id
            &&& !url_exists(base, related) ==> final(store)@.links == base.push(
                related_row(related, timestamp, rels.last().related),
            ) && !link_exists(base, rels.last().related)
        }),
        // the note
        r is Ok && req.note is None ==> final(store)@.notes == old(store)@.notes,
        r is Ok && req.note is Some ==> title_exists(final(store)@.notes, req.link@) && ({
            let nid = final(store)@.notes[note_index(final(store)@.notes, req.link@)].id;
            &&& final(store)@.notes == note_saved(
                old(store)@.notes,
                req.note->0@,
                req.link@,
                timestamp,
                nid,
                Some(r->Ok_0),
            )
            &&& title_exists(old(store)@.notes, req.link@) ==> nid == old(store)@.notes[note_index(
                old(store)@.notes,
                req.link@,
            )].id
            &&& !title_exists(old(store)@.notes, req.link@) ==> !note_exists(old(store)@.notes, nid)
            &&& forall|q: int|
                0 <= q < req.tags@.len() ==> tag_attached(
                    final(store)@,
                    Owner::Note(nid),
                    #[trigger] slugify_spec(req.tags@[q]@)->0,
                )
        }),
        // the tags
        r is Ok ==> tags_kept(old(store)@.tags, final(store)@.tags),
        r is Ok ==> forall|a: Association|
            old(store)@.item_tags.contains(a) ==> #[trigger] final(store)@.item_tags.contains(a),
        r is Ok ==> forall|q: int|
            0 <= q < req.tags@.len() ==> tag_attached(
                final(store)@,
                Owner::Link(r->Ok_0),
                #[trigger] slugify_spec(req.tags@[q]@)->0,
            ),
{
    check_web_url(req.link.as_str())?;
    let slugs = slugs_of(&req.tags)?;
    if timestamp < 0 || timestamp > MAX_ID_SECONDS {
        return Err(StoreError::Validation);
    }
    let title = choose_title(&req.title, page.title.as_str());
    let description = choose_description(&req.description, &page.excerpt);
    let ins = LinkInsert {
        url: req.link.clone(),
        title: title,
        description: description,
        content: Some(page.text_content.clone()),
        is_primary: true,
        timestamp: timestamp,
    };
    let ghost before = store@;
    let ghost promoted = find_link(before.links, LinkKey::Url(req.link@), IsPrimary::SecondaryOnly) is Some;
    let ghost no_id = add_needs_no_id(before, *req);
    proof {
        lemma_no_match_when_new(before.links, req.link);
        if url_exists(before.links, req.link@) {
            let k = choose|k: int| 0 <= k < before.links.len() && #[trigger] before.links[k].url == req.link@;
            if before.links[k].is_primary {
                assert(link_matches(before.links[k], LinkKey::Url(req.link@), IsPrimary::PrimaryOnly));
            } else {
                assert(link_matches(before.links[k], LinkKey::Url(req.link@), IsPrimary::SecondaryOnly));
            }
        }
    }
    let id = match upsert_primary_link(store, &ins) {
        Ok(id) => id,
        Err(e) => {
            return Err(e);
        },
    };
    let ghost base = links_after_add(before.links, *req, *page, timestamp, id);
    let ghost j: int = if promoted {
        link_index(before.links, id)
    } else {
        before.links.len() as int
    };
    proof {
        if promoted {
            let k = lemma_find_some(before.links, LinkKey::Url(req.link@), IsPrimary::SecondaryOnly);
            lemma_link_index(before, before.links[k].id, k);
            assert(promoted_row(before.links[j], ins) == promoted_view(before.links[j], *req, *page, timestamp));
        } else {
            assert(new_link_row(ins, id) == added_new_row(*req, *page, timestamp, id));
        }
        assert(store@.links == base);
    }
    let ghost row = store@.links[j];
    assert(added_row(row, *req, *page, id));
    assert(base[j] == row);
    // tags
    let ghost s0 = store@;
    proof {
        if no_id {
            assert(slugs_present(s0.tags, req.tags@));
        }
    }
    let _ = attach_tags(store, Owner::Link(id), &req.tags, &slugs, timestamp)?;
    let ghost after_tags = store@;
    // note
    if let Some(message) = &req.note {
        let ghost n0 = store@;
        proof {
            if no_id {
                assert forall|q: int| 0 <= q < req.tags@.len() implies slug_exists(
                    n0.tags,
                    #[trigger] slugify_spec(req.tags@[q]@)->0,
                ) by {
                    assert(slug_exists(before.tags, slugify_spec(req.tags@[q]@)->0));
                }
            }
        }
        let nid = save_link_note(store, id, req.link.as_str(), message.as_str(), &req.tags, &slugs, timestamp)?;
        proof {
            assert forall|q: int| 0 <= q < req.tags@.len() implies tag_attached(
                store@,
                Owner::Link(id),
                #[trigger] slugify_spec(req.tags@[q]@)->0,
            ) by {
                lemma_attached_kept(n0, store@, Owner::Link(id), slugify_spec(req.tags@[q]@)->0);
            }
        }
    }
    // related link
    let ghost after_note = store@;
    if let Some(related) = &req.related_link {
        proof {
            assert(store@.links[j].id == id);
            if no_id {
                lemma_urls_kept(before.links, base, related@, j);
            }
        }
        let _ = relate_to_url(store, id, related, &req.relation, timestamp)?;
        proof {
            assert(store@.relations.drop_last() =~= before.relations);
            assert forall|q: int| 0 <= q < req.tags@.len() implies tag_attached(
                store@,
                Owner::Link(id),
                #[trigger] slugify_spec(req.tags@[q]@)->0,
            ) by {
                lemma_attached_kept(after_note, store@, Owner::Link(id), slugify_spec(req.tags@[q]@)->0);
            }
            if req.note is Some {
                let nid = after_note.notes[note_index(after_note.notes, req.link@)].id;
                assert forall|q: int| 0 <= q < req.tags@.len() implies tag_attached(
                    store@,
                    Owner::Note(nid),
                    #[trigger] slugify_spec(req.tags@[q]@)->0,
                ) by {
                    lemma_attached_kept(after_note, store@, Owner::Note(nid), slugify_spec(req.tags@[q]@)->0);
                }
            }
        }
    }
    proof {
        assert(store@.links[j] == row);
        assert(link_matches(row, LinkKey::Url(req.link@), IsPrimary::PrimaryOnly));
        lemma_find_at(store@, LinkKey::Url(req.link@), IsPrimary::PrimaryOnly, j);
    }
    Ok(id)
}


/// The tag for a tag name: its slug is required (see `require_tag`), and a
/// name without a slug is refused with `Validation`.
pub fn get_tag_id(store: &mut Store, tag_name: &str, timestamp: i64) -> (r: Result<u128, StoreError>)
    requires
        old(store)@.wf(),
    ensures
        final(store)@.wf(),
        slugify_spec(tag_name@) is None ==> r == Err::<u128, StoreError>(StoreError::Validation) && final(store)@
            == old(store)@,
        slugify_spec(tag_name@) is Some ==> require_tag_post(
            old(store)@,
            final(store)@,
            tag_name@,
            slugify_spec(tag_name@)->0,
            timestamp,
            r,
        ),
{
    let slug = slugify(tag_name)?;
    require_tag(store, tag_name, slug.as_str(), timestamp)
}

/// The text of a note after `message` is added to `existing`: the message
/// alone where there was nothing, else on a line of its own after it.
pub open spec fn appended(existing: Seq<char>, message: Seq<char>) -> Seq<char> {
    if existing.len() == 0 {
        message
    } else {
        existing.push('\n') + message
    }
}

/// Adds `message` to the text of a note.
pub fn append_note_text(existing: &str, message: &str) -> (r: String)
    ensures
        r@ == appended(existing@, message@),
{
    let n = existing.unicode_len();
    if n == 0 {
        return message.to_string();
    }
    let mut out: Vec<char> = Vec::new();
    let mut i: usize = 0;
    while i < n
        invariant
            n == existing@.len(),
            i <= n,
            out@ =~= existing@.take(i as int),
        decreases n - i,
    {
        out.push(existing.get_char(i));
        i = i + 1;
    }
    out.push('\n');
    let m = message.unicode_len();
    let mut k: usize = 0;
    while k < m
        invariant
            m == message@.len(),
            n == existing@.len(),
            k <= m,
            out@ =~= existing@.push('\n') + message@.take(k as int),
        decreases m - k,
    {
        out.push(message.get_char(k));
        k = k + 1;
    }
    assert(message@.take(m as int) =~= message@);
    string_from_chars(&out)
}

/// Saves the text of the note titled `title` with its tags, as the `note`
/// command does. An empty text saves nothing and returns `None`; a tag name
/// without a slug is refused with `Validation` before anything changes.
/// Otherwise the note gets the text as its whole content (see
/// `upsert_note`) and the tags.
pub fn save_note(store: &mut Store, text: &str, title: &str, tags: &Vec<String>, timestamp: i64) -> (r: Result<
    Option<u128>,
    StoreError,
>)
    requires
        old(store)@.wf(),
    ensures
        final(store)@.wf(),
        final(store)@.links == old(store)@.links,
        final(store)@.relations == old(store)@.relations,
        tags_kept(old(store)@.tags, final(store)@.tags),
        forall|a: Association| old(store)@.item_tags.contains(a) ==> #[trigger] final(store)@.item_tags.contains(a),
        text@.len() == 0 ==> r == Ok::<Option<u128>, StoreError>(None) && final(store)@ == old(store)@,
        text@.len() > 0 && !tags_valid(tags@) ==> r == Err::<Option<u128>, StoreError>(StoreError::Validation)
            && final(store)@ == old(store)@,
        text@.len() > 0 && tags_valid(tags@) && !id_time_ok(timestamp) ==> r == Err::<Option<u128>, StoreError>(
            StoreError::Validation,
        ) && final(store)@ == old(store)@,
        text@.len() > 0 && tags_valid(tags@) && id_time_ok(timestamp) ==> r matches Ok(Some(_)) || r == Err::<
            Option<u128>,
            StoreError,
        >(StoreError::Storage),
        text@.len() > 0 && tags_valid(tags@) && id_time_ok(timestamp) && title_exists(old(store)@.notes, title@)
            && slugs_present(old(store)@.tags, tags@) ==> r == Ok::<Option<u128>, StoreError>(
            Some(old(store)@.notes[note_index(old(store)@.notes, title@)].id),
        ),
        r matches Ok(Some(id)) ==> final(store)@.notes == note_saved(old(store)@.notes, text@, title@, timestamp, id, None),
        r matches Ok(Some(id)) ==> (title_exists(old(store)@.notes, title@) ==> id == old(store)@.notes[note_index(
            old(store)@.notes,
            title@,
        )].id) && (!title_exists(old(store)@.notes, title@) ==> !note_exists(old(store)@.notes, id)),
        r matches Ok(Some(id)) ==> forall|q: int|
            0 <= q < tags@.len() ==> tag_attached(final(store)@, Owner::Note(id), #[trigger] slugify_spec(tags@[q]@)->0),
        r matches Ok(Some(id)) ==> title_exists(final(store)@.notes, title@) && final(store)@.notes[note_index(
            final(store)@.notes,
            title@,
        )].id == id && final(store)@.notes[note_index(final(store)@.notes, title@)].content == text@,
{
    if text.unicode_len() == 0 {
        return Ok(None);
    }
    let slugs = slugs_of(tags)?;
    if timestamp < 0 || timestamp > MAX_ID_SECONDS {
        return Err(StoreError::Validation);
    }
    let ghost before = store@;
    let note_id = upsert_note(store, text, title, None, timestamp)?;
    let ghost after_note = store@;
    let ghost j: int = if title_exists(before.notes, title@) {
        note_index(before.notes, title@)
    } else {
        before.notes.len() as int
    };
    let ghost row = store@.notes[j];
    assert(row.id == note_id && row.content == text@ && row.title == title@);
    assert(after_note.notes == note_saved(before.notes, text@, title@, timestamp, note_id, None));
    assert(tags_kept(before.tags, after_note.tags));
    let mut i: usize = 0;
    while i < tags.len()
        invariant
            store@.wf(),
            store@.notes == after_note.notes,
            after_note.notes == note_saved(before.notes, text@, title@, timestamp, note_id, None),
            0 <= j < store@.notes.len(),
            store@.notes[j] == row,
            store@.links == before.links,
            store@.relations == before.relations,
            before == old(store)@,
            tags_kept(before.tags, store@.tags),
            forall|a: Association| before.item_tags.contains(a) ==> #[trigger] store@.item_tags.contains(a),
            text@.len() > 0,
            tags_valid(tags@),
            id_time_ok(timestamp),
            i <= tags@.len(),
            slugs@.len() == tags@.len(),
            forall|q: int| 0 <= q < tags@.len() ==> slugify_spec(tags@[q]@) == Some(#[trigger] slugs@[q]@),
            slugs_present(before.tags, tags@) ==> forall|q: int| 0 <= q < tags@.len() ==> slug_exists(store@.tags, #[trigger] slugs@[q]@),
            forall|q: int| 0 <= q < i ==> tag_attached(store@, Owner::Note(note_id), #[trigger] slugs@[q]@),
        decreases tags@.len() - i,
    {
        let ghost s0 = store@;
        proof {
            if slugs_present(before.tags, tags@) {
                assert(slug_exists(s0.tags, slugs@[i as int]@));
            }
        }
        let required = require_tag(store, tags[i].as_str(), slugs[i].as_str(), timestamp);
        let ghost s1 = store@;
        proof {
            lemma_require_tag_keeps(s0, s1, tags@[i as int]@, slugs@[i as int]@, timestamp, required);
        }
        let tag_id = required?;
        tag_note(store, note_id, tag_id);
        proof {
            let a = Association { owner: Owner::Note(note_id), tag_id: tag_id };
            lemma_push_keeps(s1.item_tags, a);
            assert(store@.item_tags.contains(a));
            assert forall|q: int| 0 <= q < i implies tag_attached(store@, Owner::Note(note_id), #[trigger] slugs@[q]@) by {
                lemma_attached_kept(s0, s1, Owner::Note(note_id), slugs@[q]@);
                lemma_attached_kept(s1, store@, Owner::Note(note_id), slugs@[q]@);
            }
            let w = choose|w: int| 0 <= w < s1.tags.len() && #[trigger] s1.tags[w].slug == slugs@[i as int]@ && s1.tags[w].id == tag_id;
            assert(store@.tags[w].slug == slugs@[i as int]@);
            assert(tag_attached(store@, Owner::Note(note_id), slugs@[i as int]@));
            assert(tags_kept(before.tags, store@.tags));
            if slugs_present(before.tags, tags@) {
                assert forall|q: int| 0 <= q < tags@.len() implies slug_exists(store@.tags, #[trigger] slugs@[q]@) by {
                    assert(slug_exists(s0.tags, slugs@[q]@));
                }
            }
        }
        i = i + 1;
    }
    proof {
        lemma_note_index(store@, title@, j);
        assert forall|q: int| 0 <= q < tags@.len() implies tag_attached(
            store@,
            Owner::Note(note_id),
            #[trigger] slugify_spec(tags@[q]@)->0,
        ) by {
            assert(slugify_spec(tags@[q]@)->0 == slugs@[q]@);
            assert(tag_attached(store@, Owner::Note(note_id), slugs@[q]@));
        }
    }
    Ok(Some(note_id))
}

/// In a store whose titles are unique, the note with a title stands at the
/// one position that holds it.
proof fn lemma_note_index(st: StoreView, title: Seq<char>, j: int)
    requires
        st.wf(),
        0 <= j < st.notes.len(),
        st.notes[j].title == title,
    ensures
        title_exists(st.notes, title),
        note_index(st.notes, title) == j,
{
    assert(title_exists(st.notes, title));
    let k = note_index(st.notes, title);
    if k < j {
        assert(st.notes[k].title != st.notes[j].title);
    } else if j < k {
        assert(st.notes[j].title != st.notes[k].title);
    }
}

} // verus!
