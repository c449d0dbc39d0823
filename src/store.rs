//! The tables of the store and the invariants that hold them together:
//! links, notes, tags, the associations of tags with links and notes, and
//! directed relations between links. Every table lives in a `Vec`; the
//! keys a database would hold unique and the references it would hold to
//! existing rows are stated in `StoreView::wf`.
use vstd::prelude::*;

use crate::text::{clone_opt, opt_view};

verus! {

/// Why a store operation failed.
#[derive(Debug, Clone, Copy, PartialEq, Eq, Structural)]
pub enum StoreError {
    /// Malformed input: a tag, a URL scheme, a missing filter, a time that
    /// an identifier cannot carry.
    Validation,
    /// A link with that URL already exists.
    Conflict,
    /// What was asked for is not there.
    NotFound,
    /// A constraint of the store would break (a taken identifier, a
    /// relation to a missing link).
    Storage,
}

/// A bookmark. `content` is the extracted text of the page; a secondary
/// link (one that exists only as the target of a relation) has none.
#[derive(Debug, Clone)]
pub struct Link {
    pub id: u128,
    pub url: String,
    pub title: Option<String>,
    pub description: Option<String>,
    pub content: Option<String>,
    pub is_primary: bool,
    /// Seconds since the Unix epoch.
    pub created_at: i64,
    pub modified_at: i64,
}

pub struct LinkView {
    pub id: u128,
    pub url: Seq<char>,
    pub title: Option<Seq<char>>,
    pub description: Option<Seq<char>>,
    pub content: Option<Seq<char>>,
    pub is_primary: bool,
    pub created_at: i64,
    pub modified_at: i64,
}

impl View for Link {
    type V = LinkView;

    open spec fn view(&self) -> LinkView {
        LinkView {
            id: self.id,
            url: self.url@,
            title: opt_view(self.title),
            description: opt_view(self.description),
            content: opt_view(self.content),
            is_primary: self.is_primary,
            created_at: self.created_at,
            modified_at: self.modified_at,
        }
    }
}

impl Link {
    /// A copy with the same fields.
    pub fn duplicate(&self) -> (r: Link)
        ensures
            r@ == self@,
    {
        Link {
            id: self.id,
            url: self.url.clone(),
            title: clone_opt(&self.title),
            description: clone_opt(&self.description),
            content: clone_opt(&self.content),
            is_primary: self.is_primary,
            created_at: self.created_at,
            modified_at: self.modified_at,
        }
    }
}

/// A note, unique by title, possibly attached to a link.
#[derive(Debug, Clone)]
pub struct Note {
    pub id: u128,
    pub content: String,
    pub title: String,
    pub link_id: Option<u128>,
    pub created_at: i64,
    pub modified_at: i64,
}

pub struct NoteView {
    pub id: u128,
    pub content: Seq<char>,
    pub title: Seq<char>,
    pub link_id: Option<u128>,
    pub created_at: i64,
    pub modified_at: i64,
}

impl View for Note {
    type V = NoteView;

    open spec fn view(&self) -> NoteView {
        NoteView {
            id: self.id,
            content: self.content@,
            title: self.title@,
            link_id: self.link_id,
            created_at: self.created_at,
            modified_at: self.modified_at,
        }
    }
}

impl Note {
    /// A copy with the same fields.
    pub fn duplicate(&self) -> (r: Note)
        ensures
            r@ == self@,
    {
        Note {
            id: self.id,
            content: self.content.clone(),
            title: self.title.clone(),
            link_id: self.link_id,
            created_at: self.created_at,
            modified_at: self.modified_at,
        }
    }
}

/// A tag: a display name and the slug that identifies it.
#[derive(Debug, Clone)]
pub struct Tag {
    pub id: u128,
    pub name: String,
    pub slug: String,
    pub created_at: i64,
    pub modified_at: i64,
}

pub struct TagView {
    pub id: u128,
    pub name: Seq<char>,
    pub slug: Seq<char>,
    pub created_at: i64,
    pub modified_at: i64,
}

impl View for Tag {
    type V = TagView;

    open spec fn view(&self) -> TagView {
        TagView {
            id: self.id,
            name: self.name@,
            slug: self.slug@,
            created_at: self.created_at,
            modified_at: self.modified_at,
        }
    }
}

impl Tag {
    /// A copy with the same fields.
    pub fn duplicate(&self) -> (r: Tag)
        ensures
            r@ == self@,
    {
        Tag {
            id: self.id,
            name: self.name.clone(),
            slug: self.slug.clone(),
            created_at: self.created_at,
            modified_at: self.modified_at,
        }
    }
}

/// What a tag is attached to: a link or a note, never both.
#[derive(Debug, Clone, Copy, PartialEq, Eq, Structural)]
pub enum Owner {
    Link(u128),
    Note(u128),
}

impl Owner {
    pub open spec fn id(self) -> u128 {
        match self {
            Owner::Link(i) => i,
            Owner::Note(i) => i,
        }
    }
}

/// One tag attached to one item.
#[derive(Debug, Clone, Copy, PartialEq, Eq, Structural)]
pub struct Association {
    pub owner: Owner,
    pub tag_id: u128,
}

/// A directed edge: `primary_link_id` relates to `related_link_id`.
#[derive(Debug, Clone)]
pub struct Relation {
    pub primary_link_id: u128,
    pub related_link_id: u128,
    pub relationship: Option<String>,
}

pub struct RelationView {
    pub primary: u128,
    pub related: u128,
    pub relationship: Option<Seq<char>>,
}

impl View for Relation {
    type V = RelationView;

    open spec fn view(&self) -> RelationView {
        RelationView {
            primary: self.primary_link_id,
            related: self.related_link_id,
            relationship: opt_view(self.relationship),
        }
    }
}

/// Which links a lookup may return.
#[derive(Debug, Clone, Copy, PartialEq, Eq, Structural)]
pub enum IsPrimary {
    PrimaryOnly,
    SecondaryOnly,
    Either,
}

/// A link lookup key: its URL or its identifier.
#[derive(Debug, Clone)]
pub enum TermOrId {
    Term(String),
    Id(u128),
}

/// The fields of a link to insert. `timestamp` (seconds since the Unix
/// epoch) becomes both its creation and modification time.
#[derive(Debug, Clone)]
pub struct LinkInsert {
    pub url: String,
    pub title: Option<String>,
    pub description: Option<String>,
    pub content: Option<String>,
    pub is_primary: bool,
    pub timestamp: i64,
}

/// All tables of the store.
pub struct Store {
    pub links: Vec<Link>,
    pub notes: Vec<Note>,
    pub tags: Vec<Tag>,
    pub item_tags: Vec<Association>,
    pub relations: Vec<Relation>,
}

pub struct StoreView {
    pub links: Seq<LinkView>,
    pub notes: Seq<NoteView>,
    pub tags: Seq<TagView>,
    pub item_tags: Seq<Association>,
    pub relations: Seq<RelationView>,
}

impl View for Store {
    type V = StoreView;

    open spec fn view(&self) -> StoreView {
        StoreView {
            links: self.links@.map_values(|l: Link| l@),
            notes: self.notes@.map_values(|n: Note| n@),
            tags: self.tags@.map_values(|t: Tag| t@),
            item_tags: self.item_tags@,
            relations: self.relations@.map_values(|r: Relation| r@),
        }
    }
}

pub open spec fn link_exists(links: Seq<LinkView>, id: u128) -> bool {
    exists|i: int| 0 <= i < links.len() && #[trigger] links[i].id == id
}

pub open spec fn url_exists(links: Seq<LinkView>, url: Seq<char>) -> bool {
    exists|i: int| 0 <= i < links.len() && #[trigger] links[i].url == url
}

pub open spec fn note_exists(notes: Seq<NoteView>, id: u128) -> bool {
    exists|i: int| 0 <= i < notes.len() && #[trigger] notes[i].id == id
}

pub open spec fn title_exists(notes: Seq<NoteView>, title: Seq<char>) -> bool {
    exists|i: int| 0 <= i < notes.len() && #[trigger] notes[i].title == title
}

pub open spec fn tag_id_exists(tags: Seq<TagView>, id: u128) -> bool {
    exists|i: int| 0 <= i < tags.len() && #[trigger] tags[i].id == id
}

pub open spec fn slug_exists(tags: Seq<TagView>, slug: Seq<char>) -> bool {
    exists|i: int| 0 <= i < tags.len() && #[trigger] tags[i].slug == slug
}

/// Whether a link, a note or a tag has identifier `id`.
pub open spec fn id_taken(st: StoreView, id: u128) -> bool {
    link_exists(st.links, id) || note_exists(st.notes, id) || tag_id_exists(st.tags, id)
}

impl StoreView {
    /// The keys a database would hold unique (identifiers across all
    /// tables), and the references it would hold to existing rows.
    pub open spec fn wf(self) -> bool {
        &&& forall|i: int, j: int|
            0 <= i < j < self.links.len() ==> #[trigger] self.links[i].id != #[trigger] self.links[j].id
        &&& forall|i: int, j: int|
            0 <= i < j < self.links.len() ==> #[trigger] self.links[i].url != #[trigger] self.links[j].url
        &&& forall|i: int, j: int|
            0 <= i < j < self.notes.len() ==> #[trigger] self.notes[i].id != #[trigger] self.notes[j].id
        &&& forall|i: int, j: int|
            0 <= i < j < self.notes.len() ==> #[trigger] self.notes[i].title != #[trigger] self.notes[j].title
        &&& forall|i: int, j: int|
            0 <= i < j < self.tags.len() ==> #[trigger] self.tags[i].id != #[trigger] self.tags[j].id
        &&& forall|i: int, j: int|
            0 <= i < j < self.tags.len() ==> #[trigger] self.tags[i].slug != #[trigger] self.tags[j].slug
        &&& forall|i: int, j: int|
            0 <= i < self.links.len() && 0 <= j < self.notes.len() ==> #[trigger] self.links[i].id
                != #[trigger] self.notes[j].id
        &&& forall|i: int, j: int|
            0 <= i < self.links.len() && 0 <= j < self.tags.len() ==> #[trigger] self.links[i].id
                != #[trigger] self.tags[j].id
        &&& forall|i: int, j: int|
            0 <= i < self.notes.len() && 0 <= j < self.tags.len() ==> #[trigger] self.notes[i].id
                != #[trigger] self.tags[j].id
        &&& forall|i: int, j: int|
            0 <= i < j < self.item_tags.len() ==> #[trigger] self.item_tags[i] != #[trigger] self.item_tags[j]
        &&& forall|i: int|
            0 <= i < self.relations.len() ==> link_exists(self.links, #[trigger] self.relations[i].primary)
                && link_exists(self.links, self.relations[i].related)
    }
}

impl Store {
    /// An empty store.
    pub fn new() -> (r: Store)
        ensures
            r@.wf(),
            r@.links.len() == 0,
            r@.notes.len() == 0,
            r@.tags.len() == 0,
            r@.item_tags.len() == 0,
            r@.relations.len() == 0,
    {
        Store {
            links: Vec::new(),
            notes: Vec::new(),
            tags: Vec::new(),
            item_tags: Vec::new(),
            relations: Vec::new(),
        }
    }
}

impl StoreView {
    pub open spec fn with_links(self, links: Seq<LinkView>) -> StoreView {
        StoreView { links: links, ..self }
    }

    pub open spec fn with_notes(self, notes: Seq<NoteView>) -> StoreView {
        StoreView { notes: notes, ..self }
    }

    pub open spec fn with_tags(self, tags: Seq<TagView>) -> StoreView {
        StoreView { tags: tags, ..self }
    }

    pub open spec fn with_item_tags(self, item_tags: Seq<Association>) -> StoreView {
        StoreView { item_tags: item_tags, ..self }
    }

    pub open spec fn with_relations(self, relations: Seq<RelationView>) -> StoreView {
        StoreView { relations: relations, ..self }
    }
}


impl Relation {
    /// A copy with the same fields.
    pub fn duplicate(&self) -> (r: Relation)
        ensures
            r@ == self@,
    {
        Relation {
            primary_link_id: self.primary_link_id,
            related_link_id: self.related_link_id,
            relationship: clone_opt(&self.relationship),
        }
    }
}

/// What a filter keeps satisfies the predicate and comes from the sequence.
pub proof fn lemma_filter_from<A>(s: Seq<A>, pred: spec_fn(A) -> bool)
    ensures
        forall|i: int|
            0 <= i < s.filter(pred).len() ==> pred(s.filter(pred)[i]) && s.contains(
                #[trigger] s.filter(pred)[i],
            ),
    decreases s.len(),
{
    reveal(Seq::filter);
    if s.len() > 0 {
        let t = s.drop_last();
        lemma_filter_from(t, pred);
        assert forall|i: int| 0 <= i < s.filter(pred).len() implies pred(s.filter(pred)[i]) && s.contains(
            s.filter(pred)[i],
        ) by {
            if i < t.filter(pred).len() {
                assert(s.filter(pred)[i] == t.filter(pred)[i]);
                let k = choose|k: int| 0 <= k < t.len() && t[k] == t.filter(pred)[i];
                assert(s[k] == t[k]);
            } else {
                assert(s.filter(pred)[i] == s.last());
                assert(s[s.len() - 1] == s.last());
            }
        }
    }
}

/// Filtering keeps the elements of a sequence without repeats distinct.
pub proof fn lemma_filter_unique<A>(s: Seq<A>, pred: spec_fn(A) -> bool)
    requires
        forall|i: int, j: int| 0 <= i < j < s.len() ==> #[trigger] s[i] != #[trigger] s[j],
    ensures
        forall|i: int, j: int|
            0 <= i < j < s.filter(pred).len() ==> #[trigger] s.filter(pred)[i] != #[trigger] s.filter(pred)[j],
    decreases s.len(),
{
    reveal(Seq::filter);
    if s.len() > 0 {
        let t = s.drop_last();
        lemma_filter_unique(t, pred);
        lemma_filter_from(t, pred);
        if pred(s.last()) {
            assert forall|i: int| 0 <= i < t.filter(pred).len() implies t.filter(pred)[i] != s.last() by {
                assert(t.contains(t.filter(pred)[i]));
                let k = choose|k: int| 0 <= k < t.len() && t[k] == t.filter(pred)[i];
                assert(s[k] == t[k]);
                assert(s[s.len() - 1] == s.last());
            }
        }
    }
}


/// Tables made of rows of a well-formed store keep identifiers apart
/// across tables.
pub proof fn lemma_ids_apart(st: StoreView, after: StoreView)
    requires
        st.wf(),
        forall|i: int| 0 <= i < after.links.len() ==> st.links.contains(#[trigger] after.links[i]),
        forall|i: int| 0 <= i < after.notes.len() ==> st.notes.contains(#[trigger] after.notes[i]),
        forall|i: int| 0 <= i < after.tags.len() ==> st.tags.contains(#[trigger] after.tags[i]),
    ensures
        forall|i: int, j: int|
            0 <= i < after.links.len() && 0 <= j < after.notes.len() ==> #[trigger] after.links[i].id
                != #[trigger] after.notes[j].id,
        forall|i: int, j: int|
            0 <= i < after.links.len() && 0 <= j < after.tags.len() ==> #[trigger] after.links[i].id
                != #[trigger] after.tags[j].id,
        forall|i: int, j: int|
            0 <= i < after.notes.len() && 0 <= j < after.tags.len() ==> #[trigger] after.notes[i].id
                != #[trigger] after.tags[j].id,
{
    assert forall|i: int, j: int| 0 <= i < after.links.len() && 0 <= j < after.notes.len() implies #[trigger] after.links[i].id
        != #[trigger] after.notes[j].id by {
        assert(st.links.contains(after.links[i]));
        assert(st.notes.contains(after.notes[j]));
        let a = choose|a: int| 0 <= a < st.links.len() && st.links[a] == after.links[i];
        let b = choose|b: int| 0 <= b < st.notes.len() && st.notes[b] == after.notes[j];
        assert(st.links[a].id != st.notes[b].id);
    }
    assert forall|i: int, j: int| 0 <= i < after.links.len() && 0 <= j < after.tags.len() implies #[trigger] after.links[i].id
        != #[trigger] after.tags[j].id by {
        assert(st.links.contains(after.links[i]));
        assert(st.tags.contains(after.tags[j]));
        let a = choose|a: int| 0 <= a < st.links.len() && st.links[a] == after.links[i];
        let b = choose|b: int| 0 <= b < st.tags.len() && st.tags[b] == after.tags[j];
        assert(st.links[a].id != st.tags[b].id);
    }
    assert forall|i: int, j: int| 0 <= i < after.notes.len() && 0 <= j < after.tags.len() implies #[trigger] after.notes[i].id
        != #[trigger] after.tags[j].id by {
        assert(st.notes.contains(after.notes[i]));
        assert(st.tags.contains(after.tags[j]));
        let a = choose|a: int| 0 <= a < st.notes.len() && st.notes[a] == after.notes[i];
        let b = choose|b: int| 0 <= b < st.tags.len() && st.tags[b] == after.tags[j];
        assert(st.notes[a].id != st.tags[b].id);
    }
}

/// Every element of a sequence is one of its elements.
pub proof fn lemma_contains_all<A>(s: Seq<A>)
    ensures
        forall|i: int| 0 <= i < s.len() ==> s.contains(#[trigger] s[i]),
{
    assert forall|i: int| 0 <= i < s.len() implies s.contains(#[trigger] s[i]) by {
        assert(s[i] == s[i]);
    }
}

/// Filtering keeps a key that no two elements share unshared.
pub proof fn lemma_filter_unique_by<A, K>(s: Seq<A>, pred: spec_fn(A) -> bool, key: spec_fn(A) -> K)
    requires
        forall|i: int, j: int| 0 <= i < j < s.len() ==> key(#[trigger] s[i]) != key(#[trigger] s[j]),
    ensures
        forall|i: int, j: int|
            0 <= i < j < s.filter(pred).len() ==> key(#[trigger] s.filter(pred)[i]) != key(
                #[trigger] s.filter(pred)[j],
            ),
    decreases s.len(),
{
    reveal(Seq::filter);
    if s.len() > 0 {
        let t = s.drop_last();
        lemma_filter_unique_by(t, pred, key);
        lemma_filter_from(t, pred);
        if pred(s.last()) {
            assert forall|i: int| 0 <= i < t.filter(pred).len() implies key(t.filter(pred)[i]) != key(s.last()) by {
                assert(t.contains(t.filter(pred)[i]));
                let k = choose|k: int| 0 <= k < t.len() && t[k] == t.filter(pred)[i];
                assert(s[k] == t[k]);
                assert(s[s.len() - 1] == s.last());
            }
        }
    }
}

} // verus!
