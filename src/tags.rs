//! Tags, unique by slug, and their associations with links and notes.
use vstd::prelude::*;

use crate::ids::{draw_id, id_millis, id_time_ok, MAX_ID_SECONDS};
use crate::links::has_link;
use crate::notes::has_note_id;
use crate::store::{
    id_taken,
    lemma_filter_unique, slug_exists, tag_id_exists, Association, Link, Note, Owner, Store,
    StoreError, StoreView, Tag, TagView,
};
use crate::text::same_text;

verus! {

/// Attaches a tag to an item, unless it is attached already.
fn add_association(store: &mut Store, a: Association)
    requires
        old(store)@.wf(),
    ensures
        final(store)@.wf(),
        final(store)@ == old(store)@.with_item_tags(
            if old(store)@.item_tags.contains(a) {
                old(store)@.item_tags
            } else {
                old(store)@.item_tags.push(a)
            },
        ),
{
    let ghost old_view = store@;
    let mut i: usize = 0;
    while i < store.item_tags.len()
        invariant
            store@ == old_view,
            old_view.wf(),
            i <= old_view.item_tags.len(),
            forall|q: int| 0 <= q < i ==> old_view.item_tags[q] != a,
        decreases old_view.item_tags.len() - i,
    {
        if store.item_tags[i] == a {
            assert(old_view.item_tags[i as int] == a);
            assert(store@ =~= old_view.with_item_tags(old_view.item_tags));
            return;
        }
        i = i + 1;
    }
    store.item_tags.push(a);
    proof {
        assert(store@.links =~= old_view.links);
        assert(store@.notes =~= old_view.notes);
        assert(store@.tags =~= old_view.tags);
        assert(store@.relations =~= old_view.relations);
        assert(!old_view.item_tags.contains(a));
    }
}

/// Attaches a tag to a link; attaching it twice changes nothing.
pub fn tag_link(store: &mut Store, link_id: u128, tag_id: u128)
    requires
        old(store)@.wf(),
    ensures
        final(store)@.wf(),
        final(store)@ == old(store)@.with_item_tags(
            if old(store)@.item_tags.contains(Association { owner: Owner::Link(link_id), tag_id: tag_id }) {
                old(store)@.item_tags
            } else {
                old(store)@.item_tags.push(Association { owner: Owner::Link(link_id), tag_id: tag_id })
            },
        ),
{
    add_association(store, Association { owner: Owner::Link(link_id), tag_id: tag_id });
}

/// Attaches a tag to a note; attaching it twice changes nothing.
pub fn tag_note(store: &mut Store, note_id: u128, tag_id: u128)
    requires
        old(store)@.wf(),
    ensures
        final(store)@.wf(),
        final(store)@ == old(store)@.with_item_tags(
            if old(store)@.item_tags.contains(Association { owner: Owner::Note(note_id), tag_id: tag_id }) {
                old(store)@.item_tags
            } else {
                old(store)@.item_tags.push(Association { owner: Owner::Note(note_id), tag_id: tag_id })
            },
        ),
{
    add_association(store, Association { owner: Owner::Note(note_id), tag_id: tag_id });
}

/// The associations left after those of item `id` (link or note) are removed.
pub open spec fn item_tags_kept(item_tags: Seq<Association>, id: u128) -> Seq<Association> {
    item_tags.filter(|a: Association| a.owner.id() != id)
}

/// Removes every tag association of the item `item_id`, link or note.
pub fn delete_item_tags(store: &mut Store, item_id: u128)
    requires
        old(store)@.wf(),
    ensures
        final(store)@.wf(),
        final(store)@ == old(store)@.with_item_tags(item_tags_kept(old(store)@.item_tags, item_id)),
{
    let ghost old_view = store@;
    let ghost its = store@.item_tags;
    let ghost pred = |a: Association| a.owner.id() != item_id;
    let mut kept: Vec<Association> = Vec::new();
    let mut i: usize = 0;
    while i < store.item_tags.len()
        invariant
            store@ == old_view,
            old_view.wf(),
            its == store@.item_tags,
            pred == (|a: Association| a.owner.id() != item_id),
            i <= its.len(),
            kept@ == its.take(i as int).filter(pred),
        decreases its.len() - i,
    {
        let a = store.item_tags[i];
        assert(its.take(i + 1) =~= its.take(i as int).push(a));
        proof {
            its.take(i as int).lemma_filter_push(a, pred);
        }
        let owner_id = match a.owner {
            Owner::Link(x) => x,
            Owner::Note(x) => x,
        };
        if owner_id != item_id {
            kept.push(a);
        }
        i = i + 1;
    }
    assert(its.take(its.len() as int) =~= its);
    store.item_tags = kept;
    proof {
        lemma_filter_unique(its, pred);
        assert(store@.links =~= old_view.links);
        assert(store@.notes =~= old_view.notes);
        assert(store@.tags =~= old_view.tags);
        assert(store@.relations =~= old_view.relations);
    }
}


/// The position of the tag with slug `slug`.
pub open spec fn tag_index(tags: Seq<TagView>, slug: Seq<char>) -> int {
    choose|i: int| 0 <= i < tags.len() && #[trigger] tags[i].slug == slug
}

/// The position of the tag with this slug.
fn position_of_slug(store: &Store, slug: &str) -> (r: Option<usize>)
    requires
        store@.wf(),
    ensures
        match r {
            Some(i) => i < store@.tags.len() && store@.tags[i as int].slug == slug@ && tag_index(store@.tags, slug@)
                == i,
            None => !slug_exists(store@.tags, slug@),
        },
{
    let ghost tags = store@.tags;
    let mut i: usize = 0;
    while i < store.tags.len()
        invariant
            tags == store@.tags,
            store@.wf(),
            i <= tags.len(),
            forall|q: int| 0 <= q < i ==> #[trigger] tags[q].slug != slug@,
        decreases tags.len() - i,
    {
        if same_text(store.tags[i].slug.as_str(), slug) {
            let ghost j = tag_index(tags, slug@);
            assert(tags[i as int].slug == slug@);
            assert(i == j) by {
                if i < j {
                    assert(tags[i as int].slug != tags[j].slug);
                } else if j < i {
                    assert(tags[j].slug != tags[i as int].slug);
                }
            }
            return Some(i);
        }
        i = i + 1;
    }
    None
}

/// Whether a tag with this identifier exists.
pub(crate) fn has_tag_id(store: &Store, id: u128) -> (r: bool)
    ensures
        r == tag_id_exists(store@.tags, id),
{
    let mut i: usize = 0;
    while i < store.tags.len()
        invariant
            i <= store@.tags.len(),
            forall|q: int| 0 <= q < i ==> #[trigger] store@.tags[q].id != id,
        decreases store@.tags.len() - i,
    {
        if store.tags[i].id == id {
            assert(store@.tags[i as int].id == id);
            return true;
        }
        i = i + 1;
    }
    false
}

/// A tag row whose name and modification time are refreshed.
pub open spec fn renamed_tag(t: TagView, name: Seq<char>, ts: i64) -> TagView {
    TagView { name: name, modified_at: ts, ..t }
}

pub open spec fn new_tag_row(id: u128, name: Seq<char>, slug: Seq<char>, ts: i64) -> TagView {
    TagView { id: id, name: name, slug: slug, created_at: ts, modified_at: ts }
}

/// What `require_tag` leaves and returns.
pub open spec fn require_tag_post(
    st: StoreView,
    after: StoreView,
    name: Seq<char>,
    slug: Seq<char>,
    ts: i64,
    r: Result<u128, StoreError>,
) -> bool {
    &&& slug_exists(st.tags, slug) ==> {
        let i = tag_index(st.tags, slug);
        &&& r == Ok::<u128, StoreError>(st.tags[i].id)
        &&& after == st.with_tags(st.tags.update(i, renamed_tag(st.tags[i], name, ts)))
    }
    &&& !slug_exists(st.tags, slug) && !id_time_ok(ts) ==> after == st && r == Err::<u128, StoreError>(
        StoreError::Validation,
    )
    &&& !slug_exists(st.tags, slug) && id_time_ok(ts) ==> match r {
        Ok(id) => !id_taken(st, id) && id_millis(id) == ts * 1000 && after == st.with_tags(
            st.tags.push(new_tag_row(id, name, slug, ts)),
        ),
        Err(e) => e == StoreError::Storage && after == st,
    }
}

/// The tag with slug `slug`: where it exists, its name is refreshed to
/// `name` and its identifier returned; otherwise a tag is added with an
/// identifier drawn from `timestamp` (refused with `Validation` where no
/// identifier can carry that time, with `Storage` where the drawn one is
/// taken).
pub fn require_tag(store: &mut Store, name: &str, slug: &str, timestamp: i64) -> (r: Result<u128, StoreError>)
    requires
        old(store)@.wf(),
    ensures
        final(store)@.wf(),
        require_tag_post(old(store)@, final(store)@, name@, slug@, timestamp, r),
{
    let ghost old_view = store@;
    match position_of_slug(store, slug) {
        Some(i) => {
            let mut row = store.tags[i].duplicate();
            row.name = name.to_string();
            row.modified_at = timestamp;
            let id = row.id;
            store.tags.set(i, row);
            proof {
                assert(store@.tags =~= old_view.tags.update(i as int, renamed_tag(old_view.tags[i as int], name@, timestamp)));
                assert(store@.links =~= old_view.links);
                assert(store@.notes =~= old_view.notes);
                assert(store@.item_tags =~= old_view.item_tags);
                assert(store@.relations =~= old_view.relations);
            }
            Ok(id)
        },
        None => {
            if timestamp < 0 || timestamp > MAX_ID_SECONDS {
                return Err(StoreError::Validation);
            }
            let id = draw_id(timestamp as u64);
            insert_new_tag(store, name, slug, timestamp, id)
        },
    }
}

/// Adds a tag row with identifier `id`: refused with `Storage` where a
/// link, a note or a tag already has that identifier.
pub fn insert_new_tag(store: &mut Store, name: &str, slug: &str, timestamp: i64, id: u128) -> (r: Result<
    u128,
    StoreError,
>)
    requires
        old(store)@.wf(),
        !slug_exists(old(store)@.tags, slug@),
    ensures
        final(store)@.wf(),
        id_taken(old(store)@, id) ==> r == Err::<u128, StoreError>(StoreError::Storage) && final(store)@ == old(
            store,
        )@,
        !id_taken(old(store)@, id) ==> r == Ok::<u128, StoreError>(id) && final(store)@ == old(store)@.with_tags(
            old(store)@.tags.push(new_tag_row(id, name@, slug@, timestamp)),
        ),
{
    let ghost old_view = store@;
    if has_link(store, id) || has_note_id(store, id) || has_tag_id(store, id) {
        return Err(StoreError::Storage);
    }
    proof {
        assert forall|q: int| 0 <= q < old_view.tags.len() implies old_view.tags[q].id != id
            && old_view.tags[q].slug != slug@ by {
            if old_view.tags[q].id == id {
                assert(tag_id_exists(old_view.tags, id));
            }
            if old_view.tags[q].slug == slug@ {
                assert(slug_exists(old_view.tags, slug@));
            }
        }
    }
    store.tags.push(Tag {
        id: id,
        name: name.to_string(),
        slug: slug.to_string(),
        created_at: timestamp,
        modified_at: timestamp,
    });
    proof {
        assert(store@.tags =~= old_view.tags.push(new_tag_row(id, name@, slug@, timestamp)));
        assert(store@.links =~= old_view.links);
        assert(store@.notes =~= old_view.notes);
        assert(store@.item_tags =~= old_view.item_tags);
        assert(store@.relations =~= old_view.relations);
    }
    Ok(id)
}

/// `b` keeps every tag of `a` at its position, with its identifier and slug.
pub open spec fn tags_kept(a: Seq<TagView>, b: Seq<TagView>) -> bool {
    a.len() <= b.len() && forall|k: int| 0 <= k < a.len() ==> (#[trigger] b[k]).id == a[k].id && b[k].slug == a[k].slug
}

/// What `require_tag` leaves alone: every other table, and the identifier
/// and slug of every tag; it succeeds where the slug exists, and on success
/// a tag with the slug has the returned identifier.
pub proof fn lemma_require_tag_keeps(
    st: StoreView,
    after: StoreView,
    name: Seq<char>,
    slug: Seq<char>,
    ts: i64,
    r: Result<u128, StoreError>,
)
    requires
        st.wf(),
        require_tag_post(st, after, name, slug, ts, r),
    ensures
        tags_kept(st.tags, after.tags),
        after.links == st.links,
        after.notes == st.notes,
        after.item_tags == st.item_tags,
        after.relations == st.relations,
        slug_exists(st.tags, slug) ==> r is Ok,
        r is Err ==> after == st,
        r is Ok ==> exists|w: int| 0 <= w < after.tags.len() && #[trigger] after.tags[w].slug == slug && after.tags[w].id == r->Ok_0,
        forall|s: Seq<char>| slug_exists(st.tags, s) ==> #[trigger] slug_exists(after.tags, s),
{
    if slug_exists(st.tags, slug) {
        let i = tag_index(st.tags, slug);
        assert(after.tags[i].slug == slug && after.tags[i].id == r->Ok_0);
    } else if r is Ok {
        let n = st.tags.len() as int;
        assert(after.tags[n].slug == slug && after.tags[n].id == r->Ok_0);
    }
    assert forall|s: Seq<char>| slug_exists(st.tags, s) implies #[trigger] slug_exists(after.tags, s) by {
        let k = choose|k: int| 0 <= k < st.tags.len() && #[trigger] st.tags[k].slug == s;
        assert(after.tags[k].slug == s);
    }
}

/// Code-point order on character sequences, the order of a database's
/// binary collation.
pub open spec fn text_lt(a: Seq<char>, b: Seq<char>) -> bool
    decreases a.len(),
{
    if a.len() == 0 {
        b.len() > 0
    } else if b.len() == 0 {
        false
    } else if a[0] != b[0] {
        (a[0] as u32) < (b[0] as u32)
    } else {
        text_lt(a.drop_first(), b.drop_first())
    }
}

/// Whether `a` sorts before `b`.
fn text_less(a: &str, b: &str) -> (r: bool)
    ensures
        r == text_lt(a@, b@),
{
    let n = a.unicode_len();
    let m = b.unicode_len();
    let mut i: usize = 0;
    assert(a@.skip(0) =~= a@);
    assert(b@.skip(0) =~= b@);
    while i < n && i < m && a.get_char(i) == b.get_char(i)
        invariant
            n == a@.len(),
            m == b@.len(),
            i <= n,
            i <= m,
            text_lt(a@, b@) == text_lt(a@.skip(i as int), b@.skip(i as int)),
        decreases n - i,
    {
        assert(a@.skip(i as int).drop_first() =~= a@.skip(i + 1));
        assert(b@.skip(i as int).drop_first() =~= b@.skip(i + 1));
        i = i + 1;
    }
    if i == n {
        i < m
    } else if i == m {
        false
    } else {
        (a.get_char(i) as u32) < (b.get_char(i) as u32)
    }
}

/// `x` placed in `s` before the first element whose slug sorts after its own.
pub open spec fn insert_by_slug(s: Seq<TagView>, x: TagView) -> Seq<TagView>
    decreases s.len(),
{
    if s.len() == 0 {
        seq![x]
    } else if text_lt(x.slug, s[0].slug) {
        seq![x] + s
    } else {
        seq![s[0]] + insert_by_slug(s.drop_first(), x)
    }
}

pub open spec fn tagged(item_tags: Seq<Association>, item: u128, tag_id: u128) -> bool {
    item_tags.contains(Association { owner: Owner::Link(item), tag_id: tag_id }) || item_tags.contains(
        Association { owner: Owner::Note(item), tag_id: tag_id },
    )
}

/// The tags among `tags` that item `item` (link or note) carries, ordered by
/// slug.
pub open spec fn tags_of(tags: Seq<TagView>, item_tags: Seq<Association>, item: u128) -> Seq<TagView>
    decreases tags.len(),
{
    if tags.len() == 0 {
        Seq::empty()
    } else {
        let r = tags_of(tags.drop_last(), item_tags, item);
        if tagged(item_tags, item, tags.last().id) {
            insert_by_slug(r, tags.last())
        } else {
            r
        }
    }
}

proof fn lemma_insert_by_slug(s: Seq<TagView>, x: TagView, p: int)
    requires
        0 <= p <= s.len(),
        forall|q: int| 0 <= q < p ==> !text_lt(x.slug, #[trigger] s[q].slug),
        p < s.len() ==> text_lt(x.slug, s[p].slug),
    ensures
        insert_by_slug(s, x) == s.insert(p, x),
    decreases s.len(),
{
    if s.len() == 0 {
        assert(s.insert(p, x) =~= seq![x]);
    } else if p == 0 {
        assert(s.insert(p, x) =~= seq![x] + s);
    } else {
        let t = s.drop_first();
        assert forall|q: int| 0 <= q < p - 1 implies !text_lt(x.slug, #[trigger] t[q].slug) by {
            assert(t[q] == s[q + 1]);
        }
        lemma_insert_by_slug(t, x, p - 1);
        assert(s.insert(p, x) =~= seq![s[0]] + t.insert(p - 1, x));
    }
}

/// Whether item `item` carries tag `tag_id`.
fn is_tagged(store: &Store, item: u128, tag_id: u128) -> (r: bool)
    ensures
        r == tagged(store@.item_tags, item, tag_id),
{
    let la = Association { owner: Owner::Link(item), tag_id: tag_id };
    let na = Association { owner: Owner::Note(item), tag_id: tag_id };
    let mut i: usize = 0;
    while i < store.item_tags.len()
        invariant
            la == (Association { owner: Owner::Link(item), tag_id: tag_id }),
            na == (Association { owner: Owner::Note(item), tag_id: tag_id }),
            i <= store@.item_tags.len(),
            forall|q: int| 0 <= q < i ==> #[trigger] store@.item_tags[q] != la && store@.item_tags[q] != na,
        decreases store@.item_tags.len() - i,
    {
        let a = store.item_tags[i];
        let owner_id = match a.owner {
            Owner::Link(x) => x,
            Owner::Note(x) => x,
        };
        if a.tag_id == tag_id && owner_id == item {
            assert(store@.item_tags[i as int] == a);
            match a.owner {
                Owner::Link(_) => {
                    assert(a == la);
                    assert(store@.item_tags.contains(la));
                },
                Owner::Note(_) => {
                    assert(a == na);
                    assert(store@.item_tags.contains(na));
                },
            }
            return true;
        }
        i = i + 1;
    }
    assert(!store@.item_tags.contains(la));
    assert(!store@.item_tags.contains(na));
    false
}

/// The tags that item `item_id` carries, as a link or as a note, ordered by
/// slug.
pub fn tags_for_item(store: &Store, item_id: u128) -> (r: Vec<Tag>)
    ensures
        r@.map_values(|t: Tag| t@) == tags_of(store@.tags, store@.item_tags, item_id),
{
    let ghost tags = store@.tags;
    let mut out: Vec<Tag> = Vec::new();
    let mut i: usize = 0;
    while i < store.tags.len()
        invariant
            tags == store@.tags,
            i <= tags.len(),
            out@.map_values(|t: Tag| t@) == tags_of(tags.take(i as int), store@.item_tags, item_id),
        decreases tags.len() - i,
    {
        let t = &store.tags[i];
        assert(tags.take(i + 1).drop_last() =~= tags.take(i as int));
        assert(tags.take(i + 1).last() == t@);
        if is_tagged(store, item_id, t.id) {
            let ghost before = out@.map_values(|t: Tag| t@);
            let mut p: usize = 0;
            while p < out.len() && !text_less(t.slug.as_str(), out[p].slug.as_str())
                invariant
                    before == out@.map_values(|t: Tag| t@),
                    p <= out@.len(),
                    forall|q: int| 0 <= q < p ==> !text_lt(t@.slug, #[trigger] before[q].slug),
                decreases out@.len() - p,
            {
                p = p + 1;
            }
            proof {
                lemma_insert_by_slug(before, t@, p as int);
            }
            out.insert(p, t.duplicate());
            assert(out@.map_values(|t: Tag| t@) =~= before.insert(p as int, t@));
        }
        i = i + 1;
    }
    assert(tags.take(tags.len() as int) =~= tags);
    out
}

/// Adds a stored tag row as it is; refused with `Storage` where its
/// identifier (in any table) or its slug is taken.
pub fn restore_tag(store: &mut Store, row: Tag) -> (r: Result<(), StoreError>)
    requires
        old(store)@.wf(),
    ensures
        final(store)@.wf(),
        id_taken(old(store)@, row.id) || slug_exists(old(store)@.tags, row.slug@) ==> r == Err::<
            (),
            StoreError,
        >(StoreError::Storage) && final(store)@ == old(store)@,
        !(id_taken(old(store)@, row.id) || slug_exists(old(store)@.tags, row.slug@)) ==> r is Ok
            && final(store)@ == old(store)@.with_tags(old(store)@.tags.push(row@)),
{
    if has_link(store, row.id) || has_note_id(store, row.id) || has_tag_id(store, row.id) {
        return Err(StoreError::Storage);
    }
    if position_of_slug(store, row.slug.as_str()).is_some() {
        return Err(StoreError::Storage);
    }
    let ghost old_view = store@;
    proof {
        assert forall|q: int| 0 <= q < old_view.tags.len() implies old_view.tags[q].id != row.id
            && old_view.tags[q].slug != row.slug@ by {
            if old_view.tags[q].id == row.id {
                assert(tag_id_exists(old_view.tags, row.id));
            }
            if old_view.tags[q].slug == row.slug@ {
                assert(slug_exists(old_view.tags, row.slug@));
            }
        }
    }
    let ghost rv = row@;
    store.tags.push(row);
    proof {
        assert(store@.tags =~= old_view.tags.push(rv));
        assert(store@.links =~= old_view.links);
        assert(store@.notes =~= old_view.notes);
        assert(store@.item_tags =~= old_view.item_tags);
        assert(store@.relations =~= old_view.relations);
    }
    Ok(())
}

} // verus!
