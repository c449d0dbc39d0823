//! Notes, unique by title, optionally attached to a link.
use vstd::prelude::*;

use crate::ids::{draw_id, id_millis, id_time_ok, MAX_ID_SECONDS};
use crate::links::has_link;
use crate::tags::has_tag_id;
use crate::store::{
    id_taken, lemma_contains_all, lemma_filter_from, lemma_ids_apart,
    lemma_filter_unique, lemma_filter_unique_by, note_exists, title_exists, Association, Link, Note,
    NoteView, Owner, Store, StoreError,
};
use crate::text::{opt_view, same_text};

verus! {

pub open spec fn opt_note_view(o: Option<Note>) -> Option<NoteView> {
    match o {
        Some(n) => Some(n@),
        None => None,
    }
}

/// Whether a note passes the filters that are given.
pub open spec fn note_matches(n: NoteView, id: Option<u128>, link_id: Option<u128>, title: Option<Seq<char>>) -> bool {
    &&& (id is None || n.id == id->0)
    &&& (link_id is None || n.link_id == link_id)
    &&& (title is None || n.title == title->0)
}

/// The first note that passes the filters, if any.
pub open spec fn find_note(notes: Seq<NoteView>, id: Option<u128>, link_id: Option<u128>, title: Option<Seq<char>>) -> Option<
    NoteView,
>
    decreases notes.len(),
{
    if notes.len() == 0 {
        None
    } else if note_matches(notes[0], id, link_id, title) {
        Some(notes[0])
    } else {
        find_note(notes.drop_first(), id, link_id, title)
    }
}

/// What a note lookup finds passes its filters and is a note of the table;
/// where it finds nothing, no note passes them.
pub proof fn lemma_find_note(notes: Seq<NoteView>, id: Option<u128>, link_id: Option<u128>, title: Option<Seq<char>>)
    ensures
        find_note(notes, id, link_id, title) is Some ==> {
            let n = find_note(notes, id, link_id, title)->0;
            note_matches(n, id, link_id, title) && exists|j: int| 0 <= j < notes.len() && notes[j] == n
        },
        find_note(notes, id, link_id, title) is None ==> forall|j: int|
            0 <= j < notes.len() ==> !note_matches(#[trigger] notes[j], id, link_id, title),
    decreases notes.len(),
{
    if notes.len() > 0 {
        let t = notes.drop_first();
        lemma_find_note(t, id, link_id, title);
        if !note_matches(notes[0], id, link_id, title) {
            if find_note(t, id, link_id, title) is Some {
                let j = choose|j: int| 0 <= j < t.len() && t[j] == find_note(t, id, link_id, title)->0;
                assert(notes[j + 1] == t[j]);
            } else {
                assert forall|j: int| 0 <= j < notes.len() implies !note_matches(#[trigger] notes[j], id, link_id, title) by {
                    if j > 0 {
                        assert(notes[j] == t[j - 1]);
                    }
                }
            }
        } else {
            assert(notes[0] == notes[0]);
        }
    }
}

/// The first note that passes every filter that is given; refused with
/// `Validation` where none is.
pub fn get_note(store: &Store, id: Option<u128>, link_id: Option<u128>, title: &Option<String>) -> (r: Result<
    Option<Note>,
    StoreError,
>)
    ensures
        id is None && link_id is None && title is None ==> r == Err::<Option<Note>, StoreError>(
            StoreError::Validation,
        ),
        !(id is None && link_id is None && title is None) ==> r is Ok && opt_note_view(r->Ok_0) == find_note(
            store@.notes,
            id,
            link_id,
            opt_view(*title),
        ),
{
    if id.is_none() && link_id.is_none() && title.is_none() {
        return Err(StoreError::Validation);
    }
    let ghost notes = store@.notes;
    let ghost t = opt_view(*title);
    let mut i: usize = 0;
    assert(notes.skip(0) =~= notes);
    while i < store.notes.len()
        invariant
            notes == store@.notes,
            t == opt_view(*title),
            !(id is None && link_id is None && title is None),
            i <= notes.len(),
            find_note(notes, id, link_id, t) == find_note(notes.skip(i as int), id, link_id, t),
        decreases notes.len() - i,
    {
        let n = &store.notes[i];
        let id_ok = match id {
            Some(x) => n.id == x,
            None => true,
        };
        let link_ok = match link_id {
            Some(x) => match n.link_id {
                Some(y) => x == y,
                None => false,
            },
            None => true,
        };
        let title_ok = match title {
            Some(x) => same_text(n.title.as_str(), x.as_str()),
            None => true,
        };
        assert(notes.skip(i as int)[0] == n@);
        assert(notes.skip(i as int).drop_first() =~= notes.skip(i + 1));
        if id_ok && link_ok && title_ok {
            return Ok(Some(n.duplicate()));
        }
        i = i + 1;
    }
    Ok(None)
}

/// The note with this title.
pub fn get_note_by_title(store: &Store, title: &str) -> (r: Option<Note>)
    ensures
        opt_note_view(r) == find_note(store@.notes, None, None, Some(title@)),
{
    let t = Some(title.to_string());
    match get_note(store, None, None, &t) {
        Ok(n) => n,
        Err(_) => None,
    }
}

/// The first note attached to the link `link_id`.
pub fn get_note_by_link_id(store: &Store, link_id: u128) -> (r: Option<Note>)
    ensures
        opt_note_view(r) == find_note(store@.notes, None, Some(link_id), None),
{
    match get_note(store, None, Some(link_id), &None) {
        Ok(n) => n,
        Err(_) => None,
    }
}

/// The position of the note with this title.
fn position_of_title(store: &Store, title: &str) -> (r: Option<usize>)
    requires
        store@.wf(),
    ensures
        match r {
            Some(i) => i < store@.notes.len() && store@.notes[i as int].title == title@ && note_index(
                store@.notes,
                title@,
            ) == i,
            None => !title_exists(store@.notes, title@),
        },
{
    let ghost notes = store@.notes;
    let mut i: usize = 0;
    while i < store.notes.len()
        invariant
            notes == store@.notes,
            store@.wf(),
            i <= notes.len(),
            forall|q: int| 0 <= q < i ==> #[trigger] notes[q].title != title@,
        decreases notes.len() - i,
    {
        if same_text(store.notes[i].title.as_str(), title) {
            let ghost j = note_index(notes, title@);
            assert(notes[i as int].title == title@);
            assert(i == j) by {
                if i < j {
                    assert(notes[i as int].title != notes[j].title);
                } else if j < i {
                    assert(notes[j].title != notes[i as int].title);
                }
            }
            return Some(i);
        }
        i = i + 1;
    }
    None
}

/// The position of the note with title `title`.
pub open spec fn note_index(notes: Seq<NoteView>, title: Seq<char>) -> int {
    choose|i: int| 0 <= i < notes.len() && #[trigger] notes[i].title == title
}

/// Whether a note with this identifier exists.
pub(crate) fn has_note_id(store: &Store, id: u128) -> (r: bool)
    ensures
        r == note_exists(store@.notes, id),
{
    let mut i: usize = 0;
    while i < store.notes.len()
        invariant
            i <= store@.notes.len(),
            forall|q: int| 0 <= q < i ==> #[trigger] store@.notes[q].id != id,
        decreases store@.notes.len() - i,
    {
        if store.notes[i].id == id {
            assert(store@.notes[i as int].id == id);
            return true;
        }
        i = i + 1;
    }
    false
}

pub open spec fn rewritten_note(n: NoteView, content: Seq<char>, ts: i64) -> NoteView {
    NoteView { content: content, modified_at: ts, ..n }
}

pub open spec fn new_note_row(id: u128, content: Seq<char>, title: Seq<char>, link_id: Option<u128>, ts: i64) -> NoteView {
    NoteView { id: id, content: content, title: title, link_id: link_id, created_at: ts, modified_at: ts }
}

/// The note titled `title` gets `note` as its whole content: where it
/// exists, its content and modification time are overwritten and its
/// identifier returned; otherwise a note is added, attached to `link_id`,
/// with an identifier drawn from `timestamp` (refused with `Validation`
/// where no identifier can carry that time, with `Storage` where the drawn
/// one is taken).
pub fn upsert_note(store: &mut Store, note: &str, title: &str, link_id: Option<u128>, timestamp: i64) -> (r: Result<
    u128,
    StoreError,
>)
    requires
        old(store)@.wf(),
    ensures
        final(store)@.wf(),
        title_exists(old(store)@.notes, title@) ==> {
            let i = note_index(old(store)@.notes, title@);
            &&& r == Ok::<u128, StoreError>(old(store)@.notes[i].id)
            &&& final(store)@ == old(store)@.with_notes(
                old(store)@.notes.update(i, rewritten_note(old(store)@.notes[i], note@, timestamp)),
            )
        },
        !title_exists(old(store)@.notes, title@) && !id_time_ok(timestamp) ==> final(store)@ == old(store)@ && r
            == Err::<u128, StoreError>(StoreError::Validation),
        !title_exists(old(store)@.notes, title@) && id_time_ok(timestamp) ==> match r {
            Ok(id) => !id_taken(old(store)@, id) && id_millis(id) == timestamp * 1000 && final(store)@
                == old(store)@.with_notes(
                old(store)@.notes.push(new_note_row(id, note@, title@, link_id, timestamp)),
            ),
            Err(e) => e == StoreError::Storage && final(store)@ == old(store)@,
        },
{
    let ghost old_view = store@;
    match position_of_title(store, title) {
        Some(i) => {
            let mut row = store.notes[i].duplicate();
            row.content = note.to_string();
            row.modified_at = timestamp;
            let id = row.id;
            store.notes.set(i, row);
            proof {
                assert(store@.notes =~= old_view.notes.update(i as int, rewritten_note(old_view.notes[i as int], note@, timestamp)));
                assert(store@.links =~= old_view.links);
                assert(store@.tags =~= old_view.tags);
                assert(store@.item_tags =~= old_view.item_tags);
                assert(store@.relations =~= old_view.relations);
            }
            Ok(id)
        },
        None => {
            if timestamp < 0 || timestamp > MAX_ID_SECONDS {
                return Err(StoreError::Validation);
            }
            let id = draw_id(timestamp as u64);
            insert_new_note(store, note, title, link_id, timestamp, id)
        },
    }
}

/// Adds a note row with identifier `id`: refused with `Storage` where a
/// link, a note or a tag already has that identifier.
pub fn insert_new_note(store: &mut Store, note: &str, title: &str, link_id: Option<u128>, timestamp: i64, id: u128) -> (r:
    Result<u128, StoreError>)
    requires
        old(store)@.wf(),
        !title_exists(old(store)@.notes, title@),
    ensures
        final(store)@.wf(),
        id_taken(old(store)@, id) ==> r == Err::<u128, StoreError>(StoreError::Storage) && final(store)@ == old(
            store,
        )@,
        !id_taken(old(store)@, id) ==> r == Ok::<u128, StoreError>(id) && final(store)@ == old(store)@.with_notes(
            old(store)@.notes.push(new_note_row(id, note@, title@, link_id, timestamp)),
        ),
{
    let ghost old_view = store@;
    if has_link(store, id) || has_note_id(store, id) || has_tag_id(store, id) {
        return Err(StoreError::Storage);
    }
    proof {
        assert forall|q: int| 0 <= q < old_view.notes.len() implies old_view.notes[q].id != id
            && old_view.notes[q].title != title@ by {
            if old_view.notes[q].id == id {
                assert(note_exists(old_view.notes, id));
            }
            if old_view.notes[q].title == title@ {
                assert(title_exists(old_view.notes, title@));
            }
        }
    }
    store.notes.push(Note {
        id: id,
        content: note.to_string(),
        title: title.to_string(),
        link_id: link_id,
        created_at: timestamp,
        modified_at: timestamp,
    });
    proof {
        assert(store@.notes =~= old_view.notes.push(new_note_row(id, note@, title@, link_id, timestamp)));
        assert(store@.links =~= old_view.links);
        assert(store@.tags =~= old_view.tags);
        assert(store@.item_tags =~= old_view.item_tags);
        assert(store@.relations =~= old_view.relations);
    }
    Ok(id)
}

/// The notes left after note `id` is removed.
pub open spec fn notes_without(notes: Seq<NoteView>, id: u128) -> Seq<NoteView> {
    notes.filter(|n: NoteView| n.id != id)
}

/// The associations left after those of note `id` are removed.
pub open spec fn note_tags_without(item_tags: Seq<Association>, id: u128) -> Seq<Association> {
    item_tags.filter(|a: Association| a.owner != Owner::Note(id))
}

/// Removes note `note_id` and its tag associations.
pub fn delete_note(store: &mut Store, note_id: u128)
    requires
        old(store)@.wf(),
    ensures
        final(store)@.wf(),
        final(store)@ == old(store)@.with_notes(notes_without(old(store)@.notes, note_id)).with_item_tags(
            note_tags_without(old(store)@.item_tags, note_id),
        ),
{
    let ghost old_view = store@;
    let ghost notes = store@.notes;
    let ghost npred = |n: NoteView| n.id != note_id;
    let mut kept: Vec<Note> = Vec::new();
    let mut i: usize = 0;
    while i < store.notes.len()
        invariant
            store@ == old_view,
            notes == store@.notes,
            npred == (|n: NoteView| n.id != note_id),
            i <= notes.len(),
            kept@.map_values(|n: Note| n@) == notes.take(i as int).filter(npred),
        decreases notes.len() - i,
    {
        let n = &store.notes[i];
        assert(notes.take(i + 1) =~= notes.take(i as int).push(n@));
        proof {
            notes.take(i as int).lemma_filter_push(n@, npred);
        }
        if n.id != note_id {
            let ghost before = kept@.map_values(|n: Note| n@);
            kept.push(n.duplicate());
            assert(kept@.map_values(|n: Note| n@) =~= before.push(n@));
        }
        i = i + 1;
    }
    assert(notes.take(notes.len() as int) =~= notes);
    store.notes = kept;
    assert(store@.item_tags =~= old_view.item_tags);
    let ghost its = store@.item_tags;
    let ghost apred = |a: Association| a.owner != Owner::Note(note_id);
    let mut kept_tags: Vec<Association> = Vec::new();
    let mut k: usize = 0;
    while k < store.item_tags.len()
        invariant
            its == store@.item_tags,
            apred == (|a: Association| a.owner != Owner::Note(note_id)),
            k <= its.len(),
            kept_tags@ == its.take(k as int).filter(apred),
        decreases its.len() - k,
    {
        let a = store.item_tags[k];
        assert(its.take(k + 1) =~= its.take(k as int).push(a));
        proof {
            its.take(k as int).lemma_filter_push(a, apred);
        }
        let drop = match a.owner {
            Owner::Note(x) => x == note_id,
            Owner::Link(_) => false,
        };
        if !drop {
            kept_tags.push(a);
        }
        k = k + 1;
    }
    assert(its.take(its.len() as int) =~= its);
    store.item_tags = kept_tags;
    proof {
        lemma_filter_unique_by(notes, npred, |n: NoteView| n.id);
        lemma_filter_unique_by(notes, npred, |n: NoteView| n.title);
        lemma_filter_from(notes, npred);
        lemma_contains_all(old_view.links);
        lemma_contains_all(old_view.tags);
        lemma_ids_apart(old_view, store@);
        lemma_filter_unique(its, apred);
        assert(store@.links =~= old_view.links);
        assert(store@.tags =~= old_view.tags);
        assert(store@.relations =~= old_view.relations);
    }
}

/// Adds a stored note row as it is; refused with `Storage` where its
/// identifier (in any table) or its title is taken.
pub fn restore_note(store: &mut Store, row: Note) -> (r: Result<(), StoreError>)
    requires
        old(store)@.wf(),
    ensures
        final(store)@.wf(),
        id_taken(old(store)@, row.id) || title_exists(old(store)@.notes, row.title@) ==> r == Err::<
            (),
            StoreError,
        >(StoreError::Storage) && final(store)@ == old(store)@,
        !(id_taken(old(store)@, row.id) || title_exists(old(store)@.notes, row.title@)) ==> r is Ok
            && final(store)@ == old(store)@.with_notes(old(store)@.notes.push(row@)),
{
    if has_link(store, row.id) || has_note_id(store, row.id) || has_tag_id(store, row.id) {
        return Err(StoreError::Storage);
    }
    if position_of_title(store, row.title.as_str()).is_some() {
        return Err(StoreError::Storage);
    }
    let ghost old_view = store@;
    proof {
        assert forall|q: int| 0 <= q < old_view.notes.len() implies old_view.notes[q].id != row.id
            && old_view.notes[q].title != row.title@ by {
            if old_view.notes[q].id == row.id {
                assert(note_exists(old_view.notes, row.id));
            }
            if old_view.notes[q].title == row.title@ {
                assert(title_exists(old_view.notes, row.title@));
            }
        }
    }
    let ghost rv = row@;
    store.notes.push(row);
    proof {
        assert(store@.notes =~= old_view.notes.push(rv));
        assert(store@.links =~= old_view.links);
        assert(store@.tags =~= old_view.tags);
        assert(store@.item_tags =~= old_view.item_tags);
        assert(store@.relations =~= old_view.relations);
    }
    Ok(())
}

} // verus!
