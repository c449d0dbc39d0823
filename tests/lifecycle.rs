use meowpad::lifecycle::{transition, LinkAction, LinkEvent, LinkState};
use meowpad::links::{restore_link};
use meowpad::notes::{restore_note};
use meowpad::store::{Link, Note, Store, StoreError, Tag};
use meowpad::tags::{restore_tag};

#[test]
fn adding_inserts_promotes_or_rejects() {
    assert_eq!(
        transition(LinkState::Absent, 0, LinkEvent::Add),
        (LinkState::Primary, LinkAction::Insert)
    );
    assert_eq!(
        transition(LinkState::Secondary, 3, LinkEvent::Add),
        (LinkState::Primary, LinkAction::Promote)
    );
    assert_eq!(
        transition(LinkState::Primary, 0, LinkEvent::Add),
        (LinkState::Primary, LinkAction::Reject)
    );
}

#[test]
fn removing_deletes_or_demotes() {
    assert_eq!(
        transition(LinkState::Primary, 0, LinkEvent::Remove),
        (LinkState::Absent, LinkAction::Delete)
    );
    assert_eq!(
        transition(LinkState::Primary, 2, LinkEvent::Remove),
        (LinkState::Secondary, LinkAction::Demote)
    );
    assert_eq!(
        transition(LinkState::Secondary, 1, LinkEvent::Remove),
        (LinkState::Secondary, LinkAction::Keep)
    );
    assert_eq!(
        transition(LinkState::Absent, 0, LinkEvent::Remove),
        (LinkState::Absent, LinkAction::Keep)
    );
}

fn row(id: u128, url: &str) -> Link {
    Link {
        id,
        url: url.to_string(),
        title: None,
        description: None,
        content: Some("c".to_string()),
        is_primary: true,
        created_at: 10,
        modified_at: 20,
    }
}

#[test]
fn restoring_rows_keeps_keys_unique() {
    let mut store = Store::new();
    assert_eq!(restore_link(&mut store, row(1, "https://a.example")), Ok(()));
    assert_eq!(restore_link(&mut store, row(1, "https://b.example")), Err(StoreError::Storage));
    assert_eq!(restore_link(&mut store, row(2, "https://a.example")), Err(StoreError::Storage));
    assert_eq!(store.links.len(), 1);
    assert_eq!(store.links[0].content.as_deref(), Some("c"));

    let note = |id: u128, title: &str| Note {
        id,
        content: "x".to_string(),
        title: title.to_string(),
        link_id: Some(1),
        created_at: 1,
        modified_at: 1,
    };
    assert_eq!(restore_note(&mut store, note(5, "T")), Ok(()));
    assert_eq!(restore_note(&mut store, note(6, "T")), Err(StoreError::Storage));
    assert_eq!(restore_note(&mut store, note(5, "U")), Err(StoreError::Storage));

    let tag = |id: u128, slug: &str| Tag {
        id,
        name: slug.to_uppercase(),
        slug: slug.to_string(),
        created_at: 1,
        modified_at: 1,
    };
    assert_eq!(restore_tag(&mut store, tag(7, "jazz")), Ok(()));
    assert_eq!(restore_tag(&mut store, tag(8, "jazz")), Err(StoreError::Storage));
    assert_eq!(restore_tag(&mut store, tag(7, "rock")), Err(StoreError::Storage));
}

#[test]
fn identifiers_are_unique_across_tables() {
    let mut store = Store::new();
    assert_eq!(restore_link(&mut store, row(1, "https://a.example")), Ok(()));
    let note = Note {
        id: 1,
        content: "x".to_string(),
        title: "T".to_string(),
        link_id: None,
        created_at: 1,
        modified_at: 1,
    };
    assert_eq!(restore_note(&mut store, note), Err(StoreError::Storage));
    let tag = Tag {
        id: 1,
        name: "J".to_string(),
        slug: "j".to_string(),
        created_at: 1,
        modified_at: 1,
    };
    assert_eq!(restore_tag(&mut store, tag), Err(StoreError::Storage));
}
