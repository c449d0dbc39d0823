use meowpad::commands::{
    add_link, append_note_text, check_web_url, get_tag_id, remove_item, remove_link, save_note,
    upsert_primary_link, AddRequest, PageInfo,
};
use meowpad::links::{get_link, insert_link};
use meowpad::listing::{get_links, search_links};
use meowpad::notes::{get_note, get_note_by_link_id, get_note_by_title, upsert_note};
use meowpad::relations::{
    delete_related_links, get_inverse_related_links, relate_links, related_links,
};
use meowpad::store::{IsPrimary, LinkInsert, Store, StoreError, TermOrId};
use meowpad::tags::{require_tag, tag_link, tag_note, tags_for_item};

const T0: i64 = 1_700_000_000;

fn ins(url: &str, content: Option<&str>, primary: bool, ts: i64) -> LinkInsert {
    LinkInsert {
        url: url.to_string(),
        title: Some(format!("title of {url}")),
        description: Some(format!("about {url}")),
        content: content.map(|c| c.to_string()),
        is_primary: primary,
        timestamp: ts,
    }
}

fn page(text: &str) -> PageInfo {
    PageInfo {
        title: "Page Title".to_string(),
        excerpt: Some("An excerpt".to_string()),
        text_content: text.to_string(),
    }
}

fn request(url: &str) -> AddRequest {
    AddRequest {
        link: url.to_string(),
        tags: vec![],
        title: None,
        description: None,
        note: None,
        related_link: None,
        relation: None,
    }
}

#[test]
fn insert_then_get_round_trip() {
    let mut store = Store::new();
    let id = insert_link(&mut store, &ins("https://a.example", Some("body text"), true, T0), false).unwrap();
    let l = get_link(&store, &TermOrId::Term("https://a.example".to_string()), IsPrimary::Either).unwrap();
    assert_eq!(l.id, id);
    assert_eq!(l.url, "https://a.example");
    assert_eq!(l.title.as_deref(), Some("title of https://a.example"));
    assert_eq!(l.description.as_deref(), Some("about https://a.example"));
    assert_eq!(l.content.as_deref(), Some("body text"));
    assert!(l.is_primary);
    assert_eq!(l.created_at, T0);
    let by_id = get_link(&store, &TermOrId::Id(id), IsPrimary::PrimaryOnly).unwrap();
    assert_eq!(by_id.url, "https://a.example");
    assert!(get_link(&store, &TermOrId::Id(id), IsPrimary::SecondaryOnly).is_none());
}

#[test]
fn identifiers_carry_their_time() {
    let mut store = Store::new();
    let a = insert_link(&mut store, &ins("https://a.example", None, true, T0), false).unwrap();
    let b = insert_link(&mut store, &ins("https://b.example", None, true, T0 + 1), false).unwrap();
    assert_eq!(a >> 80, (T0 as u128) * 1000);
    assert_eq!(b >> 80, (T0 as u128 + 1) * 1000);
    assert!(a < b);
    assert_eq!((a >> 76) & 0xF, 7);
}

#[test]
fn duplicate_url_conflicts_unless_merged() {
    let mut store = Store::new();
    let id = insert_link(&mut store, &ins("https://a.example", None, true, T0), false).unwrap();
    assert_eq!(
        insert_link(&mut store, &ins("https://a.example", None, true, T0 + 5), false),
        Err(StoreError::Conflict)
    );
    assert_eq!(insert_link(&mut store, &ins("https://a.example", None, false, T0 + 5), true), Ok(id));
    assert_eq!(store.links.len(), 1);
}

#[test]
fn timestamp_without_identifier_is_refused() {
    let mut store = Store::new();
    assert_eq!(
        insert_link(&mut store, &ins("https://a.example", None, true, -1), false),
        Err(StoreError::Validation)
    );
    assert_eq!(store.links.len(), 0);
}

#[test]
fn web_urls_only() {
    assert_eq!(check_web_url("https://a.example"), Ok(()));
    assert_eq!(check_web_url("http://a.example/x?y=1"), Ok(()));
    assert_eq!(check_web_url("ftp://a.example"), Err(StoreError::Validation));
    assert_eq!(check_web_url("not a url"), Err(StoreError::Validation));
    let mut store = Store::new();
    assert_eq!(
        add_link(&mut store, &request("mailto:someone@a.example"), &page("x"), T0),
        Err(StoreError::Validation)
    );
    assert_eq!(store.links.len(), 0);
}

#[test]
fn promotion_keeps_identifier_and_relation() {
    let mut store = Store::new();
    let mut req = request("https://a.example");
    req.related_link = Some("https://b.example".to_string());
    req.relation = Some("via".to_string());
    let a = add_link(&mut store, &req, &page("text of a"), T0).unwrap();
    let b = get_link(&store, &TermOrId::Term("https://b.example".to_string()), IsPrimary::SecondaryOnly).unwrap();
    assert!(!b.is_primary);
    assert!(b.content.is_none());
    let b_id = b.id;

    let promoted = add_link(&mut store, &request("https://b.example"), &page("text of b"), T0 + 10).unwrap();
    assert_eq!(promoted, b_id);
    let b = get_link(&store, &TermOrId::Term("https://b.example".to_string()), IsPrimary::Either).unwrap();
    assert!(b.is_primary);
    assert_eq!(b.content.as_deref(), Some("text of b"));
    assert_eq!(b.title.as_deref(), Some("Page Title"));
    assert_eq!(b.description.as_deref(), Some("An excerpt"));
    assert_eq!(b.modified_at, T0 + 10);
    assert_eq!(
        related_links(&store, a),
        vec![("https://b.example".to_string(), Some("via".to_string()))]
    );
    assert_eq!(get_inverse_related_links(&store, b_id), vec![a]);
}

#[test]
fn adding_a_primary_twice_conflicts() {
    let mut store = Store::new();
    add_link(&mut store, &request("https://a.example"), &page("x"), T0).unwrap();
    assert_eq!(
        add_link(&mut store, &request("https://a.example"), &page("y"), T0 + 1),
        Err(StoreError::Conflict)
    );
}

#[test]
fn upsert_primary_link_inserts_new_urls() {
    let mut store = Store::new();
    let id = upsert_primary_link(&mut store, &ins("https://n.example", Some("n"), true, T0)).unwrap();
    assert_eq!(get_link(&store, &TermOrId::Id(id), IsPrimary::PrimaryOnly).unwrap().url, "https://n.example");
}

#[test]
fn deleting_an_unreferenced_link_removes_it() {
    let mut store = Store::new();
    let mut req = request("https://a.example");
    req.tags = vec!["Jazz".to_string()];
    req.note = Some("a note".to_string());
    add_link(&mut store, &req, &page("x"), T0).unwrap();
    assert!(remove_link(&mut store, "https://a.example", T0 + 1));
    assert!(get_link(&store, &TermOrId::Term("https://a.example".to_string()), IsPrimary::Either).is_none());
    assert!(store.item_tags.is_empty());
    assert!(store.notes.is_empty());
    assert!(!remove_link(&mut store, "https://a.example", T0 + 2));
}

#[test]
fn removing_a_referenced_link_demotes_it() {
    let mut store = Store::new();
    let mut req = request("https://a.example");
    req.tags = vec!["Jazz".to_string()];
    req.related_link = Some("https://c.example".to_string());
    let a = add_link(&mut store, &req, &page("text of a"), T0).unwrap();
    let mut req_b = request("https://b.example");
    req_b.related_link = Some("https://a.example".to_string());
    let b = add_link(&mut store, &req_b, &page("text of b"), T0 + 1).unwrap();

    let removed = remove_item(&mut store, "https://a.example", T0 + 2);
    assert!(removed.link);
    assert!(!removed.note);
    let a_row = get_link(&store, &TermOrId::Id(a), IsPrimary::Either).unwrap();
    assert!(!a_row.is_primary);
    assert!(a_row.content.is_none());
    assert_eq!(a_row.modified_at, T0 + 2);
    assert!(tags_for_item(&store, a).is_empty());
    assert!(related_links(&store, a).is_empty());
    assert_eq!(related_links(&store, b), vec![("https://a.example".to_string(), None)]);
    assert!(get_link(&store, &TermOrId::Term("https://a.example".to_string()), IsPrimary::PrimaryOnly).is_none());
}

#[test]
fn require_tag_dedupes_by_slug() {
    let mut store = Store::new();
    let first = require_tag(&mut store, "Jazz", "jazz", T0).unwrap();
    let second = require_tag(&mut store, "Jazz", "jazz", T0 + 1).unwrap();
    assert_eq!(first, second);
    let third = get_tag_id(&mut store, "JAZZ!", T0 + 2).unwrap();
    assert_eq!(first, third);
    assert_eq!(store.tags.len(), 1);
    assert_eq!(store.tags[0].name, "JAZZ!");
    assert_eq!(store.tags[0].slug, "jazz");
    assert_eq!(get_tag_id(&mut store, "???", T0), Err(StoreError::Validation));
}

#[test]
fn listing_by_tag_is_newest_first() {
    let mut store = Store::new();
    let mut old = request("https://old.example");
    old.tags = vec!["Jazz".to_string()];
    let old_id = add_link(&mut store, &old, &page("old"), T0).unwrap();
    let mut other = request("https://rock.example");
    other.tags = vec!["Rock".to_string()];
    add_link(&mut store, &other, &page("rock"), T0 + 5).unwrap();
    let mut via_note = request("https://noted.example");
    via_note.note = Some("listen".to_string());
    let noted = add_link(&mut store, &via_note, &page("noted"), T0 + 7).unwrap();
    let note = get_note_by_link_id(&store, noted).unwrap();
    let jazz = require_tag(&mut store, "jazz", "jazz", T0 + 8).unwrap();
    tag_note(&mut store, note.id, jazz);
    let mut new = request("https://new.example");
    new.tags = vec!["jazz".to_string()];
    let new_id = add_link(&mut store, &new, &page("new"), T0 + 10).unwrap();
    let mut secondary = request("https://s.example");
    secondary.related_link = Some("https://sec.example".to_string());
    add_link(&mut store, &secondary, &page("s"), T0 + 11).unwrap();
    let sec = get_link(&store, &TermOrId::Term("https://sec.example".to_string()), IsPrimary::Either).unwrap();
    tag_link(&mut store, sec.id, jazz);

    let listed = get_links(&store, &vec!["jazz".to_string()], &None);
    let ids: Vec<u128> = listed.iter().map(|l| l.id).collect();
    assert_eq!(ids, vec![new_id, noted, old_id]);
    assert!(listed.iter().all(|l| l.is_primary && l.content.is_none()));
    let all = get_links(&store, &vec![], &None);
    assert_eq!(all.len(), 5);
    assert!(all.windows(2).all(|w| w[0].created_at >= w[1].created_at));
}

#[test]
fn search_matches_content_only() {
    let mut store = Store::new();
    let mut req = request("https://a.example");
    req.title = Some("needle in title".to_string());
    let a = add_link(&mut store, &req, &page("a haystack with a needle inside"), T0).unwrap();
    add_link(&mut store, &request("https://b.example"), &page("nothing here"), T0 + 1).unwrap();
    let found = search_links(&store, "needle");
    assert_eq!(found.len(), 1);
    assert_eq!(found[0].id, a);
    assert!(search_links(&store, "title").is_empty());
}

#[test]
fn tags_for_item_are_ordered_by_slug() {
    let mut store = Store::new();
    let mut req = request("https://a.example");
    req.tags = vec!["zebra".to_string(), "Apple".to_string(), "mango".to_string()];
    let a = add_link(&mut store, &req, &page("x"), T0).unwrap();
    let tags = tags_for_item(&store, a);
    let slugs: Vec<&str> = tags.iter().map(|t| t.slug.as_str()).collect();
    assert_eq!(slugs, vec!["apple", "mango", "zebra"]);
    tag_link(&mut store, a, tags[0].id);
    assert_eq!(store.item_tags.len(), 3);
}

#[test]
fn notes_overwrite_by_title() {
    let mut store = Store::new();
    let id = upsert_note(&mut store, "first", "Todo", None, T0).unwrap();
    let again = upsert_note(&mut store, "second", "Todo", None, T0 + 3).unwrap();
    assert_eq!(id, again);
    let n = get_note_by_title(&store, "Todo").unwrap();
    assert_eq!(n.content, "second");
    assert_eq!(n.created_at, T0);
    assert_eq!(n.modified_at, T0 + 3);
    assert!(get_note_by_title(&store, "todo").is_none());
    assert!(matches!(get_note(&store, None, None, &None), Err(StoreError::Validation)));
}

#[test]
fn note_text_is_appended_on_its_own_line() {
    assert_eq!(append_note_text("", "hello"), "hello");
    assert_eq!(append_note_text("one", "two"), "one\ntwo");
}

#[test]
fn save_note_with_tags() {
    let mut store = Store::new();
    assert_eq!(save_note(&mut store, "", "T", &vec![], T0), Ok(None));
    assert_eq!(
        save_note(&mut store, "text", "T", &vec!["foo::bar".to_string()], T0),
        Err(StoreError::Validation)
    );
    assert!(store.notes.is_empty());
    let id = save_note(&mut store, "text", "T", &vec!["Idea".to_string()], T0).unwrap().unwrap();
    assert_eq!(tags_for_item(&store, id)[0].slug, "idea");
    let removed = remove_item(&mut store, "T", T0 + 1);
    assert!(!removed.link);
    assert!(removed.note);
    assert!(store.notes.is_empty());
    assert!(store.item_tags.is_empty());
}

#[test]
fn relations_need_both_links() {
    let mut store = Store::new();
    let a = insert_link(&mut store, &ins("https://a.example", None, true, T0), false).unwrap();
    assert_eq!(relate_links(&mut store, a, a + 1, &None), Err(StoreError::Storage));
    let b = insert_link(&mut store, &ins("https://b.example", None, false, T0), false).unwrap();
    assert_eq!(relate_links(&mut store, a, b, &Some("see".to_string())), Ok(()));
    assert_eq!(delete_related_links(&mut store, None, None), Err(StoreError::Validation));
    assert_eq!(delete_related_links(&mut store, None, Some(b)), Ok(()));
    assert!(store.relations.is_empty());
}

#[test]
fn tag_and_search_filters_combine() {
    let mut store = Store::new();
    let mut a = request("https://a.example");
    a.tags = vec!["jazz".to_string(), "live".to_string()];
    let a_id = add_link(&mut store, &a, &page("a trumpet solo"), T0).unwrap();
    let mut b = request("https://b.example");
    b.tags = vec!["jazz".to_string()];
    add_link(&mut store, &b, &page("a piano trio"), T0 + 1).unwrap();
    let mut c = request("https://c.example");
    c.tags = vec!["rock".to_string()];
    add_link(&mut store, &c, &page("a trumpet riff"), T0 + 2).unwrap();

    let both = get_links(&store, &vec!["jazz".to_string()], &Some("trumpet".to_string()));
    assert_eq!(both.iter().map(|l| l.id).collect::<Vec<_>>(), vec![a_id]);
    let either_tag = get_links(&store, &vec!["live".to_string(), "rock".to_string()], &None);
    assert_eq!(either_tag.len(), 2);
    assert!(get_links(&store, &vec!["blues".to_string()], &None).is_empty());
}

#[test]
fn promotion_without_new_identifiers_succeeds() {
    let mut store = Store::new();
    let mut a = request("https://a.example");
    a.tags = vec!["Jazz".to_string()];
    a.related_link = Some("https://b.example".to_string());
    a.relation = Some("via".to_string());
    let a_id = add_link(&mut store, &a, &page("a"), T0).unwrap();
    upsert_note(&mut store, "old text", "https://b.example", None, T0).unwrap();
    let b_before = get_link(&store, &TermOrId::Term("https://b.example".to_string()), IsPrimary::SecondaryOnly).unwrap();
    let note_before = get_note_by_title(&store, "https://b.example").unwrap();
    let links_before = store.links.len();
    let tags_before = store.tags.len();

    let mut b = request("https://b.example");
    b.tags = vec!["jazz".to_string()];
    b.note = Some("new text".to_string());
    b.related_link = Some("https://a.example".to_string());
    let b_id = add_link(&mut store, &b, &page("text of b"), T0 + 3).unwrap();
    assert_eq!(b_id, b_before.id);
    assert_eq!(store.links.len(), links_before);
    assert_eq!(store.tags.len(), tags_before);
    let b_after = get_link(&store, &TermOrId::Id(b_id), IsPrimary::PrimaryOnly).unwrap();
    assert_eq!(b_after.content.as_deref(), Some("text of b"));
    assert_eq!(b_after.created_at, b_before.created_at);
    let note_after = get_note_by_title(&store, "https://b.example").unwrap();
    assert_eq!(note_after.id, note_before.id);
    assert_eq!(note_after.content, "new text");
    assert_eq!(tags_for_item(&store, note_after.id)[0].slug, "jazz");
    assert_eq!(tags_for_item(&store, b_id)[0].slug, "jazz");
    assert_eq!(related_links(&store, a_id), vec![("https://b.example".to_string(), Some("via".to_string()))]);
    assert_eq!(related_links(&store, b_id), vec![("https://a.example".to_string(), None)]);
}

#[test]
fn appended_note_keeps_its_identifier() {
    let mut store = Store::new();
    let id = save_note(&mut store, "one", "Journal", &vec![], T0).unwrap().unwrap();
    let existing = get_note_by_title(&store, "Journal").unwrap().content;
    let text = append_note_text(&existing, "two");
    let again = save_note(&mut store, &text, "Journal", &vec![], T0 + 9).unwrap().unwrap();
    assert_eq!(id, again);
    let n = get_note_by_title(&store, "Journal").unwrap();
    assert_eq!(n.content, "one\ntwo");
    assert_eq!(n.created_at, T0);
    assert_eq!(n.modified_at, T0 + 9);
}
