//! Listing and searching links: primary links filtered by tag slugs
//! (directly or through an attached note) and by a term in their content,
//! newest first.
use vstd::prelude::*;

use crate::links::{note_attached, owned_by_link, with_content};
use crate::store::{Link, LinkView, Note, Owner, Store, StoreView, TagView};
use crate::text::{opt_view, same_text};

verus! {

/// Whether `needle` occurs in `hay`.
pub open spec fn contains_text(hay: Seq<char>, needle: Seq<char>) -> bool {
    exists|i: int| 0 <= i <= hay.len() - needle.len() && #[trigger] hay.subrange(i, i + needle.len()) == needle
}

/// Whether `needle` occurs in `hay` at position `i`.
fn occurs_at(hay: &str, needle: &str, i: usize) -> (r: bool)
    requires
        i + needle@.len() <= hay@.len(),
    ensures
        r == (hay@.subrange(i as int, i + needle@.len()) == needle@),
{
    let m = needle.unicode_len();
    let n = hay.unicode_len();
    let mut k: usize = 0;
    while k < m
        invariant
            m == needle@.len(),
            n == hay@.len(),
            i + m <= hay@.len(),
            k <= m,
            hay@.subrange(i as int, i + k) =~= needle@.take(k as int),
        decreases m - k,
    {
        if hay.get_char(i + k) != needle.get_char(k) {
            assert(hay@.subrange(i as int, i + m)[k as int] != needle@[k as int]);
            return false;
        }
        assert(hay@.subrange(i as int, i + k + 1) =~= hay@.subrange(i as int, i + k).push(hay@[i + k]));
        assert(needle@.take(k + 1) =~= needle@.take(k as int).push(needle@[k as int]));
        k = k + 1;
    }
    assert(needle@.take(m as int) =~= needle@);
    true
}

/// Whether `needle` occurs in `hay`.
pub fn contains_str(hay: &str, needle: &str) -> (r: bool)
    ensures
        r == contains_text(hay@, needle@),
{
    let n = hay.unicode_len();
    let m = needle.unicode_len();
    if m > n {
        return false;
    }
    let mut i: usize = 0;
    loop
        invariant
            n == hay@.len(),
            m == needle@.len(),
            m <= n,
            i <= n - m,
            forall|q: int| 0 <= q < i ==> #[trigger] hay@.subrange(q, q + m) != needle@,
        decreases n - m - i,
    {
        if occurs_at(hay, needle, i) {
            return true;
        }
        if i == n - m {
            return false;
        }
        i = i + 1;
    }
}

pub open spec fn strings_view(v: Seq<String>) -> Seq<Seq<char>> {
    v.map_values(|t: String| t@)
}

/// Whether tag `tag_id` exists with one of the slugs `slugs`.
pub open spec fn slug_listed(tags: Seq<TagView>, tag_id: u128, slugs: Seq<Seq<char>>) -> bool {
    exists|k: int| 0 <= k < tags.len() && #[trigger] tags[k].id == tag_id && slugs.contains(tags[k].slug)
}

/// Whether link `id`, directly or through a note attached to it, carries a
/// tag with one of the slugs `slugs`.
pub open spec fn link_tagged_with(st: StoreView, id: u128, slugs: Seq<Seq<char>>) -> bool {
    exists|q: int|
        0 <= q < st.item_tags.len() && #[trigger] owned_by_link(st.notes, st.item_tags[q], id) && slug_listed(
            st.tags,
            st.item_tags[q].tag_id,
            slugs,
        )
}

/// Whether a link belongs in a listing: it is primary, it carries one of
/// the tags (where tags are given), and its content holds the search term
/// (where one is given).
pub open spec fn link_listed(st: StoreView, l: LinkView, slugs: Seq<Seq<char>>, term: Option<Seq<char>>) -> bool {
    &&& l.is_primary
    &&& slugs.len() == 0 || link_tagged_with(st, l.id, slugs)
    &&& term is None || (l.content is Some && contains_text(l.content->0, term->0))
}

/// `x` placed in `s` before the first element created earlier than it.
pub open spec fn insert_newest_first(s: Seq<LinkView>, x: LinkView) -> Seq<LinkView>
    decreases s.len(),
{
    if s.len() == 0 {
        seq![x]
    } else if s[0].created_at < x.created_at {
        seq![x] + s
    } else {
        seq![s[0]] + insert_newest_first(s.drop_first(), x)
    }
}

/// The links of `links` that belong in a listing, without their content,
/// newest first (links created in the same second in table order).
pub open spec fn listing(st: StoreView, links: Seq<LinkView>, slugs: Seq<Seq<char>>, term: Option<Seq<char>>) -> Seq<
    LinkView,
>
    decreases links.len(),
{
    if links.len() == 0 {
        Seq::empty()
    } else {
        let r = listing(st, links.drop_last(), slugs, term);
        if link_listed(st, links.last(), slugs, term) {
            insert_newest_first(r, with_content(links.last(), None))
        } else {
            r
        }
    }
}

proof fn lemma_insert_newest_first(s: Seq<LinkView>, x: LinkView, p: int)
    requires
        0 <= p <= s.len(),
        forall|q: int| 0 <= q < p ==> !(#[trigger] s[q].created_at < x.created_at),
        p < s.len() ==> s[p].created_at < x.created_at,
    ensures
        insert_newest_first(s, x) == s.insert(p, x),
    decreases s.len(),
{
    if s.len() == 0 {
        assert(s.insert(p, x) =~= seq![x]);
    } else if p == 0 {
        assert(s.insert(p, x) =~= seq![x] + s);
    } else {
        let t = s.drop_first();
        assert forall|q: int| 0 <= q < p - 1 implies !(#[trigger] t[q].created_at < x.created_at) by {
            assert(t[q] == s[q + 1]);
        }
        lemma_insert_newest_first(t, x, p - 1);
        assert(s.insert(p, x) =~= seq![s[0]] + t.insert(p - 1, x));
    }
}

/// Whether tag `tag_id` exists with one of the slugs.
fn tag_has_slug_in(store: &Store, tag_id: u128, slugs: &Vec<String>) -> (r: bool)
    ensures
        r == slug_listed(store@.tags, tag_id, strings_view(slugs@)),
{
    let ghost sv = strings_view(slugs@);
    let mut k: usize = 0;
    while k < store.tags.len()
        invariant
            sv == strings_view(slugs@),
            k <= store@.tags.len(),
            forall|q: int| 0 <= q < k ==> !(#[trigger] store@.tags[q].id == tag_id && sv.contains(store@.tags[q].slug)),
        decreases store@.tags.len() - k,
    {
        let t = &store.tags[k];
        if t.id == tag_id {
            let mut j: usize = 0;
            while j < slugs.len()
                invariant
                    sv == strings_view(slugs@),
                    k < store@.tags.len(),
                    t@ == store@.tags[k as int],
                    t.id == tag_id,
                    j <= slugs@.len(),
                    forall|q: int| 0 <= q < j ==> #[trigger] sv[q] != t.slug@,
                decreases slugs@.len() - j,
            {
                if same_text(slugs[j].as_str(), t.slug.as_str()) {
                    assert(sv[j as int] == store@.tags[k as int].slug);
                    assert(sv.contains(store@.tags[k as int].slug));
                    assert(store@.tags[k as int].id == tag_id);
                    assert(slug_listed(store@.tags, tag_id, sv));
                    return true;
                }
                j = j + 1;
            }
            assert(!sv.contains(t.slug@));
        }
        k = k + 1;
    }
    false
}

/// Whether link `link_id` carries, directly or through a note, a tag with
/// one of the slugs.
fn link_has_tag_in(store: &Store, link_id: u128, slugs: &Vec<String>) -> (r: bool)
    ensures
        r == link_tagged_with(store@, link_id, strings_view(slugs@)),
{
    let mut q: usize = 0;
    while q < store.item_tags.len()
        invariant
            q <= store@.item_tags.len(),
            forall|w: int|
                0 <= w < q ==> !(#[trigger] owned_by_link(store@.notes, store@.item_tags[w], link_id) && slug_listed(
                    store@.tags,
                    store@.item_tags[w].tag_id,
                    strings_view(slugs@),
                )),
        decreases store@.item_tags.len() - q,
    {
        let a = store.item_tags[q];
        let owned = match a.owner {
            Owner::Link(x) => x == link_id,
            Owner::Note(n) => note_attached(store, n, link_id),
        };
        if owned && tag_has_slug_in(store, a.tag_id, slugs) {
            assert(owned_by_link(store@.notes, store@.item_tags[q as int], link_id));
            return true;
        }
        q = q + 1;
    }
    false
}

/// The primary links, newest first and without their content, that carry
/// one of the tags with slugs `tags` (directly or through an attached note)
/// where any are given, and whose content holds `search_term` where it is
/// given.
pub fn get_links(store: &Store, tags: &Vec<String>, search_term: &Option<String>) -> (r: Vec<Link>)
    ensures
        r@.map_values(|l: Link| l@) == listing(store@, store@.links, strings_view(tags@), opt_view(*search_term)),
{
    let ghost links = store@.links;
    let ghost slugs = strings_view(tags@);
    let ghost term = opt_view(*search_term);
    let mut out: Vec<Link> = Vec::new();
    let mut i: usize = 0;
    while i < store.links.len()
        invariant
            links == store@.links,
            slugs == strings_view(tags@),
            term == opt_view(*search_term),
            i <= links.len(),
            out@.map_values(|l: Link| l@) == listing(store@, links.take(i as int), slugs, term),
        decreases links.len() - i,
    {
        let l = &store.links[i];
        assert(links.take(i + 1).drop_last() =~= links.take(i as int));
        assert(links.take(i + 1).last() == l@);
        let tag_ok = tags.len() == 0 || link_has_tag_in(store, l.id, tags);
        let term_ok = match search_term {
            None => true,
            Some(t) => match &l.content {
                Some(c) => contains_str(c.as_str(), t.as_str()),
                None => false,
            },
        };
        if l.is_primary && tag_ok && term_ok {
            let ghost before = out@.map_values(|l: Link| l@);
            let mut row = l.duplicate();
            row.content = None;
            let mut p: usize = 0;
            while p < out.len() && !(out[p].created_at < row.created_at)
                invariant
                    before == out@.map_values(|l: Link| l@),
                    p <= out@.len(),
                    forall|q: int| 0 <= q < p ==> !(#[trigger] before[q].created_at < row@.created_at),
                decreases out@.len() - p,
            {
                p = p + 1;
            }
            proof {
                lemma_insert_newest_first(before, row@, p as int);
            }
            let ghost rv = row@;
            out.insert(p, row);
            assert(rv == with_content(l@, None));
            assert(out@.map_values(|l: Link| l@) =~= before.insert(p as int, rv));
        }
        i = i + 1;
    }
    assert(links.take(links.len() as int) =~= links);
    out
}

/// The primary links whose content holds `term`, newest first.
pub fn search_links(store: &Store, term: &str) -> (r: Vec<Link>)
    ensures
        r@.map_values(|l: Link| l@) == listing(store@, store@.links, Seq::empty(), Some(term@)),
{
    let no_tags: Vec<String> = Vec::new();
    let t = Some(term.to_string());
    let r = get_links(store, &no_tags, &t);
    assert(strings_view(no_tags@) =~= Seq::<Seq<char>>::empty());
    r
}

} // verus!
