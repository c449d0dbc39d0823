//! Properties that relate several operations of the store.
use vstd::prelude::*;

use crate::commands::{demoted, demoted_row, promoted_row};
use crate::links::{
    deleted_link, find_link, lemma_find_at, lemma_find_some, lemma_link_index, link_index,
    link_matches, new_link_row, with_content, LinkKey,
};
use crate::listing::{insert_newest_first, link_listed, listing};
use crate::relations::forward;
use crate::store::{
    lemma_filter_from, lemma_filter_unique, link_exists, slug_exists, url_exists, Association,
    IsPrimary, LinkInsert, LinkView, RelationView, StoreError, StoreView, TagView,
};
use crate::tags::{insert_by_slug, require_tag_post, tag_index, tagged, tags_of, text_lt};

verus! {

/// Round trip: a link inserted where its URL is new (what `insert_link`
/// does on success) is found by its URL (what `get_link` returns) with the
/// URL, title, description and content it was inserted with.
pub proof fn lemma_insert_then_get(st: StoreView, ins: LinkInsert, id: u128)
    requires
        st.wf(),
        !url_exists(st.links, ins.url@),
    ensures
        find_link(st.links.push(new_link_row(ins, id)), LinkKey::Url(ins.url@), IsPrimary::Either) == Some(
            new_link_row(ins, id),
        ),
{
    let links = st.links.push(new_link_row(ins, id));
    let key = LinkKey::Url(ins.url@);
    let n = st.links.len() as int;
    assert(link_matches(links[n], key, IsPrimary::Either));
    let k = choose|k: int| 0 <= k < links.len() && #[trigger] link_matches(links[k], key, IsPrimary::Either);
    if k != n {
        assert(st.links[k].url == ins.url@);
        assert(url_exists(st.links, ins.url@));
    }
}

/// Relations resolve the same against two link tables that hold the same
/// identifiers and URLs at the same positions.
proof fn lemma_forward_same(a: Seq<LinkView>, b: Seq<LinkView>, rels: Seq<RelationView>, id: u128)
    requires
        a.len() == b.len(),
        forall|i: int| 0 <= i < a.len() ==> (#[trigger] b[i]).id == a[i].id && b[i].url == a[i].url,
        forall|i: int, j: int| 0 <= i < j < a.len() ==> #[trigger] a[i].id != #[trigger] a[j].id,
    ensures
        forward(b, rels, id) == forward(a, rels, id),
    decreases rels.len(),
{
    if rels.len() > 0 {
        lemma_forward_same(a, b, rels.drop_last(), id);
        let x = rels.last().related;
        if link_exists(a, x) {
            let i = link_index(a, x);
            assert(b[i].id == x);
            assert(link_exists(b, x));
            let k = link_index(b, x);
            assert(a[k].id == x);
            if i != k {
                if i < k {
                    assert(a[i].id != a[k].id);
                } else {
                    assert(a[k].id != a[i].id);
                }
            }
        } else if link_exists(b, x) {
            let k = choose|k: int| 0 <= k < b.len() && #[trigger] b[k].id == x;
            assert(a[k].id == x);
        }
    }
}

/// Promotion: where a secondary link has the URL, the promoted row (what
/// `upsert_primary_link` leaves) is the primary link found by that URL; it
/// keeps the secondary link's identifier, carries the new content, and
/// every relation resolves to the same URLs as before.
pub proof fn lemma_promotion(st: StoreView, ins: LinkInsert)
    requires
        st.wf(),
        find_link(st.links, LinkKey::Url(ins.url@), IsPrimary::SecondaryOnly) is Some,
        ins.content is Some,
    ensures
        ({
            let sec = find_link(st.links, LinkKey::Url(ins.url@), IsPrimary::SecondaryOnly)->0;
            let i = link_index(st.links, sec.id);
            let after = st.with_links(st.links.update(i, promoted_row(st.links[i], ins)));
            &&& find_link(after.links, LinkKey::Url(ins.url@), IsPrimary::PrimaryOnly) == Some(promoted_row(sec, ins))
            &&& find_link(after.links, LinkKey::Id(sec.id), IsPrimary::PrimaryOnly) == Some(promoted_row(sec, ins))
            &&& promoted_row(sec, ins).id == sec.id
            &&& promoted_row(sec, ins).content == Some(ins.content->0@)
            &&& after.relations == st.relations
            &&& forall|a: u128| #[trigger] forward(after.links, after.relations, a) == forward(st.links, st.relations, a)
            &&& after.wf()
        }),
{
    let sec = find_link(st.links, LinkKey::Url(ins.url@), IsPrimary::SecondaryOnly)->0;
    let j = lemma_find_some(st.links, LinkKey::Url(ins.url@), IsPrimary::SecondaryOnly);
    lemma_link_index(st, sec.id, j);
    let row = promoted_row(st.links[j], ins);
    let after = st.with_links(st.links.update(j, row));
    assert forall|x: u128| link_exists(st.links, x) implies link_exists(after.links, x) by {
        let w = choose|w: int| 0 <= w < st.links.len() && #[trigger] st.links[w].id == x;
        assert(after.links[w].id == x);
    }
    assert(after.wf());
    assert(link_matches(after.links[j], LinkKey::Url(ins.url@), IsPrimary::PrimaryOnly));
    lemma_find_at(after, LinkKey::Url(ins.url@), IsPrimary::PrimaryOnly, j);
    assert(link_matches(after.links[j], LinkKey::Id(sec.id), IsPrimary::PrimaryOnly));
    lemma_find_at(after, LinkKey::Id(sec.id), IsPrimary::PrimaryOnly, j);
    assert forall|a: u128| #[trigger] forward(after.links, after.relations, a) == forward(st.links, st.relations, a) by {
        lemma_forward_same(st.links, after.links, st.relations, a);
    }
}

/// Deletion: once link `id` is deleted (what `remove_link` does to a link
/// nothing points at), no link has its URL any more.
pub proof fn lemma_deleted_link_gone(st: StoreView, id: u128)
    requires
        st.wf(),
        link_exists(st.links, id),
    ensures
        !url_exists(deleted_link(st, id).links, st.links[link_index(st.links, id)].url),
        !link_exists(deleted_link(st, id).links, id),
{
    let i = link_index(st.links, id);
    let url = st.links[i].url;
    let pred = |l: LinkView| l.id != id;
    lemma_filter_from(st.links, pred);
    let f = deleted_link(st, id).links;
    assert(f == st.links.filter(pred));
    if url_exists(f, url) {
        let k = choose|k: int| 0 <= k < f.len() && #[trigger] f[k].url == url;
        assert(st.links.contains(f[k]));
        let w = choose|w: int| 0 <= w < st.links.len() && st.links[w] == f[k];
        if w < i {
            assert(st.links[w].url != st.links[i].url);
        } else if i < w {
            assert(st.links[i].url != st.links[w].url);
        }
    }
    if link_exists(f, id) {
        let k = choose|k: int| 0 <= k < f.len() && #[trigger] f[k].id == id;
        assert(pred(f[k]));
    }
}

/// A relation that starts at `id` and ends at an existing link shows in
/// the relations that resolve from `id`.
proof fn lemma_forward_contains(links: Seq<LinkView>, rels: Seq<RelationView>, id: u128, k: int)
    requires
        0 <= k < rels.len(),
        rels[k].primary == id,
        link_exists(links, rels[k].related),
    ensures
        forward(links, rels, id).contains((links[link_index(links, rels[k].related)].url, rels[k].relationship)),
    decreases rels.len(),
{
    let e = (links[link_index(links, rels[k].related)].url, rels[k].relationship);
    let f = forward(links, rels, id);
    if k == rels.len() - 1 {
        assert(rels.last() == rels[k]);
        assert(f.last() == e);
        assert(f[f.len() - 1] == e);
    } else {
        let init = rels.drop_last();
        assert(init[k] == rels[k]);
        lemma_forward_contains(links, init, id, k);
        let g = forward(links, init, id);
        let w = choose|w: int| 0 <= w < g.len() && g[w] == e;
        assert(f[w] == e);
    }
}

/// Demotion: a demoted link (what `remove_link` does to a link that others
/// point at) is still there under its identifier and URL, secondary and
/// without content; no tag association of it is left and no relation
/// starts at it; every relation that another link had to it is kept and
/// still resolves to its URL.
pub proof fn lemma_demotion(st: StoreView, id: u128, ts: i64)
    requires
        st.wf(),
        link_exists(st.links, id),
    ensures
        ({
            let after = demoted(st, id, ts);
            let i = link_index(st.links, id);
            &&& find_link(after.links, LinkKey::Id(id), IsPrimary::Either) == Some(demoted_row(st.links[i], ts))
            &&& !demoted_row(st.links[i], ts).is_primary
            &&& demoted_row(st.links[i], ts).content is None
            &&& demoted_row(st.links[i], ts).url == st.links[i].url
            &&& forall|k: int| 0 <= k < after.item_tags.len() ==> (#[trigger] after.item_tags[k]).owner.id() != id
            &&& forall|k: int| 0 <= k < after.relations.len() ==> (#[trigger] after.relations[k]).primary != id
            &&& forall|r: RelationView| #[trigger]
                st.relations.contains(r) && r.related == id && r.primary != id ==> after.relations.contains(r)
            &&& forall|r: RelationView|
                st.relations.contains(r) && r.related == id && r.primary != id ==> #[trigger] forward(
                    after.links,
                    after.relations,
                    r.primary,
                ).contains((st.links[i].url, r.relationship))
            &&& after.wf()
        }),
{
    let i = link_index(st.links, id);
    lemma_link_index(st, id, i);
    let after = demoted(st, id, ts);
    let apred = |a: Association| a.owner.id() != id;
    let rpred = |r: RelationView| !crate::relations::edge_matches(r, Some(id), None);
    lemma_filter_from(st.item_tags, apred);
    lemma_filter_from(st.relations, rpred);
    assert(after.item_tags == st.item_tags.filter(apred));
    assert(after.relations == st.relations.filter(rpred));
    assert forall|r: RelationView| #[trigger]
        st.relations.contains(r) && r.related == id && r.primary != id implies after.relations.contains(r) by {
        let w = choose|w: int| 0 <= w < st.relations.len() && st.relations[w] == r;
        st.relations.lemma_filter_contains(rpred, w);
    }
    assert forall|x: u128| link_exists(st.links, x) implies link_exists(after.links, x) by {
        let w = choose|w: int| 0 <= w < st.links.len() && #[trigger] st.links[w].id == x;
        assert(after.links[w].id == x);
    }
    lemma_filter_unique(st.item_tags, apred);
    assert forall|k: int| 0 <= k < after.relations.len() implies link_exists(
        after.links,
        #[trigger] after.relations[k].primary,
    ) && link_exists(after.links, after.relations[k].related) by {
        assert(st.relations.contains(after.relations[k]));
        let w = choose|w: int| 0 <= w < st.relations.len() && st.relations[w] == after.relations[k];
        assert(link_exists(st.links, st.relations[w].primary));
    }
    assert(after.wf());
    assert(link_matches(after.links[i], LinkKey::Id(id), IsPrimary::Either));
    lemma_find_at(after, LinkKey::Id(id), IsPrimary::Either, i);
    lemma_link_index(after, id, i);
    assert forall|r: RelationView|
        st.relations.contains(r) && r.related == id && r.primary != id implies #[trigger] forward(
            after.links,
            after.relations,
            r.primary,
        ).contains((st.links[i].url, r.relationship)) by {
        assert(after.relations.contains(r));
        let k = choose|k: int| 0 <= k < after.relations.len() && after.relations[k] == r;
        lemma_forward_contains(after.links, after.relations, r.primary, k);
    }
}

/// Placing an element keeps a newest-first sequence newest first, and adds
/// nothing but that element.
proof fn lemma_insert_newest_first_sorted(s: Seq<LinkView>, x: LinkView)
    requires
        forall|a: int, b: int| 0 <= a < b < s.len() ==> #[trigger] s[a].created_at >= #[trigger] s[b].created_at,
    ensures
        ({
            let t = insert_newest_first(s, x);
            &&& t.len() == s.len() + 1
            &&& forall|a: int, b: int| 0 <= a < b < t.len() ==> #[trigger] t[a].created_at >= #[trigger] t[b].created_at
            &&& forall|k: int| 0 <= k < t.len() ==> #[trigger] t[k] == x || s.contains(t[k])
        }),
    decreases s.len(),
{
    if s.len() > 0 && !(s[0].created_at < x.created_at) {
        let r = s.drop_first();
        lemma_insert_newest_first_sorted(r, x);
        let t = insert_newest_first(s, x);
        let u = insert_newest_first(r, x);
        assert(t == seq![s[0]] + u);
        assert forall|k: int| 0 <= k < u.len() implies u[k].created_at <= s[0].created_at by {
            if u[k] != x {
                let w = choose|w: int| 0 <= w < r.len() && r[w] == u[k];
                assert(r[w] == s[w + 1]);
            }
        }
        assert forall|k: int| 0 <= k < t.len() implies #[trigger] t[k] == x || s.contains(t[k]) by {
            if k > 0 && t[k] != x {
                assert(t[k] == u[k - 1]);
                let w = choose|w: int| 0 <= w < r.len() && r[w] == u[k - 1];
                assert(s[w + 1] == r[w]);
            } else if k == 0 {
                assert(s[0] == t[0]);
            }
        }
    } else if s.len() > 0 {
        let t = insert_newest_first(s, x);
        assert forall|k: int| 0 <= k < t.len() implies #[trigger] t[k] == x || s.contains(t[k]) by {
            if k > 0 {
                assert(t[k] == s[k - 1]);
            }
        }
    }
}

/// Whether `x` is a link of `links` that passes the listing's filters,
/// without its content.
pub open spec fn listed_from(
    st: StoreView,
    links: Seq<LinkView>,
    slugs: Seq<Seq<char>>,
    term: Option<Seq<char>>,
    x: LinkView,
) -> bool {
    exists|q: int|
        0 <= q < links.len() && #[trigger] with_content(links[q], None) == x && link_listed(st, links[q], slugs, term)
}

/// Listing: every link that a listing returns is a primary link of the
/// table (without its content) that passes the tag and search filters, and
/// the listing is ordered newest first.
pub proof fn lemma_listing(st: StoreView, links: Seq<LinkView>, slugs: Seq<Seq<char>>, term: Option<Seq<char>>)
    ensures
        ({
            let r = listing(st, links, slugs, term);
            &&& forall|a: int, b: int| 0 <= a < b < r.len() ==> #[trigger] r[a].created_at >= #[trigger] r[b].created_at
            &&& forall|k: int| 0 <= k < r.len() ==> #[trigger] listed_from(st, links, slugs, term, r[k])
            &&& forall|k: int| 0 <= k < r.len() ==> (#[trigger] r[k]).is_primary
        }),
    decreases links.len(),
{
    if links.len() > 0 {
        let init = links.drop_last();
        lemma_listing(st, init, slugs, term);
        let p = listing(st, init, slugs, term);
        let r = listing(st, links, slugs, term);
        let last = links.len() - 1;
        assert(links.last() == links[last]);
        assert forall|k: int| 0 <= k < p.len() implies #[trigger] listed_from(st, links, slugs, term, p[k]) by {
            assert(listed_from(st, init, slugs, term, p[k]));
            let q = choose|q: int|
                0 <= q < init.len() && #[trigger] with_content(init[q], None) == p[k] && link_listed(
                    st,
                    init[q],
                    slugs,
                    term,
                );
            assert(links[q] == init[q]);
        }
        if link_listed(st, links.last(), slugs, term) {
            let x = with_content(links.last(), None);
            lemma_insert_newest_first_sorted(p, x);
            assert forall|k: int| 0 <= k < r.len() implies #[trigger] listed_from(st, links, slugs, term, r[k]) by {
                if r[k] == x {
                    assert(with_content(links[last], None) == r[k]);
                } else {
                    let w = choose|w: int| 0 <= w < p.len() && p[w] == r[k];
                    assert(listed_from(st, links, slugs, term, p[w]));
                }
            }
            assert forall|k: int| 0 <= k < r.len() implies (#[trigger] r[k]).is_primary by {
                if r[k] != x {
                    let w = choose|w: int| 0 <= w < p.len() && p[w] == r[k];
                    assert(p[w].is_primary);
                }
            }
        }
    }
}


/// Tag deduplication: requiring a slug a second time, under any name,
/// returns the identifier that the first time returned.
pub proof fn lemma_tag_dedupe(
    st: StoreView,
    mid: StoreView,
    after: StoreView,
    slug: Seq<char>,
    name1: Seq<char>,
    name2: Seq<char>,
    ts1: i64,
    ts2: i64,
    r1: Result<u128, StoreError>,
    r2: Result<u128, StoreError>,
)
    requires
        st.wf(),
        require_tag_post(st, mid, name1, slug, ts1, r1),
        r1 is Ok,
        require_tag_post(mid, after, name2, slug, ts2, r2),
    ensures
        r2 == r1,
{
    if slug_exists(st.tags, slug) {
        let i = tag_index(st.tags, slug);
        assert(mid.tags[i].slug == slug);
        assert(slug_exists(mid.tags, slug));
        let k = tag_index(mid.tags, slug);
        if k != i {
            if k < i {
                assert(st.tags[k].slug != st.tags[i].slug);
            } else {
                assert(st.tags[i].slug != st.tags[k].slug);
            }
        }
    } else {
        let n = st.tags.len() as int;
        assert(mid.tags[n].slug == slug);
        assert(slug_exists(mid.tags, slug));
        let k = tag_index(mid.tags, slug);
        if k != n {
            assert(st.tags[k].slug == slug);
            assert(slug_exists(st.tags, slug));
        }
    }
}


/// Placing `x` keeps every element and adds `x` and nothing else.
proof fn lemma_insert_newest_first_members(s: Seq<LinkView>, x: LinkView)
    ensures
        ({
            let t = insert_newest_first(s, x);
            &&& t.len() == s.len() + 1
            &&& t.contains(x)
            &&& forall|y: LinkView| s.contains(y) ==> #[trigger] t.contains(y)
            &&& forall|k: int| 0 <= k < t.len() ==> #[trigger] t[k] == x || s.contains(t[k])
        }),
    decreases s.len(),
{
    let t = insert_newest_first(s, x);
    if s.len() == 0 {
        assert(t[0] == x);
    } else if s[0].created_at < x.created_at {
        assert(t == seq![x] + s);
        assert(t[0] == x);
        assert forall|y: LinkView| s.contains(y) implies #[trigger] t.contains(y) by {
            let k = choose|k: int| 0 <= k < s.len() && s[k] == y;
            assert(t[k + 1] == y);
        }
        assert forall|k: int| 0 <= k < t.len() implies #[trigger] t[k] == x || s.contains(t[k]) by {
            if k > 0 {
                assert(t[k] == s[k - 1]);
            }
        }
    } else {
        let r = s.drop_first();
        lemma_insert_newest_first_members(r, x);
        let u = insert_newest_first(r, x);
        assert(t == seq![s[0]] + u);
        let ux = choose|k: int| 0 <= k < u.len() && u[k] == x;
        assert(t[ux + 1] == x);
        assert forall|y: LinkView| s.contains(y) implies #[trigger] t.contains(y) by {
            let k = choose|k: int| 0 <= k < s.len() && s[k] == y;
            if k == 0 {
                assert(t[0] == y);
            } else {
                assert(r[k - 1] == y);
                assert(r.contains(y));
                assert(u.contains(y));
                let w = choose|w: int| 0 <= w < u.len() && u[w] == y;
                assert(t[w + 1] == y);
            }
        }
        assert forall|k: int| 0 <= k < t.len() implies #[trigger] t[k] == x || s.contains(t[k]) by {
            if k == 0 {
                assert(s[0] == t[0]);
            } else {
                assert(t[k] == u[k - 1]);
                if u[k - 1] != x {
                    let w = choose|w: int| 0 <= w < r.len() && r[w] == u[k - 1];
                    assert(s[w + 1] == r[w]);
                }
            }
        }
    }
}

/// Placing a link whose identifier is new keeps identifiers distinct.
proof fn lemma_insert_newest_first_distinct(s: Seq<LinkView>, x: LinkView)
    requires
        forall|a: int, b: int| 0 <= a < b < s.len() ==> #[trigger] s[a].id != #[trigger] s[b].id,
        forall|k: int| 0 <= k < s.len() ==> (#[trigger] s[k]).id != x.id,
    ensures
        ({
            let t = insert_newest_first(s, x);
            forall|a: int, b: int| 0 <= a < b < t.len() ==> #[trigger] t[a].id != #[trigger] t[b].id
        }),
    decreases s.len(),
{
    let t = insert_newest_first(s, x);
    if s.len() == 0 {
    } else if s[0].created_at < x.created_at {
        assert(t == seq![x] + s);
        assert forall|a: int, b: int| 0 <= a < b < t.len() implies #[trigger] t[a].id != #[trigger] t[b].id by {
            if a == 0 {
                assert(t[b] == s[b - 1]);
            } else {
                assert(t[a] == s[a - 1] && t[b] == s[b - 1]);
            }
        }
    } else {
        let r = s.drop_first();
        assert forall|a: int, b: int| 0 <= a < b < r.len() implies #[trigger] r[a].id != #[trigger] r[b].id by {
            assert(r[a] == s[a + 1] && r[b] == s[b + 1]);
        }
        assert forall|k: int| 0 <= k < r.len() implies (#[trigger] r[k]).id != x.id by {
            assert(r[k] == s[k + 1]);
        }
        lemma_insert_newest_first_distinct(r, x);
        lemma_insert_newest_first_members(r, x);
        let u = insert_newest_first(r, x);
        assert(t == seq![s[0]] + u);
        assert forall|a: int, b: int| 0 <= a < b < t.len() implies #[trigger] t[a].id != #[trigger] t[b].id by {
            if a == 0 {
                assert(t[b] == u[b - 1]);
                if u[b - 1] != x {
                    let w = choose|w: int| 0 <= w < r.len() && r[w] == u[b - 1];
                    assert(r[w] == s[w + 1]);
                }
            } else {
                assert(t[a] == u[a - 1] && t[b] == u[b - 1]);
            }
        }
    }
}

/// Placing a tag by slug keeps every element and adds `x` and nothing else.
proof fn lemma_insert_by_slug_members(s: Seq<TagView>, x: TagView)
    ensures
        ({
            let t = insert_by_slug(s, x);
            &&& t.len() == s.len() + 1
            &&& t.contains(x)
            &&& forall|y: TagView| s.contains(y) ==> #[trigger] t.contains(y)
            &&& forall|k: int| 0 <= k < t.len() ==> #[trigger] t[k] == x || s.contains(t[k])
        }),
    decreases s.len(),
{
    let t = insert_by_slug(s, x);
    if s.len() == 0 {
        assert(t[0] == x);
    } else if text_lt(x.slug, s[0].slug) {
        assert(t == seq![x] + s);
        assert(t[0] == x);
        assert forall|y: TagView| s.contains(y) implies #[trigger] t.contains(y) by {
            let k = choose|k: int| 0 <= k < s.len() && s[k] == y;
            assert(t[k + 1] == y);
        }
        assert forall|k: int| 0 <= k < t.len() implies #[trigger] t[k] == x || s.contains(t[k]) by {
            if k > 0 {
                assert(t[k] == s[k - 1]);
            }
        }
    } else {
        let r = s.drop_first();
        lemma_insert_by_slug_members(r, x);
        let u = insert_by_slug(r, x);
        assert(t == seq![s[0]] + u);
        let ux = choose|k: int| 0 <= k < u.len() && u[k] == x;
        assert(t[ux + 1] == x);
        assert forall|y: TagView| s.contains(y) implies #[trigger] t.contains(y) by {
            let k = choose|k: int| 0 <= k < s.len() && s[k] == y;
            if k == 0 {
                assert(t[0] == y);
            } else {
                assert(r[k - 1] == y);
                assert(r.contains(y));
                assert(u.contains(y));
                let w = choose|w: int| 0 <= w < u.len() && u[w] == y;
                assert(t[w + 1] == y);
            }
        }
        assert forall|k: int| 0 <= k < t.len() implies #[trigger] t[k] == x || s.contains(t[k]) by {
            if k == 0 {
                assert(s[0] == t[0]);
            } else {
                assert(t[k] == u[k - 1]);
                if u[k - 1] != x {
                    let w = choose|w: int| 0 <= w < r.len() && r[w] == u[k - 1];
                    assert(s[w + 1] == r[w]);
                }
            }
        }
    }
}

/// Placing a tag whose identifier is new keeps identifiers distinct.
proof fn lemma_insert_by_slug_distinct(s: Seq<TagView>, x: TagView)
    requires
        forall|a: int, b: int| 0 <= a < b < s.len() ==> #[trigger] s[a].id != #[trigger] s[b].id,
        forall|k: int| 0 <= k < s.len() ==> (#[trigger] s[k]).id != x.id,
    ensures
        ({
            let t = insert_by_slug(s, x);
            forall|a: int, b: int| 0 <= a < b < t.len() ==> #[trigger] t[a].id != #[trigger] t[b].id
        }),
    decreases s.len(),
{
    let t = insert_by_slug(s, x);
    if s.len() == 0 {
    } else if text_lt(x.slug, s[0].slug) {
        assert(t == seq![x] + s);
        assert forall|a: int, b: int| 0 <= a < b < t.len() implies #[trigger] t[a].id != #[trigger] t[b].id by {
            if a == 0 {
                assert(t[b] == s[b - 1]);
            } else {
                assert(t[a] == s[a - 1] && t[b] == s[b - 1]);
            }
        }
    } else {
        let r = s.drop_first();
        assert forall|a: int, b: int| 0 <= a < b < r.len() implies #[trigger] r[a].id != #[trigger] r[b].id by {
            assert(r[a] == s[a + 1] && r[b] == s[b + 1]);
        }
        assert forall|k: int| 0 <= k < r.len() implies (#[trigger] r[k]).id != x.id by {
            assert(r[k] == s[k + 1]);
        }
        lemma_insert_by_slug_distinct(r, x);
        lemma_insert_by_slug_members(r, x);
        let u = insert_by_slug(r, x);
        assert(t == seq![s[0]] + u);
        assert forall|a: int, b: int| 0 <= a < b < t.len() implies #[trigger] t[a].id != #[trigger] t[b].id by {
            if a == 0 {
                assert(t[b] == u[b - 1]);
                if u[b - 1] != x {
                    let w = choose|w: int| 0 <= w < r.len() && r[w] == u[b - 1];
                    assert(r[w] == s[w + 1]);
                }
            } else {
                assert(t[a] == u[a - 1] && t[b] == u[b - 1]);
            }
        }
    }
}

/// The tags of an item are exactly the tags of the table that it carries,
/// each once: every tag listed is a tag of the table that the item carries,
/// every such tag is listed, and no two listed tags share an identifier.
pub proof fn lemma_tags_of(tags: Seq<TagView>, item_tags: Seq<Association>, item: u128)
    requires
        forall|a: int, b: int| 0 <= a < b < tags.len() ==> #[trigger] tags[a].id != #[trigger] tags[b].id,
    ensures
        forall|k: int|
            0 <= k < tags_of(tags, item_tags, item).len() ==> tags.contains(#[trigger] tags_of(tags, item_tags, item)[k])
                && tagged(item_tags, item, tags_of(tags, item_tags, item)[k].id),
        forall|q: int|
            0 <= q < tags.len() && tagged(item_tags, item, tags[q].id) ==> #[trigger] tags_of(
                tags,
                item_tags,
                item,
            ).contains(tags[q]),
        forall|a: int, b: int|
            0 <= a < b < tags_of(tags, item_tags, item).len() ==> #[trigger] tags_of(tags, item_tags, item)[a].id
                != #[trigger] tags_of(tags, item_tags, item)[b].id,
    decreases tags.len(),
{
    if tags.len() > 0 {
        let init = tags.drop_last();
        assert forall|a: int, b: int| 0 <= a < b < init.len() implies #[trigger] init[a].id != #[trigger] init[b].id by {
            assert(init[a] == tags[a] && init[b] == tags[b]);
        }
        lemma_tags_of(init, item_tags, item);
        let p = tags_of(init, item_tags, item);
        let r = tags_of(tags, item_tags, item);
        let last = tags.len() - 1;
        assert(tags.last() == tags[last]);
        assert forall|k: int| 0 <= k < p.len() implies tags.contains(#[trigger] p[k]) by {
            assert(init.contains(p[k]));
            let w = choose|w: int| 0 <= w < init.len() && init[w] == p[k];
            assert(tags[w] == init[w]);
        }
        if tagged(item_tags, item, tags.last().id) {
            let x = tags.last();
            lemma_insert_by_slug_members(p, x);
            assert forall|k: int| 0 <= k < p.len() implies (#[trigger] p[k]).id != x.id by {
                assert(init.contains(p[k]));
                let w = choose|w: int| 0 <= w < init.len() && init[w] == p[k];
                assert(tags[w] == init[w]);
            }
            lemma_insert_by_slug_distinct(p, x);
            assert forall|k: int| 0 <= k < r.len() implies tags.contains(#[trigger] r[k]) && tagged(
                item_tags,
                item,
                r[k].id,
            ) by {
                if r[k] != x {
                    let w = choose|w: int| 0 <= w < p.len() && p[w] == r[k];
                    assert(tags.contains(p[w]));
                    assert(tagged(item_tags, item, p[w].id));
                } else {
                    assert(tags[last] == x);
                }
            }
            assert forall|q: int|
                0 <= q < tags.len() && tagged(item_tags, item, tags[q].id) implies #[trigger] r.contains(tags[q]) by {
                if q < last {
                    assert(init[q] == tags[q]);
                    assert(p.contains(init[q]));
                }
            }
        } else {
            assert forall|q: int|
                0 <= q < tags.len() && tagged(item_tags, item, tags[q].id) implies #[trigger] r.contains(tags[q]) by {
                assert(q != last);
                assert(init[q] == tags[q]);
                assert(p.contains(init[q]));
            }
        }
    }
}

/// Listing is complete and without repeats: every link of a table with
/// distinct identifiers that passes the filters is listed (without its
/// content), and no two listed links share an identifier; with
/// `lemma_listing`, each such link is listed exactly once.
pub proof fn lemma_listing_complete(st: StoreView, links: Seq<LinkView>, slugs: Seq<Seq<char>>, term: Option<Seq<char>>)
    requires
        forall|a: int, b: int| 0 <= a < b < links.len() ==> #[trigger] links[a].id != #[trigger] links[b].id,
    ensures
        forall|q: int|
            0 <= q < links.len() && link_listed(st, links[q], slugs, term) ==> #[trigger] listing(
                st,
                links,
                slugs,
                term,
            ).contains(with_content(links[q], None)),
        forall|a: int, b: int|
            0 <= a < b < listing(st, links, slugs, term).len() ==> #[trigger] listing(st, links, slugs, term)[a].id
                != #[trigger] listing(st, links, slugs, term)[b].id,
    decreases links.len(),
{
    if links.len() > 0 {
        let init = links.drop_last();
        assert forall|a: int, b: int| 0 <= a < b < init.len() implies #[trigger] init[a].id != #[trigger] init[b].id by {
            assert(init[a] == links[a] && init[b] == links[b]);
        }
        lemma_listing_complete(st, init, slugs, term);
        lemma_listing(st, init, slugs, term);
        let p = listing(st, init, slugs, term);
        let r = listing(st, links, slugs, term);
        let last = links.len() - 1;
        assert(links.last() == links[last]);
        if link_listed(st, links.last(), slugs, term) {
            let x = with_content(links.last(), None);
            lemma_insert_newest_first_members(p, x);
            assert forall|k: int| 0 <= k < p.len() implies (#[trigger] p[k]).id != x.id by {
                assert(listed_from(st, init, slugs, term, p[k]));
                let q = choose|q: int|
                    0 <= q < init.len() && #[trigger] with_content(init[q], None) == p[k] && link_listed(
                        st,
                        init[q],
                        slugs,
                        term,
                    );
                assert(init[q] == links[q]);
            }
            lemma_insert_newest_first_distinct(p, x);
            assert forall|q: int|
                0 <= q < links.len() && link_listed(st, links[q], slugs, term) implies #[trigger] r.contains(
                with_content(links[q], None),
            ) by {
                if q < last {
                    assert(init[q] == links[q]);
                    assert(p.contains(with_content(init[q], None)));
                }
            }
        } else {
            assert forall|q: int|
                0 <= q < links.len() && link_listed(st, links[q], slugs, term) implies #[trigger] r.contains(
                with_content(links[q], None),
            ) by {
                assert(q != last);
                assert(init[q] == links[q]);
                assert(p.contains(with_content(init[q], None)));
            }
        }
    }
}

} // verus!
