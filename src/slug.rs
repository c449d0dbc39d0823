//! Canonical tag slugs.
//!
//! A tag name is lowercased, every run of characters that are neither
//! alphanumeric nor a colon becomes one hyphen, colons separate namespace
//! segments, and each segment loses its leading and trailing hyphens. A
//! segment left empty makes the name invalid.
use vstd::prelude::*;

use crate::store::StoreError;

verus! {

/// What `str::to_lowercase` returns for a character sequence.
pub uninterp spec fn lower_of(s: Seq<char>) -> Seq<char>;

/// Whether `char::is_alphanumeric` holds of a character.
pub uninterp spec fn alnum_of(c: char) -> bool;

pub open spec fn is_ascii_alnum(c: char) -> bool {
    ||| (48 <= c as u32 && c as u32 <= 57)
    ||| (65 <= c as u32 && c as u32 <= 90)
    ||| (97 <= c as u32 && c as u32 <= 122)
}

/// Relies on `str::to_lowercase`: the result depends on the characters alone.
#[verifier::external_body]
fn lowercase(s: &str) -> (r: String)
    ensures
        r@ == lower_of(s@),
{
    s.to_lowercase()
}

/// Relies on `char::is_alphanumeric`, which on ASCII holds of exactly the
/// letters and digits.
#[verifier::external_body]
fn is_alphanumeric(c: char) -> (r: bool)
    ensures
        r == alnum_of(c),
        (c as u32) < 128 ==> (r <==> is_ascii_alnum(c)),
{
    c.is_alphanumeric()
}

/// Relies on `String`'s `FromIterator<char>`: the characters in order.
#[verifier::external_body]
pub(crate) fn string_from_chars(v: &Vec<char>) -> (r: String)
    ensures
        r@ == v@,
{
    v.iter().collect()
}

/// A character that stands for itself in a slug: an ASCII letter or digit,
/// or another character that `char::is_alphanumeric` accepts.
pub open spec fn word(c: char) -> bool {
    if (c as u32) < 128 {
        is_ascii_alnum(c)
    } else {
        alnum_of(c)
    }
}

/// One step of the first pass: the slug so far, and whether the last thing
/// seen was a separator (so that a further separator adds nothing).
pub open spec fn scan_step(st: (Seq<char>, bool), c: char) -> (Seq<char>, bool) {
    if c == ':' {
        (st.0.push(':'), st.1)
    } else if word(c) {
        (st.0.push(c), false)
    } else if !st.1 {
        (st.0.push('-'), true)
    } else {
        st
    }
}

/// The first pass over a lowercased name: words kept, colons kept, each run
/// of other characters after a word turned into one hyphen.
pub open spec fn scan(s: Seq<char>) -> (Seq<char>, bool)
    decreases s.len(),
{
    if s.len() == 0 {
        (Seq::empty(), true)
    } else {
        scan_step(scan(s.drop_last()), s.last())
    }
}

/// The colon-separated segments of `s` (one more than it has colons).
pub open spec fn pieces(s: Seq<char>) -> Seq<Seq<char>>
    decreases s.len(),
{
    if s.len() == 0 {
        seq![Seq::empty()]
    } else {
        let ps = pieces(s.drop_last());
        if s.last() == ':' {
            ps.push(Seq::empty())
        } else {
            ps.update(ps.len() - 1, ps.last().push(s.last()))
        }
    }
}

pub open spec fn trim_start(s: Seq<char>) -> Seq<char>
    decreases s.len(),
{
    if s.len() > 0 && s[0] == '-' {
        trim_start(s.drop_first())
    } else {
        s
    }
}

pub open spec fn trim_end(s: Seq<char>) -> Seq<char>
    decreases s.len(),
{
    if s.len() > 0 && s.last() == '-' {
        trim_end(s.drop_last())
    } else {
        s
    }
}

/// A segment without its leading and trailing hyphens.
pub open spec fn trim_hyphens(s: Seq<char>) -> Seq<char> {
    trim_end(trim_start(s))
}

/// Segments joined with colons.
pub open spec fn join_colon(ps: Seq<Seq<char>>) -> Seq<char>
    decreases ps.len(),
{
    if ps.len() == 0 {
        Seq::empty()
    } else if ps.len() == 1 {
        ps[0]
    } else {
        join_colon(ps.drop_last()) + seq![':'] + ps.last()
    }
}

/// The trimmed segments of a lowercased name.
pub open spec fn segments(lowered: Seq<char>) -> Seq<Seq<char>> {
    pieces(scan(lowered).0).map_values(|p: Seq<char>| trim_hyphens(p))
}

/// The slug of an already lowercased name, or `None` where a segment is
/// left empty.
pub open spec fn slug_of(lowered: Seq<char>) -> Option<Seq<char>> {
    let segs = segments(lowered);
    if exists|i: int| 0 <= i < segs.len() && #[trigger] segs[i].len() == 0 {
        None
    } else {
        Some(join_colon(segs))
    }
}

/// The slug of a tag name.
pub open spec fn slugify_spec(tag: Seq<char>) -> Option<Seq<char>> {
    slug_of(lower_of(tag))
}


/// A segment without its leading and trailing hyphens.
fn trim_piece(p: &Vec<char>) -> (r: Vec<char>)
    ensures
        r@ == trim_hyphens(p@),
{
    let n = p.len();
    let mut a: usize = 0;
    assert(p@.subrange(0, n as int) =~= p@);
    while a < n && p[a] == '-'
        invariant
            n == p@.len(),
            a <= n,
            trim_start(p@) == trim_start(p@.subrange(a as int, n as int)),
        decreases n - a,
    {
        assert(p@.subrange(a as int, n as int).drop_first() =~= p@.subrange(a + 1, n as int));
        a = a + 1;
    }
    let mut b: usize = n;
    while b > a && p[b - 1] == '-'
        invariant
            n == p@.len(),
            a <= b <= n,
            trim_start(p@) == p@.subrange(a as int, n as int),
            trim_end(p@.subrange(a as int, n as int)) == trim_end(p@.subrange(a as int, b as int)),
        decreases b,
    {
        assert(p@.subrange(a as int, b as int).drop_last() =~= p@.subrange(a as int, b - 1));
        b = b - 1;
    }
    let mut r: Vec<char> = Vec::new();
    let mut i: usize = a;
    while i < b
        invariant
            n == p@.len(),
            a <= i <= b <= n,
            r@ =~= p@.subrange(a as int, i as int),
        decreases b - i,
    {
        r.push(p[i]);
        i = i + 1;
    }
    r
}

/// The slug of an already lowercased name; a name with a segment left empty
/// is refused.
pub fn slugify_lowered(lowered: &str) -> (r: Result<String, StoreError>)
    ensures
        match r {
            Ok(s) => slug_of(lowered@) == Some(s@),
            Err(e) => slug_of(lowered@) is None && e == StoreError::Validation,
        },
{
    let n = lowered.unicode_len();
    let mut out: Vec<char> = Vec::new();
    let mut is_sep = true;
    let mut i: usize = 0;
    while i < n
        invariant
            n == lowered@.len(),
            i <= n,
            (out@, is_sep) == scan(lowered@.take(i as int)),
        decreases n - i,
    {
        let c = lowered.get_char(i);
        assert(lowered@.take(i + 1).drop_last() =~= lowered@.take(i as int));
        if is_alphanumeric(c) {
            is_sep = false;
            out.push(c);
        } else if c == ':' {
            out.push(':');
        } else if !is_sep {
            out.push('-');
            is_sep = true;
        }
        i = i + 1;
    }
    assert(lowered@.take(n as int) =~= lowered@);
    let ghost scanned = out@;
    // split at the colons
    let mut done: Vec<Vec<char>> = Vec::new();
    let mut cur: Vec<char> = Vec::new();
    let mut j: usize = 0;
    while j < out.len()
        invariant
            out@ == scanned,
            j <= out@.len(),
            pieces(scanned.take(j as int)) == done@.map_values(|v: Vec<char>| v@).push(cur@),
        decreases out@.len() - j,
    {
        let c = out[j];
        assert(scanned.take(j + 1).drop_last() =~= scanned.take(j as int));
        if c == ':' {
            let piece = cur;
            done.push(piece);
            cur = Vec::new();
            assert(done@.map_values(|v: Vec<char>| v@).push(cur@) =~= pieces(scanned.take(j as int)).push(Seq::empty()));
        } else {
            cur.push(c);
            assert(done@.map_values(|v: Vec<char>| v@).push(cur@) =~= pieces(scanned.take(j as int)).update(done@.len() as int, pieces(scanned.take(j as int)).last().push(c)));
        }
        j = j + 1;
    }
    assert(scanned.take(out@.len() as int) =~= scanned);
    done.push(cur);
    let ghost segs = segments(lowered@);
    assert(done@.map_values(|v: Vec<char>| v@) =~= pieces(scanned));
    // trim each segment and join them again
    let mut joined: Vec<char> = Vec::new();
    let mut k: usize = 0;
    while k < done.len()
        invariant
            segs == segments(lowered@),
            segs.len() == done@.len(),
            forall|q: int| 0 <= q < done@.len() ==> #[trigger] segs[q] == trim_hyphens(done@[q]@),
            k <= done@.len(),
            joined@ == join_colon(segs.take(k as int)),
            forall|q: int| 0 <= q < k ==> #[trigger] segs[q].len() > 0,
        decreases done@.len() - k,
    {
        let mut t = trim_piece(&done[k]);
        if t.len() == 0 {
            assert(segs[k as int].len() == 0);
            return Err(StoreError::Validation);
        }
        assert(segs.take(k + 1).drop_last() =~= segs.take(k as int));
        if k > 0 {
            joined.push(':');
        }
        joined.append(&mut t);
        assert(k == 0 ==> joined@ =~= join_colon(segs.take(k + 1)));
        k = k + 1;
    }
    assert(segs.take(done@.len() as int) =~= segs);
    Ok(string_from_chars(&joined))
}

/// The canonical slug of a tag name: lowercased, with each run of characters
/// that are neither alphanumeric nor a colon turned into one hyphen, and each
/// colon-separated segment trimmed of hyphens. A name with an empty segment
/// (an empty or blank name, punctuation alone, or a leading, trailing or
/// doubled colon) is refused.
pub fn slugify(tag: &str) -> (r: Result<String, StoreError>)
    ensures
        match r {
            Ok(s) => slugify_spec(tag@) == Some(s@),
            Err(e) => slugify_spec(tag@) is None && e == StoreError::Validation,
        },
{
    let lowered = lowercase(tag);
    slugify_lowered(lowered.as_str())
}


/// Characters that the first pass can leave: words, colons and single
/// hyphens.
pub open spec fn scan_shape(s: Seq<char>) -> bool {
    &&& forall|k: int| 0 <= k < s.len() ==> word(#[trigger] s[k]) || s[k] == ':' || s[k] == '-'
    &&& forall|k: int| 0 <= k && k + 1 < s.len() ==> !(#[trigger] s[k] == '-' && s[k + 1] == '-')
}

/// A segment between colons: words and single hyphens.
pub open spec fn piece_shape(p: Seq<char>) -> bool {
    &&& forall|k: int| 0 <= k < p.len() ==> word(#[trigger] p[k]) || p[k] == '-'
    &&& forall|k: int| 0 <= k && k + 1 < p.len() ==> !(#[trigger] p[k] == '-' && p[k + 1] == '-')
}

/// A segment of a slug: not empty, words and single hyphens, and no hyphen
/// at either end.
pub open spec fn good_piece(p: Seq<char>) -> bool {
    &&& p.len() > 0
    &&& piece_shape(p)
    &&& p[0] != '-'
    &&& p.last() != '-'
}

proof fn lemma_scan_shape(s: Seq<char>)
    ensures
        scan_shape(scan(s).0),
        scan(s).0.len() > 0 && scan(s).0.last() == '-' ==> scan(s).1,
    decreases s.len(),
{
    if s.len() > 0 {
        lemma_scan_shape(s.drop_last());
        let st = scan(s.drop_last());
        let out = scan(s).0;
        assert forall|k: int| 0 <= k < st.0.len() implies out[k] == st.0[k] by {
            assert(out =~= st.0 || out =~= st.0.push(out.last()));
        }
        if out.len() > st.0.len() {
            assert(out =~= st.0.push(out.last()));
            assert forall|k: int| 0 <= k && k + 1 < out.len() implies !(#[trigger] out[k] == '-' && out[k + 1] == '-') by {
                if k + 1 < st.0.len() {
                    assert(out[k] == st.0[k] && out[k + 1] == st.0[k + 1]);
                } else {
                    assert(k == st.0.len() - 1);
                    assert(st.0.last() == st.0[k]);
                }
            }
        } else {
            assert(out =~= st.0);
        }
    }
}

proof fn lemma_pieces_len(s: Seq<char>)
    ensures
        pieces(s).len() >= 1,
    decreases s.len(),
{
    if s.len() > 0 {
        lemma_pieces_len(s.drop_last());
    }
}

proof fn lemma_pieces_shape(s: Seq<char>)
    requires
        scan_shape(s),
    ensures
        pieces(s).len() >= 1,
        forall|i: int| 0 <= i < pieces(s).len() ==> piece_shape(#[trigger] pieces(s)[i]),
        pieces(s).last().len() > 0 ==> s.len() > 0 && pieces(s).last().last() == s.last(),
    decreases s.len(),
{
    lemma_pieces_len(s);
    if s.len() > 0 {
        let t = s.drop_last();
        assert(scan_shape(t)) by {
            assert forall|k: int| 0 <= k && k + 1 < t.len() implies !(#[trigger] t[k] == '-' && t[k + 1] == '-') by {
                assert(t[k] == s[k] && t[k + 1] == s[k + 1]);
            }
            assert forall|k: int| 0 <= k < t.len() implies word(#[trigger] t[k]) || t[k] == ':' || t[k] == '-' by {
                assert(t[k] == s[k]);
            }
        }
        lemma_pieces_shape(t);
        let ps = pieces(t);
        let c = s.last();
        assert(c == s[s.len() - 1]);
        if c != ':' {
            let q = ps.last().push(c);
            assert(piece_shape(q)) by {
                assert forall|k: int| 0 <= k && k + 1 < q.len() implies !(#[trigger] q[k] == '-' && q[k + 1] == '-') by {
                    if k + 2 < q.len() {
                        assert(q[k] == ps.last()[k] && q[k + 1] == ps.last()[k + 1]);
                        assert(piece_shape(ps[ps.len() - 1]));
                    } else {
                        assert(q[k] == ps.last().last());
                        assert(t.last() == s[s.len() - 2]);
                    }
                }
                assert forall|k: int| 0 <= k < q.len() implies word(#[trigger] q[k]) || q[k] == '-' by {
                    if k < ps.last().len() {
                        assert(q[k] == ps.last()[k]);
                        assert(piece_shape(ps[ps.len() - 1]));
                    }
                }
            }
            assert forall|i: int| 0 <= i < pieces(s).len() implies piece_shape(#[trigger] pieces(s)[i]) by {
                if i < ps.len() - 1 {
                    assert(pieces(s)[i] == ps[i]);
                }
            }
        } else {
            assert forall|i: int| 0 <= i < pieces(s).len() implies piece_shape(#[trigger] pieces(s)[i]) by {
                if i < ps.len() {
                    assert(pieces(s)[i] == ps[i]);
                } else {
                    assert(pieces(s)[i] =~= Seq::<char>::empty());
                }
            }
        }
    }
}

proof fn lemma_trim_start(p: Seq<char>) -> (a: int)
    ensures
        0 <= a <= p.len(),
        trim_start(p) == p.subrange(a, p.len() as int),
        trim_start(p).len() > 0 ==> trim_start(p)[0] != '-',
    decreases p.len(),
{
    if p.len() > 0 && p[0] == '-' {
        let a = lemma_trim_start(p.drop_first());
        assert(p.drop_first().subrange(a, p.len() - 1) =~= p.subrange(a + 1, p.len() as int));
        a + 1
    } else {
        assert(p.subrange(0, p.len() as int) =~= p);
        0
    }
}

proof fn lemma_trim_end(p: Seq<char>) -> (b: int)
    ensures
        0 <= b <= p.len(),
        trim_end(p) == p.subrange(0, b),
        trim_end(p).len() > 0 ==> trim_end(p).last() != '-',
    decreases p.len(),
{
    if p.len() > 0 && p.last() == '-' {
        let b = lemma_trim_end(p.drop_last());
        assert(p.drop_last().subrange(0, b) =~= p.subrange(0, b));
        b
    } else {
        assert(p.subrange(0, p.len() as int) =~= p);
        p.len() as int
    }
}

proof fn lemma_trim_good(p: Seq<char>)
    requires
        piece_shape(p),
    ensures
        trim_hyphens(p).len() > 0 ==> good_piece(trim_hyphens(p)),
{
    let a = lemma_trim_start(p);
    let q = trim_start(p);
    let b = lemma_trim_end(q);
    let t = trim_hyphens(p);
    if t.len() > 0 {
        assert(t =~= p.subrange(a, a + b));
        assert(t[0] == q[0]);
        assert forall|k: int| 0 <= k < t.len() implies word(#[trigger] t[k]) || t[k] == '-' by {
            assert(t[k] == p[a + k]);
        }
        assert forall|k: int| 0 <= k && k + 1 < t.len() implies !(#[trigger] t[k] == '-' && t[k + 1] == '-') by {
            assert(t[k] == p[a + k] && t[k + 1] == p[a + k + 1]);
        }
    }
}

proof fn lemma_trim_same(p: Seq<char>)
    requires
        good_piece(p),
    ensures
        trim_hyphens(p) == p,
{
    assert(trim_start(p) == p);
    assert(trim_end(p) == p);
}

/// What `slug_of` accepts is its trimmed segments joined, each a good piece.
proof fn lemma_slug_pieces(x: Seq<char>)
    requires
        slug_of(x) is Some,
    ensures
        segments(x).len() >= 1,
        forall|i: int| 0 <= i < segments(x).len() ==> good_piece(#[trigger] segments(x)[i]),
        slug_of(x) == Some(join_colon(segments(x))),
{
    lemma_scan_shape(x);
    lemma_pieces_shape(scan(x).0);
    let ps = pieces(scan(x).0);
    let segs = segments(x);
    assert forall|i: int| 0 <= i < segs.len() implies good_piece(#[trigger] segs[i]) by {
        assert(segs[i] == trim_hyphens(ps[i]));
        lemma_trim_good(ps[i]);
        assert(segs[i].len() != 0);
    }
}

proof fn lemma_scan_piece_prefix(x: Seq<char>, sep0: bool, p: Seq<char>, k: int)
    requires
        scan(x) == (x, sep0),
        good_piece(p),
        1 <= k <= p.len(),
    ensures
        scan(x + p.take(k)) == (x + p.take(k), p[k - 1] == '-'),
    decreases k,
{
    let y = x + p.take(k);
    assert(y.last() == p[k - 1]);
    if k == 1 {
        assert(y.drop_last() =~= x);
        assert(word(p[0]));
    } else {
        lemma_scan_piece_prefix(x, sep0, p, k - 1);
        assert(y.drop_last() =~= x + p.take(k - 1));
        assert(word(p[k - 1]) || p[k - 1] == '-');
        if p[k - 1] == '-' {
            assert(!(p[k - 2] == '-' && p[k - 1] == '-'));
        }
    }
    assert(y.drop_last().push(p[k - 1]) =~= y);
}

proof fn lemma_scan_piece(x: Seq<char>, sep0: bool, p: Seq<char>)
    requires
        scan(x) == (x, sep0),
        good_piece(p),
    ensures
        scan(x + p) == (x + p, false),
{
    lemma_scan_piece_prefix(x, sep0, p, p.len() as int);
    assert(p.take(p.len() as int) =~= p);
    assert(p.last() == p[p.len() - 1]);
}

proof fn lemma_pieces_append(x: Seq<char>, y: Seq<char>)
    requires
        forall|k: int| 0 <= k < y.len() ==> #[trigger] y[k] != ':',
    ensures
        pieces(x + y) == pieces(x).update(pieces(x).len() - 1, pieces(x).last() + y),
    decreases y.len(),
{
    lemma_pieces_len(x);
    if y.len() == 0 {
        assert(x + y =~= x);
        assert(pieces(x).last() + y =~= pieces(x).last());
        assert(pieces(x).update(pieces(x).len() - 1, pieces(x).last()) =~= pieces(x));
    } else {
        let z = y.drop_last();
        lemma_pieces_append(x, z);
        assert((x + y).drop_last() =~= x + z);
        assert((x + y).last() == y[y.len() - 1]);
        lemma_pieces_len(x + z);
        assert(y[y.len() - 1] != ':');
        let ps = pieces(x + z);
        let n = pieces(x).len();
        assert(ps.len() == n);
        assert(ps.last() == pieces(x).last() + z);
        assert((pieces(x).last() + z).push(y.last()) =~= pieces(x).last() + y);
        assert(pieces(x + y) == ps.update(n - 1, ps.last().push(y.last())));
        assert(pieces(x + y) =~= pieces(x).update(pieces(x).len() - 1, pieces(x).last() + y));
    }
}

/// Good pieces joined with colons come back unchanged from both passes.
proof fn lemma_join_fixed(segs: Seq<Seq<char>>)
    requires
        segs.len() >= 1,
        forall|i: int| 0 <= i < segs.len() ==> good_piece(#[trigger] segs[i]),
    ensures
        scan(join_colon(segs)) == (join_colon(segs), false),
        pieces(join_colon(segs)) == segs,
    decreases segs.len(),
{
    let last = segs.last();
    assert(good_piece(segs[segs.len() - 1]));
    assert forall|k: int| 0 <= k < last.len() implies #[trigger] last[k] != ':' by {
        assert(word(last[k]) || last[k] == '-');
    }
    if segs.len() == 1 {
        let e = Seq::<char>::empty();
        assert(scan(e) == (e, true));
        lemma_scan_piece(e, true, last);
        assert(e + last =~= last);
        lemma_pieces_append(e, last);
        assert(pieces(e + last) =~= segs);
    } else {
        let init = segs.drop_last();
        lemma_join_fixed(init);
        let j = join_colon(init);
        let jc = j.push(':');
        assert(jc.drop_last() =~= j);
        assert(scan(jc) == (jc, false));
        lemma_scan_piece(jc, false, last);
        assert(join_colon(segs) =~= jc + last);
        assert(pieces(jc) == init.push(Seq::<char>::empty()));
        lemma_pieces_append(jc, last);
        assert(Seq::<char>::empty() + last =~= last);
        assert(pieces(jc + last) =~= segs);
    }
}

/// Good pieces joined with colons are their own slug.
proof fn lemma_join_is_slug(segs: Seq<Seq<char>>)
    requires
        segs.len() >= 1,
        forall|i: int| 0 <= i < segs.len() ==> good_piece(#[trigger] segs[i]),
    ensures
        segments(join_colon(segs)) == segs,
        slug_of(join_colon(segs)) == Some(join_colon(segs)),
{
    lemma_join_fixed(segs);
    let y = join_colon(segs);
    assert forall|i: int| 0 <= i < segs.len() implies #[trigger] segments(y)[i] == segs[i] by {
        lemma_trim_same(segs[i]);
    }
    assert(segments(y) =~= segs);
}

/// A slug is its own slug: whenever `slug_of(x)` is `Some(y)`, `slug_of(y)`
/// is `Some(y)`.
pub proof fn lemma_slug_idempotent(x: Seq<char>)
    requires
        slug_of(x) is Some,
    ensures
        slug_of(slug_of(x)->0) == slug_of(x),
{
    lemma_slug_pieces(x);
    lemma_join_is_slug(segments(x));
}

/// Every colon-separated segment of a slug is non-empty and has no hyphen
/// at either end.
pub proof fn lemma_slug_segments(x: Seq<char>)
    requires
        slug_of(x) is Some,
    ensures
        ({
            let y = slug_of(x)->0;
            &&& pieces(y).len() >= 1
            &&& forall|i: int|
                0 <= i < pieces(y).len() ==> (#[trigger] pieces(y)[i]).len() > 0 && pieces(y)[i][0] != '-'
                    && pieces(y)[i].last() != '-'
        }),
{
    lemma_slug_pieces(x);
    lemma_join_fixed(segments(x));
    let y = slug_of(x)->0;
    assert forall|i: int| 0 <= i < pieces(y).len() implies (#[trigger] pieces(y)[i]).len() > 0 && pieces(y)[i][0]
        != '-' && pieces(y)[i].last() != '-' by {
        assert(good_piece(segments(x)[i]));
    }
}

} // verus!
