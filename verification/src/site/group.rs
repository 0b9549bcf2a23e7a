//! Grouping published posts: which posts are published, the tags in use,
//! and the years and months that have posts.

use vstd::prelude::*;
use crate::content::{
    lemma_text_lt_order, lemma_text_lt_total, post_views, text_lt, text_lt_exec, Post, PostSpec,
};
use crate::rst::ast::string_views;
use crate::site::render::{indices_ok, select};

verus! {

// ---------------------------------------------------------------------------
// Keys listed once each, in order
// ---------------------------------------------------------------------------

/// Every element of `s` comes before the ones after it.
pub open spec fn strictly_sorted<T>(s: Seq<T>, lt: spec_fn(T, T) -> bool) -> bool {
    forall|i: int, j: int| 0 <= i < j < s.len() ==> #[trigger] lt(s[i], s[j])
}

/// `s` holds exactly the values that satisfy `member`, each once, in the
/// order `lt`.
pub open spec fn lists_exactly<T>(s: Seq<T>, lt: spec_fn(T, T) -> bool, member: spec_fn(T) -> bool) -> bool {
    &&& strictly_sorted(s, lt)
    &&& forall|x: T| #[trigger] s.contains(x) <==> member(x)
}

/// The values that satisfy `member`, each once, in the order `lt`.
pub open spec fn ordered_keys<T>(lt: spec_fn(T, T) -> bool, member: spec_fn(T) -> bool) -> Seq<T> {
    choose|s: Seq<T>| lists_exactly(s, lt, member)
}

pub open spec fn strict_order<T>(lt: spec_fn(T, T) -> bool) -> bool {
    &&& forall|x: T| !#[trigger] lt(x, x)
    &&& forall|x: T, y: T, z: T| #[trigger] lt(x, y) && #[trigger] lt(y, z) ==> lt(x, z)
}

/// Two sequences sorted by the same strict order with the same elements
/// are the same sequence.
pub proof fn lemma_sorted_unique<T>(a: Seq<T>, b: Seq<T>, lt: spec_fn(T, T) -> bool)
    requires
        strict_order(lt),
        strictly_sorted(a, lt),
        strictly_sorted(b, lt),
        forall|x: T| #![trigger a.contains(x)] #![trigger b.contains(x)] a.contains(x) <==> b.contains(x),
    ensures
        a == b,
    decreases a.len(),
{
    if a.len() == 0 {
        if b.len() > 0 {
            assert(b.contains(b[0]));
        }
        assert(a =~= b);
    } else {
        assert(a.contains(a[0]));
        assert(b.contains(a[0]));
        let k = choose|k: int| 0 <= k < b.len() && b[k] == a[0];
        assert(b.contains(b[0]));
        assert(a.contains(b[0]));
        let m = choose|m: int| 0 <= m < a.len() && a[m] == b[0];
        if k > 0 {
            assert(lt(b[0], b[k]));
            if m > 0 {
                assert(lt(a[0], a[m]));
                assert(lt(a[0], a[0]));
            } else {
                assert(lt(a[0], a[0]));
            }
        }
        assert(a[0] == b[0]);
        let a1 = a.drop_first();
        let b1 = b.drop_first();
        assert forall|x: T| #[trigger] a1.contains(x) implies b1.contains(x) by {
            let i = choose|i: int| 0 <= i < a1.len() && a1[i] == x;
            assert(a[i + 1] == x);
            assert(lt(a[0], a[i + 1]));
            assert(a.contains(x));
            let j = choose|j: int| 0 <= j < b.len() && b[j] == x;
            assert(j != 0);
            assert(b1[j - 1] == x);
        }
        assert forall|x: T| #[trigger] b1.contains(x) implies a1.contains(x) by {
            let i = choose|i: int| 0 <= i < b1.len() && b1[i] == x;
            assert(b[i + 1] == x);
            assert(lt(b[0], b[i + 1]));
            assert(b.contains(x));
            let j = choose|j: int| 0 <= j < a.len() && a[j] == x;
            assert(j != 0);
            assert(a1[j - 1] == x);
        }
        assert forall|i: int, j: int| 0 <= i < j < a1.len() implies #[trigger] lt(a1[i], a1[j]) by {
            assert(lt(a[i + 1], a[j + 1]));
        }
        assert forall|i: int, j: int| 0 <= i < j < b1.len() implies #[trigger] lt(b1[i], b1[j]) by {
            assert(lt(b[i + 1], b[j + 1]));
        }
        lemma_sorted_unique(a1, b1, lt);
        assert(a =~= seq![a[0]] + a1);
        assert(b =~= seq![b[0]] + b1);
    }
}

/// A sequence that lists the keys exactly is the one `ordered_keys` names.
pub proof fn lemma_ordered_keys<T>(s: Seq<T>, lt: spec_fn(T, T) -> bool, member: spec_fn(T) -> bool)
    requires
        strict_order(lt),
        lists_exactly(s, lt, member),
    ensures
        ordered_keys(lt, member) == s,
{
    let c = ordered_keys(lt, member);
    assert(lists_exactly(c, lt, member));
    lemma_sorted_unique(c, s, lt);
}

// ---------------------------------------------------------------------------
// Published posts
// ---------------------------------------------------------------------------

pub open spec fn is_published() -> spec_fn(PostSpec) -> bool {
    |p: PostSpec| !p.meta.draft
}

/// The published posts of `ps`, in their order.
pub open spec fn published(ps: Seq<PostSpec>) -> Seq<PostSpec> {
    ps.filter(is_published())
}

pub open spec fn has_tag(tag: Seq<char>) -> spec_fn(PostSpec) -> bool {
    |p: PostSpec| p.meta.tags.contains(tag)
}

pub open spec fn in_year(year: i32) -> spec_fn(PostSpec) -> bool {
    |p: PostSpec| p.meta.date.year == year
}

pub open spec fn in_month(year: i32, month: i32) -> spec_fn(PostSpec) -> bool {
    |p: PostSpec| p.meta.date.year == year && p.meta.date.month as i32 == month
}

/// Texts in lexicographic order.
pub open spec fn text_order() -> spec_fn(Seq<char>, Seq<char>) -> bool {
    |a: Seq<char>, b: Seq<char>| text_lt(a, b)
}

/// Numbers from the largest down.
pub open spec fn descending() -> spec_fn(i32, i32) -> bool {
    |a: i32, b: i32| a > b
}

pub open spec fn tag_member(ps: Seq<PostSpec>) -> spec_fn(Seq<char>) -> bool {
    |t: Seq<char>| exists|i: int| 0 <= i < ps.len() && #[trigger] ps[i].meta.tags.contains(t)
}

pub open spec fn year_member(ps: Seq<PostSpec>) -> spec_fn(i32) -> bool {
    |y: i32| exists|i: int| 0 <= i < ps.len() && #[trigger] ps[i].meta.date.year == y
}

pub open spec fn month_member(ps: Seq<PostSpec>, year: i32) -> spec_fn(i32) -> bool {
    |m: i32| exists|i: int| 0 <= i < ps.len() && #[trigger] ps[i].meta.date.year == year
        && ps[i].meta.date.month as i32 == m
}

/// The tags of the posts `ps`, each once, in lexicographic order.
pub open spec fn tags_in_use(ps: Seq<PostSpec>) -> Seq<Seq<char>> {
    ordered_keys(text_order(), tag_member(ps))
}

/// The years of the posts `ps`, each once, newest first.
pub open spec fn years_in_use(ps: Seq<PostSpec>) -> Seq<i32> {
    ordered_keys(descending(), year_member(ps))
}

/// The months of `year` that have posts among `ps`, each once, latest first.
pub open spec fn months_in_use(ps: Seq<PostSpec>, year: i32) -> Seq<i32> {
    ordered_keys(descending(), month_member(ps, year))
}

pub proof fn lemma_text_order_strict()
    ensures
        strict_order(text_order()),
{
    assert forall|x: Seq<char>| !#[trigger] text_order()(x, x) by {
        lemma_text_lt_order(x, x, x);
    }
    assert forall|x: Seq<char>, y: Seq<char>, z: Seq<char>|
        #[trigger] text_order()(x, y) && #[trigger] text_order()(y, z) implies text_order()(x, z) by {
        lemma_text_lt_order(x, y, z);
    }
}

// ---------------------------------------------------------------------------
// Selecting posts
// ---------------------------------------------------------------------------

/// The indices of the published posts.
pub fn published_indices(posts: &Vec<Post>) -> (r: Vec<usize>)
    ensures
        indices_ok(r@, posts@.len() as int),
        select(post_views(posts@), r@) == published(post_views(posts@)),
{
    let ghost vs = post_views(posts@);
    let mut r: Vec<usize> = Vec::new();
    let mut i: usize = 0;
    assert(vs.take(0) =~= Seq::<PostSpec>::empty());
    proof {
        reveal(Seq::filter);
    }
    assert(select(vs, r@) =~= vs.take(0).filter(is_published()));
    while i < posts.len()
        invariant
            i <= posts@.len(),
            vs == post_views(posts@),
            indices_ok(r@, posts@.len() as int),
            select(vs, r@) == vs.take(i as int).filter(is_published()),
        decreases posts@.len() - i,
    {
        proof {
            assert(vs.take(i + 1) =~= vs.take(i as int).push(vs[i as int]));
            vs.take(i as int).lemma_filter_push(vs[i as int], is_published());
        }
        if !posts[i].meta.draft {
            let ghost before = r@;
            r.push(i);
            assert(select(vs, r@) =~= select(vs, before).push(vs[i as int]));
        }
        i = i + 1;
    }
    assert(vs.take(i as int) =~= vs);
    r
}

fn contains_string(v: &Vec<String>, s: &String) -> (b: bool)
    ensures
        b == string_views(v@).contains(s@),
{
    let mut k: usize = 0;
    while k < v.len()
        invariant
            k <= v@.len(),
            forall|j: int| 0 <= j < k ==> string_views(v@)[j] != s@,
        decreases v@.len() - k,
    {
        if v[k] == *s {
            assert(string_views(v@)[k as int] == s@);
            return true;
        }
        k = k + 1;
    }
    false
}

/// The indices, among `idx`, of the posts tagged `tag`.
pub fn indices_with_tag(posts: &Vec<Post>, idx: &Vec<usize>, tag: &String) -> (r: Vec<usize>)
    requires
        indices_ok(idx@, posts@.len() as int),
    ensures
        indices_ok(r@, posts@.len() as int),
        select(post_views(posts@), r@) == select(post_views(posts@), idx@).filter(has_tag(tag@)),
{
    let ghost vs = post_views(posts@);
    let ghost sel = select(vs, idx@);
    let mut r: Vec<usize> = Vec::new();
    let mut k: usize = 0;
    proof {
        reveal(Seq::filter);
    }
    assert(select(vs, r@) =~= sel.take(0).filter(has_tag(tag@)));
    while k < idx.len()
        invariant
            k <= idx@.len(),
            vs == post_views(posts@),
            sel == select(vs, idx@),
            indices_ok(idx@, posts@.len() as int),
            indices_ok(r@, posts@.len() as int),
            select(vs, r@) == sel.take(k as int).filter(has_tag(tag@)),
        decreases idx@.len() - k,
    {
        let i = idx[k];
        proof {
            assert(sel.take(k + 1) =~= sel.take(k as int).push(sel[k as int]));
            sel.take(k as int).lemma_filter_push(sel[k as int], has_tag(tag@));
            assert(sel[k as int] == posts@[i as int]@);
        }
        if contains_string(&posts[i].meta.tags, tag) {
            let ghost before = r@;
            r.push(i);
            assert(select(vs, r@) =~= select(vs, before).push(vs[i as int]));
        }
        k = k + 1;
    }
    assert(sel.take(k as int) =~= sel);
    r
}

/// The indices, among `idx`, of the posts of `year`.
pub fn indices_in_year(posts: &Vec<Post>, idx: &Vec<usize>, year: i32) -> (r: Vec<usize>)
    requires
        indices_ok(idx@, posts@.len() as int),
    ensures
        indices_ok(r@, posts@.len() as int),
        select(post_views(posts@), r@) == select(post_views(posts@), idx@).filter(in_year(year)),
{
    let ghost vs = post_views(posts@);
    let ghost sel = select(vs, idx@);
    let mut r: Vec<usize> = Vec::new();
    let mut k: usize = 0;
    proof {
        reveal(Seq::filter);
    }
    assert(select(vs, r@) =~= sel.take(0).filter(in_year(year)));
    while k < idx.len()
        invariant
            k <= idx@.len(),
            vs == post_views(posts@),
            sel == select(vs, idx@),
            indices_ok(idx@, posts@.len() as int),
            indices_ok(r@, posts@.len() as int),
            select(vs, r@) == sel.take(k as int).filter(in_year(year)),
        decreases idx@.len() - k,
    {
        let i = idx[k];
        proof {
            assert(sel.take(k + 1) =~= sel.take(k as int).push(sel[k as int]));
            sel.take(k as int).lemma_filter_push(sel[k as int], in_year(year));
            assert(sel[k as int] == posts@[i as int]@);
        }
        if posts[i].meta.date.year == year {
            let ghost before = r@;
            r.push(i);
            assert(select(vs, r@) =~= select(vs, before).push(vs[i as int]));
        }
        k = k + 1;
    }
    assert(sel.take(k as int) =~= sel);
    r
}

/// The indices, among `idx`, of the posts of `month` of `year`.
pub fn indices_in_month(posts: &Vec<Post>, idx: &Vec<usize>, year: i32, month: i32) -> (r: Vec<usize>)
    requires
        indices_ok(idx@, posts@.len() as int),
    ensures
        indices_ok(r@, posts@.len() as int),
        select(post_views(posts@), r@) == select(post_views(posts@), idx@).filter(in_month(year, month)),
{
    let ghost vs = post_views(posts@);
    let ghost sel = select(vs, idx@);
    let mut r: Vec<usize> = Vec::new();
    let mut k: usize = 0;
    proof {
        reveal(Seq::filter);
    }
    assert(select(vs, r@) =~= sel.take(0).filter(in_month(year, month)));
    while k < idx.len()
        invariant
            k <= idx@.len(),
            vs == post_views(posts@),
            sel == select(vs, idx@),
            indices_ok(idx@, posts@.len() as int),
            indices_ok(r@, posts@.len() as int),
            select(vs, r@) == sel.take(k as int).filter(in_month(year, month)),
        decreases idx@.len() - k,
    {
        let i = idx[k];
        proof {
            assert(sel.take(k + 1) =~= sel.take(k as int).push(sel[k as int]));
            sel.take(k as int).lemma_filter_push(sel[k as int], in_month(year, month));
            assert(sel[k as int] == posts@[i as int]@);
        }
        if posts[i].meta.date.year == year && posts[i].meta.date.month as i32 == month {
            let ghost before = r@;
            r.push(i);
            assert(select(vs, r@) =~= select(vs, before).push(vs[i as int]));
        }
        k = k + 1;
    }
    assert(sel.take(k as int) =~= sel);
    r
}

// ---------------------------------------------------------------------------
// Collecting keys
// ---------------------------------------------------------------------------

/// Adds `t` to the sorted tags `ts` unless it is there.
fn insert_tag(ts: &mut Vec<String>, t: &String)
    requires
        strictly_sorted(string_views(old(ts)@), text_order()),
    ensures
        strictly_sorted(string_views(final(ts)@), text_order()),
        forall|x: Seq<char>| #[trigger] string_views(final(ts)@).contains(x) <==> (string_views(old(ts)@).contains(x) || x == t@),
{
    let ghost sv = string_views(ts@);
    let mut q: usize = 0;
    while q < ts.len() && text_lt_exec(&ts[q], t)
        invariant
            q <= ts@.len(),
            sv == string_views(ts@),
            forall|i: int| 0 <= i < q ==> text_lt(#[trigger] sv[i], t@),
        decreases ts@.len() - q,
    {
        q = q + 1;
    }
    proof {
        lemma_text_order_strict();
    }
    if q < ts.len() && ts[q] == *t {
        assert(sv[q as int] == t@);
        assert forall|x: Seq<char>| #[trigger] sv.contains(x) <==> (sv.contains(x) || x == t@) by {
            if x == t@ {
                assert(sv[q as int] == x);
            }
        }
        return;
    }
    proof {
        if q < sv.len() {
            assert(!text_lt(sv[q as int], t@));
            lemma_text_lt_total(sv[q as int], t@);
            assert(sv[q as int] != t@);
            assert(text_lt(t@, sv[q as int]));
        }
    }
    ts.insert(q, t.clone());
    let ghost nv = string_views(ts@);
    assert(nv =~= sv.insert(q as int, t@));
    assert forall|i: int, j: int| 0 <= i < j < nv.len() implies #[trigger] text_order()(nv[i], nv[j]) by {
        if j < q {
            assert(text_order()(sv[i], sv[j]));
        } else if j == q {
            assert(text_lt(sv[i], t@));
        } else if i == q {
            if j - 1 > q {
                assert(text_order()(sv[q as int], sv[j - 1]));
                lemma_text_lt_order(t@, sv[q as int], sv[j - 1]);
            }
        } else if i < q {
            assert(text_lt(sv[i], t@));
            if q < sv.len() {
                lemma_text_lt_order(sv[i], t@, sv[q as int]);
            }
            assert(text_order()(sv[i], sv[j - 1]));
        } else {
            assert(text_order()(sv[i - 1], sv[j - 1]));
        }
    }
    assert forall|x: Seq<char>| #[trigger] nv.contains(x) <==> (sv.contains(x) || x == t@) by {
        if nv.contains(x) {
            let k = choose|k: int| 0 <= k < nv.len() && nv[k] == x;
            if k < q {
                assert(sv[k] == x);
            } else if k > q {
                assert(sv[k - 1] == x);
            }
        }
        if sv.contains(x) {
            let k = choose|k: int| 0 <= k < sv.len() && sv[k] == x;
            if k < q {
                assert(nv[k] == x);
            } else {
                assert(nv[k + 1] == x);
            }
        }
        if x == t@ {
            assert(nv[q as int] == x);
        }
    }
}

/// Adds `y` to `ys`, sorted from the largest down, unless it is there.
fn insert_descending(ys: &mut Vec<i32>, y: i32)
    requires
        strictly_sorted(old(ys)@, descending()),
    ensures
        strictly_sorted(final(ys)@, descending()),
        forall|x: i32| #[trigger] final(ys)@.contains(x) <==> (old(ys)@.contains(x) || x == y),
{
    let ghost sv = ys@;
    let mut q: usize = 0;
    while q < ys.len() && ys[q] > y
        invariant
            q <= ys@.len(),
            sv == ys@,
            forall|i: int| 0 <= i < q ==> #[trigger] sv[i] > y,
        decreases ys@.len() - q,
    {
        q = q + 1;
    }
    if q < ys.len() && ys[q] == y {
        assert forall|x: i32| #[trigger] sv.contains(x) <==> (sv.contains(x) || x == y) by {
            if x == y {
                assert(sv[q as int] == x);
            }
        }
        return;
    }
    ys.insert(q, y);
    let ghost nv = ys@;
    assert(nv =~= sv.insert(q as int, y));
    assert forall|i: int, j: int| 0 <= i < j < nv.len() implies #[trigger] descending()(nv[i], nv[j]) by {
        if j < q {
            assert(descending()(sv[i], sv[j]));
        } else if j == q {
        } else if i == q {
            if j - 1 > q {
                assert(descending()(sv[q as int], sv[j - 1]));
            }
        } else if i < q {
            assert(descending()(sv[i], sv[j - 1]));
        } else {
            assert(descending()(sv[i - 1], sv[j - 1]));
        }
    }
    assert forall|x: i32| #[trigger] nv.contains(x) <==> (sv.contains(x) || x == y) by {
        if nv.contains(x) {
            let k = choose|k: int| 0 <= k < nv.len() && nv[k] == x;
            if k < q {
                assert(sv[k] == x);
            } else if k > q {
                assert(sv[k - 1] == x);
            }
        }
        if sv.contains(x) {
            let k = choose|k: int| 0 <= k < sv.len() && sv[k] == x;
            if k < q {
                assert(nv[k] == x);
            } else {
                assert(nv[k + 1] == x);
            }
        }
        if x == y {
            assert(nv[q as int] == x);
        }
    }
}

/// The tags of the posts at `idx`, each once, in lexicographic order.
pub fn tags_of(posts: &Vec<Post>, idx: &Vec<usize>) -> (r: Vec<String>)
    requires
        indices_ok(idx@, posts@.len() as int),
    ensures
        string_views(r@) == tags_in_use(select(post_views(posts@), idx@)),
{
    let ghost sel = select(post_views(posts@), idx@);
    let mut ts: Vec<String> = Vec::new();
    let mut k: usize = 0;
    while k < idx.len()
        invariant
            k <= idx@.len(),
            sel == select(post_views(posts@), idx@),
            indices_ok(idx@, posts@.len() as int),
            strictly_sorted(string_views(ts@), text_order()),
            forall|x: Seq<char>| #[trigger] string_views(ts@).contains(x) <==> tag_member(sel.take(k as int))(x),
        decreases idx@.len() - k,
    {
        let i = idx[k];
        let tags = &posts[i].meta.tags;
        let ghost pt = string_views(tags@);
        assert(sel[k as int] == posts@[i as int]@);
        assert(sel[k as int].meta.tags == pt);
        let mut j: usize = 0;
        while j < tags.len()
            invariant
                j <= tags@.len(),
                k < idx@.len(),
                pt == string_views(tags@),
                strictly_sorted(string_views(ts@), text_order()),
                forall|x: Seq<char>| #[trigger] string_views(ts@).contains(x) <==> (tag_member(sel.take(k as int))(x) || pt.take(j as int).contains(x)),
            decreases tags@.len() - j,
        {
            let ghost before = string_views(ts@);
            insert_tag(&mut ts, &tags[j]);
            assert forall|x: Seq<char>| #[trigger] string_views(ts@).contains(x) <==> (tag_member(sel.take(k as int))(x) || pt.take(j + 1).contains(x)) by {
                assert(pt.take(j + 1) =~= pt.take(j as int).push(pt[j as int]));
                if pt.take(j + 1).contains(x) {
                    let m = choose|m: int| 0 <= m < j + 1 && #[trigger] pt.take(j + 1)[m] == x;
                    if m < j {
                        assert(pt.take(j as int)[m] == x);
                    }
                }
                if pt.take(j as int).contains(x) {
                    let m = choose|m: int| 0 <= m < j && #[trigger] pt.take(j as int)[m] == x;
                    assert(pt.take(j + 1)[m] == x);
                }
                if x == pt[j as int] {
                    assert(pt.take(j + 1)[j as int] == x);
                }
            }
            j = j + 1;
        }
        assert forall|x: Seq<char>| #[trigger] string_views(ts@).contains(x) <==> tag_member(sel.take(k + 1))(x) by {
            assert(pt.take(j as int) =~= pt);
            let s1 = sel.take(k + 1);
            if tag_member(sel.take(k as int))(x) {
                let m = choose|m: int| 0 <= m < sel.take(k as int).len() && #[trigger] sel.take(k as int)[m].meta.tags.contains(x);
                assert(s1[m] == sel.take(k as int)[m]);
            }
            if pt.contains(x) {
                assert(s1[k as int].meta.tags.contains(x));
            }
            if tag_member(s1)(x) {
                let m = choose|m: int| 0 <= m < s1.len() && #[trigger] s1[m].meta.tags.contains(x);
                if m < k {
                    assert(sel.take(k as int)[m] == s1[m]);
                }
            }
        }
        k = k + 1;
    }
    proof {
        assert(sel.take(k as int) =~= sel);
        lemma_text_order_strict();
        lemma_ordered_keys(string_views(ts@), text_order(), tag_member(sel));
    }
    ts
}

/// The years of the posts at `idx`, each once, newest first.
pub fn years_of(posts: &Vec<Post>, idx: &Vec<usize>) -> (r: Vec<i32>)
    requires
        indices_ok(idx@, posts@.len() as int),
    ensures
        r@ == years_in_use(select(post_views(posts@), idx@)),
{
    let ghost sel = select(post_views(posts@), idx@);
    let mut ys: Vec<i32> = Vec::new();
    let mut k: usize = 0;
    while k < idx.len()
        invariant
            k <= idx@.len(),
            sel == select(post_views(posts@), idx@),
            indices_ok(idx@, posts@.len() as int),
            strictly_sorted(ys@, descending()),
            forall|x: i32| #[trigger] ys@.contains(x) <==> year_member(sel.take(k as int))(x),
        decreases idx@.len() - k,
    {
        let i = idx[k];
        assert(sel[k as int] == posts@[i as int]@);
        insert_descending(&mut ys, posts[i].meta.date.year);
        assert forall|x: i32| #[trigger] ys@.contains(x) <==> year_member(sel.take(k + 1))(x) by {
            let s0 = sel.take(k as int);
            let s1 = sel.take(k + 1);
            if year_member(s0)(x) {
                let m = choose|m: int| 0 <= m < s0.len() && #[trigger] s0[m].meta.date.year == x;
                assert(s1[m] == s0[m]);
            }
            if x == posts@[i as int].meta.date.year {
                assert(s1[k as int].meta.date.year == x);
            }
            if year_member(s1)(x) {
                let m = choose|m: int| 0 <= m < s1.len() && #[trigger] s1[m].meta.date.year == x;
                if m < k {
                    assert(s0[m] == s1[m]);
                }
            }
        }
        k = k + 1;
    }
    proof {
        assert(sel.take(k as int) =~= sel);
        lemma_ordered_keys(ys@, descending(), year_member(sel));
    }
    ys
}

/// The months of `year` that have posts at `idx`, each once, latest first.
pub fn months_of(posts: &Vec<Post>, idx: &Vec<usize>, year: i32) -> (r: Vec<i32>)
    requires
        indices_ok(idx@, posts@.len() as int),
    ensures
        r@ == months_in_use(select(post_views(posts@), idx@), year),
        forall|k: int| 0 <= k < r@.len() ==> 0 <= #[trigger] r@[k] < 256,
{
    let ghost sel = select(post_views(posts@), idx@);
    let mut ms: Vec<i32> = Vec::new();
    let mut k: usize = 0;
    while k < idx.len()
        invariant
            k <= idx@.len(),
            sel == select(post_views(posts@), idx@),
            indices_ok(idx@, posts@.len() as int),
            strictly_sorted(ms@, descending()),
            forall|x: i32| #[trigger] ms@.contains(x) <==> month_member(sel.take(k as int), year)(x),
        decreases idx@.len() - k,
    {
        let i = idx[k];
        assert(sel[k as int] == posts@[i as int]@);
        let ghost before = ms@;
        if posts[i].meta.date.year == year {
            insert_descending(&mut ms, posts[i].meta.date.month as i32);
        }
        assert forall|x: i32| #[trigger] ms@.contains(x) <==> month_member(sel.take(k + 1), year)(x) by {
            let s0 = sel.take(k as int);
            let s1 = sel.take(k + 1);
            if month_member(s0, year)(x) {
                let m = choose|m: int| 0 <= m < s0.len() && #[trigger] s0[m].meta.date.year == year
                    && s0[m].meta.date.month as i32 == x;
                assert(s1[m] == s0[m]);
            }
            if posts@[i as int].meta.date.year == year && x == posts@[i as int].meta.date.month as i32 {
                assert(s1[k as int].meta.date.year == year);
            }
            if month_member(s1, year)(x) {
                let m = choose|m: int| 0 <= m < s1.len() && #[trigger] s1[m].meta.date.year == year
                    && s1[m].meta.date.month as i32 == x;
                if m < k {
                    assert(s0[m] == s1[m]);
                }
            }
        }
        k = k + 1;
    }
    proof {
        assert(sel.take(k as int) =~= sel);
        lemma_ordered_keys(ms@, descending(), month_member(sel, year));
        assert forall|j: int| 0 <= j < ms@.len() implies 0 <= #[trigger] ms@[j] < 256 by {
            assert(ms@.contains(ms@[j]));
            assert(month_member(sel, year)(ms@[j]));
            let m = choose|m: int| 0 <= m < sel.len() && #[trigger] sel[m].meta.date.year == year
                && sel[m].meta.date.month as i32 == ms@[j];
        }
    }
    ms
}

// ---------------------------------------------------------------------------
// The keys always exist
// ---------------------------------------------------------------------------

pub open spec fn total_on<T>(lt: spec_fn(T, T) -> bool) -> bool {
    forall|x: T, y: T| x != y ==> #[trigger] lt(x, y) || lt(y, x)
}

/// How many elements at the start of `s` come before `t`.
pub open spec fn count_below<T>(s: Seq<T>, t: T, lt: spec_fn(T, T) -> bool) -> nat
    decreases s.len(),
{
    if s.len() > 0 && lt(s[0], t) {
        1 + count_below(s.drop_first(), t, lt)
    } else {
        0
    }
}

proof fn lemma_count_below<T>(s: Seq<T>, t: T, lt: spec_fn(T, T) -> bool)
    ensures
        count_below(s, t, lt) <= s.len(),
        forall|i: int| 0 <= i < count_below(s, t, lt) ==> #[trigger] lt(s[i], t),
        count_below(s, t, lt) < s.len() ==> !lt(s[count_below(s, t, lt) as int], t),
    decreases s.len(),
{
    if s.len() > 0 && lt(s[0], t) {
        lemma_count_below(s.drop_first(), t, lt);
        assert forall|i: int| 0 <= i < count_below(s, t, lt) implies #[trigger] lt(s[i], t) by {
            if i > 0 {
                assert(s[i] == s.drop_first()[i - 1]);
            }
        }
    }
}

/// `t` put into its place in the sorted `s`, unless it is there already.
pub open spec fn insert_sorted<T>(s: Seq<T>, t: T, lt: spec_fn(T, T) -> bool) -> Seq<T> {
    if s.contains(t) {
        s
    } else {
        s.insert(count_below(s, t, lt) as int, t)
    }
}

proof fn lemma_insert_sorted<T>(s: Seq<T>, t: T, lt: spec_fn(T, T) -> bool)
    requires
        strict_order(lt),
        total_on(lt),
        strictly_sorted(s, lt),
    ensures
        strictly_sorted(insert_sorted(s, t, lt), lt),
        forall|x: T| #[trigger] insert_sorted(s, t, lt).contains(x) <==> (s.contains(x) || x == t),
{
    if !s.contains(t) {
        let q = count_below(s, t, lt) as int;
        lemma_count_below(s, t, lt);
        let nv = s.insert(q, t);
        if q < s.len() {
            assert(s[q] != t);
            assert(lt(t, s[q]));
        }
        assert forall|i: int, j: int| 0 <= i < j < nv.len() implies #[trigger] lt(nv[i], nv[j]) by {
            if j < q {
                assert(lt(s[i], s[j]));
            } else if j == q {
                assert(lt(s[i], t));
            } else if i == q {
                if j - 1 > q {
                    assert(lt(s[q], s[j - 1]));
                }
            } else if i < q {
                assert(lt(s[i], s[j - 1]));
            } else {
                assert(lt(s[i - 1], s[j - 1]));
            }
        }
        assert forall|x: T| #[trigger] nv.contains(x) <==> (s.contains(x) || x == t) by {
            if nv.contains(x) {
                let k = choose|k: int| 0 <= k < nv.len() && nv[k] == x;
                if k < q {
                    assert(s[k] == x);
                } else if k > q {
                    assert(s[k - 1] == x);
                }
            }
            if s.contains(x) {
                let k = choose|k: int| 0 <= k < s.len() && s[k] == x;
                if k < q {
                    assert(nv[k] == x);
                } else {
                    assert(nv[k + 1] == x);
                }
            }
            if x == t {
                assert(nv[q] == x);
            }
        }
    }
}

/// The elements of `keys`, each once, in order, always exist.
proof fn lemma_keys_listable<T>(keys: Seq<T>, lt: spec_fn(T, T) -> bool) -> (s: Seq<T>)
    requires
        strict_order(lt),
        total_on(lt),
    ensures
        strictly_sorted(s, lt),
        forall|x: T| #[trigger] s.contains(x) <==> keys.contains(x),
    decreases keys.len(),
{
    if keys.len() == 0 {
        Seq::<T>::empty()
    } else {
        let rest = keys.drop_last();
        let t = keys.last();
        let s0 = lemma_keys_listable(rest, lt);
        lemma_insert_sorted(s0, t, lt);
        let s1 = insert_sorted(s0, t, lt);
        assert forall|x: T| #[trigger] s1.contains(x) <==> keys.contains(x) by {
            if keys.contains(x) {
                let k = choose|k: int| 0 <= k < keys.len() && keys[k] == x;
                if k < keys.len() - 1 {
                    assert(rest[k] == x);
                }
            }
            if rest.contains(x) {
                let k = choose|k: int| 0 <= k < rest.len() && rest[k] == x;
                assert(keys[k] == x);
            }
            if x == t {
                assert(keys[keys.len() - 1] == x);
            }
        }
        s1
    }
}

/// Keys that a sequence holds have an ordered listing.
proof fn lemma_ordered_keys_exist<T>(keys: Seq<T>, lt: spec_fn(T, T) -> bool, member: spec_fn(T) -> bool)
    requires
        strict_order(lt),
        total_on(lt),
        forall|x: T| #[trigger] member(x) <==> keys.contains(x),
    ensures
        lists_exactly(ordered_keys(lt, member), lt, member),
{
    let s = lemma_keys_listable(keys, lt);
    assert(lists_exactly(s, lt, member));
}

/// Every tag of a post, one after another.
pub open spec fn all_tags(ps: Seq<PostSpec>) -> Seq<Seq<char>>
    decreases ps.len(),
{
    if ps.len() == 0 {
        seq![]
    } else {
        all_tags(ps.drop_last()) + ps.last().meta.tags
    }
}

proof fn lemma_all_tags(ps: Seq<PostSpec>)
    ensures
        forall|t: Seq<char>| #[trigger] all_tags(ps).contains(t) <==> tag_member(ps)(t),
    decreases ps.len(),
{
    if ps.len() > 0 {
        let rest = ps.drop_last();
        lemma_all_tags(rest);
        let a = all_tags(rest);
        let last = ps.last().meta.tags;
        assert forall|t: Seq<char>| #[trigger] all_tags(ps).contains(t) <==> tag_member(ps)(t) by {
            let whole = all_tags(ps);
            assert(whole == a + last);
            if whole.contains(t) {
                let k = choose|k: int| 0 <= k < whole.len() && whole[k] == t;
                if k < a.len() {
                    assert(a[k] == t);
                    assert(a.contains(t));
                    let m = choose|m: int| 0 <= m < rest.len() && #[trigger] rest[m].meta.tags.contains(t);
                    assert(ps[m] == rest[m]);
                } else {
                    assert(last[k - a.len()] == t);
                    assert(ps[ps.len() - 1].meta.tags.contains(t));
                }
            }
            if tag_member(ps)(t) {
                let m = choose|m: int| 0 <= m < ps.len() && #[trigger] ps[m].meta.tags.contains(t);
                if m < ps.len() - 1 {
                    assert(rest[m] == ps[m]);
                    assert(tag_member(rest)(t));
                    assert(a.contains(t));
                    let k = choose|k: int| 0 <= k < a.len() && a[k] == t;
                    assert(whole[k] == t);
                } else {
                    let k = choose|k: int| 0 <= k < last.len() && last[k] == t;
                    assert(whole[a.len() + k] == t);
                }
            }
        }
    }
}

/// The tags in use are listed exactly: each tag that some post carries, and
/// no other, once, in lexicographic order.
pub proof fn tags_in_use_are_listed_once_in_order(ps: Seq<PostSpec>)
    ensures
        lists_exactly(tags_in_use(ps), text_order(), tag_member(ps)),
{
    lemma_text_order_strict();
    assert forall|x: Seq<char>, y: Seq<char>| x != y implies #[trigger] text_order()(x, y) || text_order()(y, x) by {
        lemma_text_lt_total(x, y);
    }
    lemma_all_tags(ps);
    lemma_ordered_keys_exist(all_tags(ps), text_order(), tag_member(ps));
}

/// The years with posts are listed exactly: each year of some post, and no
/// other, once, newest first.
pub proof fn years_in_use_are_listed_once_newest_first(ps: Seq<PostSpec>)
    ensures
        lists_exactly(years_in_use(ps), descending(), year_member(ps)),
{
    let keys = ps.map_values(|p: PostSpec| p.meta.date.year);
    assert forall|y: i32| #[trigger] year_member(ps)(y) <==> keys.contains(y) by {
        if year_member(ps)(y) {
            let m = choose|m: int| 0 <= m < ps.len() && #[trigger] ps[m].meta.date.year == y;
            assert(keys[m] == y);
        }
        if keys.contains(y) {
            let k = choose|k: int| 0 <= k < keys.len() && keys[k] == y;
            assert(ps[k].meta.date.year == y);
        }
    }
    lemma_ordered_keys_exist(keys, descending(), year_member(ps));
}

/// The months of a year with posts are listed exactly: each month of `year`
/// in which some post falls, and no other, once, latest first.
pub proof fn months_in_use_are_listed_once_latest_first(ps: Seq<PostSpec>, year: i32)
    ensures
        lists_exactly(months_in_use(ps, year), descending(), month_member(ps, year)),
{
    let keys = ps.filter(in_year(year)).map_values(|p: PostSpec| p.meta.date.month as i32);
    assert forall|m: i32| #[trigger] month_member(ps, year)(m) <==> keys.contains(m) by {
        let f = ps.filter(in_year(year));
        if month_member(ps, year)(m) {
            let i = choose|i: int| 0 <= i < ps.len() && #[trigger] ps[i].meta.date.year == year
                && ps[i].meta.date.month as i32 == m;
            assert(in_year(year)(ps[i]));
            ps.lemma_filter_contains(in_year(year), i);
            let k = choose|k: int| 0 <= k < f.len() && f[k] == ps[i];
            assert(keys[k] == m);
        }
        if keys.contains(m) {
            let k = choose|k: int| 0 <= k < keys.len() && keys[k] == m;
            ps.lemma_filter_pred(in_year(year), k);
            assert(f.contains(f[k]));
            ps.lemma_filter_contains_rev(in_year(year), f[k]);
            let i = choose|i: int| 0 <= i < ps.len() && ps[i] == f[k];
            assert(ps[i].meta.date.year == year);
        }
    }
    lemma_ordered_keys_exist(keys, descending(), month_member(ps, year));
}

} // verus!
