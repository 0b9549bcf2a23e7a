//! Creating a post: slugs and the skeleton of a new post.

use vstd::prelude::*;
use crate::content::{
    date_of, date_text, date_text_spec, first_content, has_duplicate, lang_ok, lookup, meta_fields,
    meta_slug_ok, metadata_spec, tag_list, valid_date, zero_padded,
    clean_text, is_meta_key, Date, MetaSpec,
};
use crate::error::{Error, SpecError};
use crate::text::{
    chars_of, debug_quoted, debug_str, is_ascii_alnum, is_ascii_alnum_exec, is_ascii_digit,
    is_ascii_digit_exec, is_ascii_lower, is_ascii_lower_exec, is_ascii_ws, is_ascii_ws_exec,
    is_blank, is_blank_exec, lead_count, string_of, to_ascii_lower, to_ascii_lower_exec,
    trail_count, trim, trim_char, trim_char_bounds, trim_start_char, is_ws, lines,
    decimal_text,
};

verus! {

/// A valid slug: nonempty lowercase ASCII letters, digits and `-`, with no
/// `-` at either end and no two `-` in a row.
pub open spec fn valid_slug(v: Seq<char>) -> bool {
    &&& v.len() > 0
    &&& v[0] != '-'
    &&& v.last() != '-'
    &&& forall|i: int| 0 <= i < v.len() - 1 ==> !(#[trigger] v[i] == '-' && v[i + 1] == '-')
    &&& forall|i: int| 0 <= i < v.len() ==> slug_char(#[trigger] v[i])
}

pub open spec fn slug_char(c: char) -> bool {
    is_ascii_lower(c) || is_ascii_digit(c) || c == '-'
}

pub open spec fn invalid_slug_message(value: Seq<char>) -> Seq<char> {
    debug_str(value) + "; expected lowercase ASCII letters, digits, and single-purpose '-' separators"@
}

/// Accepts `value` as a slug when it is valid.
pub fn validate_slug(value: &str) -> (r: Result<String, Error>)
    ensures
        valid_slug(value@) ==> (r matches Ok(v) && v@ == value@),
        !valid_slug(value@) ==> (r matches Err(e) && e@ == SpecError::InvalidSlug(
            invalid_slug_message(value@),
        )),
{
    let v = chars_of(value);
    let n = v.len();
    let mut ok = n > 0 && v[0] != '-' && v[n - 1] != '-';
    let mut i: usize = 0;
    while ok && i < n
        invariant
            i <= n,
            n == v@.len(),
            ok ==> n > 0 && v@[0] != '-' && v@.last() != '-',
            ok ==> forall|k: int| 0 <= k < i ==> slug_char(#[trigger] v@[k]),
            ok ==> forall|k: int| 0 <= k < i && k < n - 1 ==> !(#[trigger] v@[k] == '-' && v@[k + 1] == '-'),
            !ok ==> !valid_slug(v@),
        decreases n - i,
    {
        let c = v[i];
        if !(is_ascii_lower_exec(c) || is_ascii_digit_exec(c) || c == '-') {
            assert(!slug_char(v@[i as int]));
            ok = false;
        } else if i + 1 < n && c == '-' && v[i + 1] == '-' {
            assert(v@[i as int] == '-' && v@[i + 1] == '-');
            ok = false;
        }
        i = i + 1;
    }
    if ok {
        Ok(string_of(v.as_slice()))
    } else {
        let mut m = debug_quoted(value);
        m.append("; expected lowercase ASCII letters, digits, and single-purpose '-' separators");
        Err(Error::InvalidSlug(m))
    }
}

/// One character of the title folded into the slug being derived (and
/// whether it ends with a separator): ASCII letters and digits are kept in
/// lower case; a space, `-` or `_` becomes one `-` after a kept character.
pub open spec fn slug_step(state: (Seq<char>, bool), ch: char) -> (Seq<char>, bool) {
    let (slug, previous_dash) = state;
    if is_ascii_alnum(ch) {
        (slug.push(to_ascii_lower(ch)), false)
    } else if (is_ascii_ws(ch) || ch == '-' || ch == '_') && slug.len() > 0 && !previous_dash {
        (slug.push('-'), true)
    } else {
        (slug, previous_dash)
    }
}

pub open spec fn slug_state(title: Seq<char>) -> (Seq<char>, bool)
    decreases title.len(),
{
    if title.len() == 0 {
        (seq![], false)
    } else {
        slug_step(slug_state(title.drop_last()), title.last())
    }
}

/// The slug derived from a title, before validation.
pub open spec fn derived_slug(title: Seq<char>) -> Seq<char> {
    trim_char(slug_state(title).0, '-')
}

/// What the slug being derived looks like at every step.
pub open spec fn slug_state_ok(state: (Seq<char>, bool)) -> bool {
    let (s, p) = state;
    &&& p == (s.len() > 0 && s.last() == '-')
    &&& s.len() > 0 ==> s[0] != '-'
    &&& forall|i: int| 0 <= i < s.len() - 1 ==> !(#[trigger] s[i] == '-' && s[i + 1] == '-')
    &&& forall|i: int| 0 <= i < s.len() ==> slug_char(#[trigger] s[i])
}

pub proof fn lemma_slug_state_ok(title: Seq<char>)
    ensures
        slug_state_ok(slug_state(title)),
    decreases title.len(),
{
    if title.len() > 0 {
        lemma_slug_state_ok(title.drop_last());
        let (s, p) = slug_state(title.drop_last());
        let ch = title.last();
        let (s2, p2) = slug_state(title);
        if is_ascii_alnum(ch) {
            assert(s2 == s.push(to_ascii_lower(ch)));
            assert(slug_char(to_ascii_lower(ch)));
            assert forall|i: int| 0 <= i < s2.len() implies slug_char(#[trigger] s2[i]) by {
                if i < s.len() {
                    assert(s2[i] == s[i]);
                }
            }
            assert forall|i: int| 0 <= i < s2.len() - 1 implies !(#[trigger] s2[i] == '-' && s2[i + 1] == '-') by {
                if i < s.len() - 1 {
                    assert(s2[i] == s[i] && s2[i + 1] == s[i + 1]);
                }
            }
        } else if (is_ascii_ws(ch) || ch == '-' || ch == '_') && s.len() > 0 && !p {
            assert(s2 == s.push('-'));
            assert forall|i: int| 0 <= i < s2.len() implies slug_char(#[trigger] s2[i]) by {
                if i < s.len() {
                    assert(s2[i] == s[i]);
                }
            }
            assert forall|i: int| 0 <= i < s2.len() - 1 implies !(#[trigger] s2[i] == '-' && s2[i + 1] == '-') by {
                if i < s.len() - 1 {
                    assert(s2[i] == s[i] && s2[i + 1] == s[i + 1]);
                } else {
                    assert(s2[i] == s.last());
                }
            }
        }
    }
}

/// A derived slug, where it is not empty, is a valid slug.
pub proof fn lemma_derived_slug_valid(title: Seq<char>)
    ensures
        derived_slug(title).len() > 0 ==> valid_slug(derived_slug(title)),
{
    lemma_slug_state_ok(title);
    let (s, p) = slug_state(title);
    let t = derived_slug(title);
    assert(lead_count(s, '-') == 0);
    assert(trim_start_char(s, '-') =~= s);
    if s.len() > 0 && s.last() == '-' {
        let d = s.drop_last();
        if d.len() > 0 {
            assert(d.last() == s[s.len() - 2]);
            assert(d.last() != '-');
        }
        assert(trail_count(d, '-') == 0);
        assert(trail_count(s, '-') == 1);
        assert(t =~= d);
    } else {
        assert(trail_count(s, '-') == 0);
        assert(t =~= s);
    }
    if t.len() > 0 {
        assert(t[0] == s[0]);
        assert forall|i: int| 0 <= i < t.len() implies slug_char(#[trigger] t[i]) by {
            assert(t[i] == s[i]);
        }
        assert forall|i: int| 0 <= i < t.len() - 1 implies !(#[trigger] t[i] == '-' && t[i + 1] == '-') by {
            assert(t[i] == s[i] && t[i + 1] == s[i + 1]);
        }
    }
}

/// The ASCII letters and digits of `t`, lowercased, in order.
pub open spec fn kept_alnum(t: Seq<char>) -> Seq<char>
    decreases t.len(),
{
    if t.len() == 0 {
        seq![]
    } else if is_ascii_alnum(t.last()) {
        kept_alnum(t.drop_last()).push(to_ascii_lower(t.last()))
    } else {
        kept_alnum(t.drop_last())
    }
}

/// `s` without its `-`.
pub open spec fn without_dashes(s: Seq<char>) -> Seq<char>
    decreases s.len(),
{
    if s.len() == 0 {
        seq![]
    } else if s.last() == '-' {
        without_dashes(s.drop_last())
    } else {
        without_dashes(s.drop_last()).push(s.last())
    }
}

proof fn lemma_state_keeps_alnum(t: Seq<char>)
    ensures
        without_dashes(slug_state(t).0) == kept_alnum(t),
    decreases t.len(),
{
    if t.len() > 0 {
        lemma_state_keeps_alnum(t.drop_last());
        let s = slug_state(t.drop_last()).0;
        let ch = t.last();
        if is_ascii_alnum(ch) {
            assert(to_ascii_lower(ch) != '-');
            assert(s.push(to_ascii_lower(ch)).drop_last() =~= s);
        } else if slug_state(t).0 != s {
            assert(s.push('-').drop_last() =~= s);
        }
    }
}

proof fn lemma_without_dashes_empty(s: Seq<char>)
    ensures
        without_dashes(s).len() == 0 <==> forall|i: int| 0 <= i < s.len() ==> #[trigger] s[i] == '-',
    decreases s.len(),
{
    if s.len() > 0 {
        let x = s.drop_last();
        lemma_without_dashes_empty(x);
        if s.last() == '-' {
            if forall|i: int| 0 <= i < x.len() ==> #[trigger] x[i] == '-' {
                assert forall|i: int| 0 <= i < s.len() implies #[trigger] s[i] == '-' by {
                    if i < x.len() {
                        assert(x[i] == s[i]);
                    }
                }
            }
            if forall|i: int| 0 <= i < s.len() ==> #[trigger] s[i] == '-' {
                assert forall|i: int| 0 <= i < x.len() implies #[trigger] x[i] == '-' by {
                    assert(s[i] == '-');
                }
            }
        } else {
            assert(s[s.len() - 1] != '-');
        }
    }
}

/// A valid slug folds to itself.
proof fn lemma_valid_slug_folds_to_itself(s: Seq<char>)
    requires
        valid_slug(s),
    ensures
        derived_slug(s) == s,
{
    assert forall|k: int| 0 <= k <= s.len() implies #[trigger] slug_state(s.take(k))
        == (s.take(k), k > 0 && s[k - 1] == '-') by {
        lemma_fold_prefix(s, k);
    }
    assert(s.take(s.len() as int) =~= s);
    let st = slug_state(s);
    assert(st == (s, s.len() > 0 && s[s.len() - 1] == '-'));
    assert(lead_count(s, '-') == 0);
    assert(s.skip(0) =~= s);
    assert(trail_count(s, '-') == 0);
    assert(trim_char(s, '-') =~= s);
}

proof fn lemma_fold_prefix(s: Seq<char>, k: int)
    requires
        valid_slug(s),
        0 <= k <= s.len(),
    ensures
        slug_state(s.take(k)) == (s.take(k), k > 0 && s[k - 1] == '-'),
    decreases k,
{
    if k > 0 {
        lemma_fold_prefix(s, k - 1);
        assert(s.take(k).drop_last() =~= s.take(k - 1));
        let ch = s[k - 1];
        assert(slug_char(ch));
        if is_ascii_alnum(ch) {
            assert(to_ascii_lower(ch) == ch);
            assert(s.take(k - 1).push(ch) =~= s.take(k));
        } else {
            assert(ch == '-');
            assert(k - 1 > 0);
            assert(!(s[k - 2] == '-' && s[k - 1] == '-'));
            assert(s.take(k - 1).push(ch) =~= s.take(k));
        }
    }
}

/// What deriving a slug keeps of a title: the slug, without its `-`, is
/// the title's ASCII letters and digits lowercased, in order; there is a
/// slug exactly when the title has one of them; and a derived slug is a
/// valid slug that derives to itself.
pub proof fn derived_slugs_keep_the_title_letters(t: Seq<char>)
    ensures
        without_dashes(derived_slug(t)) == kept_alnum(t),
        derived_slug(t).len() > 0 <==> kept_alnum(t).len() > 0,
        derived_slug(t).len() > 0 ==> valid_slug(derived_slug(t)) && derived_slug(derived_slug(t)) == derived_slug(t),
{
    lemma_slug_state_ok(t);
    lemma_state_keeps_alnum(t);
    lemma_derived_slug_valid(t);
    let (s, p) = slug_state(t);
    let d = derived_slug(t);
    assert(lead_count(s, '-') == 0);
    assert(s.skip(0) =~= s);
    if s.len() > 0 && s.last() == '-' {
        let x = s.drop_last();
        if x.len() > 0 {
            assert(x.last() == s[s.len() - 2]);
        }
        assert(trail_count(x, '-') == 0);
        assert(d =~= x);
        assert(without_dashes(s) == without_dashes(x));
    } else {
        assert(trail_count(s, '-') == 0);
        assert(d =~= s);
    }
    lemma_without_dashes_empty(d);
    if d.len() > 0 {
        assert(d[0] != '-');
        lemma_valid_slug_folds_to_itself(d);
    }
}

/// A space, `-` or `_`: what separates the words of a slug.
pub open spec fn is_separator(c: char) -> bool {
    is_ascii_ws(c) || c == '-' || c == '_'
}

/// Two slugs joined by `-`, or whichever is not empty.
pub open spec fn join_words(x: Seq<char>, y: Seq<char>) -> Seq<char> {
    if x.len() == 0 {
        y
    } else if y.len() == 0 {
        x
    } else {
        x + seq!['-'] + y
    }
}

/// `t` folded into the slug being derived, from the state `st`.
pub open spec fn fold_slug(st: (Seq<char>, bool), t: Seq<char>) -> (Seq<char>, bool)
    decreases t.len(),
{
    if t.len() == 0 {
        st
    } else {
        slug_step(fold_slug(st, t.drop_last()), t.last())
    }
}

proof fn lemma_fold_from_start(t: Seq<char>)
    ensures
        fold_slug((seq![], false), t) == slug_state(t),
    decreases t.len(),
{
    if t.len() > 0 {
        lemma_fold_from_start(t.drop_last());
    }
}

proof fn lemma_fold_concat(st: (Seq<char>, bool), a: Seq<char>, b: Seq<char>)
    ensures
        fold_slug(st, a + b) == fold_slug(fold_slug(st, a), b),
    decreases b.len(),
{
    if b.len() == 0 {
        assert(a + b =~= a);
    } else {
        lemma_fold_concat(st, a, b.drop_last());
        assert((a + b).drop_last() =~= a + b.drop_last());
        assert((a + b).last() == b.last());
    }
}

/// Folding after a slug that ends in `-` appends what folding alone gives.
proof fn lemma_fold_after_dash(y: Seq<char>, b: Seq<char>)
    requires
        y.len() > 0,
        y.last() == '-',
    ensures
        fold_slug((y, true), b) == (y + slug_state(b).0, if slug_state(b).0.len() == 0 {
            true
        } else {
            slug_state(b).1
        }),
    decreases b.len(),
{
    if b.len() > 0 {
        lemma_fold_after_dash(y, b.drop_last());
        let f = slug_state(b.drop_last());
        let ch = b.last();
        if is_ascii_alnum(ch) {
            assert((y + f.0).push(to_ascii_lower(ch)) =~= y + f.0.push(to_ascii_lower(ch)));
        } else if is_separator(ch) && f.0.len() > 0 && !f.1 {
            assert((y + f.0).push('-') =~= y + f.0.push('-'));
        }
    }
}

/// Trimming `-` off a text that does not start with one and does not end
/// with two.
proof fn lemma_trim_one_dash(x: Seq<char>)
    requires
        x.len() == 0 || x[0] != '-',
        x.len() < 2 || !(x[x.len() - 2] == '-' && x[x.len() - 1] == '-'),
    ensures
        trim_char(x, '-') == (if x.len() > 0 && x.last() == '-' { x.drop_last() } else { x }),
{
    assert(lead_count(x, '-') == 0);
    assert(x.skip(0) =~= x);
    if x.len() > 0 && x.last() == '-' {
        let d = x.drop_last();
        if d.len() > 0 {
            assert(d.last() == x[x.len() - 2]);
        }
        assert(trail_count(d, '-') == 0);
        assert(trim_char(x, '-') =~= d);
    } else {
        assert(trail_count(x, '-') == 0);
        assert(trim_char(x, '-') =~= x);
    }
}

proof fn lemma_no_separator_state(t: Seq<char>)
    requires
        forall|i: int| 0 <= i < t.len() ==> !is_separator(#[trigger] t[i]),
    ensures
        slug_state(t) == (kept_alnum(t), false),
    decreases t.len(),
{
    if t.len() > 0 {
        assert forall|i: int| 0 <= i < t.len() - 1 implies !is_separator(#[trigger] t.drop_last()[i]) by {
            assert(t.drop_last()[i] == t[i]);
        }
        lemma_no_separator_state(t.drop_last());
        assert(!is_separator(t[t.len() - 1]));
    }
}

proof fn lemma_kept_no_dash(t: Seq<char>)
    ensures
        !kept_alnum(t).contains('-'),
    decreases t.len(),
{
    if t.len() > 0 {
        lemma_kept_no_dash(t.drop_last());
        let k = kept_alnum(t.drop_last());
        if kept_alnum(t).contains('-') {
            let i = choose|i: int| 0 <= i < kept_alnum(t).len() && kept_alnum(t)[i] == '-';
            if i < k.len() {
                assert(kept_alnum(t)[i] == k[i]);
            }
        }
    }
}

/// Where slugs put their `-`: a title without a space, `-` or `_` gives
/// its letters and digits with no `-`; and a title made of two parts around
/// a space, `-` or `_` gives the slugs of the two parts joined by one `-`
/// (or the one that is not empty).
pub proof fn slugs_join_words_at_separators(a: Seq<char>, c: char, b: Seq<char>)
    ensures
        (forall|i: int| 0 <= i < a.len() ==> !is_separator(#[trigger] a[i])) ==> derived_slug(a) == kept_alnum(a),
        is_separator(c) ==> derived_slug(a + seq![c] + b) == join_words(derived_slug(a), derived_slug(b)),
{
    if forall|i: int| 0 <= i < a.len() ==> !is_separator(#[trigger] a[i]) {
        lemma_no_separator_state(a);
        lemma_kept_no_dash(a);
        let k = kept_alnum(a);
        if k.len() > 0 {
            assert(k.contains(k[0]));
            assert(k.contains(k[k.len() - 1]));
        }
        lemma_trim_one_dash(k);
    }
    if is_separator(c) {
        lemma_slug_state_ok(a);
        lemma_slug_state_ok(b);
        let (sa, pa) = slug_state(a);
        let f = slug_state(b);
        lemma_fold_from_start(a + seq![c] + b);
        lemma_fold_concat((seq![], false), a + seq![c], b);
        lemma_fold_concat((seq![], false), a, seq![c]);
        lemma_fold_from_start(a);
        lemma_fold_from_start(b);
        assert(seq![c].drop_last() =~= Seq::<char>::empty());
        assert(seq![c].last() == c);
        assert(fold_slug(slug_state(a), Seq::<char>::empty()) == slug_state(a));
        assert(fold_slug(slug_state(a), seq![c]) == slug_step(slug_state(a), c));
        assert(pa == (sa.len() > 0 && sa.last() == '-'));
        lemma_trim_one_dash(sa);
        lemma_trim_one_dash(f.0);
        let da = derived_slug(a);
        let db = derived_slug(b);
        if sa.len() == 0 {
            assert(slug_step(slug_state(a), c) == (sa, pa));
            assert(sa =~= Seq::<char>::empty());
            assert(slug_state(a) == (Seq::<char>::empty(), false));
            assert(fold_slug((seq![], false), a + seq![c]) == (Seq::<char>::empty(), false));
            assert(slug_state(a + seq![c] + b) == fold_slug((seq![], false), b));
            assert(derived_slug(a + seq![c] + b) == db);
        } else {
            let y = if pa { sa } else { sa.push('-') };
            assert(slug_step(slug_state(a), c) == (y, true));
            assert(da.len() > 0) by {
                assert(sa[0] != '-');
                if pa {
                    assert(sa.len() > 1);
                }
            }
            assert(y =~= da + seq!['-']);
            lemma_fold_after_dash(y, b);
            let whole = y + f.0;
            assert(slug_state(a + seq![c] + b).0 == whole);
            assert(da.last() != '-') by {
                if pa {
                    assert(da.last() == sa[sa.len() - 2]);
                } else {
                    assert(da.last() == sa.last());
                }
            }
            if f.0.len() == 0 {
                assert(whole =~= da + seq!['-']);
                lemma_trim_one_dash(whole);
                assert(whole.drop_last() =~= da);
            } else {
                assert(f.0[0] != '-');
                assert(whole =~= da + seq!['-'] + f.0);
                assert(whole[0] == da[0]);
                if whole.len() >= 2 {
                    if f.0.len() >= 2 {
                        assert(whole[whole.len() - 2] == f.0[f.0.len() - 2]);
                    } else {
                        assert(whole[whole.len() - 2] == '-');
                        assert(whole[whole.len() - 1] == f.0[0]);
                    }
                }
                lemma_trim_one_dash(whole);
                if f.0.last() == '-' {
                    assert(whole.drop_last() =~= da + seq!['-'] + f.0.drop_last());
                }
            }
        }
    }
}

/// Folding does not look at what the slug holds beyond its being non-empty.
proof fn lemma_fold_keeps_prefix(x: Seq<char>, y: Seq<char>, p: bool, b: Seq<char>)
    requires
        y.len() > 0,
    ensures
        fold_slug((x + y, p), b) == (x + fold_slug((y, p), b).0, fold_slug((y, p), b).1),
    decreases b.len(),
{
    if b.len() > 0 {
        lemma_fold_keeps_prefix(x, y, p, b.drop_last());
        let f = fold_slug((y, p), b.drop_last());
        lemma_fold_nonempty(y, p, b.drop_last());
        let ch = b.last();
        assert((x + f.0).push(to_ascii_lower(ch)) =~= x + f.0.push(to_ascii_lower(ch)));
        assert((x + f.0).push('-') =~= x + f.0.push('-'));
    }
}

proof fn lemma_fold_nonempty(y: Seq<char>, p: bool, b: Seq<char>)
    requires
        y.len() > 0,
    ensures
        fold_slug((y, p), b).0.len() > 0,
    decreases b.len(),
{
    if b.len() > 0 {
        lemma_fold_nonempty(y, p, b.drop_last());
    }
}

/// Folding characters that are neither letters nor digits after a letter
/// adds one `-` where one of them is a space, `-` or `_`, and nothing
/// otherwise.
proof fn lemma_fold_gap(x: Seq<char>, m: Seq<char>)
    requires
        x.len() > 0,
        forall|i: int| 0 <= i < m.len() ==> !is_ascii_alnum(#[trigger] m[i]),
    ensures
        fold_slug((x, false), m) == (if exists|i: int| 0 <= i < m.len() && #[trigger] is_separator(m[i]) {
            (x.push('-'), true)
        } else {
            (x, false)
        }),
    decreases m.len(),
{
    if m.len() > 0 {
        let m0 = m.drop_last();
        assert forall|i: int| 0 <= i < m0.len() implies !is_ascii_alnum(#[trigger] m0[i]) by {
            assert(m0[i] == m[i]);
        }
        lemma_fold_gap(x, m0);
        let ch = m.last();
        assert(!is_ascii_alnum(m[m.len() - 1]));
        if exists|i: int| 0 <= i < m0.len() && #[trigger] is_separator(m0[i]) {
            let i = choose|i: int| 0 <= i < m0.len() && #[trigger] is_separator(m0[i]);
            assert(m[i] == m0[i]);
        } else if is_separator(ch) {
            assert(is_separator(m[m.len() - 1]));
        } else {
            assert forall|i: int| 0 <= i < m.len() implies !#[trigger] is_separator(m[i]) by {
                if i < m0.len() {
                    assert(m[i] == m0[i]);
                }
            }
        }
    }
}

/// Between two letters or digits of a title that nothing but other
/// characters separates, the slug has a `-` exactly when a space, `-` or
/// `_` lies between them: the slug of `a + m + b`, where `a` ends and `b`
/// starts with a letter or digit and `m` has none, is the slug of `a`, a
/// `-` if `m` holds a separator, and the slug of `b`.
pub proof fn slugs_dash_between_letters_iff_separated(a: Seq<char>, m: Seq<char>, b: Seq<char>)
    requires
        a.len() > 0,
        is_ascii_alnum(a.last()),
        b.len() > 0,
        is_ascii_alnum(b[0]),
        forall|i: int| 0 <= i < m.len() ==> !is_ascii_alnum(#[trigger] m[i]),
    ensures
        derived_slug(a + m + b) == derived_slug(a) + (if exists|i: int| 0 <= i < m.len() && #[trigger] is_separator(m[i]) {
            seq!['-']
        } else {
            Seq::<char>::empty()
        }) + derived_slug(b),
{
    lemma_slug_state_ok(a);
    lemma_slug_state_ok(b);
    let (sa, pa) = slug_state(a);
    let sep = exists|i: int| 0 <= i < m.len() && #[trigger] is_separator(m[i]);
    // The slug of `a` ends with a letter or digit.
    assert(slug_state(a) == slug_step(slug_state(a.drop_last()), a.last()));
    let la = to_ascii_lower(a.last());
    assert(sa == slug_state(a.drop_last()).0.push(la) && !pa);
    assert(la != '-');
    lemma_fold_from_start(a);
    lemma_fold_from_start(b);
    lemma_fold_from_start(a + m + b);
    lemma_fold_concat((seq![], false), a + m, b);
    lemma_fold_concat((seq![], false), a, m);
    lemma_fold_gap(sa, m);
    // The slug of `b` starts with its first letter.
    let b0 = seq![b[0]];
    let rest = b.skip(1);
    assert(b =~= b0 + rest);
    lemma_fold_concat((seq![], false), b0, rest);
    let lb = to_ascii_lower(b[0]);
    assert(b0.drop_last() =~= Seq::<char>::empty());
    assert(b0.last() == b[0]);
    assert(fold_slug((seq![], false), Seq::<char>::empty()) == (Seq::<char>::empty(), false));
    assert(fold_slug((seq![], false), b0) == (seq![lb], false)) by {
        assert(Seq::<char>::empty().push(lb) =~= seq![lb]);
    }
    let f = slug_state(b);
    assert(f == fold_slug((seq![lb], false), rest));
    let y = if sep { sa.push('-') } else { sa };
    assert(fold_slug((y, sep), b0) == (y.push(lb), false)) by {
        assert(fold_slug((y, sep), Seq::<char>::empty()) == (y, sep));
    }
    assert(y.push(lb) =~= y + seq![lb]);
    lemma_fold_keeps_prefix(y, seq![lb], false, rest);
    lemma_fold_concat((y, sep), b0, rest);
    assert(fold_slug((seq![], false), a + m) == (y, sep));
    assert(fold_slug((y, sep), b) == (y + f.0, f.1));
    let whole = slug_state(a + m + b).0;
    assert(whole == y + f.0);
    lemma_trim_one_dash(sa);
    lemma_trim_one_dash(f.0);
    assert(derived_slug(a) == sa);
    assert(f.0.len() > 0 && f.0[0] == lb) by {
        lemma_fold_nonempty(seq![lb], false, rest);
        lemma_fold_keeps_prefix(Seq::<char>::empty(), seq![lb], false, rest);
        lemma_fold_first(lb, rest);
    }
    assert(lb != '-');
    assert(whole[0] == sa[0]);
    if whole.len() >= 2 {
        if f.0.len() >= 2 {
            assert(whole[whole.len() - 2] == f.0[f.0.len() - 2]);
        } else {
            assert(whole[whole.len() - 1] == lb);
        }
    }
    lemma_trim_one_dash(whole);
    if f.0.last() == '-' {
        assert(whole.drop_last() =~= y + f.0.drop_last());
    }
    let mid = if sep { seq!['-'] } else { Seq::<char>::empty() };
    assert(y =~= sa + mid);
}

proof fn lemma_fold_first(c: char, rest: Seq<char>)
    ensures
        fold_slug((seq![c], false), rest).0[0] == c,
        fold_slug((seq![c], false), rest).0.len() > 0,
    decreases rest.len(),
{
    lemma_fold_nonempty(seq![c], false, rest);
    if rest.len() > 0 {
        lemma_fold_first(c, rest.drop_last());
    }
}

pub open spec fn underivable_message() -> Seq<char> {
    "could not derive an ASCII slug; pass --slug explicitly"@
}

/// Derives a slug from a post title. It succeeds exactly when the title
/// has an ASCII letter or digit, and then returns a valid slug.
pub fn derive_slug(title: &str) -> (r: Result<String, Error>)
    ensures
        derived_slug(title@).len() > 0 ==> (r matches Ok(v) && v@ == derived_slug(title@)
            && valid_slug(v@)),
        derived_slug(title@).len() == 0 ==> (r matches Err(e) && e@ == SpecError::InvalidSlug(
            underivable_message(),
        )),
{
    let t = chars_of(title);
    let mut slug: Vec<char> = Vec::new();
    let mut previous_dash = false;
    let mut i: usize = 0;
    while i < t.len()
        invariant
            i <= t@.len(),
            t@ == title@,
            (slug@, previous_dash) == slug_state(t@.take(i as int)),
        decreases t@.len() - i,
    {
        let ch = t[i];
        assert(t@.take(i + 1).drop_last() =~= t@.take(i as int));
        if is_ascii_alnum_exec(ch) {
            slug.push(to_ascii_lower_exec(ch));
            previous_dash = false;
        } else if (is_ascii_ws_exec(ch) || ch == '-' || ch == '_') && slug.len() > 0 && !previous_dash {
            slug.push('-');
            previous_dash = true;
        }
        i = i + 1;
    }
    assert(t@.take(i as int) =~= title@);
    let (a, b) = trim_char_bounds(slug.as_slice(), 0, slug.len(), '-');
    assert(slug@.subrange(0, slug@.len() as int) =~= slug@);
    if a == b {
        return Err(Error::InvalidSlug(String::from_str(
            "could not derive an ASCII slug; pass --slug explicitly",
        )));
    }
    let derived = string_of(crate::text::slice_vec(slug.as_slice(), a, b).as_slice());
    proof { lemma_derived_slug_valid(title@); }
    validate_slug(derived.as_str())
}

/// The file of a new post: its directory, its source file and the text
/// the source starts with, for the date `date`.
#[derive(Debug)]
pub struct NewPost {
    pub date: Date,
    pub directory: String,
    pub source: String,
    pub body: String,
}

/// A title is one nonempty line.
pub open spec fn title_ok(title: Seq<char>) -> bool {
    !is_blank(title) && !title.contains('\n') && !title.contains('\r')
}

/// The slug of a new post: the requested one, which must be valid, or the
/// one derived from the title.
pub open spec fn chosen_slug(title: Seq<char>, requested: Option<Seq<char>>) -> Result<Seq<char>, SpecError> {
    match requested {
        Some(v) => if valid_slug(v) {
            Ok(v)
        } else {
            Err(SpecError::InvalidSlug(invalid_slug_message(v)))
        },
        None => if derived_slug(title).len() > 0 {
            Ok(derived_slug(title))
        } else {
            Err(SpecError::InvalidSlug(underivable_message()))
        },
    }
}

/// The text a new post starts with: the title, an `=` underline as long as
/// the title (at least one), and the metadata fields of a draft.
pub open spec fn post_body(title: Seq<char>, date: Seq<char>, slug: Seq<char>) -> Seq<char> {
    title + "\n"@ + underline(title) + "\n\n:date: "@ + date + "\n:slug: "@ + slug
        + "\n:tags:\n:lang: en\n:draft: true\n\n"@
}

/// A title's `=` underline: as long as the title, and at least one.
pub open spec fn underline(title: Seq<char>) -> Seq<char> {
    let n = if title.len() > 0 { title.len() } else { 1 };
    Seq::new(n, |_i: int| '=')
}

/// Where and with what text a post titled `title` is created on `date`.
pub open spec fn new_post_spec(title: Seq<char>, requested: Option<Seq<char>>, date: Date) -> Result<
    (Seq<char>, Seq<char>, Seq<char>),
    SpecError,
> {
    if !title_ok(title) {
        Err(SpecError::InvalidWorkspace("post title must be one nonempty line"@))
    } else {
        match chosen_slug(title, requested) {
            Err(e) => Err(e),
            Ok(slug) => {
                let day = date_text_spec(date);
                let directory = "content/posts/"@ + day + "-"@ + slug;
                Ok((directory, directory + "/index.rst"@, post_body(title, day, slug)))
            },
        }
    }
}

pub open spec fn str_option_view(o: Option<&str>) -> Option<Seq<char>> {
    match o {
        Some(s) => Some(s@),
        None => None,
    }
}

pub open spec fn new_post_is(r: Result<NewPost, Error>, expected: Result<(Seq<char>, Seq<char>, Seq<char>), SpecError>) -> bool {
    match expected {
        Ok((d, s, b)) => r matches Ok(p) && p.directory@ == d && p.source@ == s && p.body@ == b,
        Err(e) => r matches Err(x) && x@ == e,
    }
}

fn contains_char_str(v: &[char], c: char) -> (b: bool)
    ensures
        b == v@.contains(c),
{
    crate::rst::parser::contains_char(v, c)
}

/// Plans a new post titled `title` on `date`, with the slug `requested_slug`
/// or one derived from the title.
pub fn plan_new_post(title: &str, requested_slug: Option<&str>, date: Date) -> (r: Result<NewPost, Error>)
    ensures
        new_post_is(r, new_post_spec(title@, str_option_view(requested_slug), date)),
        r matches Ok(p) ==> p.date == date,
{
    let t = chars_of(title);
    if is_blank_exec(t.as_slice()) || contains_char_str(t.as_slice(), '\n') || contains_char_str(t.as_slice(), '\r') {
        return Err(Error::InvalidWorkspace(String::from_str("post title must be one nonempty line")));
    }
    let slug = match requested_slug {
        Some(value) => validate_slug(value),
        None => derive_slug(title),
    };
    let slug = match slug {
        Ok(s) => s,
        Err(e) => {
            return Err(e);
        },
    };
    let day = date_text(date);
    let mut directory = String::from_str("content/posts/");
    directory.append(day.as_str());
    directory.append("-");
    directory.append(slug.as_str());
    let mut source = directory.clone();
    source.append("/index.rst");
    let mut body = String::from_str(title);
    body.append("\n");
    let n = if t.len() > 0 { t.len() } else { 1 };
    let ghost before = body@;
    let mut k: usize = 0;
    while k < n
        invariant
            k <= n,
            body@ == before + Seq::new(k as nat, |_i: int| '='),
        decreases n - k,
    {
        crate::text::push_char(&mut body, '=');
        k = k + 1;
        assert(body@ =~= before + Seq::new(k as nat, |_i: int| '='));
    }
    body.append("\n\n:date: ");
    body.append(day.as_str());
    body.append("\n:slug: ");
    body.append(slug.as_str());
    body.append("\n:tags:\n:lang: en\n:draft: true\n\n");
    assert(body@ =~= post_body(title@, day@, slug@));
    Ok(NewPost { date, directory, source, body })
}

/// Today's date in UTC (`time::OffsetDateTime::now_utc().date()`). The
/// contract states only that the result is a date the `time` crate can
/// represent; which day it is depends on the clock.
#[verifier::external_body]
fn today_utc() -> (d: Date)
    ensures
        valid_date(d),
{
    let today = time::OffsetDateTime::now_utc().date();
    Date { year: today.year(), month: u8::from(today.month()), day: today.day() }
}

/// Plans a new post dated today (in UTC). The plan is the one of
/// `plan_new_post` for the date it carries; errors do not depend on the date.
pub fn plan_new_post_today(title: &str, requested_slug: Option<&str>) -> (r: Result<NewPost, Error>)
    ensures
        r matches Ok(p) ==> valid_date(p.date) && new_post_is(r, new_post_spec(title@, str_option_view(requested_slug), p.date)),
        r matches Err(e) ==> forall|d: Date| #[trigger] new_post_spec(title@, str_option_view(requested_slug), d) == Err::<(Seq<char>, Seq<char>, Seq<char>), SpecError>(e@),
{
    let date = today_utc();
    plan_new_post(title, requested_slug, date)
}

// ---------------------------------------------------------------------------
// A new post reads back
// ---------------------------------------------------------------------------

/// Text that a metadata value keeps when it is read back: no spaces, no
/// `:`.
pub open spec fn plain_value(s: Seq<char>) -> bool {
    forall|i: int| 0 <= i < s.len() ==> !is_ws(#[trigger] s[i]) && s[i] != ':'
}

proof fn lemma_decimal_plain(n: nat)
    ensures
        plain_value(decimal_text(n)),
    decreases n,
{
    if n >= 10 {
        lemma_decimal_plain(n / 10);
        let a = decimal_text(n / 10);
        let d = (n % 10) as nat;
        let c = (('0' as u32) + d) as char;
        assert(!is_ws(c) && c != ':');
        assert forall|i: int| 0 <= i < decimal_text(n).len() implies !is_ws(#[trigger] decimal_text(n)[i]) && decimal_text(n)[i] != ':' by {
            if i < a.len() {
                assert(decimal_text(n)[i] == a[i]);
            } else {
                assert(decimal_text(n)[i] == c);
            }
        }
    } else {
        let c = (('0' as u32) + n) as char;
        assert(!is_ws(c) && c != ':');
    }
}

proof fn lemma_zero_padded_plain(n: nat, width: nat)
    ensures
        plain_value(zero_padded(n, width)),
        zero_padded(n, width).len() > 0,
    decreases width,
{
    lemma_decimal_plain(n);
    if !(decimal_text(n).len() >= width || width == 0) {
        lemma_zero_padded_plain(n, (width - 1) as nat);
        let r = zero_padded(n, (width - 1) as nat);
        assert forall|i: int| 0 <= i < zero_padded(n, width).len() implies !is_ws(#[trigger] zero_padded(n, width)[i]) && zero_padded(n, width)[i] != ':' by {
            if i > 0 {
                assert(zero_padded(n, width)[i] == r[i - 1]);
            }
        }
    }
}

proof fn lemma_plain_concat(a: Seq<char>, b: Seq<char>)
    requires
        plain_value(a),
        plain_value(b),
    ensures
        plain_value(a + b),
{
    assert forall|i: int| 0 <= i < (a + b).len() implies !is_ws(#[trigger] (a + b)[i]) && (a + b)[i] != ':' by {
        if i < a.len() {
            assert((a + b)[i] == a[i]);
        } else {
            assert((a + b)[i] == b[i - a.len()]);
        }
    }
}

proof fn lemma_date_text_plain(d: Date)
    ensures
        plain_value(date_text_spec(d)),
{
    reveal_strlit("-");
    let y = d.year as int;
    let m = (if y < 0 { -y } else { y }) as nat;
    lemma_zero_padded_plain(m, 4);
    lemma_zero_padded_plain(d.month as nat, 2);
    lemma_zero_padded_plain(d.day as nat, 2);
    let sign = if y < 0 { "-"@ } else { Seq::<char>::empty() };
    assert(plain_value("-"@));
    assert(plain_value(sign));
    lemma_plain_concat(sign, zero_padded(m, 4));
    lemma_plain_concat(sign + zero_padded(m, 4), "-"@);
    lemma_plain_concat(sign + zero_padded(m, 4) + "-"@, zero_padded(d.month as nat, 2));
    lemma_plain_concat(sign + zero_padded(m, 4) + "-"@ + zero_padded(d.month as nat, 2), "-"@);
    lemma_plain_concat(sign + zero_padded(m, 4) + "-"@ + zero_padded(d.month as nat, 2) + "-"@, zero_padded(d.day as nat, 2));
}

/// One metadata line `:key:raw` is read as the field `key` with the value
/// `value`.
proof fn lemma_field_line(
    ls: Seq<Seq<char>>,
    i: int,
    acc: Seq<(Seq<char>, Seq<char>)>,
    key: Seq<char>,
    raw: Seq<char>,
    value: Seq<char>,
)
    requires
        0 <= i < ls.len(),
        ls[i] == seq![':'] + key + seq![':'] + raw,
        !key.contains(':'),
        is_meta_key(key),
        lookup(acc, key) is None,
        trim(raw) == value,
    ensures
        meta_fields(ls, i, acc) == meta_fields(ls, i + 1, acc.push((key, value))),
{
    reveal_strlit(":");
    let line = ls[i];
    assert(line.take(1) =~= ":"@);
    let body = line.skip(1);
    assert(body =~= key + seq![':'] + raw);
    crate::text::lemma_find_char_first(key, ':', raw);
    assert(seq![':'] =~= ":"@);
    assert(body.take(key.len() as int) =~= key);
    assert(body.skip(key.len() as int + 1) =~= raw);
}

/// The line `:key:raw`.
pub open spec fn field_line(key: Seq<char>, raw: Seq<char>) -> Seq<char> {
    seq![':'] + key + seq![':'] + raw
}

/// The lines of a new post's source.
pub open spec fn new_post_lines(title: Seq<char>, date: Seq<char>, slug: Seq<char>) -> Seq<Seq<char>> {
    let e = Seq::<char>::empty();
    seq![
        title,
        underline(title),
        e,
        field_line("date"@, seq![' '] + date),
        field_line("slug"@, seq![' '] + slug),
        field_line("tags"@, e),
        field_line("lang"@, seq![' '] + "en"@),
        field_line("draft"@, seq![' '] + "true"@),
        e,
    ]
}

/// The metadata fields of a new post's source.
pub open spec fn new_post_fields(date: Seq<char>, slug: Seq<char>) -> Seq<(Seq<char>, Seq<char>)> {
    seq![("date"@, date), ("slug"@, slug), ("tags"@, Seq::<char>::empty()), ("lang"@, "en"@), ("draft"@, "true"@)]
}

proof fn lemma_no_break(s: Seq<char>)
    requires
        plain_value(s),
    ensures
        !s.contains('\n'),
        s.len() == 0 || s.last() != '\r',
{
    if s.contains('\n') {
        let k = choose|k: int| 0 <= k < s.len() && s[k] == '\n';
        assert(!is_ws(s[k]));
    }
    if s.len() > 0 {
        assert(!is_ws(s[s.len() - 1]));
    }
}

proof fn lemma_field_line_no_break(key: Seq<char>, raw: Seq<char>)
    requires
        plain_value(key),
        plain_value(raw) || raw.len() > 0 && raw == seq![' '] + raw.drop_first() && plain_value(raw.drop_first()),
    ensures
        !field_line(key, raw).contains('\n'),
        field_line(key, raw).last() != '\r',
{
    let l = field_line(key, raw);
    lemma_no_break(key);
    if !plain_value(raw) {
        lemma_no_break(raw.drop_first());
    }
    if l.contains('\n') {
        let k = choose|k: int| 0 <= k < l.len() && l[k] == '\n';
        if 1 <= k < 1 + key.len() {
            assert(l[k] == key[k - 1]);
            assert(key.contains('\n'));
        } else if k >= 2 + key.len() {
            assert(l[k] == raw[k - 2 - key.len()]);
            if plain_value(raw) {
                assert(!is_ws(raw[k - 2 - key.len()]));
            } else if k - 2 - key.len() > 0 {
                assert(raw[k - 2 - key.len()] == raw.drop_first()[k - 3 - key.len()]);
                assert(!is_ws(raw.drop_first()[k - 3 - key.len()]));
            }
        }
    }
    if raw.len() > 0 {
        assert(l.last() == raw.last());
        if plain_value(raw) {
            assert(!is_ws(raw[raw.len() - 1]));
        } else if raw.len() > 1 {
            assert(raw.last() == raw.drop_first().last());
            assert(!is_ws(raw.drop_first()[raw.len() - 2]));
        }
    }
}

#[verifier::spinoff_prover]
#[verifier::rlimit(40)]
proof fn lemma_new_post_lines(title: Seq<char>, date: Seq<char>, slug: Seq<char>)
    requires
        title_ok(title),
        plain_value(date),
        plain_value(slug),
    ensures
        lines(post_body(title, date, slug)) == new_post_lines(title, date, slug),
{
    reveal_strlit("\n");
    reveal_strlit("\n\n:date: ");
    reveal_strlit("\n:slug: ");
    reveal_strlit("\n:tags:\n:lang: en\n:draft: true\n\n");
    reveal_strlit("date");
    reveal_strlit("slug");
    reveal_strlit("tags");
    reveal_strlit("lang");
    reveal_strlit("draft");
    reveal_strlit("en");
    reveal_strlit("true");
    let u = underline(title);
    let nl = seq!['\n'];
    let sp = seq![' '];
    let e = Seq::<char>::empty();
    let l3 = field_line("date"@, sp + date);
    let l4 = field_line("slug"@, sp + slug);
    let l5 = field_line("tags"@, e);
    let l6 = field_line("lang"@, sp + "en"@);
    let l7 = field_line("draft"@, sp + "true"@);
    assert(plain_value("date"@) && plain_value("slug"@) && plain_value("tags"@) && plain_value("lang"@)
        && plain_value("draft"@) && plain_value("en"@) && plain_value("true"@) && plain_value(e));
    assert((sp + date).drop_first() =~= date);
    assert((sp + slug).drop_first() =~= slug);
    assert((sp + "en"@).drop_first() =~= "en"@);
    assert((sp + "true"@).drop_first() =~= "true"@);
    lemma_field_line_no_break("date"@, sp + date);
    lemma_field_line_no_break("slug"@, sp + slug);
    lemma_field_line_no_break("tags"@, e);
    lemma_field_line_no_break("lang"@, sp + "en"@);
    lemma_field_line_no_break("draft"@, sp + "true"@);
    assert(!u.contains('\n')) by {
        if u.contains('\n') {
            let k = choose|k: int| 0 <= k < u.len() && u[k] == '\n';
        }
    }
    assert(u.len() > 0 && u.last() == '=');
    let t8 = e + nl + e;
    let t7 = l7 + nl + t8;
    let t6 = l6 + nl + t7;
    let t5 = l5 + nl + t6;
    let t4 = l4 + nl + t5;
    let t3 = l3 + nl + t4;
    let t2 = e + nl + t3;
    let t1 = u + nl + t2;
    let t0 = title + nl + t1;
    assert(post_body(title, date, slug) =~= t0);
    crate::text::lemma_lines_cons(e, e);
    crate::text::lemma_lines_cons(l7, t8);
    crate::text::lemma_lines_cons(l6, t7);
    crate::text::lemma_lines_cons(l5, t6);
    crate::text::lemma_lines_cons(l4, t5);
    crate::text::lemma_lines_cons(l3, t4);
    crate::text::lemma_lines_cons(e, t3);
    crate::text::lemma_lines_cons(u, t2);
    crate::text::lemma_lines_cons(title, t1);
    assert(lines(e) =~= Seq::<Seq<char>>::empty());
    assert(lines(post_body(title, date, slug)) =~= new_post_lines(title, date, slug));
}

proof fn lemma_new_post_fields(title: Seq<char>, date: Seq<char>, slug: Seq<char>)
    requires
        plain_value(date),
        plain_value(slug),
    ensures
        meta_fields(new_post_lines(title, date, slug), 3, seq![]) == Ok::<(Seq<(Seq<char>, Seq<char>)>, int), crate::rst::parser::Failure>((new_post_fields(date, slug), 8)),
{
    reveal_strlit("date");
    reveal_strlit("slug");
    reveal_strlit("tags");
    reveal_strlit("lang");
    reveal_strlit("draft");
    reveal_strlit("en");
    reveal_strlit("true");
    let ls = new_post_lines(title, date, slug);
    let sp = seq![' '];
    let e = Seq::<char>::empty();
    assert("date"@ != "slug"@ && "date"@ != "tags"@ && "date"@ != "lang"@) by {
        assert("date"@[0] != "slug"@[0] && "date"@[0] != "tags"@[0] && "date"@[0] != "lang"@[0]);
    }
    assert("slug"@ != "tags"@ && "slug"@ != "lang"@ && "slug"@ != "draft"@) by {
        assert("slug"@[0] != "tags"@[0] && "slug"@[0] != "lang"@[0] && "slug"@[0] != "draft"@[0]);
    }
    assert("tags"@ != "lang"@ && "tags"@ != "draft"@ && "lang"@ != "draft"@) by {
        assert("tags"@[0] != "lang"@[0] && "tags"@[0] != "draft"@[0] && "lang"@[0] != "draft"@[0]);
    }
    assert("date"@ != "draft"@) by {
        assert("date"@[1] != "draft"@[1]);
    }
    crate::text::lemma_trim_plain(date);
    crate::text::lemma_trim_plain(slug);
    crate::text::lemma_trim_plain(e);
    assert(forall|i: int| 0 <= i < "en"@.len() ==> !is_ws(#[trigger] "en"@[i]));
    assert(forall|i: int| 0 <= i < "true"@.len() ==> !is_ws(#[trigger] "true"@[i]));
    crate::text::lemma_trim_plain("en"@);
    crate::text::lemma_trim_plain("true"@);
    let f0 = Seq::<(Seq<char>, Seq<char>)>::empty();
    let f1 = f0.push(("date"@, date));
    let f2 = f1.push(("slug"@, slug));
    let f3 = f2.push(("tags"@, e));
    let f4 = f3.push(("lang"@, "en"@));
    let f5 = f4.push(("draft"@, "true"@));
    assert(f1.drop_first() =~= f0);
    assert(f2.drop_first() =~= seq![("slug"@, slug)]);
    assert(f2.drop_first().drop_first() =~= f0);
    assert(f3.drop_first() =~= seq![("slug"@, slug), ("tags"@, e)]);
    assert(f3.drop_first().drop_first() =~= seq![("tags"@, e)]);
    assert(f3.drop_first().drop_first().drop_first() =~= f0);
    assert(f4.drop_first() =~= seq![("slug"@, slug), ("tags"@, e), ("lang"@, "en"@)]);
    assert(f4.drop_first().drop_first() =~= seq![("tags"@, e), ("lang"@, "en"@)]);
    assert(f4.drop_first().drop_first().drop_first() =~= seq![("lang"@, "en"@)]);
    assert(f4.drop_first().drop_first().drop_first().drop_first() =~= f0);
    reveal_with_fuel(lookup, 5);
    lemma_field_line(ls, 3, f0, "date"@, sp + date, date);
    lemma_field_line(ls, 4, f1, "slug"@, sp + slug, slug);
    lemma_field_line(ls, 5, f2, "tags"@, e, e);
    lemma_field_line(ls, 6, f3, "lang"@, sp + "en"@, "en"@);
    lemma_field_line(ls, 7, f4, "draft"@, sp + "true"@, "true"@);
    reveal_strlit(":");
    assert(!crate::text::starts_with(ls[8], ":"@));
    assert(meta_fields(ls, 8, f5) == Ok::<(Seq<(Seq<char>, Seq<char>)>, int), crate::rst::parser::Failure>((f5, 8)));
    assert(f0 =~= seq![]);
    assert(f5 =~= new_post_fields(date, slug));
}

/// The source that `plan_new_post` writes reads back as the metadata it
/// was planned with: its date and slug, no tags, English, a draft; what is
/// left is the title and its underline.
pub proof fn new_post_reads_back_as_a_draft(title: Seq<char>, slug: Seq<char>, date: Date)
    requires
        title_ok(title),
        valid_slug(slug),
        valid_date(date),
    ensures
        metadata_spec(post_body(title, date_text_spec(date), slug)) == Ok::<(Seq<char>, MetaSpec), crate::rst::parser::Failure>((
            title + "\n"@ + underline(title) + "\n\n"@,
            MetaSpec { date, slug, tags: seq![], lang: "en"@, draft: true },
        )),
{
    reveal_strlit("\n");
    reveal_strlit("date");
    reveal_strlit("slug");
    reveal_strlit("tags");
    reveal_strlit("lang");
    reveal_strlit("draft");
    reveal_strlit("en");
    reveal_strlit("true");
    let d = date_text_spec(date);
    let u = underline(title);
    let e = Seq::<char>::empty();
    crate::content::date_text_reads_back(date);
    lemma_date_text_plain(date);
    assert forall|i: int| 0 <= i < slug.len() implies !is_ws(#[trigger] slug[i]) && slug[i] != ':' by {
        assert(slug_char(slug[i]));
    }
    lemma_new_post_lines(title, d, slug);
    lemma_new_post_fields(title, d, slug);
    let ls = new_post_lines(title, d, slug);
    assert(first_content(ls, 3) == 3) by {
        assert(ls[3][0] == ':');
        assert(!is_ws(ls[3][0]));
    }
    assert(first_content(ls, 2) == 3);
    assert("date"@ != "slug"@ && "date"@ != "tags"@ && "date"@ != "lang"@) by {
        assert("date"@[0] != "slug"@[0] && "date"@[0] != "tags"@[0] && "date"@[0] != "lang"@[0]);
    }
    assert("slug"@ != "tags"@ && "slug"@ != "lang"@ && "slug"@ != "draft"@) by {
        assert("slug"@[0] != "tags"@[0] && "slug"@[0] != "lang"@[0] && "slug"@[0] != "draft"@[0]);
    }
    assert("tags"@ != "lang"@ && "tags"@ != "draft"@ && "lang"@ != "draft"@) by {
        assert("tags"@[0] != "lang"@[0] && "tags"@[0] != "draft"@[0] && "lang"@[0] != "draft"@[0]);
    }
    assert("date"@ != "draft"@) by {
        assert("date"@[1] != "draft"@[1]);
    }
    reveal_with_fuel(lookup, 6);
    let g = new_post_fields(d, slug);
    assert(g.drop_first() =~= seq![("slug"@, slug), ("tags"@, e), ("lang"@, "en"@), ("draft"@, "true"@)]);
    assert(g.drop_first().drop_first() =~= seq![("tags"@, e), ("lang"@, "en"@), ("draft"@, "true"@)]);
    assert(g.drop_first().drop_first().drop_first() =~= seq![("lang"@, "en"@), ("draft"@, "true"@)]);
    assert(g.drop_first().drop_first().drop_first().drop_first() =~= seq![("draft"@, "true"@)]);
    assert(lookup(g, "date"@) == Some(d));
    assert(lookup(g, "slug"@) == Some(slug));
    assert(lookup(g, "tags"@) == Some(e));
    assert(lookup(g, "lang"@) == Some("en"@));
    assert(lookup(g, "draft"@) == Some("true"@));
    assert(date_of((date.year, date.month, date.day)) == date);
    assert(meta_slug_ok(slug)) by {
        assert forall|k: int| 0 <= k < slug.len() implies is_ascii_lower(#[trigger] slug[k]) || is_ascii_digit(slug[k]) || slug[k] == '-' by {
            assert(slug_char(slug[k]));
        }
    }
    assert(tag_list(e) == Ok::<Seq<Seq<char>>, Seq<char>>(seq![]));
    assert(!has_duplicate(seq![]));
    assert(lang_ok("en"@));
    assert(ls.take(2) =~= seq![title, u]);
    assert(ls.skip(8) =~= seq![e]);
    assert(seq![title, u].drop_first() =~= seq![u]);
    assert(crate::text::join(seq![u], "\n"@) == u);
    assert(crate::text::join(seq![title, u], "\n"@) == title + "\n"@ + crate::text::join(seq![title, u].drop_first(), "\n"@));
    assert(crate::text::join(seq![title, u], "\n"@) == title + "\n"@ + u);
    assert(crate::text::join(seq![e], "\n"@) == e);
    assert(crate::text::join(ls.take(2), "\n"@) == title + "\n"@ + u);
    assert(crate::text::join(ls.skip(8), "\n"@) == e);
    assert(clean_text(ls, 8) == crate::text::join(ls.take(2), "\n"@) + "\n\n"@ + crate::text::join(ls.skip(8), "\n"@));
    assert(clean_text(ls, 8) =~= title + "\n"@ + u + "\n\n"@);
}

/// The text that is left of a new post's source once its metadata is read
/// parses to a document with the post's title and no blocks, wherever the
/// title is at least three characters long (so that its underline is a
/// section rule) and holds no hyperlink that the parser refuses.
pub proof fn new_post_text_parses_to_its_title(title: Seq<char>)
    requires
        title_ok(title),
        title.len() >= 3,
        crate::rst::parser::link_problem(title) is None,
    ensures
        crate::rst::parser::parse_spec(title + "\n"@ + underline(title) + "\n\n"@) == Ok::<
            crate::rst::ast::SpecDocument,
            crate::rst::parser::Failure,
        >(crate::rst::ast::SpecDocument { title: trim(title), blocks: seq![] }),
{
    reveal_strlit("\n");
    reveal_strlit("\n\n");
    reveal_strlit("`");
    let u = underline(title);
    let nl = seq!['\n'];
    let e = Seq::<char>::empty();
    assert(!u.contains('\n')) by {
        if u.contains('\n') {
            let k = choose|k: int| 0 <= k < u.len() && u[k] == '\n';
        }
    }
    assert(!title.contains('\n') && !title.contains('\r'));
    let text = title + "\n"@ + u + "\n\n"@;
    assert(text =~= title + nl + (u + nl + (e + nl + e)));
    crate::text::lemma_lines_cons(e, e);
    crate::text::lemma_lines_cons(u, e + nl + e);
    crate::text::lemma_lines_cons(title, u + nl + (e + nl + e));
    assert(lines(e) =~= Seq::<Seq<char>>::empty());
    let ls = lines(text);
    assert(ls =~= seq![title, u, e]);
    // No line has a hyperlink problem.
    crate::text::lemma_find_bounds(u, "`"@);
    if crate::text::find(u, "`"@) is Some {
        let i = crate::text::find(u, "`"@)->0;
        assert(u.subrange(i, i + 1)[0] == u[i]);
    }
    assert(crate::rst::parser::link_problem(u) is None);
    assert(crate::rst::parser::link_problem(e) is None);
    assert(crate::rst::parser::link_failure(ls, 3) is None);
    assert(crate::rst::parser::link_failure(ls, 2) is None);
    assert(crate::rst::parser::link_failure(ls, 1) is None);
    assert(crate::rst::parser::link_failure(ls, 0) is None);
    // The title and its underline.
    assert forall|i: int| 0 <= i < u.len() implies !is_ws(#[trigger] u[i]) by {}
    crate::text::lemma_trim_plain(u);
    assert(trim(u) == u);
    assert(crate::rst::parser::rule(u) == Some('='));
    crate::text::lemma_lead_ws_bound(title);
    crate::text::lemma_trail_ws_bound(crate::text::trim_start(title));
    assert(trim(title).len() <= title.len());
    crate::text::lemma_trim_empty(title);
    assert(crate::rst::parser::has_title(ls));
    // No blocks.
    assert(crate::rst::parser::blocks_from(ls, 3) == Ok::<Seq<crate::rst::ast::SpecBlock>, crate::rst::parser::Failure>(seq![]));
    assert(crate::text::is_blank(ls[2]));
    assert(crate::rst::parser::blocks_from(ls, 2) == Ok::<Seq<crate::rst::ast::SpecBlock>, crate::rst::parser::Failure>(seq![]));
}

} // verus!
