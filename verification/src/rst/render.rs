//! Rendering of documents to HTML.
//!
//! The spec functions define the exact HTML text of every construct; the
//! executable functions are proved to produce exactly that text.

use vstd::prelude::*;
use crate::rst::ast::{Block, Document, SpecBlock, SpecDocument};
use crate::text::{
    char_is_alphanumeric, chars_of, decimal, decimal_text, find, find_from, is_alphanumeric,
    is_ascii_alnum, is_ascii_alnum_exec, is_ascii_digit, is_ascii_digit_exec, is_ws, is_ws_exec,
    lemma_find_bounds, push_char, rfind, rfind_exec, starts_with, ends_with, ends_with_exec,
};

verus! {

// ---------------------------------------------------------------------------
// Escaping
// ---------------------------------------------------------------------------

/// The HTML text of one character: the five markup characters become
/// entities, every other character stands for itself.
pub open spec fn escape_char(c: char) -> Seq<char> {
    if c == '&' {
        "&amp;"@
    } else if c == '<' {
        "&lt;"@
    } else if c == '>' {
        "&gt;"@
    } else if c == '"' {
        "&quot;"@
    } else if c == '\'' {
        "&#39;"@
    } else {
        seq![c]
    }
}

/// The HTML text of `s`, character by character.
pub open spec fn escape_spec(s: Seq<char>) -> Seq<char>
    decreases s.len(),
{
    if s.len() == 0 {
        seq![]
    } else {
        escape_spec(s.drop_last()) + escape_char(s.last())
    }
}

pub proof fn lemma_escape_push(s: Seq<char>, i: int)
    requires
        0 <= i < s.len(),
    ensures
        escape_spec(s.take(i + 1)) == escape_spec(s.take(i)) + escape_char(s[i]),
{
    assert(s.take(i + 1).drop_last() =~= s.take(i));
}

/// A markup character: one that `escape_char` turns into an entity.
pub open spec fn is_markup_char(c: char) -> bool {
    c == '&' || c == '<' || c == '>' || c == '"' || c == '\''
}

/// Escaped text never holds `<`, `>`, `"` or `'`: it cannot open a tag
/// or close an attribute value. (Its `&`s start entities.)
pub proof fn escaped_text_has_no_markup(s: Seq<char>)
    ensures
        forall|i: int| 0 <= i < escape_spec(s).len() ==> {
            let c = #[trigger] escape_spec(s)[i];
            c != '<' && c != '>' && c != '"' && c != '\''
        },
    decreases s.len(),
{
    if s.len() > 0 {
        escaped_text_has_no_markup(s.drop_last());
        reveal_strlit("&amp;");
        reveal_strlit("&lt;");
        reveal_strlit("&gt;");
        reveal_strlit("&quot;");
        reveal_strlit("&#39;");
        let a = escape_spec(s.drop_last());
        let b = escape_char(s.last());
        assert forall|i: int| 0 <= i < escape_spec(s).len() implies {
            let c = #[trigger] escape_spec(s)[i];
            c != '<' && c != '>' && c != '"' && c != '\''
        } by {
            if i >= a.len() {
                assert(escape_spec(s)[i] == b[i - a.len()]);
            } else {
                assert(escape_spec(s)[i] == a[i]);
            }
        }
    }
}

/// Text without markup characters escapes to itself.
pub proof fn plain_text_escapes_to_itself(s: Seq<char>)
    requires
        forall|i: int| 0 <= i < s.len() ==> !is_markup_char(#[trigger] s[i]),
    ensures
        escape_spec(s) == s,
    decreases s.len(),
{
    if s.len() > 0 {
        plain_text_escapes_to_itself(s.drop_last());
        assert(!is_markup_char(s[s.len() - 1]));
        assert(s =~= s.drop_last() + seq![s.last()]);
    }
}

/// Escaped text read back: each of `&amp;`, `&lt;`, `&gt;`, `&quot;` and
/// `&#39;`, from left to right, turned back into its character.
pub open spec fn unescape(s: Seq<char>) -> Seq<char>
    decreases s.len(),
{
    proof {
        reveal_strlit("&amp;");
        reveal_strlit("&lt;");
        reveal_strlit("&gt;");
        reveal_strlit("&quot;");
        reveal_strlit("&#39;");
    }
    if s.len() == 0 {
        seq![]
    } else if starts_with(s, "&amp;"@) {
        seq!['&'] + unescape(s.skip(5))
    } else if starts_with(s, "&lt;"@) {
        seq!['<'] + unescape(s.skip(4))
    } else if starts_with(s, "&gt;"@) {
        seq!['>'] + unescape(s.skip(4))
    } else if starts_with(s, "&quot;"@) {
        seq!['"'] + unescape(s.skip(6))
    } else if starts_with(s, "&#39;"@) {
        seq!['\''] + unescape(s.skip(5))
    } else {
        seq![s[0]] + unescape(s.skip(1))
    }
}

proof fn lemma_escape_cons(c: char, rest: Seq<char>)
    ensures
        escape_spec(seq![c] + rest) == escape_char(c) + escape_spec(rest),
    decreases rest.len(),
{
    let x = seq![c] + rest;
    if rest.len() == 0 {
        assert(x =~= seq![c]);
        assert(x.drop_last() =~= Seq::<char>::empty());
        assert(x.last() == c);
        assert(escape_spec(Seq::<char>::empty()) =~= Seq::<char>::empty());
        assert(escape_spec(x) == escape_spec(x.drop_last()) + escape_char(x.last()));
        assert(escape_spec(x) =~= escape_char(c) + escape_spec(rest));
    } else {
        lemma_escape_cons(c, rest.drop_last());
        assert(x.drop_last() =~= seq![c] + rest.drop_last());
        assert(x.last() == rest.last());
        assert(escape_spec(x) =~= escape_char(c) + escape_spec(rest));
    }
}

proof fn lemma_unescape_char(c: char, e: Seq<char>)
    ensures
        unescape(escape_char(c) + e) == seq![c] + unescape(e),
{
    reveal_strlit("&amp;");
    reveal_strlit("&lt;");
    reveal_strlit("&gt;");
    reveal_strlit("&quot;");
    reveal_strlit("&#39;");
    let a = escape_char(c);
    let x = a + e;
    let n = a.len() as int;
    assert(x.skip(n) =~= e) by {
        assert(x.skip(n).len() == e.len());
        assert forall|i: int| 0 <= i < e.len() implies x.skip(n)[i] == e[i] by {
            assert(x[n + i] == e[i]);
        }
    }
    assert(x.take(n) =~= a);
    assert(x[0] == a[0]);
    assert(a.len() > 1 ==> x[1] == a[1]);
    if c != '&' {
        assert(!starts_with(x, "&amp;"@)) by {
            if starts_with(x, "&amp;"@) {
                assert(x.take(5)[1] == x[1]);
                assert(x.take(5)[0] == x[0]);
            }
        }
    }
    if c != '<' {
        assert(!starts_with(x, "&lt;"@)) by {
            if starts_with(x, "&lt;"@) {
                assert(x.take(4)[1] == x[1]);
                assert(x.take(4)[0] == x[0]);
            }
        }
    }
    if c != '>' {
        assert(!starts_with(x, "&gt;"@)) by {
            if starts_with(x, "&gt;"@) {
                assert(x.take(4)[1] == x[1]);
                assert(x.take(4)[0] == x[0]);
            }
        }
    }
    if c != '"' {
        assert(!starts_with(x, "&quot;"@)) by {
            if starts_with(x, "&quot;"@) {
                assert(x.take(6)[1] == x[1]);
                assert(x.take(6)[0] == x[0]);
            }
        }
    }
    if c != '\'' {
        assert(!starts_with(x, "&#39;"@)) by {
            if starts_with(x, "&#39;"@) {
                assert(x.take(5)[1] == x[1]);
                assert(x.take(5)[0] == x[0]);
            }
        }
    }
    if c == '&' {
        assert(starts_with(x, "&amp;"@));
    } else if c == '<' {
        assert(starts_with(x, "&lt;"@));
    } else if c == '>' {
        assert(starts_with(x, "&gt;"@));
    } else if c == '"' {
        assert(starts_with(x, "&quot;"@));
    } else if c == '\'' {
        assert(starts_with(x, "&#39;"@));
    } else {
        assert(x[0] == c);
    }
}

/// Escaping loses nothing: turning the entities of escaped text back into
/// their characters, from left to right, gives the text that was escaped.
pub proof fn escaped_text_reads_back(s: Seq<char>)
    ensures
        unescape(escape_spec(s)) == s,
    decreases s.len(),
{
    if s.len() > 0 {
        let rest = s.skip(1);
        assert(s =~= seq![s[0]] + rest);
        lemma_escape_cons(s[0], rest);
        escaped_text_reads_back(rest);
        lemma_unescape_char(s[0], escape_spec(rest));
    } else {
        assert(escape_spec(s) =~= Seq::<char>::empty());
    }
}

/// Appends `escape_char(c)` to `out`.
pub fn push_escaped_char(out: &mut String, c: char)
    ensures
        final(out)@ == old(out)@ + escape_char(c),
{
    if c == '&' {
        out.append("&amp;");
    } else if c == '<' {
        out.append("&lt;");
    } else if c == '>' {
        out.append("&gt;");
    } else if c == '"' {
        out.append("&quot;");
    } else if c == '\'' {
        out.append("&#39;");
    } else {
        push_char(out, c);
    }
}

/// Appends `escape_spec(s)` to `out`.
pub fn push_escaped(out: &mut String, s: &[char])
    ensures
        final(out)@ == old(out)@ + escape_spec(s@),
{
    let ghost start = out@;
    let mut i: usize = 0;
    assert(s@.take(0) =~= Seq::<char>::empty());
    assert(start + escape_spec(s@.take(0)) =~= start);
    while i < s.len()
        invariant
            i <= s@.len(),
            out@ == start + escape_spec(s@.take(i as int)),
        decreases s@.len() - i,
    {
        proof { lemma_escape_push(s@, i as int); }
        push_escaped_char(out, s[i]);
        i = i + 1;
    }
    assert(s@.take(i as int) =~= s@);
}

/// HTML-escapes `value`: `&`, `<`, `>`, `"` and `'` become entities.
pub fn escape(value: &str) -> (r: String)
    ensures
        r@ == escape_spec(value@),
{
    let chars = chars_of(value);
    let mut out = String::new();
    push_escaped(&mut out, chars.as_slice());
    out
}

// ---------------------------------------------------------------------------
// Inline markup
// ---------------------------------------------------------------------------

/// A hyperlink `label <url>` closed by `` `_ `` in `after` (the text after
/// the opening backquote): the label, the url and where `` `_ `` starts.
pub open spec fn link_parts(after: Seq<char>) -> Option<(Seq<char>, Seq<char>, int)> {
    match find(after, "`_"@) {
        Some(end) => {
            let link = after.take(end);
            match rfind(link, " <"@) {
                Some(k) => {
                    let url = link.skip(k + 2);
                    if ends_with(url, ">"@) {
                        Some((link.take(k), url.drop_last(), end))
                    } else {
                        None
                    }
                },
                None => None,
            }
        },
        None => None,
    }
}

pub open spec fn ref_label_ok(label: Seq<char>) -> bool {
    label.len() > 0 && forall|k: int|
        0 <= k < label.len() ==> is_ascii_alnum(#[trigger] label[k]) || label[k] == '-'
}

/// A citation reference `label]_` in `after` (the text after `[`): the label
/// and where `]_` starts.
pub open spec fn citation(after: Seq<char>) -> Option<(Seq<char>, int)> {
    match find(after, "]_"@) {
        Some(end) => if ref_label_ok(after.take(end)) {
            Some((after.take(end), end))
        } else {
            None
        },
        None => None,
    }
}

pub open spec fn code_case(r: Seq<char>) -> bool {
    starts_with(r, "``"@) && find(r.skip(2), "``"@) is Some
}

pub open spec fn code_end(r: Seq<char>) -> int {
    find(r.skip(2), "``"@)->0
}

pub open spec fn strong_case(r: Seq<char>) -> bool {
    starts_with(r, "**"@) && find(r.skip(2), "**"@) is Some
}

pub open spec fn strong_end(r: Seq<char>) -> int {
    find(r.skip(2), "**"@)->0
}

pub open spec fn em_case(r: Seq<char>) -> bool {
    starts_with(r, "*"@) && find(r.skip(1), "*"@) is Some
}

pub open spec fn em_end(r: Seq<char>) -> int {
    find(r.skip(1), "*"@)->0
}

pub open spec fn link_case(r: Seq<char>) -> bool {
    starts_with(r, "`"@) && link_parts(r.skip(1)) is Some
}

pub open spec fn cite_case(r: Seq<char>) -> bool {
    starts_with(r, "["@) && citation(r.skip(1)) is Some
}

pub open spec fn code_html(r: Seq<char>) -> Seq<char> {
    "<code>"@ + escape_spec(r.skip(2).take(code_end(r))) + "</code>"@
}

pub open spec fn link_html(r: Seq<char>) -> Seq<char> {
    let (label, url, end) = link_parts(r.skip(1))->0;
    "<a href=\""@ + escape_spec(url) + "\">"@ + escape_spec(label) + "</a>"@
}

pub open spec fn cite_html(r: Seq<char>) -> Seq<char> {
    let (label, _end) = citation(r.skip(1))->0;
    "<a href=\"#ref-"@ + label + "\">["@ + label + "]</a>"@
}

pub open spec fn link_next(r: Seq<char>) -> int {
    let (_label, _url, end) = link_parts(r.skip(1))->0;
    end + 3
}

pub open spec fn cite_next(r: Seq<char>) -> int {
    let (_label, end) = citation(r.skip(1))->0;
    end + 3
}

/// The HTML of inline text: ``` ``code`` ```, `**strong**`, `*emphasis*`,
/// `` `label <url>`_ `` hyperlinks and `[label]_` citations, tried in this
/// order at each position; every other character is escaped.
pub open spec fn inline_spec(s: Seq<char>) -> Seq<char>
    decreases s.len(),
{
    proof {
        lemma_inline_cases_bounded(s);
    }
    if s.len() == 0 {
        seq![]
    } else if code_case(s) {
        code_html(s) + inline_spec(s.skip(code_end(s) + 4))
    } else if strong_case(s) {
        "<strong>"@ + inline_spec(s.skip(2).take(strong_end(s))) + "</strong>"@ + inline_spec(
            s.skip(strong_end(s) + 4),
        )
    } else if em_case(s) {
        "<em>"@ + inline_spec(s.skip(1).take(em_end(s))) + "</em>"@ + inline_spec(
            s.skip(em_end(s) + 2),
        )
    } else if link_case(s) {
        link_html(s) + inline_spec(s.skip(link_next(s)))
    } else if cite_case(s) {
        cite_html(s) + inline_spec(s.skip(cite_next(s)))
    } else {
        escape_char(s[0]) + inline_spec(s.drop_first())
    }
}

pub proof fn lemma_inline_cases_bounded(s: Seq<char>)
    ensures
        code_case(s) ==> 0 <= code_end(s) && code_end(s) + 4 <= s.len(),
        strong_case(s) ==> 0 <= strong_end(s) && strong_end(s) + 4 <= s.len(),
        em_case(s) ==> 0 <= em_end(s) && em_end(s) + 2 <= s.len(),
        link_case(s) ==> 1 < link_next(s) <= s.len(),
        cite_case(s) ==> 1 < cite_next(s) <= s.len(),
{
    reveal_strlit("``");
    reveal_strlit("**");
    reveal_strlit("*");
    reveal_strlit("`");
    reveal_strlit("`_");
    reveal_strlit("[");
    reveal_strlit("]_");
    if s.len() >= 2 {
        lemma_find_bounds(s.skip(2), "``"@);
        lemma_find_bounds(s.skip(2), "**"@);
    }
    if s.len() >= 1 {
        lemma_find_bounds(s.skip(1), "*"@);
        lemma_find_bounds(s.skip(1), "`_"@);
        lemma_find_bounds(s.skip(1), "]_"@);
    }
}

/// `link_parts` of `s[lo..]`, as positions in `s`: the label `s[lo..a]`, the
/// url `s[b..c]`, and the position of `` `_ ``.
pub fn link_parts_exec(s: &[char], lo: usize) -> (r: Option<(usize, usize, usize, usize)>)
    requires
        lo <= s@.len(),
    ensures
        r matches Some((a, b, c, end)) ==> lo <= a <= b <= c <= end && end + 2 <= s@.len()
            && link_parts(s@.skip(lo as int)) == Some((s@.subrange(lo as int, a as int),
            s@.subrange(b as int, c as int), end - lo)),
        r is None ==> link_parts(s@.skip(lo as int)) is None,
{
    let close = chars_of("`_");
    let open = chars_of(" <");
    let gt = chars_of(">");
    proof {
        reveal_strlit("`_");
        reveal_strlit(" <");
        reveal_strlit(">");
    }
    let ghost after = s@.skip(lo as int);
    match find_from(s, close.as_slice(), lo) {
        None => None,
        Some(end) => {
            let link = crate::text::slice_vec(s, lo, end);
            assert(link@ =~= after.take(end - lo));
            match rfind_exec(link.as_slice(), open.as_slice()) {
                None => None,
                Some(k) => {
                    let url = crate::text::slice_vec(link.as_slice(), k + 2, link.len());
                    assert(url@ =~= link@.skip(k + 2));
                    if ends_with_exec(url.as_slice(), gt.as_slice()) {
                        assert(link@.take(k as int) =~= s@.subrange(lo as int, lo + k));
                        assert(url@.drop_last() =~= s@.subrange(lo + k + 2, end - 1));
                        Some((lo + k, lo + k + 2, end - 1, end))
                    } else {
                        None
                    }
                },
            }
        },
    }
}

/// `citation` of `s[lo..]`, as the position of `]_` in `s`.
pub fn citation_exec(s: &[char], lo: usize) -> (r: Option<usize>)
    requires
        lo <= s@.len(),
    ensures
        r matches Some(end) ==> lo <= end && end + 2 <= s@.len() && citation(s@.skip(lo as int))
            == Some((s@.subrange(lo as int, end as int), end - lo)),
        r is None ==> citation(s@.skip(lo as int)) is None,
{
    let close = chars_of("]_");
    proof { reveal_strlit("]_"); }
    match find_from(s, close.as_slice(), lo) {
        None => None,
        Some(end) => {
            let ghost label = s@.skip(lo as int).take(end - lo);
            assert(label =~= s@.subrange(lo as int, end as int));
            if end == lo {
                return None;
            }
            let mut k = lo;
            while k < end
                invariant
                    lo <= k <= end,
                    end + 2 <= s@.len(),
                    label == s@.subrange(lo as int, end as int),
                    label == s@.skip(lo as int).take(end - lo),
                    find(s@.skip(lo as int), "]_"@) == Some(end - lo),
                    forall|m: int| 0 <= m < k - lo ==> is_ascii_alnum(#[trigger] label[m]) || label[m] == '-',
                decreases end - k,
            {
                if !(is_ascii_alnum_exec(s[k]) || s[k] == '-') {
                    assert(label[k - lo] == s@[k as int]);
                    return None;
                }
                k = k + 1;
            }
            Some(end)
        },
    }
}

/// The HTML of the inline text `value`.
pub fn inline(value: &str) -> (r: String)
    ensures
        r@ == inline_spec(value@),
{
    let chars = chars_of(value);
    let mut out = String::new();
    push_inline(&mut out, chars.as_slice());
    assert(out@ =~= inline_spec(value@));
    out
}

/// Appends `code_html` of `s[pos..]` and returns the position after it, if
/// the text there is inline code.
fn try_code(out: &mut String, s: &[char], pos: usize) -> (r: Option<usize>)
    requires
        pos < s@.len(),
    ensures
        r is None <==> !code_case(s@.skip(pos as int)),
        r is None ==> final(out)@ == old(out)@,
        r matches Some(np) ==> final(out)@ == old(out)@ + code_html(s@.skip(pos as int)) && np
            == pos + code_end(s@.skip(pos as int)) + 4,
{
    let ghost rest = s@.skip(pos as int);
    proof { reveal_strlit("``"); }
    let n = s.len();
    if n - pos >= 2 && s[pos] == '`' && s[pos + 1] == '`' {
        assert(rest.take(2) =~= seq!['`', '`']);
        assert("``"@ =~= seq!['`', '`']);
        assert(starts_with(rest, "``"@));
        assert(rest.skip(2) =~= s@.skip(pos + 2));
        let ticks = chars_of("``");
        match find_from(s, ticks.as_slice(), pos + 2) {
            Some(end) => {
                out.append("<code>");
                let body = crate::text::slice_vec(s, pos + 2, end);
                assert(body@ =~= rest.skip(2).take(end - pos - 2));
                push_escaped(out, body.as_slice());
                out.append("</code>");
                Some(end + 2)
            },
            None => None,
        }
    } else {
        assert(!starts_with(rest, "``"@)) by {
            if starts_with(rest, "``"@) {
                assert(rest.take(2)[0] == '`' && rest.take(2)[1] == '`');
            }
        }
        None
    }
}

/// The bounds of the `strong_case` text of `s[pos..]`.
fn try_strong(s: &[char], pos: usize) -> (r: Option<usize>)
    requires
        pos < s@.len(),
    ensures
        r is None <==> !strong_case(s@.skip(pos as int)),
        r matches Some(end) ==> end == pos + 2 + strong_end(s@.skip(pos as int)) && end + 2 <= s@.len(),
{
    let ghost rest = s@.skip(pos as int);
    proof { reveal_strlit("**"); lemma_inline_cases_bounded(rest); }
    let n = s.len();
    if n - pos >= 2 && s[pos] == '*' && s[pos + 1] == '*' {
        assert(rest.take(2) =~= seq!['*', '*']);
        assert("**"@ =~= seq!['*', '*']);
        assert(starts_with(rest, "**"@));
        assert(rest.skip(2) =~= s@.skip(pos + 2));
        let stars = chars_of("**");
        find_from(s, stars.as_slice(), pos + 2)
    } else {
        assert(!starts_with(rest, "**"@)) by {
            if starts_with(rest, "**"@) {
                assert(rest.take(2)[0] == '*' && rest.take(2)[1] == '*');
            }
        }
        None
    }
}

/// The bounds of the `em_case` text of `s[pos..]`.
fn try_em(s: &[char], pos: usize) -> (r: Option<usize>)
    requires
        pos < s@.len(),
    ensures
        r is None <==> !em_case(s@.skip(pos as int)),
        r matches Some(end) ==> end == pos + 1 + em_end(s@.skip(pos as int)) && end + 1 <= s@.len(),
{
    let ghost rest = s@.skip(pos as int);
    proof { reveal_strlit("*"); lemma_inline_cases_bounded(rest); }
    if s[pos] == '*' {
        assert(rest.take(1) =~= seq!['*']);
        assert("*"@ =~= seq!['*']);
        assert(starts_with(rest, "*"@));
        assert(rest.skip(1) =~= s@.skip(pos + 1));
        let star = chars_of("*");
        find_from(s, star.as_slice(), pos + 1)
    } else {
        assert(!starts_with(rest, "*"@)) by {
            if starts_with(rest, "*"@) {
                assert(rest.take(1)[0] == '*');
            }
        }
        None
    }
}

/// Appends `link_html` of `s[pos..]` and returns the position after it, if
/// the text there is a hyperlink.
fn try_link(out: &mut String, s: &[char], pos: usize) -> (r: Option<usize>)
    requires
        pos < s@.len(),
    ensures
        r is None <==> !link_case(s@.skip(pos as int)),
        r is None ==> final(out)@ == old(out)@,
        r matches Some(np) ==> final(out)@ == old(out)@ + link_html(s@.skip(pos as int)) && np
            == pos + link_next(s@.skip(pos as int)),
{
    let ghost rest = s@.skip(pos as int);
    proof { reveal_strlit("`"); }
    if s[pos] == '`' {
        assert(rest.take(1) =~= seq!['`']);
        assert("`"@ =~= seq!['`']);
        assert(starts_with(rest, "`"@));
        assert(rest.skip(1) =~= s@.skip(pos + 1));
        match link_parts_exec(s, pos + 1) {
            Some((a, b, c, end)) => {
                out.append("<a href=\"");
                let url = crate::text::slice_vec(s, b, c);
                push_escaped(out, url.as_slice());
                out.append("\">");
                let label = crate::text::slice_vec(s, pos + 1, a);
                push_escaped(out, label.as_slice());
                out.append("</a>");
                Some(end + 2)
            },
            None => None,
        }
    } else {
        assert(!starts_with(rest, "`"@)) by {
            if starts_with(rest, "`"@) {
                assert(rest.take(1)[0] == '`');
            }
        }
        None
    }
}

/// Appends `cite_html` of `s[pos..]` and returns the position after it, if
/// the text there is a citation reference.
fn try_cite(out: &mut String, s: &[char], pos: usize) -> (r: Option<usize>)
    requires
        pos < s@.len(),
    ensures
        r is None <==> !cite_case(s@.skip(pos as int)),
        r is None ==> final(out)@ == old(out)@,
        r matches Some(np) ==> final(out)@ == old(out)@ + cite_html(s@.skip(pos as int)) && np
            == pos + cite_next(s@.skip(pos as int)),
{
    let ghost rest = s@.skip(pos as int);
    proof { reveal_strlit("["); }
    if s[pos] == '[' {
        assert(rest.take(1) =~= seq!['[']);
        assert("["@ =~= seq!['[']);
        assert(starts_with(rest, "["@));
        assert(rest.skip(1) =~= s@.skip(pos + 1));
        match citation_exec(s, pos + 1) {
            Some(end) => {
                let label = crate::text::slice_vec(s, pos + 1, end);
                out.append("<a href=\"#ref-");
                crate::text::push_chars(out, label.as_slice());
                out.append("\">[");
                crate::text::push_chars(out, label.as_slice());
                out.append("]</a>");
                Some(end + 2)
            },
            None => None,
        }
    } else {
        assert(!starts_with(rest, "["@)) by {
            if starts_with(rest, "["@) {
                assert(rest.take(1)[0] == '[');
            }
        }
        None
    }
}

/// Appends `inline_spec(s)` to `out`.
pub fn push_inline(out: &mut String, s: &[char])
    ensures
        final(out)@ == old(out)@ + inline_spec(s@),
    decreases s@.len(),
{
    let ghost start = out@;
    let n = s.len();
    let mut pos: usize = 0;
    assert(s@.skip(0) =~= s@);
    assert(start + Seq::<char>::empty() =~= start);
    while pos < n
        invariant
            pos <= n,
            n == s@.len(),
            start + inline_spec(s@) == out@ + inline_spec(s@.skip(pos as int)),
        decreases n - pos,
    {
        let ghost rest = s@.skip(pos as int);
        let ghost before = out@;
        proof { lemma_inline_cases_bounded(rest); }
        if let Some(np) = try_code(out, s, pos) {
            assert(rest.skip(code_end(rest) + 4) =~= s@.skip(np as int));
            pos = np;
            continue;
        }
        if let Some(end) = try_strong(s, pos) {
            out.append("<strong>");
            let body = crate::text::slice_vec(s, pos + 2, end);
            assert(body@ =~= rest.skip(2).take(strong_end(rest)));
            push_inline(out, body.as_slice());
            out.append("</strong>");
            assert(rest.skip(strong_end(rest) + 4) =~= s@.skip(end + 2));
            pos = end + 2;
            assert(out@ + inline_spec(s@.skip(pos as int)) =~= before + inline_spec(rest));
            continue;
        }
        if let Some(end) = try_em(s, pos) {
            out.append("<em>");
            let body = crate::text::slice_vec(s, pos + 1, end);
            assert(body@ =~= rest.skip(1).take(em_end(rest)));
            push_inline(out, body.as_slice());
            out.append("</em>");
            assert(rest.skip(em_end(rest) + 2) =~= s@.skip(end + 1));
            pos = end + 1;
            assert(out@ + inline_spec(s@.skip(pos as int)) =~= before + inline_spec(rest));
            continue;
        }
        if let Some(np) = try_link(out, s, pos) {
            assert(rest.skip(link_next(rest)) =~= s@.skip(np as int));
            pos = np;
            continue;
        }
        if let Some(np) = try_cite(out, s, pos) {
            assert(rest.skip(cite_next(rest)) =~= s@.skip(np as int));
            pos = np;
            continue;
        }
        push_escaped_char(out, s[pos]);
        assert(rest.drop_first() =~= s@.skip(pos + 1));
        pos = pos + 1;
    }
    assert(s@.skip(pos as int) =~= Seq::<char>::empty());
    assert(out@ + Seq::<char>::empty() =~= out@);
}

// ---------------------------------------------------------------------------
// Math
// ---------------------------------------------------------------------------

/// Characters that make up an identifier in a formula.
pub open spec fn is_ident_char(c: char) -> bool {
    char_is_alphanumeric(c) && !is_ascii_digit(c)
}

/// The number of leading digits (`digits`) or identifier characters of `s`.
pub open spec fn run_len(s: Seq<char>, digits: bool) -> nat
    decreases s.len(),
{
    if s.len() > 0 && (if digits {
        is_ascii_digit(s[0])
    } else {
        is_ident_char(s[0])
    }) {
        1 + run_len(s.drop_first(), digits)
    } else {
        0
    }
}

/// The atom that `s` starts with, if any: a number (a run of ASCII digits)
/// or an identifier (a run of other alphanumeric characters), as whether it
/// is a number and its length.
pub open spec fn atom(s: Seq<char>) -> Option<(bool, nat)> {
    if s.len() > 0 && is_ascii_digit(s[0]) {
        Some((true, run_len(s, true)))
    } else if s.len() > 0 && is_ident_char(s[0]) {
        Some((false, run_len(s, false)))
    } else {
        None
    }
}

/// The MathML of an atom.
pub open spec fn atom_html(number: bool, text: Seq<char>) -> Seq<char> {
    if number {
        "<mn>"@ + text + "</mn>"@
    } else {
        "<mi>"@ + text + "</mi>"@
    }
}

pub proof fn lemma_run_len(s: Seq<char>, digits: bool)
    ensures
        run_len(s, digits) <= s.len(),
        s.len() > 0 && (if digits { is_ascii_digit(s[0]) } else { is_ident_char(s[0]) }) ==> run_len(s, digits) >= 1,
        forall|k: int| 0 <= k < run_len(s, digits) ==> (if digits { is_ascii_digit(#[trigger] s[k]) } else { is_ident_char(s[k]) }),
        run_len(s, digits) < s.len() ==> !(if digits { is_ascii_digit(s[run_len(s, digits) as int]) } else { is_ident_char(s[run_len(s, digits) as int]) }),
    decreases s.len(),
{
    if s.len() > 0 && (if digits { is_ascii_digit(s[0]) } else { is_ident_char(s[0]) }) {
        lemma_run_len(s.drop_first(), digits);
        assert forall|k: int| 0 <= k < run_len(s, digits) implies (if digits { is_ascii_digit(#[trigger] s[k]) } else { is_ident_char(s[k]) }) by {
            if k > 0 {
                assert(s[k] == s.drop_first()[k - 1]);
            }
        }
    }
}

/// The MathML of the item at the start of `r` (which does not start with a
/// space), and its length: an atom, an atom with a `^` superscript or `_`
/// subscript atom, or any other character as an operator.
pub open spec fn math_piece(r: Seq<char>) -> (Seq<char>, int) {
    match atom(r) {
        Some((number, k)) => {
            let base = atom_html(number, r.take(k as int));
            let rest = r.skip(k as int);
            if rest.len() > 0 && (rest[0] == '^' || rest[0] == '_') && atom(rest.drop_first()) is Some {
                let (snum, m) = atom(rest.drop_first())->0;
                let script = atom_html(snum, rest.drop_first().take(m as int));
                if rest[0] == '^' {
                    ("<msup>"@ + base + script + "</msup>"@, (k + 1 + m) as int)
                } else {
                    ("<msub>"@ + base + script + "</msub>"@, (k + 1 + m) as int)
                }
            } else {
                (base, k as int)
            }
        },
        None => ("<mo>"@ + escape_char(r[0]) + "</mo>"@, 1),
    }
}

pub proof fn lemma_math_piece_len(r: Seq<char>)
    requires
        r.len() > 0,
    ensures
        0 < math_piece(r).1 <= r.len(),
{
    lemma_run_len(r, true);
    lemma_run_len(r, false);
    if let Some((number, k)) = atom(r) {
        let rest = r.skip(k as int);
        if rest.len() > 0 {
            lemma_run_len(rest.drop_first(), true);
            lemma_run_len(rest.drop_first(), false);
        }
    }
}

/// The MathML of the items of a formula, spaces skipped.
pub open spec fn math_items(s: Seq<char>) -> Seq<char>
    decreases s.len(),
{
    if s.len() == 0 {
        seq![]
    } else if is_ws(s[0]) {
        math_items(s.drop_first())
    } else {
        proof {
            lemma_math_piece_len(s);
        }
        math_piece(s).0 + math_items(s.skip(math_piece(s).1))
    }
}

/// The MathML of a formula.
pub open spec fn math_html(s: Seq<char>) -> Seq<char> {
    "<math display=\"block\">"@ + math_items(s) + "</math>"@
}

/// `atom` of `s[pos..]`, with its end as a position in `s`.
fn atom_exec(s: &[char], pos: usize) -> (r: Option<(bool, usize)>)
    requires
        pos <= s@.len(),
    ensures
        r matches Some((d, e)) ==> atom(s@.skip(pos as int)) == Some((d, (e - pos) as nat)) && pos < e <= s@.len(),
        r is None ==> atom(s@.skip(pos as int)) is None,
{
    let ghost rest = s@.skip(pos as int);
    let n = s.len();
    if pos >= n {
        return None;
    }
    let digits = if is_ascii_digit_exec(s[pos]) {
        true
    } else if is_alphanumeric(s[pos]) {
        false
    } else {
        return None;
    };
    let mut e = pos;
    while e < n
        invariant
            pos <= e <= n,
            n == s@.len(),
            rest == s@.skip(pos as int),
            run_len(rest, digits) == (e - pos) + run_len(s@.skip(e as int), digits),
        ensures
            pos <= e <= n,
            run_len(rest, digits) == (e - pos) + run_len(s@.skip(e as int), digits),
            run_len(s@.skip(e as int), digits) == 0,
        decreases n - e,
    {
        let c = s[e];
        let ok = if digits { is_ascii_digit_exec(c) } else { is_alphanumeric(c) && !is_ascii_digit_exec(c) };
        if !ok {
            assert(s@.skip(e as int)[0] == c);
            break;
        }
        assert(s@.skip(e as int).drop_first() =~= s@.skip(e + 1));
        e = e + 1;
    }
    proof { lemma_run_len(rest, digits); }
    Some((digits, e))
}

/// Appends `atom_html` of `s[a..b]`.
fn push_atom(out: &mut String, number: bool, s: &[char], a: usize, b: usize)
    requires
        a <= b <= s@.len(),
    ensures
        final(out)@ == old(out)@ + atom_html(number, s@.subrange(a as int, b as int)),
{
    let text = crate::text::slice_vec(s, a, b);
    if number {
        out.append("<mn>");
        crate::text::push_chars(out, text.as_slice());
        out.append("</mn>");
    } else {
        out.append("<mi>");
        crate::text::push_chars(out, text.as_slice());
        out.append("</mi>");
    }
}

/// Appends the MathML of the item that starts at `s[pos]` (not a space)
/// and returns the position after it.
#[verifier::rlimit(40)]
fn push_math_item(out: &mut String, s: &[char], pos: usize) -> (np: usize)
    requires
        pos < s@.len(),
        !is_ws(s@[pos as int]),
    ensures
        final(out)@ == old(out)@ + math_piece(s@.skip(pos as int)).0,
        np == pos + math_piece(s@.skip(pos as int)).1,
{
    let ghost rest = s@.skip(pos as int);
    let ghost before = out@;
    let n = s.len();
    assert(rest[0] == s@[pos as int]);
    match atom_exec(s, pos) {
        Some((number, e)) => {
            assert(rest.take(e - pos) =~= s@.subrange(pos as int, e as int));
            let ghost after = rest.skip(e - pos);
            assert(after =~= s@.skip(e as int));
            let script = if e < n && (s[e] == '^' || s[e] == '_') {
                assert(after.drop_first() =~= s@.skip(e + 1));
                assert(after[0] == s@[e as int]);
                atom_exec(s, e + 1)
            } else {
                None
            };
            match script {
                Some((snum, f)) => {
                    assert(after[0] == s@[e as int]);
                    assert(after.drop_first() =~= s@.skip(e + 1));
                    let sup = s[e] == '^';
                    if sup {
                        out.append("<msup>");
                    } else {
                        out.append("<msub>");
                    }
                    push_atom(out, number, s, pos, e);
                    push_atom(out, snum, s, e + 1, f);
                    assert(after.drop_first().take(f - e - 1) =~= s@.subrange(e + 1, f as int));
                    if sup {
                        out.append("</msup>");
                    } else {
                        out.append("</msub>");
                    }
                    assert(after.skip(1 + (f - e - 1)) =~= s@.skip(f as int));
                    f
                },
                None => {
                    push_atom(out, number, s, pos, e);
                    e
                },
            }
        },
        None => {
            out.append("<mo>");
            push_escaped_char(out, s[pos]);
            out.append("</mo>");
            assert(rest.drop_first() =~= s@.skip(pos + 1));
            pos + 1
        },
    }
}

/// Appends `math_items(s)` to `out`.
pub fn push_math_items(out: &mut String, s: &[char])
    ensures
        final(out)@ == old(out)@ + math_items(s@),
{
    let ghost start = out@;
    let n = s.len();
    let mut pos: usize = 0;
    assert(s@.skip(0) =~= s@);
    assert(start + Seq::<char>::empty() =~= start);
    while pos < n
        invariant
            pos <= n,
            n == s@.len(),
            start + math_items(s@) == out@ + math_items(s@.skip(pos as int)),
        decreases n - pos,
    {
        let ghost rest = s@.skip(pos as int);
        assert(rest[0] == s@[pos as int]);
        if is_ws_exec(s[pos]) {
            assert(rest.drop_first() =~= s@.skip(pos + 1));
            pos = pos + 1;
        } else {
            let ghost before = out@;
            proof { lemma_math_piece_len(rest); }
            let np = push_math_item(out, s, pos);
            assert(rest.skip(math_piece(rest).1) =~= s@.skip(np as int));
            pos = np;
        }
    }
    assert(s@.skip(pos as int) =~= Seq::<char>::empty());
    assert(out@ + Seq::<char>::empty() =~= out@);
}

// ---------------------------------------------------------------------------
// Blocks
// ---------------------------------------------------------------------------

/// The concatenation of `f` over `s`.
pub open spec fn concat_map<A>(s: Seq<A>, f: spec_fn(A) -> Seq<char>) -> Seq<char>
    decreases s.len(),
{
    if s.len() == 0 {
        seq![]
    } else {
        concat_map(s.drop_last(), f) + f(s.last())
    }
}

pub proof fn lemma_concat_map_push<A>(s: Seq<A>, f: spec_fn(A) -> Seq<char>, i: int)
    requires
        0 <= i < s.len(),
    ensures
        concat_map(s.take(i + 1), f) == concat_map(s.take(i), f) + f(s[i]),
{
    assert(s.take(i + 1).drop_last() =~= s.take(i));
}

/// `s` with every line feed turned into a space.
pub open spec fn unwrap_lines(s: Seq<char>) -> Seq<char> {
    s.map_values(|c: char| if c == '\n' { ' ' } else { c })
}

/// `str::split("\n\n")`.
pub open spec fn split_paragraphs(s: Seq<char>) -> Seq<Seq<char>>
    decreases s.len(),
{
    proof {
        reveal_strlit("\n\n");
        lemma_find_bounds(s, "\n\n"@);
    }
    match find(s, "\n\n"@) {
        None => seq![s],
        Some(k) => seq![s.take(k)] + split_paragraphs(s.skip(k + 2)),
    }
}

pub open spec fn field_html(p: (Seq<char>, Seq<char>)) -> Seq<char> {
    "<dt>"@ + escape_spec(p.0) + "</dt><dd>"@ + inline_spec(p.1) + "</dd>\n"@
}

pub open spec fn item_html(item: Seq<char>) -> Seq<char> {
    "<li>"@ + inline_spec(item) + "</li>\n"@
}

pub open spec fn header_cell_html(cell: Seq<char>) -> Seq<char> {
    "<th>"@ + inline_spec(cell) + "</th>"@
}

pub open spec fn data_cell_html(cell: Seq<char>) -> Seq<char> {
    "<td>"@ + inline_spec(cell) + "</td>"@
}

/// The rows of a table; the first row holds header cells.
pub open spec fn rows_html(rows: Seq<Seq<Seq<char>>>) -> Seq<char>
    decreases rows.len(),
{
    if rows.len() == 0 {
        seq![]
    } else {
        let row = rows.last();
        let cells = if rows.len() == 1 {
            concat_map(row, |c: Seq<char>| header_cell_html(c))
        } else {
            concat_map(row, |c: Seq<char>| data_cell_html(c))
        };
        rows_html(rows.drop_last()) + "<tr>"@ + cells + "</tr>\n"@
    }
}

pub open spec fn note_paragraph_html(p: Seq<char>) -> Seq<char> {
    "<p>"@ + inline_spec(unwrap_lines(p)) + "</p>"@
}

pub open spec fn list_html(ordered: bool, items: Seq<Seq<char>>) -> Seq<char> {
    if ordered {
        "<ol>\n"@ + concat_map(items, |i: Seq<char>| item_html(i)) + "</ol>\n"@
    } else {
        "<ul>\n"@ + concat_map(items, |i: Seq<char>| item_html(i)) + "</ul>\n"@
    }
}

pub open spec fn heading_html(level: u8, v: Seq<char>) -> Seq<char> {
    "<h"@ + decimal_text(level as nat) + ">"@ + inline_spec(v) + "</h"@ + decimal_text(level as nat)
        + ">\n"@
}

pub open spec fn code_block_html(lang: Seq<char>, body: Seq<char>) -> Seq<char> {
    "<pre><code"@ + (if lang.len() > 0 {
        " class=\"language-"@ + escape_spec(lang) + "\""@
    } else {
        seq![]
    }) + ">"@ + escape_spec(body) + "</code></pre>\n"@
}

pub open spec fn image_html(src: Seq<char>, alt: Seq<char>, caption: Option<Seq<char>>) -> Seq<char> {
    "<figure><img src=\""@ + escape_spec(src) + "\" alt=\""@ + escape_spec(alt) + "\">"@ + (match caption {
        Some(c) => "<figcaption>"@ + inline_spec(c) + "</figcaption>"@,
        None => seq![],
    }) + "</figure>\n"@
}

pub open spec fn note_html(title: Option<Seq<char>>, body: Seq<char>) -> Seq<char> {
    "<aside class=\"note\">"@ + (match title {
        Some(t) => "<p><strong>"@ + inline_spec(t) + "</strong></p>"@,
        None => seq![],
    }) + concat_map(split_paragraphs(body), |p: Seq<char>| note_paragraph_html(p)) + "</aside>\n"@
}

pub open spec fn reference_html(label: Seq<char>, title: Seq<char>, url: Seq<char>) -> Seq<char> {
    "<p id=\"ref-"@ + label + "\">["@ + label + "] <a href=\""@ + escape_spec(url) + "\">"@
        + escape_spec(title) + "</a></p>\n"@
}

/// The HTML of one block.
pub open spec fn block_html(b: SpecBlock) -> Seq<char> {
    match b {
        SpecBlock::Paragraph(v) => "<p>"@ + inline_spec(v) + "</p>\n"@,
        SpecBlock::Fields(fields) => "<dl>\n"@ + concat_map(fields, |p: (Seq<char>, Seq<char>)| field_html(p))
            + "</dl>\n"@,
        SpecBlock::Heading(level, v) => heading_html(level, v),
        SpecBlock::List(ordered, items) => list_html(ordered, items),
        SpecBlock::Code(lang, body) => code_block_html(lang, body),
        SpecBlock::Quote(v) => "<blockquote><p>"@ + inline_spec(unwrap_lines(v)) + "</p></blockquote>\n"@,
        SpecBlock::Image { src, alt, caption } => image_html(src, alt, caption),
        SpecBlock::Table(rows) => "<table>\n"@ + rows_html(rows) + "</table>\n"@,
        SpecBlock::Math(v) => "<div class=\"math\">"@ + math_html(v) + "</div>\n"@,
        SpecBlock::Note(title, body) => note_html(title, body),
        SpecBlock::Reference(label, title, url) => reference_html(label, title, url),
    }
}

/// The HTML of a document's blocks, in order.
pub open spec fn render_spec(d: SpecDocument) -> Seq<char> {
    concat_map(d.blocks, |b: SpecBlock| block_html(b))
}

/// Appends `inline_spec` of a string.
fn push_inline_str(out: &mut String, v: &String)
    ensures
        final(out)@ == old(out)@ + inline_spec(v@),
{
    let chars = chars_of(v.as_str());
    push_inline(out, chars.as_slice());
}

/// Appends `escape_spec` of a string.
fn push_escaped_str(out: &mut String, v: &String)
    ensures
        final(out)@ == old(out)@ + escape_spec(v@),
{
    let chars = chars_of(v.as_str());
    push_escaped(out, chars.as_slice());
}

/// `unwrap_lines` of a string.
fn unwrap_lines_exec(v: &[char]) -> (r: Vec<char>)
    ensures
        r@ == unwrap_lines(v@),
{
    let mut r: Vec<char> = Vec::new();
    let mut i: usize = 0;
    while i < v.len()
        invariant
            i <= v@.len(),
            r@ == unwrap_lines(v@.take(i as int)),
        decreases v@.len() - i,
    {
        let c = if v[i] == '\n' { ' ' } else { v[i] };
        r.push(c);
        i = i + 1;
        assert(r@ =~= unwrap_lines(v@.take(i as int)));
    }
    assert(v@.take(i as int) =~= v@);
    r
}

fn push_fields(out: &mut String, fields: &Vec<(String, String)>)
    ensures
        final(out)@ == old(out)@ + concat_map(crate::rst::ast::field_views(fields@), |p: (Seq<char>, Seq<char>)| field_html(p)),
{
    let ghost fs = crate::rst::ast::field_views(fields@);
    let ghost f = |p: (Seq<char>, Seq<char>)| field_html(p);
    let ghost start = out@;
    let mut i: usize = 0;
    assert(fs.take(0) =~= Seq::<(Seq<char>, Seq<char>)>::empty());
    assert(start + concat_map(fs.take(0), f) =~= start);
    while i < fields.len()
        invariant
            i <= fields@.len(),
            fs == crate::rst::ast::field_views(fields@),
            f == (|p: (Seq<char>, Seq<char>)| field_html(p)),
            out@ == start + concat_map(fs.take(i as int), f),
        decreases fields@.len() - i,
    {
        proof { lemma_concat_map_push(fs, f, i as int); }
        let (key, value) = &fields[i];
        out.append("<dt>");
        push_escaped_str(out, key);
        out.append("</dt><dd>");
        push_inline_str(out, value);
        out.append("</dd>\n");
        i = i + 1;
    }
    assert(fs.take(i as int) =~= fs);
}

fn push_items(out: &mut String, items: &Vec<String>)
    ensures
        final(out)@ == old(out)@ + concat_map(crate::rst::ast::string_views(items@), |i: Seq<char>| item_html(i)),
{
    let ghost its = crate::rst::ast::string_views(items@);
    let ghost f = |i: Seq<char>| item_html(i);
    let ghost start = out@;
    let mut i: usize = 0;
    assert(its.take(0) =~= Seq::<Seq<char>>::empty());
    assert(start + concat_map(its.take(0), f) =~= start);
    while i < items.len()
        invariant
            i <= items@.len(),
            its == crate::rst::ast::string_views(items@),
            f == (|i: Seq<char>| item_html(i)),
            out@ == start + concat_map(its.take(i as int), f),
        decreases items@.len() - i,
    {
        proof { lemma_concat_map_push(its, f, i as int); }
        out.append("<li>");
        push_inline_str(out, &items[i]);
        out.append("</li>\n");
        i = i + 1;
    }
    assert(its.take(i as int) =~= its);
}

fn push_cells(out: &mut String, cells: &Vec<String>, header: bool)
    ensures
        final(out)@ == old(out)@ + (if header {
            concat_map(crate::rst::ast::string_views(cells@), |c: Seq<char>| header_cell_html(c))
        } else {
            concat_map(crate::rst::ast::string_views(cells@), |c: Seq<char>| data_cell_html(c))
        }),
{
    let ghost cs = crate::rst::ast::string_views(cells@);
    let ghost f = if header {
        |c: Seq<char>| header_cell_html(c)
    } else {
        |c: Seq<char>| data_cell_html(c)
    };
    let ghost start = out@;
    let mut i: usize = 0;
    assert(cs.take(0) =~= Seq::<Seq<char>>::empty());
    assert(start + concat_map(cs.take(0), f) =~= start);
    while i < cells.len()
        invariant
            i <= cells@.len(),
            cs == crate::rst::ast::string_views(cells@),
            f == (if header {
                |c: Seq<char>| header_cell_html(c)
            } else {
                |c: Seq<char>| data_cell_html(c)
            }),
            out@ == start + concat_map(cs.take(i as int), f),
        decreases cells@.len() - i,
    {
        proof { lemma_concat_map_push(cs, f, i as int); }
        if header {
            out.append("<th>");
            push_inline_str(out, &cells[i]);
            out.append("</th>");
        } else {
            out.append("<td>");
            push_inline_str(out, &cells[i]);
            out.append("</td>");
        }
        i = i + 1;
    }
    assert(cs.take(i as int) =~= cs);
}

fn push_rows(out: &mut String, rows: &Vec<Vec<String>>)
    ensures
        final(out)@ == old(out)@ + rows_html(crate::rst::ast::row_views(rows@)),
{
    let ghost rs = crate::rst::ast::row_views(rows@);
    let ghost start = out@;
    let mut i: usize = 0;
    assert(rs.take(0) =~= Seq::<Seq<Seq<char>>>::empty());
    assert(start + rows_html(rs.take(0)) =~= start);
    while i < rows.len()
        invariant
            i <= rows@.len(),
            rs == crate::rst::ast::row_views(rows@),
            out@ == start + rows_html(rs.take(i as int)),
        decreases rows@.len() - i,
    {
        assert(rs.take(i + 1).drop_last() =~= rs.take(i as int));
        out.append("<tr>");
        push_cells(out, &rows[i], i == 0);
        out.append("</tr>\n");
        i = i + 1;
    }
    assert(rs.take(i as int) =~= rs);
}

/// The paragraphs of a note body, split at blank lines.
fn split_paragraphs_exec(v: &[char]) -> (r: Vec<Vec<char>>)
    ensures
        crate::text::views(r@) == split_paragraphs(v@),
{
    let pat = chars_of("\n\n");
    proof { reveal_strlit("\n\n"); }
    let n = v.len();
    let mut out: Vec<Vec<char>> = Vec::new();
    let mut start: usize = 0;
    assert(v@.skip(0) =~= v@);
    assert(crate::text::views(out@) + split_paragraphs(v@) =~= split_paragraphs(v@));
    loop
        invariant
            start <= n,
            n == v@.len(),
            pat@ == "\n\n"@,
            "\n\n"@.len() == 2,
            split_paragraphs(v@) == crate::text::views(out@) + split_paragraphs(v@.skip(start as int)),
        decreases n - start,
    {
        let ghost rest = v@.skip(start as int);
        let ghost before = crate::text::views(out@);
        match find_from(v, pat.as_slice(), start) {
            None => {
                out.push(crate::text::slice_vec(v, start, n));
                assert(v@.subrange(start as int, n as int) =~= rest);
                assert(crate::text::views(out@) =~= before + seq![rest]);
                return out;
            },
            Some(k) => {
                out.push(crate::text::slice_vec(v, start, k));
                assert(v@.subrange(start as int, k as int) =~= rest.take(k - start));
                assert(rest.skip(k - start + 2) =~= v@.skip(k + 2));
                assert(crate::text::views(out@) =~= before + seq![rest.take(k - start)]);
                assert(before + (seq![rest.take(k - start)] + split_paragraphs(v@.skip(k + 2))) =~= crate::text::views(out@) + split_paragraphs(v@.skip(k + 2)));
                start = k + 2;
            },
        }
    }
}

fn push_note_body(out: &mut String, body: &String)
    ensures
        final(out)@ == old(out)@ + concat_map(split_paragraphs(body@), |p: Seq<char>| note_paragraph_html(p)),
{
    let chars = chars_of(body.as_str());
    let parts = split_paragraphs_exec(chars.as_slice());
    let ghost ps = split_paragraphs(body@);
    let ghost f = |p: Seq<char>| note_paragraph_html(p);
    let ghost start = out@;
    let mut i: usize = 0;
    assert(ps.take(0) =~= Seq::<Seq<char>>::empty());
    assert(start + concat_map(ps.take(0), f) =~= start);
    while i < parts.len()
        invariant
            i <= parts@.len(),
            ps == crate::text::views(parts@),
            f == (|p: Seq<char>| note_paragraph_html(p)),
            out@ == start + concat_map(ps.take(i as int), f),
        decreases parts@.len() - i,
    {
        proof { lemma_concat_map_push(ps, f, i as int); }
        assert(parts[i as int]@ == ps[i as int]);
        out.append("<p>");
        let flat = unwrap_lines_exec(parts[i].as_slice());
        push_inline(out, flat.as_slice());
        out.append("</p>");
        i = i + 1;
    }
    assert(ps.take(i as int) =~= ps);
}

fn push_heading(out: &mut String, level: u8, value: &String)
    ensures
        final(out)@ == old(out)@ + heading_html(level, value@),
{
    let ghost start = out@;
    let digits = decimal(level as usize);
    out.append("<h");
    out.append(digits.as_str());
    out.append(">");
    push_inline_str(out, value);
    out.append("</h");
    out.append(digits.as_str());
    out.append(">\n");
    assert(out@ =~= start + heading_html(level, value@));
}

fn push_list(out: &mut String, ordered: bool, items: &Vec<String>)
    ensures
        final(out)@ == old(out)@ + list_html(ordered, crate::rst::ast::string_views(items@)),
{
    let ghost start = out@;
    if ordered {
        out.append("<ol>\n");
        push_items(out, items);
        out.append("</ol>\n");
    } else {
        out.append("<ul>\n");
        push_items(out, items);
        out.append("</ul>\n");
    }
    assert(out@ =~= start + list_html(ordered, crate::rst::ast::string_views(items@)));
}

fn push_code(out: &mut String, lang: &String, body: &String)
    ensures
        final(out)@ == old(out)@ + code_block_html(lang@, body@),
{
    let ghost start = out@;
    out.append("<pre><code");
    let ghost mid = out@;
    if !lang.as_str().is_empty() {
        out.append(" class=\"language-");
        push_escaped_str(out, lang);
        out.append("\"");
    }
    assert(out@ =~= mid + (if lang@.len() > 0 {
        " class=\"language-"@ + escape_spec(lang@) + "\""@
    } else {
        seq![]
    }));
    out.append(">");
    push_escaped_str(out, body);
    out.append("</code></pre>\n");
    assert(out@ =~= start + code_block_html(lang@, body@));
}

fn push_image(out: &mut String, src: &String, alt: &String, caption: &Option<String>)
    ensures
        final(out)@ == old(out)@ + image_html(src@, alt@, crate::rst::ast::option_view(*caption)),
{
    let ghost start = out@;
    out.append("<figure><img src=\"");
    push_escaped_str(out, src);
    out.append("\" alt=\"");
    push_escaped_str(out, alt);
    out.append("\">");
    let ghost mid = out@;
    match caption {
        Some(value) => {
            out.append("<figcaption>");
            push_inline_str(out, value);
            out.append("</figcaption>");
        },
        None => {},
    }
    assert(out@ =~= mid + (match crate::rst::ast::option_view(*caption) {
        Some(c) => "<figcaption>"@ + inline_spec(c) + "</figcaption>"@,
        None => seq![],
    }));
    out.append("</figure>\n");
    assert(out@ =~= start + image_html(src@, alt@, crate::rst::ast::option_view(*caption)));
}

fn push_note(out: &mut String, title: &Option<String>, body: &String)
    ensures
        final(out)@ == old(out)@ + note_html(crate::rst::ast::option_view(*title), body@),
{
    let ghost start = out@;
    out.append("<aside class=\"note\">");
    let ghost mid = out@;
    match title {
        Some(t) => {
            out.append("<p><strong>");
            push_inline_str(out, t);
            out.append("</strong></p>");
        },
        None => {},
    }
    assert(out@ =~= mid + (match crate::rst::ast::option_view(*title) {
        Some(t) => "<p><strong>"@ + inline_spec(t) + "</strong></p>"@,
        None => seq![],
    }));
    push_note_body(out, body);
    out.append("</aside>\n");
    assert(out@ =~= start + note_html(crate::rst::ast::option_view(*title), body@));
}

fn push_reference(out: &mut String, label: &String, title: &String, url: &String)
    ensures
        final(out)@ == old(out)@ + reference_html(label@, title@, url@),
{
    let ghost start = out@;
    out.append("<p id=\"ref-");
    out.append(label.as_str());
    out.append("\">[");
    out.append(label.as_str());
    out.append("] <a href=\"");
    push_escaped_str(out, url);
    out.append("\">");
    push_escaped_str(out, title);
    out.append("</a></p>\n");
    assert(out@ =~= start + reference_html(label@, title@, url@));
}

fn push_simple(out: &mut String, block: &Block)
    requires
        block is Paragraph || block is Fields || block is Quote || block is Table || block is Math,
    ensures
        final(out)@ == old(out)@ + block_html(block@),
{
    let ghost start = out@;
    match block {
        Block::Paragraph(value) => {
            out.append("<p>");
            push_inline_str(out, value);
            out.append("</p>\n");
            assert(out@ =~= start + block_html(block@));
        },
        Block::Fields(fields) => {
            out.append("<dl>\n");
            push_fields(out, fields);
            out.append("</dl>\n");
            assert(out@ =~= start + block_html(block@));
        },
        Block::Quote(value) => {
            out.append("<blockquote><p>");
            let chars = chars_of(value.as_str());
            let flat = unwrap_lines_exec(chars.as_slice());
            push_inline(out, flat.as_slice());
            out.append("</p></blockquote>\n");
            assert(out@ =~= start + block_html(block@));
        },
        Block::Table(rows) => {
            out.append("<table>\n");
            push_rows(out, rows);
            out.append("</table>\n");
            assert(out@ =~= start + block_html(block@));
        },
        Block::Math(value) => {
            out.append("<div class=\"math\">");
            out.append("<math display=\"block\">");
            let chars = chars_of(value.as_str());
            push_math_items(out, chars.as_slice());
            out.append("</math>");
            out.append("</div>\n");
            assert(out@ =~= start + block_html(block@));
        },
        _ => {},
    }
}

/// Appends the HTML of one block.
pub fn push_block(out: &mut String, block: &Block)
    ensures
        final(out)@ == old(out)@ + block_html(block@),
{
    match block {
        Block::Heading(level, value) => push_heading(out, *level, value),
        Block::List(ordered, items) => push_list(out, *ordered, items),
        Block::Code(lang, body) => push_code(out, lang, body),
        Block::Image { src, alt, caption } => push_image(out, src, alt, caption),
        Block::Note(title, body) => push_note(out, title, body),
        Block::Reference(label, title, url) => push_reference(out, label, title, url),
        _ => push_simple(out, block),
    }
}

/// Renders the blocks of a document to HTML, in order.
pub fn render_html(document: &Document) -> (r: String)
    ensures
        r@ == render_spec(document@),
{
    let ghost bs = document@.blocks;
    let ghost f = |b: SpecBlock| block_html(b);
    let mut out = String::new();
    let mut i: usize = 0;
    assert(bs.take(0) =~= Seq::<SpecBlock>::empty());
    while i < document.blocks.len()
        invariant
            i <= document.blocks@.len(),
            bs == document@.blocks,
            f == (|b: SpecBlock| block_html(b)),
            out@ == concat_map(bs.take(i as int), f),
        decreases document.blocks@.len() - i,
    {
        proof { lemma_concat_map_push(bs, f, i as int); }
        push_block(&mut out, &document.blocks[i]);
        i = i + 1;
    }
    assert(bs.take(i as int) =~= bs);
    out
}

/// A bullet list renders as `<ul>` and a numbered list as `<ol>`: the
/// list's HTML opens with the one tag and closes with it, whatever its
/// items, and a document of that one list renders to just that.
pub proof fn lists_render_in_their_own_tag(ordered: bool, items: Seq<Seq<char>>, title: Seq<char>)
    ensures
        ({
            let h = block_html(SpecBlock::List(ordered, items));
            let open = if ordered { "<ol>\n"@ } else { "<ul>\n"@ };
            let close = if ordered { "</ol>\n"@ } else { "</ul>\n"@ };
            &&& starts_with(h, open)
            &&& ends_with(h, close)
            &&& !ordered ==> h[1] == 'u'
            &&& ordered ==> h[1] == 'o'
            &&& render_spec(SpecDocument { title, blocks: seq![SpecBlock::List(ordered, items)] }) == h
        }),
{
    reveal_strlit("<ol>\n");
    reveal_strlit("<ul>\n");
    reveal_strlit("</ol>\n");
    reveal_strlit("</ul>\n");
    let h = block_html(SpecBlock::List(ordered, items));
    let body = concat_map(items, |i: Seq<char>| item_html(i));
    let open = if ordered { "<ol>\n"@ } else { "<ul>\n"@ };
    let close = if ordered { "</ol>\n"@ } else { "</ul>\n"@ };
    assert(h == open + body + close);
    assert(h.take(5) =~= open);
    assert(h.skip(h.len() - 6) =~= close);
    assert(h[1] == open[1]);
    let bs = seq![SpecBlock::List(ordered, items)];
    let f = |b: SpecBlock| block_html(b);
    assert(bs.drop_last() =~= Seq::<SpecBlock>::empty());
    assert(concat_map(bs, f) == concat_map(bs.drop_last(), f) + f(bs.last()));
    assert(concat_map(bs, f) =~= h);
}

} // verus!
