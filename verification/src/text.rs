//! Character-level helpers over `Seq<char>` and their executable counterparts.
//!
//! The spec functions here describe the `str` operations that the parser and
//! the renderers are built from (`trim`, `lines`, `starts_with`, `find`, ...)
//! on the model of text as a sequence of Unicode scalar values.

use vstd::prelude::*;

verus! {

// ---------------------------------------------------------------------------
// Character classes
// ---------------------------------------------------------------------------

pub open spec fn is_ascii_digit(c: char) -> bool {
    '0' <= c && c <= '9'
}

pub open spec fn is_ascii_lower(c: char) -> bool {
    'a' <= c && c <= 'z'
}

pub open spec fn is_ascii_upper(c: char) -> bool {
    'A' <= c && c <= 'Z'
}

pub open spec fn is_ascii_alnum(c: char) -> bool {
    is_ascii_digit(c) || is_ascii_lower(c) || is_ascii_upper(c)
}

/// `char::is_ascii_whitespace`: space, tab, line feed, form feed, carriage return.
pub open spec fn is_ascii_ws(c: char) -> bool {
    c == ' ' || c == '\t' || c == '\n' || c == '\x0C' || c == '\r'
}

/// `char::is_whitespace`: the Unicode `White_Space` property.
pub open spec fn is_ws(c: char) -> bool {
    let u = c as u32;
    ||| 0x09 <= u && u <= 0x0D
    ||| u == 0x20
    ||| u == 0x85
    ||| u == 0xA0
    ||| u == 0x1680
    ||| 0x2000 <= u && u <= 0x200A
    ||| u == 0x2028
    ||| u == 0x2029
    ||| u == 0x202F
    ||| u == 0x205F
    ||| u == 0x3000
}

/// `char::is_control`: the Unicode general category `Cc`.
pub open spec fn is_control(c: char) -> bool {
    let u = c as u32;
    u <= 0x1F || (0x7F <= u && u <= 0x9F)
}

/// What `char::is_alphanumeric` returns for `c` (the Unicode `Alphabetic`
/// or `Numeric` properties).
pub uninterp spec fn char_is_alphanumeric(c: char) -> bool;

/// `char::is_alphanumeric`. The contract names the result; of an ASCII
/// character it states what the standard library documents: exactly the
/// letters and the digits are alphanumeric.
#[verifier::external_body]
pub(crate) fn is_alphanumeric(c: char) -> (b: bool)
    ensures
        b == char_is_alphanumeric(c),
        (c as u32) < 128 ==> (b <==> is_ascii_alnum(c)),
{
    c.is_alphanumeric()
}

pub fn is_ascii_digit_exec(c: char) -> (b: bool)
    ensures
        b == is_ascii_digit(c),
{
    '0' <= c && c <= '9'
}

pub fn is_ascii_lower_exec(c: char) -> (b: bool)
    ensures
        b == is_ascii_lower(c),
{
    'a' <= c && c <= 'z'
}

pub fn is_ascii_alnum_exec(c: char) -> (b: bool)
    ensures
        b == is_ascii_alnum(c),
{
    ('0' <= c && c <= '9') || ('a' <= c && c <= 'z') || ('A' <= c && c <= 'Z')
}

pub fn is_ascii_ws_exec(c: char) -> (b: bool)
    ensures
        b == is_ascii_ws(c),
{
    c == ' ' || c == '\t' || c == '\n' || c == '\x0C' || c == '\r'
}

pub fn is_ws_exec(c: char) -> (b: bool)
    ensures
        b == is_ws(c),
{
    let u = c as u32;
    (0x09 <= u && u <= 0x0D) || u == 0x20 || u == 0x85 || u == 0xA0 || u == 0x1680
        || (0x2000 <= u && u <= 0x200A) || u == 0x2028 || u == 0x2029 || u == 0x202F
        || u == 0x205F || u == 0x3000
}

pub fn is_control_exec(c: char) -> (b: bool)
    ensures
        b == is_control(c),
{
    let u = c as u32;
    u <= 0x1F || (0x7F <= u && u <= 0x9F)
}

/// `char::to_ascii_lowercase`.
pub open spec fn to_ascii_lower(c: char) -> char {
    if is_ascii_upper(c) {
        ((c as u32) + 32) as char
    } else {
        c
    }
}

pub fn to_ascii_lower_exec(c: char) -> (r: char)
    ensures
        r == to_ascii_lower(c),
{
    if 'A' <= c && c <= 'Z' {
        let u: u32 = (c as u32) + 32;
        assert(0x61 <= u <= 0x7a);
        char_from_ascii(u)
    } else {
        c
    }
}

/// The character with the ASCII code point `u`.
fn char_from_ascii(u: u32) -> (c: char)
    requires
        u < 128,
    ensures
        c as u32 == u,
{
    let b: u8 = u as u8;
    b as char
}

// ---------------------------------------------------------------------------
// Sequences of characters
// ---------------------------------------------------------------------------

pub open spec fn starts_with(s: Seq<char>, p: Seq<char>) -> bool {
    p.len() <= s.len() && s.take(p.len() as int) == p
}

pub open spec fn ends_with(s: Seq<char>, p: Seq<char>) -> bool {
    p.len() <= s.len() && s.skip(s.len() - p.len()) == p
}

/// Whether `p` occurs in `s` at position `i`.
pub open spec fn occurs_at(s: Seq<char>, p: Seq<char>, i: int) -> bool {
    0 <= i && i + p.len() <= s.len() && s.subrange(i, i + p.len()) == p
}

/// `str::find`: the first position at which `p` occurs in `s`.
pub open spec fn find(s: Seq<char>, p: Seq<char>) -> Option<int>
    decreases s.len(),
{
    if starts_with(s, p) {
        Some(0)
    } else if s.len() == 0 {
        None
    } else {
        match find(s.drop_first(), p) {
            Some(i) => Some(i + 1),
            None => None,
        }
    }
}

/// `str::rfind`: the last position at which `p` occurs in `s`.
pub open spec fn rfind(s: Seq<char>, p: Seq<char>) -> Option<int>
    decreases s.len(),
{
    if s.len() < p.len() {
        None
    } else if ends_with(s, p) {
        Some(s.len() - p.len())
    } else if s.len() == 0 {
        None
    } else {
        rfind(s.drop_last(), p)
    }
}

/// Number of leading characters of `s` with the `White_Space` property.
pub open spec fn lead_ws(s: Seq<char>) -> nat
    decreases s.len(),
{
    if s.len() > 0 && is_ws(s[0]) {
        1 + lead_ws(s.drop_first())
    } else {
        0
    }
}

/// Number of trailing characters of `s` with the `White_Space` property.
pub open spec fn trail_ws(s: Seq<char>) -> nat
    decreases s.len(),
{
    if s.len() > 0 && is_ws(s.last()) {
        1 + trail_ws(s.drop_last())
    } else {
        0
    }
}

pub open spec fn trim_start(s: Seq<char>) -> Seq<char> {
    s.skip(lead_ws(s) as int)
}

pub open spec fn trim_end(s: Seq<char>) -> Seq<char> {
    s.take(s.len() - trail_ws(s))
}

/// `str::trim`.
pub open spec fn trim(s: Seq<char>) -> Seq<char> {
    trim_end(trim_start(s))
}

/// Whether every character of `s` is a space in the sense of `str::trim`
/// (so `trim(s)` is empty).
pub open spec fn is_blank(s: Seq<char>) -> bool {
    forall|i: int| 0 <= i < s.len() ==> is_ws(#[trigger] s[i])
}

/// Number of leading copies of `c` in `s`.
pub open spec fn lead_count(s: Seq<char>, c: char) -> nat
    decreases s.len(),
{
    if s.len() > 0 && s[0] == c {
        1 + lead_count(s.drop_first(), c)
    } else {
        0
    }
}

/// Number of trailing copies of `c` in `s`.
pub open spec fn trail_count(s: Seq<char>, c: char) -> nat
    decreases s.len(),
{
    if s.len() > 0 && s.last() == c {
        1 + trail_count(s.drop_last(), c)
    } else {
        0
    }
}

/// `str::trim_start_matches(c)`.
pub open spec fn trim_start_char(s: Seq<char>, c: char) -> Seq<char> {
    s.skip(lead_count(s, c) as int)
}

/// `str::trim_end_matches(c)`.
pub open spec fn trim_end_char(s: Seq<char>, c: char) -> Seq<char> {
    s.take(s.len() - trail_count(s, c))
}

/// `str::trim_matches(c)`.
pub open spec fn trim_char(s: Seq<char>, c: char) -> Seq<char> {
    trim_end_char(trim_start_char(s, c), c)
}

/// `str::lines`: the text split at `\n`, with a `\r` right before a `\n`
/// dropped, and no final empty line after a trailing line ending.
pub open spec fn lines(s: Seq<char>) -> Seq<Seq<char>>
    decreases s.len(),
{
    if s.len() == 0 {
        seq![]
    } else {
        proof {
            lemma_find_bounds(s, seq!['\n']);
        }
        match find(s, seq!['\n']) {
            None => seq![s],
            Some(k) => {
                let piece = s.take(k);
                let line = if k > 0 && piece.last() == '\r' {
                    piece.drop_last()
                } else {
                    piece
                };
                seq![line] + lines(s.skip(k + 1))
            },
        }
    }
}

/// The concatenation of `parts`, with `sep` between consecutive parts
/// (`[&str]::join`).
pub open spec fn join(parts: Seq<Seq<char>>, sep: Seq<char>) -> Seq<char>
    decreases parts.len(),
{
    if parts.len() == 0 {
        seq![]
    } else if parts.len() == 1 {
        parts[0]
    } else {
        parts[0] + sep + join(parts.drop_first(), sep)
    }
}

/// The concatenation of all `parts`.
pub open spec fn concat(parts: Seq<Seq<char>>) -> Seq<char>
    decreases parts.len(),
{
    if parts.len() == 0 {
        seq![]
    } else {
        parts[0] + concat(parts.drop_first())
    }
}

// ---------------------------------------------------------------------------
// Lemmas
// ---------------------------------------------------------------------------

pub proof fn lemma_find_bounds(s: Seq<char>, p: Seq<char>)
    ensures
        find(s, p) matches Some(i) ==> occurs_at(s, p, i),
        find(s, p) matches Some(i) ==> forall|j: int| 0 <= j < i ==> !occurs_at(s, p, j),
        find(s, p) is None ==> forall|j: int| !occurs_at(s, p, j),
    decreases s.len(),
{
    if starts_with(s, p) {
        assert(s.subrange(0, p.len() as int) == s.take(p.len() as int));
    } else if s.len() == 0 {
        assert forall|j: int| !occurs_at(s, p, j) by {
            if occurs_at(s, p, j) {
                assert(j == 0 && p.len() == 0);
                assert(s.take(0) =~= p);
            }
        }
    } else {
        lemma_find_bounds(s.drop_first(), p);
        let t = s.drop_first();
        assert(!occurs_at(s, p, 0)) by {
            if occurs_at(s, p, 0) {
                assert(s.take(p.len() as int) =~= s.subrange(0, p.len() as int));
            }
        }
        assert forall|j: int| 1 <= j && occurs_at(s, p, j) implies occurs_at(t, p, j - 1) by {
            assert(t.subrange(j - 1, j - 1 + p.len()) =~= s.subrange(j, j + p.len()));
        }
        assert forall|j: int| 0 <= j && occurs_at(t, p, j) implies occurs_at(s, p, j + 1) by {
            assert(t.subrange(j, j + p.len()) =~= s.subrange(j + 1, j + 1 + p.len()));
        }
    }
}

pub proof fn lemma_occurs_unique_first(s: Seq<char>, p: Seq<char>, i: int)
    requires
        occurs_at(s, p, i),
        forall|j: int| 0 <= j < i ==> !occurs_at(s, p, j),
    ensures
        find(s, p) == Some(i),
{
    lemma_find_bounds(s, p);
    match find(s, p) {
        Some(k) => {
            if k < i {
            } else if k > i {
            }
        },
        None => {},
    }
}

pub proof fn lemma_lead_ws_bound(s: Seq<char>)
    ensures
        lead_ws(s) <= s.len(),
        forall|i: int| 0 <= i < lead_ws(s) ==> is_ws(#[trigger] s[i]),
        lead_ws(s) < s.len() ==> !is_ws(s[lead_ws(s) as int]),
    decreases s.len(),
{
    if s.len() > 0 && is_ws(s[0]) {
        lemma_lead_ws_bound(s.drop_first());
        assert forall|i: int| 0 <= i < lead_ws(s) implies is_ws(#[trigger] s[i]) by {
            if i > 0 {
                assert(s[i] == s.drop_first()[i - 1]);
            }
        }
    }
}

pub proof fn lemma_trail_ws_bound(s: Seq<char>)
    ensures
        trail_ws(s) <= s.len(),
        forall|i: int| s.len() - trail_ws(s) <= i < s.len() ==> is_ws(#[trigger] s[i]),
        trail_ws(s) < s.len() ==> !is_ws(s[s.len() - trail_ws(s) - 1]),
    decreases s.len(),
{
    if s.len() > 0 && is_ws(s.last()) {
        lemma_trail_ws_bound(s.drop_last());
        assert forall|i: int| s.len() - trail_ws(s) <= i < s.len() implies is_ws(#[trigger] s[i]) by {
            if i < s.len() - 1 {
                assert(s[i] == s.drop_last()[i]);
            }
        }
    }
}

/// A sequence is blank exactly when trimming leaves nothing.
pub proof fn lemma_trim_empty(s: Seq<char>)
    ensures
        trim(s).len() == 0 <==> is_blank(s),
        trim_start(s).len() == 0 <==> is_blank(s),
{
    lemma_lead_ws_bound(s);
    let t = trim_start(s);
    lemma_trail_ws_bound(t);
    if is_blank(s) {
        if lead_ws(s) < s.len() {
            assert(is_ws(s[lead_ws(s) as int]));
        }
    }
    if t.len() == 0 {
        assert forall|i: int| 0 <= i < s.len() implies is_ws(#[trigger] s[i]) by {}
    }
    if trim(s).len() == 0 && t.len() > 0 {
        assert(is_ws(t[0]));
        assert(t[0] == s[lead_ws(s) as int]);
    }
}

/// The first `c` of `a + [c] + rest`, where `a` holds none, is right
/// after `a`.
pub proof fn lemma_find_char_first(a: Seq<char>, c: char, rest: Seq<char>)
    requires
        !a.contains(c),
    ensures
        find(a + seq![c] + rest, seq![c]) == Some(a.len() as int),
{
    let s = a + seq![c] + rest;
    assert(s.subrange(a.len() as int, a.len() as int + 1) =~= seq![c]);
    assert forall|j: int| 0 <= j < a.len() implies !occurs_at(s, seq![c], j) by {
        if occurs_at(s, seq![c], j) {
            assert(s.subrange(j, j + 1)[0] == s[j]);
            assert(s[j] == a[j]);
        }
    }
    lemma_occurs_unique_first(s, seq![c], a.len() as int);
}

/// A line without a line break, followed by `\n`, is the first of the
/// lines.
pub proof fn lemma_lines_cons(a: Seq<char>, rest: Seq<char>)
    requires
        !a.contains('\n'),
        a.len() == 0 || a.last() != '\r',
    ensures
        lines(a + seq!['\n'] + rest) == seq![a] + lines(rest),
{
    let s = a + seq!['\n'] + rest;
    lemma_find_char_first(a, '\n', rest);
    assert(s.take(a.len() as int) =~= a);
    assert(s.skip(a.len() as int + 1) =~= rest);
}

/// Text without spaces at either end trims to itself, also after a space.
pub proof fn lemma_trim_plain(s: Seq<char>)
    requires
        forall|i: int| 0 <= i < s.len() ==> !is_ws(#[trigger] s[i]),
    ensures
        trim(s) == s,
        trim(seq![' '] + s) == s,
{
    let t = seq![' '] + s;
    assert(lead_ws(s) == 0) by {
        if s.len() > 0 {
            assert(!is_ws(s[0]));
        }
    }
    assert(s.skip(0) =~= s);
    assert(trail_ws(s) == 0) by {
        if s.len() > 0 {
            assert(!is_ws(s[s.len() - 1]));
        }
    }
    assert(s.take(s.len() as int) =~= s);
    assert(is_ws(' '));
    assert(t.drop_first() =~= s);
    assert(lead_ws(t) == 1);
}

// ---------------------------------------------------------------------------
// Executable helpers
// ---------------------------------------------------------------------------

/// Appends one character to a `String` (`String::push`).
#[verifier::external_body]
pub(crate) fn push_char(s: &mut String, c: char)
    ensures
        final(s)@ == old(s)@.push(c),
{
    s.push(c);
}

/// The characters of a string slice, in order.
pub fn chars_of(s: &str) -> (res: Vec<char>)
    ensures
        res@ == s@,
{
    let mut res: Vec<char> = Vec::new();
    for c in it: s.chars()
        invariant
            res@ == it.seq().take(it.index() as int),
            it.seq() == s@,
    {
        res.push(c);
    }
    assert(res@ == s@.take(s@.len() as int));
    res
}

/// Appends the characters of `s` to `out`.
pub fn push_chars(out: &mut String, s: &[char])
    ensures
        final(out)@ == old(out)@ + s@,
{
    let mut i: usize = 0;
    while i < s.len()
        invariant
            i <= s@.len(),
            out@ == old(out)@ + s@.take(i as int),
        decreases s@.len() - i,
    {
        push_char(out, s[i]);
        i = i + 1;
        assert(s@.take(i as int) =~= s@.take(i - 1) + seq![s@[i - 1]]);
    }
    assert(s@.take(i as int) =~= s@);
}

/// A `String` holding the characters `s`.
pub fn string_of(s: &[char]) -> (res: String)
    ensures
        res@ == s@,
{
    let mut res = String::new();
    push_chars(&mut res, s);
    res
}

/// The characters `s[lo..hi]`, as a new vector.
pub fn slice_vec(s: &[char], lo: usize, hi: usize) -> (res: Vec<char>)
    requires
        lo <= hi <= s@.len(),
    ensures
        res@ == s@.subrange(lo as int, hi as int),
{
    let mut res: Vec<char> = Vec::new();
    let mut i = lo;
    while i < hi
        invariant
            lo <= i <= hi <= s@.len(),
            res@ == s@.subrange(lo as int, i as int),
        decreases hi - i,
    {
        res.push(s[i]);
        i = i + 1;
        assert(res@ =~= s@.subrange(lo as int, i as int));
    }
    res
}

/// Whether `p` occurs in `s` at position `i`.
pub fn occurs_at_exec(s: &[char], p: &[char], i: usize) -> (b: bool)
    ensures
        b == occurs_at(s@, p@, i as int),
{
    if i > s.len() || s.len() - i < p.len() {
        return false;
    }
    let n = s.len();
    let mut k: usize = 0;
    while k < p.len()
        invariant
            n == s@.len(),
            i + p@.len() <= s@.len(),
            k <= p@.len(),
            forall|j: int| 0 <= j < k ==> s@[i + j] == p@[j],
        decreases p@.len() - k,
    {
        assert(i + k < s@.len());
        if s[i + k] != p[k] {
            assert(s@.subrange(i as int, i + p@.len())[k as int] != p@[k as int]);
            return false;
        }
        k = k + 1;
    }
    assert(s@.subrange(i as int, i + p@.len()) =~= p@);
    true
}

pub fn starts_with_exec(s: &[char], p: &[char]) -> (b: bool)
    ensures
        b == starts_with(s@, p@),
{
    let b = occurs_at_exec(s, p, 0);
    assert(b ==> s@.take(p@.len() as int) =~= s@.subrange(0, p@.len() as int));
    assert(starts_with(s@, p@) ==> s@.take(p@.len() as int) =~= s@.subrange(0, p@.len() as int));
    b
}

pub fn ends_with_exec(s: &[char], p: &[char]) -> (b: bool)
    ensures
        b == ends_with(s@, p@),
{
    if s.len() < p.len() {
        return false;
    }
    let b = occurs_at_exec(s, p, s.len() - p.len());
    assert(s@.skip(s@.len() - p@.len()) =~= s@.subrange(s@.len() - p@.len(), s@.len() as int));
    b
}

/// `find` of `p` in `s[from..]`, as a position in `s`.
pub fn find_from(s: &[char], p: &[char], from: usize) -> (r: Option<usize>)
    requires
        from <= s@.len(),
    ensures
        r matches Some(i) ==> find(s@.skip(from as int), p@) == Some(i - from) && from <= i,
        r is None ==> find(s@.skip(from as int), p@) is None,
        r matches Some(i) ==> occurs_at(s@, p@, i as int),
{
    let ghost t = s@.skip(from as int);
    let n = s.len();
    let mut i = from;
    loop
        invariant
            from <= i <= n,
            n == s@.len(),
            t == s@.skip(from as int),
            forall|j: int| from <= j < i ==> !occurs_at(s@, p@, j),
        ensures
            forall|j: int| from <= j <= n ==> !occurs_at(s@, p@, j),
        decreases n - i,
    {
        if occurs_at_exec(s, p, i) {
            proof {
                assert forall|j: int| 0 <= j < i - from implies !occurs_at(t, p@, j) by {
                    if occurs_at(t, p@, j) {
                        assert(t.subrange(j, j + p@.len()) =~= s@.subrange(from + j, from + j + p@.len()));
                        assert(occurs_at(s@, p@, from + j));
                    }
                }
                assert(t.subrange(i - from, i - from + p@.len()) =~= s@.subrange(i as int, i + p@.len()));
                lemma_occurs_unique_first(t, p@, i - from);
            }
            return Some(i);
        }
        if i >= n {
            break;
        }
        i = i + 1;
    }
    proof {
        lemma_find_bounds(t, p@);
        if find(t, p@) is Some {
            let k = find(t, p@)->0;
            assert(t.subrange(k, k + p@.len()) =~= s@.subrange(from + k, from + k + p@.len()));
            assert(!occurs_at(s@, p@, from + k));
        }
    }
    None
}

/// Index of the last occurrence of `p` in `s`.
pub fn rfind_exec(s: &[char], p: &[char]) -> (r: Option<usize>)
    ensures
        r matches Some(i) ==> rfind(s@, p@) == Some(i as int),
        r matches Some(i) ==> occurs_at(s@, p@, i as int),
        r is None ==> rfind(s@, p@) is None,
{
    if s.len() < p.len() {
        return None;
    }
    let mut end = s.len();
    assert(s@.take(end as int) =~= s@);
    while end >= p.len()
        invariant
            p@.len() <= s@.len(),
            end <= s@.len(),
            rfind(s@, p@) == rfind(s@.take(end as int), p@),
        decreases end,
    {
        let ghost t = s@.take(end as int);
        if occurs_at_exec(s, p, end - p.len()) {
            assert(t.skip(t.len() - p@.len()) =~= s@.subrange(end - p@.len(), end as int));
            return Some(end - p.len());
        }
        assert(!ends_with(t, p@)) by {
            if ends_with(t, p@) {
                assert(t.skip(t.len() - p@.len()) =~= s@.subrange(end - p@.len(), end as int));
            }
        }
        if end == 0 {
            assert(p@.len() == 0);
            assert(t.skip(0) =~= p@);
            return None;
        }
        assert(t.drop_last() =~= s@.take(end - 1));
        end = end - 1;
    }
    None
}

/// `lead_ws` of `s[lo..hi]`.
pub fn lead_ws_exec(s: &[char], lo: usize, hi: usize) -> (n: usize)
    requires
        lo <= hi <= s@.len(),
    ensures
        n == lead_ws(s@.subrange(lo as int, hi as int)),
{
    let ghost t = s@.subrange(lo as int, hi as int);
    let mut i = lo;
    while i < hi && is_ws_exec(s[i])
        invariant
            lo <= i <= hi <= s@.len(),
            lead_ws(t) == (i - lo) + lead_ws(s@.subrange(i as int, hi as int)),
        decreases hi - i,
    {
        assert(s@.subrange(i as int, hi as int).drop_first() =~= s@.subrange(i + 1, hi as int));
        i = i + 1;
    }
    i - lo
}

/// `trail_ws` of `s[lo..hi]`.
pub fn trail_ws_exec(s: &[char], lo: usize, hi: usize) -> (n: usize)
    requires
        lo <= hi <= s@.len(),
    ensures
        n == trail_ws(s@.subrange(lo as int, hi as int)),
{
    let ghost t = s@.subrange(lo as int, hi as int);
    let mut j = hi;
    while j > lo && is_ws_exec(s[j - 1])
        invariant
            lo <= j <= hi <= s@.len(),
            trail_ws(t) == (hi - j) + trail_ws(s@.subrange(lo as int, j as int)),
        decreases j - lo,
    {
        assert(s@.subrange(lo as int, j as int).drop_last() =~= s@.subrange(lo as int, j - 1));
        j = j - 1;
    }
    hi - j
}

/// The bounds of `trim(s[lo..hi])` within `s`.
pub fn trim_bounds(s: &[char], lo: usize, hi: usize) -> (r: (usize, usize))
    requires
        lo <= hi <= s@.len(),
    ensures
        lo <= r.0 <= r.1 <= hi,
        s@.subrange(r.0 as int, r.1 as int) == trim(s@.subrange(lo as int, hi as int)),
{
    let ghost t = s@.subrange(lo as int, hi as int);
    let a = lead_ws_exec(s, lo, hi);
    proof { lemma_lead_ws_bound(t); }
    let b = trail_ws_exec(s, lo + a, hi);
    proof {
        assert(trim_start(t) =~= s@.subrange(lo + a, hi as int));
        lemma_trail_ws_bound(trim_start(t));
        assert(trim(t) =~= s@.subrange(lo + a, hi - b));
    }
    (lo + a, hi - b)
}

/// `trim(s)` as a new vector.
pub fn trim_exec(s: &[char]) -> (r: Vec<char>)
    ensures
        r@ == trim(s@),
{
    let (a, b) = trim_bounds(s, 0, s.len());
    assert(s@.subrange(0, s@.len() as int) =~= s@);
    slice_vec(s, a, b)
}

/// Whether `trim(s)` is empty.
pub fn is_blank_exec(s: &[char]) -> (b: bool)
    ensures
        b == is_blank(s@),
        b == (trim(s@).len() == 0),
{
    proof { lemma_trim_empty(s@); }
    let mut i: usize = 0;
    while i < s.len()
        invariant
            i <= s@.len(),
            forall|j: int| 0 <= j < i ==> is_ws(#[trigger] s@[j]),
        decreases s@.len() - i,
    {
        if !is_ws_exec(s[i]) {
            assert(!is_ws(s@[i as int]));
            assert(!is_blank(s@));
            proof { lemma_trim_empty(s@); }
            return false;
        }
        i = i + 1;
    }
    true
}

/// The views of a sequence of character vectors.
pub open spec fn views(v: Seq<Vec<char>>) -> Seq<Seq<char>> {
    v.map_values(|l: Vec<char>| l@)
}

/// `str::lines` on the characters of `s`.
pub fn lines_of(s: &[char]) -> (res: Vec<Vec<char>>)
    ensures
        views(res@) == lines(s@),
{
    let mut res: Vec<Vec<char>> = Vec::new();
    let mut start: usize = 0;
    let nl = ['\n'];
    assert(nl@ =~= seq!['\n']);
    assert(s@.skip(0) =~= s@);
    assert(views(res@) =~= Seq::<Seq<char>>::empty());
    while start < s.len()
        invariant
            start <= s@.len(),
            nl@ == seq!['\n'],
            lines(s@) == views(res@) + lines(s@.skip(start as int)),
        decreases s@.len() - start,
    {
        let ghost t = s@.skip(start as int);
        let ghost before = views(res@);
        match find_from(s, nl.as_slice(), start) {
            None => {
                assert(lines(t) == seq![t]);
                res.push(slice_vec(s, start, s.len()));
                assert(s@.subrange(start as int, s@.len() as int) =~= t);
                assert(views(res@) =~= before + seq![t]);
                start = s.len();
                assert(lines(s@.skip(start as int)) =~= Seq::<Seq<char>>::empty());
                assert(lines(s@) =~= views(res@) + lines(s@.skip(start as int)));
            },
            Some(k) => {
                let rel: usize = k - start;
                let line_end = if rel > 0 && s[k - 1] == '\r' { k - 1 } else { k };
                let line = slice_vec(s, start, line_end);
                proof {
                    let piece = t.take(rel as int);
                    assert(piece =~= s@.subrange(start as int, k as int));
                    if rel > 0 && s@[k - 1] == '\r' {
                        assert(piece.drop_last() =~= line@);
                    } else {
                        assert(piece =~= line@);
                    }
                    assert(t.skip(rel + 1) =~= s@.skip(k + 1));
                    assert(lines(t) == seq![line@] + lines(s@.skip(k + 1)));
                }
                res.push(line);
                assert(views(res@) =~= before + seq![line@]);
                start = k + 1;
                assert(lines(s@) =~= views(res@) + lines(s@.skip(start as int)));
            },
        }
    }
    assert(lines(s@.skip(start as int)) =~= Seq::<Seq<char>>::empty());
    assert(lines(s@) =~= views(res@));
    res
}

/// Joining one more part onto a nonempty joined prefix.
pub proof fn lemma_join_push(parts: Seq<Seq<char>>, sep: Seq<char>, k: int)
    requires
        1 <= k < parts.len(),
    ensures
        join(parts.take(k + 1), sep) == join(parts.take(k), sep) + sep + parts[k],
    decreases k,
{
    let a = parts.take(k + 1);
    let b = parts.take(k);
    if k == 1 {
        assert(a.drop_first() =~= seq![parts[1]]);
        assert(join(a.drop_first(), sep) == parts[1]);
        assert(b =~= seq![parts[0]]);
    } else {
        let t = parts.drop_first();
        lemma_join_push(t, sep, k - 1);
        assert(a.drop_first() =~= t.take(k));
        assert(b.drop_first() =~= t.take(k - 1));
        assert(t.take(k - 1).len() >= 1);
        if k - 1 == 1 {
        }
        assert(join(b, sep) == b[0] + sep + join(b.drop_first(), sep));
    }
}

/// `join` of the parts, as a new vector.
pub fn join_exec(parts: &Vec<Vec<char>>, sep: &[char]) -> (r: Vec<char>)
    ensures
        r@ == join(views(parts@), sep@),
{
    let ghost ps = views(parts@);
    let mut out: Vec<char> = Vec::new();
    if parts.len() == 0 {
        return out;
    }
    out.extend_from_slice(parts[0].as_slice());
    assert(ps.take(1) =~= seq![ps[0]]);
    let mut k: usize = 1;
    while k < parts.len()
        invariant
            1 <= k <= parts@.len(),
            ps == views(parts@),
            out@ == join(ps.take(k as int), sep@),
        decreases parts@.len() - k,
    {
        proof { lemma_join_push(ps, sep@, k as int); }
        out.extend_from_slice(sep);
        out.extend_from_slice(parts[k].as_slice());
        k = k + 1;
    }
    assert(ps.take(k as int) =~= ps);
    out
}

/// The bounds of `trim_char(s[lo..hi], c)` within `s`.
pub fn trim_char_bounds(s: &[char], lo: usize, hi: usize, c: char) -> (r: (usize, usize))
    requires
        lo <= hi <= s@.len(),
    ensures
        lo <= r.0 <= r.1 <= hi,
        s@.subrange(r.0 as int, r.1 as int) == trim_char(s@.subrange(lo as int, hi as int), c),
{
    let ghost t = s@.subrange(lo as int, hi as int);
    let mut i = lo;
    while i < hi && s[i] == c
        invariant
            lo <= i <= hi <= s@.len(),
            lead_count(t, c) == (i - lo) + lead_count(s@.subrange(i as int, hi as int), c),
        decreases hi - i,
    {
        assert(s@.subrange(i as int, hi as int).drop_first() =~= s@.subrange(i + 1, hi as int));
        i = i + 1;
    }
    assert(trim_start_char(t, c) =~= s@.subrange(i as int, hi as int));
    let ghost u = s@.subrange(i as int, hi as int);
    let mut j = hi;
    while j > i && s[j - 1] == c
        invariant
            i <= j <= hi <= s@.len(),
            trail_count(u, c) == (hi - j) + trail_count(s@.subrange(i as int, j as int), c),
        decreases j - i,
    {
        assert(s@.subrange(i as int, j as int).drop_last() =~= s@.subrange(i as int, j - 1));
        j = j - 1;
    }
    assert(trim_end_char(u, c) =~= s@.subrange(i as int, j as int));
    (i, j)
}

/// A text has at most as many lines as characters.
pub proof fn lemma_lines_len(s: Seq<char>)
    ensures
        lines(s).len() <= s.len(),
    decreases s.len(),
{
    if s.len() > 0 {
        lemma_find_bounds(s, seq!['\n']);
        match find(s, seq!['\n']) {
            Some(k) => {
                lemma_lines_len(s.skip(k + 1));
            },
            None => {},
        }
    }
}

/// What `{:?}` writes for a string: the text in double quotes, with the
/// characters that `str::escape_debug` escapes escaped.
pub uninterp spec fn debug_str(s: Seq<char>) -> Seq<char>;

/// The `Debug` text of a string slice (`<str as Debug>::fmt`).
#[verifier::external_body]
pub(crate) fn debug_quoted(s: &str) -> (r: String)
    ensures
        r@ == debug_str(s@),
{
    format!("{s:?}")
}

pub proof fn lemma_join_split(a: Seq<Seq<char>>, b: Seq<Seq<char>>, sep: Seq<char>)
    requires
        a.len() > 0,
        b.len() > 0,
    ensures
        join(a + b, sep) == join(a, sep) + sep + join(b, sep),
    decreases a.len(),
{
    if a.len() == 1 {
        assert((a + b).drop_first() =~= b);
    } else {
        lemma_join_split(a.drop_first(), b, sep);
        assert((a + b).drop_first() =~= a.drop_first() + b);
    }
}

pub proof fn lemma_join_drop_first_len(m: Seq<Seq<char>>, sep: Seq<char>)
    requires
        m.len() > 0,
    ensures
        join(m.drop_first(), sep).len() <= join(m, sep).len(),
{
}

pub proof fn lemma_join_skip_len(m: Seq<Seq<char>>, sep: Seq<char>, i: int, j: int)
    requires
        0 <= i <= j <= m.len(),
    ensures
        join(m.skip(j), sep).len() <= join(m.skip(i), sep).len(),
    decreases j - i,
{
    if i < j {
        lemma_join_skip_len(m, sep, i + 1, j);
        lemma_join_drop_first_len(m.skip(i), sep);
        assert(m.skip(i).drop_first() =~= m.skip(i + 1));
    }
}

/// Joining the lines of a text gives back at most as many characters.
pub proof fn lemma_join_lines_len(s: Seq<char>)
    ensures
        join(lines(s), "\n"@).len() <= s.len(),
    decreases s.len(),
{
    reveal_strlit("\n");
    if s.len() > 0 {
        lemma_find_bounds(s, seq!['\n']);
        match find(s, seq!['\n']) {
            Some(k) => {
                let rest = s.skip(k + 1);
                lemma_join_lines_len(rest);
                let l = lines(s);
                assert(l.drop_first() =~= lines(rest));
                if lines(rest).len() == 0 {
                } else {
                    assert(join(l, "\n"@) == l[0] + "\n"@ + join(lines(rest), "\n"@));
                }
            },
            None => {},
        }
    }
}

/// The decimal digits of `n`, most significant first, with no leading zero.
pub open spec fn decimal_text(n: nat) -> Seq<char>
    decreases n,
{
    if n < 10 {
        seq![(('0' as u32) + n) as char]
    } else {
        decimal_text(n / 10) + seq![(('0' as u32) + (n % 10)) as char]
    }
}

/// The decimal digit of `d`.
pub fn digit_char(d: usize) -> (c: char)
    requires
        d < 10,
    ensures
        c == (('0' as u32) + d) as char,
{
    let u: u32 = 48 + (d as u32);
    char_from_ascii(u)
}

/// `n` written in decimal.
pub fn decimal(n: usize) -> (r: String)
    ensures
        r@ == decimal_text(n as nat),
    decreases n,
{
    if n < 10 {
        let mut r = String::new();
        push_char(&mut r, digit_char(n));
        assert(r@ =~= decimal_text(n as nat));
        r
    } else {
        let mut r = decimal(n / 10);
        push_char(&mut r, digit_char(n % 10));
        r
    }
}

} // verus!
