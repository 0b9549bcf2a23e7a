//! Parsing of the reStructuredText subset.
//!
//! The spec functions of this module define what a source text parses to,
//! line by line; `parse` is proved to return exactly that document, or the
//! error at exactly the line and with exactly the message they define.

use vstd::prelude::*;
use crate::error::{Error, SpecError};
use crate::rst::ast::{
    block_views, field_views, row_views, string_views, Block, Document, SpecBlock,
    SpecDocument,
};
use crate::text::{
    chars_of, ends_with_exec, find_from, is_ascii_alnum_exec, is_ascii_digit_exec, is_control_exec,
    is_blank_exec, is_alphanumeric, lemma_lines_len, lines_of, lemma_trail_ws_bound, trail_ws_exec, is_ws_exec, join_exec, rfind_exec, slice_vec,
    starts_with_exec, trim_char_bounds, string_of, trim_bounds, trim_exec, views, char_is_alphanumeric, ends_with, find, is_ascii_alnum, is_ascii_digit, is_blank, is_control,
    is_ws, join, lemma_find_bounds, lemma_trim_empty, lines, rfind, starts_with, trim, trim_char,
    trim_end, trim_end_char, trail_count,
};

verus! {

// ---------------------------------------------------------------------------
// Specification
// ---------------------------------------------------------------------------

/// A parse failure: the 1-based line number and the message.
pub struct Failure {
    pub line: nat,
    pub message: Seq<char>,
}

pub open spec fn fail_at(line: int, message: Seq<char>) -> Failure {
    Failure { line: line as nat, message }
}

/// The character that a section rule is drawn with, if `line` is one: three
/// or more copies of one of `=`, `-`, `~`, `^`, with surrounding space.
pub open spec fn rule(line: Seq<char>) -> Option<char> {
    let s = trim(line);
    if s.len() >= 3 && (s[0] == '=' || s[0] == '-' || s[0] == '~' || s[0] == '^') && (forall|
        i: int,
    |
        0 <= i < s.len() ==> #[trigger] s[i] == s[0]) {
        Some(s[0])
    } else {
        None
    }
}

/// Whether a hyperlink target may be emitted: nonempty, free of control
/// characters and backslashes, and either an `http(s)` or `mailto` URL, a
/// fragment, or a relative reference without a scheme.
pub open spec fn safe_href(t: Seq<char>) -> bool {
    &&& t.len() > 0
    &&& forall|i: int| 0 <= i < t.len() ==> !is_control(#[trigger] t[i]) && t[i] != '\\'
    &&& {
        ||| starts_with(t, "https://"@)
        ||| starts_with(t, "http://"@)
        ||| starts_with(t, "mailto:"@)
        ||| (starts_with(t, "#"@) && !starts_with(t, "##"@))
        ||| (!starts_with(t, "/"@) && !starts_with(t, "//"@) && !t.contains(':'))
    }
}

/// Plain `http://` and `https://` targets are accepted: a target that
/// starts with either and holds no control character and no backslash is
/// safe. Targets with a `javascript:` scheme are refused.
pub proof fn web_links_are_safe(t: Seq<char>)
    ensures
        (starts_with(t, "http://"@) || starts_with(t, "https://"@)) && (forall|i: int|
            0 <= i < t.len() ==> !is_control(#[trigger] t[i]) && t[i] != '\\') ==> safe_href(t),
        starts_with(t, "javascript:"@) ==> !safe_href(t),
{
    reveal_strlit("http://");
    reveal_strlit("https://");
    reveal_strlit("javascript:");
    reveal_strlit("mailto:");
    reveal_strlit("#");
    reveal_strlit("/");
    if starts_with(t, "javascript:"@) {
        assert(t.take(11) =~= "javascript:"@);
        assert(t.take(11)[10] == t[10]);
        assert("javascript:"@[10] == ':');
        assert(t[10] == ':');
        assert(t.contains(':'));
        assert(t.take(8)[0] == t[0]);
        assert(t.take(7)[0] == t[0]);
        assert(t.take(1)[0] == t[0]);
    }
    if starts_with(t, "http://"@) {
        assert(t.take(7)[0] == t[0]);
    }
    if starts_with(t, "https://"@) {
        assert(t.take(8)[0] == t[0]);
    }
}

/// The target of a hyperlink `label <target>`: what follows the last ` <`,
/// which must end with `>`.
pub open spec fn link_target(link: Seq<char>) -> Option<Seq<char>> {
    match rfind(link, " <"@) {
        Some(k) => {
            let tail = link.skip(k + 2);
            if ends_with(tail, ">"@) {
                Some(tail.drop_last())
            } else {
                None
            }
        },
        None => None,
    }
}

/// The first hyperlink problem in `rest`, scanning backquoted spans from
/// left to right: a span closed by `` `_ `` is a hyperlink and needs a safe
/// target; one closed by a plain backquote is skipped.
pub open spec fn link_problem(rest: Seq<char>) -> Option<Seq<char>>
    decreases rest.len(),
{
    proof {
        reveal_strlit("`");
        reveal_strlit("`_");
        lemma_find_bounds(rest, "`"@);
    }
    match find(rest, "`"@) {
        None => None,
        Some(start) => {
            let r = rest.skip(start + 1);
            proof {
                lemma_find_bounds(r, "`_"@);
                lemma_find_bounds(r, "`"@);
            }
            match find(r, "`_"@) {
                Some(end) => match link_target(r.take(end)) {
                    None => Some("unsupported hyperlink syntax"@),
                    Some(target) => if !safe_href(target) {
                        Some("unsafe hyperlink target: "@ + target)
                    } else {
                        link_problem(r.skip(end + 2))
                    },
                },
                None => match find(r, "`"@) {
                    Some(end) => link_problem(r.skip(end + 1)),
                    None => None,
                },
            }
        },
    }
}

/// The first line from `i` on with a hyperlink problem.
pub open spec fn link_failure(lines: Seq<Seq<char>>, i: int) -> Option<Failure>
    decreases lines.len() - i,
{
    if i < 0 || i >= lines.len() {
        None
    } else {
        match link_problem(lines[i]) {
            Some(m) => Some(fail_at(i + 1, m)),
            None => link_failure(lines, i + 1),
        }
    }
}

pub open spec fn all_ascii_digits(s: Seq<char>) -> bool {
    forall|i: int| 0 <= i < s.len() ==> is_ascii_digit(#[trigger] s[i])
}

/// The text of a list item, if `line` is one: after `* `, `- ` or `+ `, or
/// after a decimal number and `. `.
pub open spec fn is_bullet(line: Seq<char>) -> Option<Seq<char>> {
    if starts_with(line, "* "@) || starts_with(line, "- "@) || starts_with(line, "+ "@) {
        Some(line.skip(2))
    } else {
        match find(line, ". "@) {
            Some(k) => if k > 0 && all_ascii_digits(line.take(k)) {
                Some(line.skip(k + 2))
            } else {
                None
            },
            None => None,
        }
    }
}

pub open spec fn starts_digit(line: Seq<char>) -> bool {
    line.len() > 0 && is_ascii_digit(line[0])
}

/// The lines of an indented body from line `j` on (blank lines become empty
/// lines, indented ones lose three spaces), and the index after them.
pub open spec fn indented_lines(lines: Seq<Seq<char>>, j: int) -> (Seq<Seq<char>>, int)
    decreases lines.len() - j,
{
    if 0 <= j < lines.len() && is_blank(lines[j]) {
        let (b, e) = indented_lines(lines, j + 1);
        (seq![Seq::<char>::empty()] + b, e)
    } else if 0 <= j < lines.len() && starts_with(lines[j], "   "@) {
        let (b, e) = indented_lines(lines, j + 1);
        (seq![lines[j].skip(3)] + b, e)
    } else {
        (seq![], j)
    }
}

/// `b` without its trailing empty lines.
pub open spec fn drop_blank_tail(b: Seq<Seq<char>>) -> Seq<Seq<char>>
    decreases b.len(),
{
    if b.len() > 0 && b.last().len() == 0 {
        drop_blank_tail(b.drop_last())
    } else {
        b
    }
}

/// An indented body from line `j`: its text and the index after it.
pub open spec fn indented(lines: Seq<Seq<char>>, j: int) -> Result<(Seq<char>, int), Failure> {
    let (b, e) = indented_lines(lines, j);
    let kept = drop_blank_tail(b);
    if kept.len() == 0 {
        Err(fail_at(j + 1, "expected indented content"@))
    } else {
        Ok((join(kept, "\n"@), e))
    }
}

/// `j`, or the index after it where line `j` is blank.
pub open spec fn skip_one_blank(lines: Seq<Seq<char>>, j: int) -> int {
    if 0 <= j < lines.len() && is_blank(lines[j]) {
        j + 1
    } else {
        j
    }
}

/// The options of an image directive from line `j` on.
pub open spec fn image_options(
    lines: Seq<Seq<char>>,
    j: int,
    alt: Option<Seq<char>>,
    caption: Option<Seq<char>>,
) -> Result<(Option<Seq<char>>, Option<Seq<char>>, int), Failure>
    decreases lines.len() - j,
{
    if 0 <= j < lines.len() && starts_with(lines[j], "   :"@) {
        let option = trim(lines[j]);
        if starts_with(option, ":alt:"@) {
            image_options(lines, j + 1, Some(trim(option.skip(5))), caption)
        } else if starts_with(option, ":caption:"@) {
            image_options(lines, j + 1, alt, Some(trim(option.skip(9))))
        } else {
            Err(fail_at(j + 1, "unsupported image option"@))
        }
    } else {
        Ok((alt, caption, j))
    }
}

/// The characters a math block may use.
pub open spec fn math_char_ok(c: char) -> bool {
    char_is_alphanumeric(c) || is_ws(c) || "+-=*/()^_,.<>"@.contains(c)
}

/// Every `^` and `_` is followed by an alphanumeric character.
pub open spec fn math_scripts_ok(e: Seq<char>) -> bool {
    forall|p: int|
        0 <= p < e.len() && (#[trigger] e[p] == '^' || e[p] == '_') ==> p + 1 < e.len()
            && char_is_alphanumeric(e[p + 1])
}

/// The entries of a field list from line `j` on, and the index after them.
pub open spec fn field_entries(lines: Seq<Seq<char>>, j: int) -> Result<
    (Seq<(Seq<char>, Seq<char>)>, int),
    Failure,
>
    decreases lines.len() - j,
{
    if 0 <= j < lines.len() && starts_with(lines[j], ":"@) {
        let body = lines[j].skip(1);
        match find(body, ":"@) {
            None => Err(fail_at(j + 1, "invalid field list entry"@)),
            Some(k) => {
                let key = body.take(k);
                let value = trim(body.skip(k + 1));
                if key.len() == 0 || value.len() == 0 {
                    Err(fail_at(j + 1, "field list entry needs a name and value"@))
                } else {
                    match field_entries(lines, j + 1) {
                        Ok((fs, e)) => Ok((seq![(key, value)] + fs, e)),
                        Err(f) => Err(f),
                    }
                }
            },
        }
    } else {
        Ok((seq![], j))
    }
}

/// The items of a list from line `j` on, and the index after them: items of
/// the same kind, possibly separated by single blank lines.
pub open spec fn list_items(lines: Seq<Seq<char>>, j: int, ordered: bool) -> (
    Seq<Seq<char>>,
    int,
)
    decreases lines.len() - j,
{
    if j < 0 || j >= lines.len() {
        (seq![], j)
    } else {
        match is_bullet(lines[j]) {
            Some(item) => if starts_digit(lines[j]) != ordered {
                (seq![], j)
            } else {
                let (items, e) = list_items(lines, j + 1, ordered);
                (seq![item] + items, e)
            },
            None => if is_blank(lines[j]) {
                if j + 1 >= lines.len() || is_bullet(lines[j + 1]) is None {
                    (seq![], j + 1)
                } else {
                    list_items(lines, j + 1, ordered)
                }
            } else {
                (seq![], j)
            },
        }
    }
}

/// `str::split` on one character.
pub open spec fn split_on(s: Seq<char>, c: char) -> Seq<Seq<char>>
    decreases s.len(),
{
    proof {
        lemma_find_bounds(s, seq![c]);
    }
    match find(s, seq![c]) {
        None => seq![s],
        Some(k) => seq![s.take(k)] + split_on(s.skip(k + 1), c),
    }
}

/// The cells of a table row line.
pub open spec fn table_row(line: Seq<char>) -> Seq<Seq<char>> {
    split_on(trim_char(line, '|'), '|').map_values(|cell: Seq<char>| trim(cell))
}

/// The rows of a table from line `j` on, and the index after its lines.
pub open spec fn table_lines(lines: Seq<Seq<char>>, j: int) -> (Seq<Seq<Seq<char>>>, int)
    decreases lines.len() - j,
{
    if 0 <= j < lines.len() && (starts_with(lines[j], "|"@) || starts_with(lines[j], "+"@)) {
        let (rows, e) = table_lines(lines, j + 1);
        if starts_with(lines[j], "|"@) {
            (seq![table_row(lines[j])] + rows, e)
        } else {
            (rows, e)
        }
    } else {
        (seq![], j)
    }
}

/// The trimmed lines of a paragraph from line `j` on, and the index after.
pub open spec fn paragraph_lines(lines: Seq<Seq<char>>, j: int) -> (Seq<Seq<char>>, int)
    decreases lines.len() - j,
{
    if 0 <= j < lines.len() && !is_blank(lines[j]) && !(j + 1 < lines.len() && rule(
        lines[j + 1],
    ) is Some) && !starts_with(lines[j], ".. "@) && is_bullet(lines[j]) is None {
        let (ps, e) = paragraph_lines(lines, j + 1);
        (seq![trim(lines[j])] + ps, e)
    } else {
        (seq![], j)
    }
}

/// What the block loop does at one line.
pub enum Step {
    Skip(int),
    Emit(Seq<SpecBlock>, int),
    Fail(Failure),
}

pub open spec fn code_lang_ok(lang: Seq<char>) -> bool {
    forall|k: int|
        0 <= k < lang.len() ==> is_ascii_alnum(#[trigger] lang[k]) || lang[k] == '-' || lang[k]
            == '_'
}

/// A directive `.. rest` at line `i`.
pub open spec fn directive(lines: Seq<Seq<char>>, i: int, rest: Seq<char>) -> Step {
    if starts_with(rest, "code-block::"@) {
        let lang = trim(rest.skip(12));
        if lang.len() > 0 && !code_lang_ok(lang) {
            Step::Fail(fail_at(i + 1, "invalid code language"@))
        } else {
            match indented(lines, skip_one_blank(lines, i + 1)) {
                Ok((body, e)) => Step::Emit(seq![SpecBlock::Code(lang, body)], e),
                Err(f) => Step::Fail(f),
            }
        }
    } else if starts_with(rest, "image::"@) {
        let src = trim(rest.skip(7));
        if src.len() == 0 {
            Step::Fail(fail_at(i + 1, "image path is empty"@))
        } else {
            match image_options(lines, i + 1, None, None) {
                Err(f) => Step::Fail(f),
                Ok((alt, caption, e)) => match alt {
                    None => Step::Fail(fail_at(e, "image requires :alt:"@)),
                    Some(a) => Step::Emit(seq![SpecBlock::Image { src, alt: a, caption }], e),
                },
            }
        }
    } else if trim(rest) == "math::"@ {
        match indented(lines, skip_one_blank(lines, i + 1)) {
            Err(f) => Step::Fail(f),
            Ok((expr, e)) => if !(forall|k: int| 0 <= k < expr.len() ==> math_char_ok(#[trigger] expr[k])) {
                Step::Fail(fail_at(e, "unsupported math syntax; use identifiers, numbers and basic operators"@))
            } else if !math_scripts_ok(expr) {
                Step::Fail(fail_at(e, "math script needs an identifier or number"@))
            } else {
                Step::Emit(seq![SpecBlock::Math(expr)], e)
            },
        }
    } else {
        Step::Fail(fail_at(i + 1, "unsupported directive"@))
    }
}

/// A literal block introduced by `::` at the end of line `i`.
pub open spec fn literal(lines: Seq<Seq<char>>, i: int) -> Step {
    let intro = trim(trim_end_char(trim_end(lines[i]), ':'));
    let lead = if intro.len() > 0 {
        seq![SpecBlock::Paragraph(intro)]
    } else {
        seq![]
    };
    match indented(lines, skip_one_blank(lines, i + 1)) {
        Ok((body, e)) => Step::Emit(lead + seq![SpecBlock::Code(Seq::empty(), body)], e),
        Err(f) => Step::Fail(f),
    }
}

/// A grid table starting at line `i`.
pub open spec fn table(lines: Seq<Seq<char>>, i: int) -> Step {
    let (rows, e) = table_lines(lines, i + 1);
    if rows.len() == 0 {
        Step::Fail(fail_at(e, "table has no rows"@))
    } else if e == 0 || !starts_with(lines[e - 1], "+"@) || exists|r: int|
        0 <= r < rows.len() && #[trigger] rows[r].len() != rows[0].len() {
        Step::Fail(fail_at(e, "malformed table"@))
    } else {
        Step::Emit(seq![SpecBlock::Table(rows)], e)
    }
}

/// A paragraph starting at line `i`.
pub open spec fn paragraph(lines: Seq<Seq<char>>, i: int) -> Step {
    let (ps, e) = paragraph_lines(lines, i);
    let text = join(ps, " "@);
    if text.len() == 0 {
        Step::Fail(fail_at(e + 1, "unsupported RST syntax"@))
    } else {
        Step::Emit(seq![SpecBlock::Paragraph(text)], e)
    }
}

/// The heading whose underline is `lines[i + 1]`.
pub open spec fn heading(lines: Seq<Seq<char>>, i: int, ch: char) -> Step {
    let title = trim(lines[i]);
    if trim(lines[i + 1]).len() < title.len() {
        Step::Fail(fail_at(i + 2, "heading underline is too short"@))
    } else if ch == '-' {
        Step::Emit(seq![SpecBlock::Heading(2, title)], i + 2)
    } else if ch == '~' {
        Step::Emit(seq![SpecBlock::Heading(3, title)], i + 2)
    } else if ch == '^' {
        Step::Emit(seq![SpecBlock::Heading(4, title)], i + 2)
    } else {
        Step::Fail(fail_at(i + 2, "unexpected document title"@))
    }
}

/// What the line `i` (which exists) starts.
pub open spec fn step(lines: Seq<Seq<char>>, i: int) -> Step {
    let line = lines[i];
    if is_blank(line) {
        Step::Skip(i + 1)
    } else if i + 1 < lines.len() && rule(lines[i + 1]) is Some {
        heading(lines, i, rule(lines[i + 1])->0)
    } else if starts_with(line, ".. "@) {
        directive(lines, i, line.skip(3))
    } else if starts_with(line, ":"@) {
        match field_entries(lines, i) {
            Ok((fs, e)) => Step::Emit(seq![SpecBlock::Fields(fs)], e),
            Err(f) => Step::Fail(f),
        }
    } else if is_bullet(line) is Some {
        let ordered = starts_digit(line);
        let (items, e) = list_items(lines, i, ordered);
        Step::Emit(seq![SpecBlock::List(ordered, items)], e)
    } else if starts_with(line, "   "@) {
        match indented(lines, i) {
            Ok((body, e)) => Step::Emit(seq![SpecBlock::Quote(body)], e),
            Err(f) => Step::Fail(f),
        }
    } else if ends_with(trim_end(line), "::"@) && !starts_with(trim(line), ".."@) {
        literal(lines, i)
    } else if starts_with(line, "+---"@) {
        table(lines, i)
    } else if starts_with(line, ".."@) || starts_with(line, "|"@) || rule(line) is Some {
        Step::Fail(fail_at(i + 1, "unsupported RST syntax"@))
    } else {
        paragraph(lines, i)
    }
}

/// The blocks of the document from line `i` on.
pub open spec fn blocks_from(lines: Seq<Seq<char>>, i: int) -> Result<Seq<SpecBlock>, Failure>
    decreases (if i < lines.len() { lines.len() - i } else { 0 }),
{
    if i < 0 || i >= lines.len() {
        Ok(seq![])
    } else {
        proof {
            lemma_step_advances(lines, i);
        }
        match step(lines, i) {
            Step::Skip(j) => blocks_from(lines, j),
            Step::Emit(bs, j) => match blocks_from(lines, j) {
                Ok(rest) => Ok(bs + rest),
                Err(f) => Err(f),
            },
            Step::Fail(f) => Err(f),
        }
    }
}

/// Whether the first two lines are a title with an `=` underline.
pub open spec fn has_title(lines: Seq<Seq<char>>) -> bool {
    &&& lines.len() >= 2
    &&& rule(lines[1]) == Some('=')
    &&& trim(lines[1]).len() >= trim(lines[0]).len()
    &&& trim(lines[0]).len() > 0
}

/// What a source text, split into lines, parses to.
pub open spec fn parse_lines(lines: Seq<Seq<char>>) -> Result<SpecDocument, Failure> {
    match link_failure(lines, 0) {
        Some(f) => Err(f),
        None => if !has_title(lines) {
            Err(fail_at(1, "expected a document title with an '=' underline"@))
        } else {
            match blocks_from(lines, 2) {
                Ok(blocks) => Ok(SpecDocument { title: trim(lines[0]), blocks }),
                Err(f) => Err(f),
            }
        },
    }
}

/// What the source text `source` parses to.
pub open spec fn parse_spec(source: Seq<char>) -> Result<SpecDocument, Failure> {
    parse_lines(lines(source))
}

// ---------------------------------------------------------------------------
// Lemmas on the specification
// ---------------------------------------------------------------------------

pub proof fn lemma_indented_lines_end(lines: Seq<Seq<char>>, j: int)
    ensures
        indented_lines(lines, j).1 >= j,
        j >= 0 ==> indented_lines(lines, j).1 <= lines.len() || indented_lines(lines, j).1 == j,
    decreases lines.len() - j,
{
    if 0 <= j < lines.len() && (is_blank(lines[j]) || starts_with(lines[j], "   "@)) {
        lemma_indented_lines_end(lines, j + 1);
    }
}

pub proof fn lemma_image_options_end(
    lines: Seq<Seq<char>>,
    j: int,
    alt: Option<Seq<char>>,
    caption: Option<Seq<char>>,
)
    ensures
        image_options(lines, j, alt, caption) matches Ok((_, _, e)) ==> e >= j,
    decreases lines.len() - j,
{
    if 0 <= j < lines.len() && starts_with(lines[j], "   :"@) {
        let option = trim(lines[j]);
        lemma_image_options_end(lines, j + 1, Some(trim(option.skip(5))), caption);
        lemma_image_options_end(lines, j + 1, alt, Some(trim(option.skip(9))));
    }
}

pub proof fn lemma_field_entries_end(lines: Seq<Seq<char>>, j: int)
    ensures
        field_entries(lines, j) matches Ok((_, e)) ==> e >= j,
        (0 <= j < lines.len() && starts_with(lines[j], ":"@)) ==> (field_entries(lines, j) matches Ok((_, e)) ==> e > j),
    decreases lines.len() - j,
{
    if 0 <= j < lines.len() && starts_with(lines[j], ":"@) {
        lemma_field_entries_end(lines, j + 1);
    }
}

pub proof fn lemma_list_items_end(lines: Seq<Seq<char>>, j: int, ordered: bool)
    ensures
        list_items(lines, j, ordered).1 >= j,
        (0 <= j < lines.len() && is_bullet(lines[j]) is Some && starts_digit(lines[j]) == ordered)
            ==> list_items(lines, j, ordered).1 > j,
    decreases lines.len() - j,
{
    if 0 <= j < lines.len() {
        lemma_list_items_end(lines, j + 1, ordered);
    }
}

pub proof fn lemma_table_lines_end(lines: Seq<Seq<char>>, j: int)
    ensures
        table_lines(lines, j).1 >= j,
    decreases lines.len() - j,
{
    if 0 <= j < lines.len() && (starts_with(lines[j], "|"@) || starts_with(lines[j], "+"@)) {
        lemma_table_lines_end(lines, j + 1);
    }
}

pub proof fn lemma_paragraph_lines_end(lines: Seq<Seq<char>>, j: int)
    ensures
        paragraph_lines(lines, j).1 >= j,
        paragraph_lines(lines, j).0.len() == paragraph_lines(lines, j).1 - j,
    decreases lines.len() - j,
{
    if 0 <= j < lines.len() && !is_blank(lines[j]) && !(j + 1 < lines.len() && rule(
        lines[j + 1],
    ) is Some) && !starts_with(lines[j], ".. "@) && is_bullet(lines[j]) is None {
        lemma_paragraph_lines_end(lines, j + 1);
    }
}

pub proof fn lemma_join_empty(parts: Seq<Seq<char>>, sep: Seq<char>)
    requires
        parts.len() > 0,
        parts[0].len() > 0,
    ensures
        join(parts, sep).len() > 0,
{
    if parts.len() > 1 {
        assert(join(parts, sep) == parts[0] + sep + join(parts.drop_first(), sep));
    }
}

/// Every step that does not fail moves past line `i`.
pub proof fn lemma_step_advances(lines: Seq<Seq<char>>, i: int)
    requires
        0 <= i < lines.len(),
    ensures
        step(lines, i) matches Step::Skip(j) ==> j > i,
        step(lines, i) matches Step::Emit(_, j) ==> j > i,
{
    lemma_indented_lines_end(lines, i);
    lemma_indented_lines_end(lines, i + 1);
    lemma_indented_lines_end(lines, i + 2);
    lemma_image_options_end(lines, i + 1, None, None);
    lemma_field_entries_end(lines, i);
    lemma_list_items_end(lines, i, starts_digit(lines[i]));
    lemma_table_lines_end(lines, i + 1);
    lemma_paragraph_lines_end(lines, i);
    let line = lines[i];
    if !is_blank(line) && !(i + 1 < lines.len() && rule(lines[i + 1]) is Some) && !starts_with(line, ".. "@)
        && !starts_with(line, ":"@) && is_bullet(line) is None && !starts_with(line, "   "@) {
        let (ps, e) = paragraph_lines(lines, i);
        if ps.len() > 0 {
            lemma_trim_empty(line);
            lemma_join_empty(ps, " "@);
        } else {
            assert(join(ps, " "@).len() == 0);
        }
    }
    if starts_with(line, "   "@) && !is_blank(line) {
        let (b, e) = indented_lines(lines, i);
        assert(indented_lines(lines, i).1 == indented_lines(lines, i + 1).1);
    }
}

// ---------------------------------------------------------------------------
// Executable parser
// ---------------------------------------------------------------------------

/// `rule` of a line.
pub fn rule_exec(line: &[char]) -> (r: Option<char>)
    ensures
        r == rule(line@),
{
    let (a, b) = trim_bounds(line, 0, line.len());
    let ghost s = trim(line@);
    assert(line@.subrange(0, line@.len() as int) =~= line@);
    if b - a < 3 {
        return None;
    }
    let c = line[a];
    assert(s[0] == c);
    if !(c == '=' || c == '-' || c == '~' || c == '^') {
        return None;
    }
    let mut k = a;
    while k < b
        invariant
            a <= k <= b <= line@.len(),
            s == line@.subrange(a as int, b as int),
            s == trim(line@),
            b - a >= 3,
            c == '=' || c == '-' || c == '~' || c == '^',
            c == s[0],
            forall|m: int| 0 <= m < k - a ==> #[trigger] s[m] == c,
        decreases b - k,
    {
        if line[k] != c {
            assert(s[k - a] != s[0]);
            return None;
        }
        k = k + 1;
    }
    Some(c)
}

/// Whether `c` occurs in `s`.
pub fn contains_char(s: &[char], c: char) -> (b: bool)
    ensures
        b == s@.contains(c),
{
    let mut i: usize = 0;
    while i < s.len()
        invariant
            i <= s@.len(),
            forall|j: int| 0 <= j < i ==> s@[j] != c,
        decreases s@.len() - i,
    {
        if s[i] == c {
            assert(s@[i as int] == c);
            return true;
        }
        i = i + 1;
    }
    false
}

/// `safe_href` of a target.
pub fn safe_href_exec(t: &[char]) -> (b: bool)
    ensures
        b == safe_href(t@),
{
    if t.len() == 0 {
        return false;
    }
    let mut i: usize = 0;
    while i < t.len()
        invariant
            i <= t@.len(),
            forall|j: int| 0 <= j < i ==> !is_control(#[trigger] t@[j]) && t@[j] != '\\',
        decreases t@.len() - i,
    {
        if is_control_exec(t[i]) || t[i] == '\\' {
            assert(is_control(t@[i as int]) || t@[i as int] == '\\');
            return false;
        }
        i = i + 1;
    }
    let https = chars_of("https://");
    let http = chars_of("http://");
    let mailto = chars_of("mailto:");
    let hash = chars_of("#");
    let hash2 = chars_of("##");
    let slash = chars_of("/");
    let slash2 = chars_of("//");
    starts_with_exec(t, https.as_slice()) || starts_with_exec(t, http.as_slice())
        || starts_with_exec(t, mailto.as_slice()) || (starts_with_exec(t, hash.as_slice())
        && !starts_with_exec(t, hash2.as_slice())) || (!starts_with_exec(t, slash.as_slice())
        && !starts_with_exec(t, slash2.as_slice()) && !contains_char(t, ':'))
}

/// `link_target` of `s[lo..hi]`.
pub fn link_target_exec(s: &[char], lo: usize, hi: usize) -> (r: Option<Vec<char>>)
    requires
        lo <= hi <= s@.len(),
    ensures
        r matches Some(t) ==> link_target(s@.subrange(lo as int, hi as int)) == Some(t@),
        r is None ==> link_target(s@.subrange(lo as int, hi as int)) is None,
{
    let link = slice_vec(s, lo, hi);
    let open = chars_of(" <");
    let close = chars_of(">");
    match rfind_exec(link.as_slice(), open.as_slice()) {
        None => None,
        Some(k) => {
            proof { reveal_strlit(" <"); }
            let tail = slice_vec(link.as_slice(), k + 2, link.len());
            assert(tail@ =~= link@.skip(k + 2));
            if ends_with_exec(tail.as_slice(), close.as_slice()) {
                proof { reveal_strlit(">"); }
                let target = slice_vec(tail.as_slice(), 0, tail.len() - 1);
                assert(target@ =~= tail@.drop_last());
                Some(target)
            } else {
                None
            }
        },
    }
}

/// `link_problem` of a line, with the message as a `String`.
pub fn link_problem_exec(line: &[char]) -> (r: Option<String>)
    ensures
        r matches Some(m) ==> link_problem(line@) == Some(m@),
        r is None ==> link_problem(line@) is None,
{
    let tick = chars_of("`");
    let tick_us = chars_of("`_");
    proof {
        reveal_strlit("`");
        reveal_strlit("`_");
    }
    let mut pos: usize = 0;
    assert(line@.skip(0) =~= line@);
    while pos <= line.len()
        invariant
            pos <= line@.len(),
            tick@ == "`"@,
            tick_us@ == "`_"@,
            "`"@.len() == 1,
            "`_"@.len() == 2,
            link_problem(line@) == link_problem(line@.skip(pos as int)),
        decreases line@.len() - pos,
    {
        let ghost rest = line@.skip(pos as int);
        match find_from(line, tick.as_slice(), pos) {
            None => {
                return None;
            },
            Some(start) => {
                let ghost r = rest.skip(start - pos + 1);
                assert(r =~= line@.skip(start + 1));
                match find_from(line, tick_us.as_slice(), start + 1) {
                    Some(end) => {
                        assert(r.take(end - start - 1) =~= line@.subrange(start + 1, end as int));
                        match link_target_exec(line, start + 1, end) {
                            None => {
                                return Some(String::from_str("unsupported hyperlink syntax"));
                            },
                            Some(target) => {
                                if !safe_href_exec(target.as_slice()) {
                                    let mut m = String::from_str("unsafe hyperlink target: ");
                                    let t = string_of(target.as_slice());
                                    m.append(t.as_str());
                                    return Some(m);
                                }
                                assert(r.skip(end - start - 1 + 2) =~= line@.skip(end + 2));
                                pos = end + 2;
                            },
                        }
                    },
                    None => {
                        match find_from(line, tick.as_slice(), start + 1) {
                            Some(end) => {
                                assert(r.skip(end - start - 1 + 1) =~= line@.skip(end + 1));
                                pos = end + 1;
                            },
                            None => {
                                return None;
                            },
                        }
                    },
                }
            },
        }
    }
    None
}

/// `is_bullet` of a line, as the position where the item text starts.
pub fn is_bullet_exec(line: &[char]) -> (r: Option<usize>)
    ensures
        r matches Some(k) ==> k <= line@.len() && is_bullet(line@) == Some(line@.skip(k as int)),
        r is None ==> is_bullet(line@) is None,
{
    let star = chars_of("* ");
    let dash = chars_of("- ");
    let plus = chars_of("+ ");
    if starts_with_exec(line, star.as_slice()) || starts_with_exec(line, dash.as_slice())
        || starts_with_exec(line, plus.as_slice()) {
        proof {
            reveal_strlit("* ");
            reveal_strlit("- ");
            reveal_strlit("+ ");
        }
        return Some(2);
    }
    let dot = chars_of(". ");
    assert(line@.skip(0) =~= line@);
    match find_from(line, dot.as_slice(), 0) {
        None => None,
        Some(k) => {
            proof { reveal_strlit(". "); }
            let n = line.len();
            assert(k + 2 <= n);
            if k == 0 || !all_digits_prefix(line, k) {
                return None;
            }
            Some(k + 2)
        },
    }
}

/// Whether the first `k` characters of `line` are ASCII digits.
pub fn all_digits_prefix(line: &[char], k: usize) -> (b: bool)
    requires
        k <= line@.len(),
    ensures
        b == all_ascii_digits(line@.take(k as int)),
{
    let mut m: usize = 0;
    while m < k
        invariant
            m <= k <= line@.len(),
            forall|q: int| 0 <= q < m ==> is_ascii_digit(#[trigger] line@[q]),
        decreases k - m,
    {
        if !is_ascii_digit_exec(line[m]) {
            assert(line@.take(k as int)[m as int] == line@[m as int]);
            return false;
        }
        m = m + 1;
    }
    assert forall|q: int| 0 <= q < k implies is_ascii_digit(#[trigger] line@.take(k as int)[q]) by {
        assert(line@.take(k as int)[q] == line@[q]);
    }
    true
}

/// Whether a line starts with an ASCII digit.
pub fn starts_digit_exec(line: &[char]) -> (b: bool)
    ensures
        b == starts_digit(line@),
{
    line.len() > 0 && is_ascii_digit_exec(line[0])
}

/// A failure found by the executable parser: the 1-based line and message.
pub struct LineError {
    pub line: usize,
    pub message: String,
}

pub open spec fn is_failure(e: LineError, f: Failure) -> bool {
    e.line as nat == f.line && e.message@ == f.message
}

pub fn line_error(line: usize, message: &str) -> (e: LineError)
    ensures
        e.line == line,
        e.message@ == message@,
{
    LineError { line, message: String::from_str(message) }
}

/// The lines `ls`, as the model sees them.
pub open spec fn lv(ls: &Vec<Vec<char>>) -> Seq<Seq<char>> {
    views(ls@)
}

/// `indented` at line `j`.
pub fn indented_exec(ls: &Vec<Vec<char>>, j: usize) -> (r: Result<(Vec<char>, usize), LineError>)
    requires
        j <= ls@.len() < usize::MAX,
    ensures
        match indented(lv(ls), j as int) {
            Ok((b, e)) => r matches Ok((rb, re)) && rb@ == b && re == e,
            Err(f) => r matches Err(x) && is_failure(x, f),
        },
        r matches Ok((_, e)) ==> j <= e <= ls@.len(),
{
    let ghost L = lv(ls);
    let n = ls.len();
    let mut body: Vec<Vec<char>> = Vec::new();
    let mut k = j;
    assert(views(body@) =~= Seq::<Seq<char>>::empty());
    while k < n
        invariant
            j <= k <= n,
            n == ls@.len(),
            L == lv(ls),
            indented_lines(L, j as int) == (views(body@) + indented_lines(L, k as int).0,
                indented_lines(L, k as int).1),
        ensures
            j <= k <= n,
            indented_lines(L, j as int) == (views(body@) + indented_lines(L, k as int).0,
                indented_lines(L, k as int).1),
            indented_lines(L, k as int) == (Seq::<Seq<char>>::empty(), k as int),
        decreases n - k,
    {
        let ghost before = views(body@);
        let line = &ls[k];
        assert(line@ == L[k as int]);
        if is_blank_exec(line.as_slice()) {
            body.push(Vec::new());
            assert(views(body@) =~= before + seq![Seq::<char>::empty()]);
        } else {
            let pad = chars_of("   ");
            if starts_with_exec(line.as_slice(), pad.as_slice()) {
                proof { reveal_strlit("   "); }
                body.push(slice_vec(line.as_slice(), 3, line.len()));
                assert(line@.subrange(3, line@.len() as int) =~= line@.skip(3));
                assert(views(body@) =~= before + seq![L[k as int].skip(3)]);
            } else {
                break;
            }
        }
        k = k + 1;
    }
    assert(views(body@) + Seq::<Seq<char>>::empty() =~= views(body@));
    let ghost all = views(body@);
    assert(indented_lines(L, j as int) == (all, k as int));
    while body.len() > 0 && body[body.len() - 1].len() == 0
        invariant
            drop_blank_tail(all) == drop_blank_tail(views(body@)),
        decreases body@.len(),
    {
        let ghost before = views(body@);
        body.pop();
        assert(before.drop_last() =~= views(body@));
    }
    assert(drop_blank_tail(views(body@)) == views(body@));
    if body.len() == 0 {
        return Err(line_error(j + 1, "expected indented content"));
    }
    let nl = chars_of("\n");
    Ok((join_exec(&body, nl.as_slice()), k))
}

pub open spec fn opt_view(o: Option<Vec<char>>) -> Option<Seq<char>> {
    match o {
        Some(v) => Some(v@),
        None => None,
    }
}

/// `image_options` from line `j` with no option seen yet.
pub fn image_options_exec(ls: &Vec<Vec<char>>, j: usize) -> (r: Result<
    (Option<Vec<char>>, Option<Vec<char>>, usize),
    LineError,
>)
    requires
        j <= ls@.len() < usize::MAX,
    ensures
        match image_options(lv(ls), j as int, None, None) {
            Ok((a, c, e)) => r matches Ok((ra, rc, re)) && opt_view(ra) == a && opt_view(rc) == c
                && re == e,
            Err(f) => r matches Err(x) && is_failure(x, f),
        },
        r matches Ok((_, _, e)) ==> j <= e <= ls@.len(),
{
    let ghost L = lv(ls);
    let n = ls.len();
    let mut alt: Option<Vec<char>> = None;
    let mut caption: Option<Vec<char>> = None;
    let mut k = j;
    let pad = chars_of("   :");
    let alt_key = chars_of(":alt:");
    let caption_key = chars_of(":caption:");
    proof {
        reveal_strlit(":alt:");
        reveal_strlit(":caption:");
    }
    while k < n
        invariant
            j <= k <= n,
            n == ls@.len(),
            L == lv(ls),
            pad@ == "   :"@,
            alt_key@ == ":alt:"@,
            caption_key@ == ":caption:"@,
            ":alt:"@.len() == 5,
            ":caption:"@.len() == 9,
            image_options(L, j as int, None, None) == image_options(L, k as int, opt_view(alt),
                opt_view(caption)),
        ensures
            j <= k <= n,
            image_options(L, j as int, None, None) == image_options(L, k as int, opt_view(alt),
                opt_view(caption)),
            !(k < n && starts_with(L[k as int], "   :"@)),
        decreases n - k,
    {
        let line = &ls[k];
        assert(line@ == L[k as int]);
        if !starts_with_exec(line.as_slice(), pad.as_slice()) {
            break;
        }
        let option = trim_exec(line.as_slice());
        if starts_with_exec(option.as_slice(), alt_key.as_slice()) {
            let v = slice_vec(option.as_slice(), 5, option.len());
            assert(v@ =~= option@.skip(5));
            alt = Some(trim_exec(v.as_slice()));
        } else if starts_with_exec(option.as_slice(), caption_key.as_slice()) {
            let v = slice_vec(option.as_slice(), 9, option.len());
            assert(v@ =~= option@.skip(9));
            caption = Some(trim_exec(v.as_slice()));
        } else {
            return Err(line_error(k + 1, "unsupported image option"));
        }
        k = k + 1;
    }
    Ok((alt, caption, k))
}

/// `math_char_ok` of a character.
pub fn math_char_ok_exec(c: char) -> (b: bool)
    ensures
        b == math_char_ok(c),
{
    let ops = chars_of("+-=*/()^_,.<>");
    is_alphanumeric(c) || is_ws_exec(c) || contains_char(ops.as_slice(), c)
}

/// Whether every character of `e` may stand in a math block.
pub fn math_chars_ok_exec(e: &[char]) -> (b: bool)
    ensures
        b == (forall|k: int| 0 <= k < e@.len() ==> math_char_ok(#[trigger] e@[k])),
{
    let mut i: usize = 0;
    while i < e.len()
        invariant
            i <= e@.len(),
            forall|k: int| 0 <= k < i ==> math_char_ok(#[trigger] e@[k]),
        decreases e@.len() - i,
    {
        if !math_char_ok_exec(e[i]) {
            assert(!math_char_ok(e@[i as int]));
            return false;
        }
        i = i + 1;
    }
    true
}

/// `math_scripts_ok` of `e`.
pub fn math_scripts_ok_exec(e: &[char]) -> (b: bool)
    ensures
        b == math_scripts_ok(e@),
{
    let n = e.len();
    let mut p: usize = 0;
    while p < n
        invariant
            p <= n,
            n == e@.len(),
            forall|q: int|
                0 <= q < p && (#[trigger] e@[q] == '^' || e@[q] == '_') ==> q + 1 < e@.len()
                    && char_is_alphanumeric(e@[q + 1]),
        decreases n - p,
    {
        if e[p] == '^' || e[p] == '_' {
            if p + 1 >= n || !is_alphanumeric(e[p + 1]) {
                assert(!math_scripts_ok(e@)) by {
                    if p + 1 < n {
                        assert(!char_is_alphanumeric(e@[p + 1]));
                    }
                }
                return false;
            }
        }
        p = p + 1;
    }
    true
}

pub open spec fn with_fields(
    acc: Seq<(Seq<char>, Seq<char>)>,
    r: Result<(Seq<(Seq<char>, Seq<char>)>, int), Failure>,
) -> Result<(Seq<(Seq<char>, Seq<char>)>, int), Failure> {
    match r {
        Ok((fs, e)) => Ok((acc + fs, e)),
        Err(f) => Err(f),
    }
}

/// `field_entries` from line `j`.
pub fn field_entries_exec(ls: &Vec<Vec<char>>, j: usize) -> (r: Result<
    (Vec<(String, String)>, usize),
    LineError,
>)
    requires
        j <= ls@.len() < usize::MAX,
    ensures
        match field_entries(lv(ls), j as int) {
            Ok((fs, e)) => r matches Ok((rf, re)) && field_views(rf@) == fs && re == e,
            Err(f) => r matches Err(x) && is_failure(x, f),
        },
        r matches Ok((_, e)) ==> j <= e <= ls@.len(),
{
    let ghost L = lv(ls);
    let n = ls.len();
    let mut fields: Vec<(String, String)> = Vec::new();
    let mut k = j;
    let colon = chars_of(":");
    proof { reveal_strlit(":"); }
    assert(with_fields(field_views(fields@), field_entries(L, j as int)) =~= field_entries(L, j as int)) by {
        assert(field_views(fields@) =~= Seq::<(Seq<char>, Seq<char>)>::empty());
        match field_entries(L, j as int) {
            Ok((fs, e)) => { assert(Seq::<(Seq<char>, Seq<char>)>::empty() + fs =~= fs); },
            Err(f) => {},
        }
    }
    while k < n
        invariant
            j <= k <= n,
            n == ls@.len(),
            L == lv(ls),
            colon@ == ":"@,
            ":"@.len() == 1,
            field_entries(L, j as int) == with_fields(field_views(fields@), field_entries(L, k as int)),
        ensures
            j <= k <= n,
            field_entries(L, j as int) == with_fields(field_views(fields@), field_entries(L, k as int)),
            !(k < n && starts_with(L[k as int], ":"@)),
        decreases n - k,
    {
        let line = &ls[k];
        assert(line@ == L[k as int]);
        if !starts_with_exec(line.as_slice(), colon.as_slice()) {
            break;
        }
        let ghost body = L[k as int].skip(1);
        match find_from(line.as_slice(), colon.as_slice(), 1) {
            None => {
                return Err(line_error(k + 1, "invalid field list entry"));
            },
            Some(c) => {
                let key = slice_vec(line.as_slice(), 1, c);
                assert(key@ =~= body.take(c - 1));
                let ln = line.len();
                assert(c + 1 <= ln);
                let (va, vb) = trim_bounds(line.as_slice(), c + 1, ln);
                assert(line@.subrange(c + 1, line@.len() as int) =~= body.skip(c - 1 + 1));
                if key.len() == 0 || va == vb {
                    return Err(line_error(k + 1, "field list entry needs a name and value"));
                }
                let value = slice_vec(line.as_slice(), va, vb);
                let ghost before = field_views(fields@);
                fields.push((string_of(key.as_slice()), string_of(value.as_slice())));
                assert(field_views(fields@) =~= before + seq![(key@, value@)]);
                proof {
                    match field_entries(L, k + 1) {
                        Ok((fs, e)) => {
                            assert(before + seq![(key@, value@)] + fs =~= before + (seq![(key@, value@)] + fs));
                        },
                        Err(f) => {},
                    }
                }
            },
        }
        k = k + 1;
    }
    assert(field_entries(L, k as int) == Ok::<(Seq<(Seq<char>, Seq<char>)>, int), Failure>((Seq::empty(), k as int)));
    assert(field_views(fields@) + Seq::<(Seq<char>, Seq<char>)>::empty() =~= field_views(fields@));
    Ok((fields, k))
}

/// `list_items` from line `j` (a bullet of the kind `ordered`).
pub fn list_items_exec(ls: &Vec<Vec<char>>, j: usize, ordered: bool) -> (r: (Vec<String>, usize))
    requires
        j <= ls@.len() < usize::MAX,
    ensures
        string_views(r.0@) == list_items(lv(ls), j as int, ordered).0,
        r.1 == list_items(lv(ls), j as int, ordered).1,
        j <= r.1 <= ls@.len(),
{
    let ghost L = lv(ls);
    let n = ls.len();
    let mut items: Vec<String> = Vec::new();
    let mut k = j;
    assert(string_views(items@) =~= Seq::<Seq<char>>::empty());
    assert(Seq::<Seq<char>>::empty() + list_items(L, j as int, ordered).0 =~= list_items(L, j as int, ordered).0);
    while k < n
        invariant_except_break
            list_items(L, j as int, ordered) == (string_views(items@) + list_items(L, k as int, ordered).0,
                list_items(L, k as int, ordered).1),
        invariant
            j <= k <= n,
            n == ls@.len(),
            L == lv(ls),
        ensures
            j <= k <= n,
            list_items(L, j as int, ordered) == (string_views(items@), k as int),
        decreases n - k,
    {
        let line = &ls[k];
        assert(line@ == L[k as int]);
        let ghost before = string_views(items@);
        match is_bullet_exec(line.as_slice()) {
            Some(off) => {
                if starts_digit_exec(line.as_slice()) != ordered {
                    assert(before + Seq::<Seq<char>>::empty() =~= before);
                    break;
                }
                let item = slice_vec(line.as_slice(), off, line.len());
                assert(item@ =~= line@.skip(off as int));
                items.push(string_of(item.as_slice()));
                assert(string_views(items@) =~= before + seq![item@]);
                assert(before + (seq![item@] + list_items(L, k + 1, ordered).0) =~= string_views(items@) + list_items(L, k + 1, ordered).0);
                k = k + 1;
            },
            None => {
                if !is_blank_exec(line.as_slice()) {
                    assert(before + Seq::<Seq<char>>::empty() =~= before);
                    break;
                }
                if k + 1 >= n {
                    assert(before + Seq::<Seq<char>>::empty() =~= before);
                    k = k + 1;
                    break;
                }
                let next = &ls[k + 1];
                assert(next@ == L[k + 1]);
                if is_bullet_exec(next.as_slice()).is_none() {
                    assert(before + Seq::<Seq<char>>::empty() =~= before);
                    k = k + 1;
                    break;
                }
                k = k + 1;
            },
        }
    }
    assert(string_views(items@) + Seq::<Seq<char>>::empty() =~= string_views(items@));
    (items, k)
}

pub open spec fn trimmed_cells(cells: Seq<Seq<char>>) -> Seq<Seq<char>> {
    cells.map_values(|cell: Seq<char>| trim(cell))
}

/// The trimmed pieces of `s[lo..hi]` split at `c`, as strings.
pub fn split_trim_exec(s: &[char], lo: usize, hi: usize, c: char) -> (r: Vec<String>)
    requires
        lo <= hi <= s@.len(),
    ensures
        string_views(r@) == trimmed_cells(split_on(s@.subrange(lo as int, hi as int), c)),
{
    let sep = [c];
    assert(sep@ =~= seq![c]);
    let seg = slice_vec(s, lo, hi);
    let n = seg.len();
    let mut out: Vec<String> = Vec::new();
    let mut start: usize = 0;
    assert(seg@.skip(0) =~= seg@);
    assert(string_views(out@) =~= Seq::<Seq<char>>::empty());
    assert(Seq::<Seq<char>>::empty() + trimmed_cells(split_on(seg@, c)) =~= trimmed_cells(split_on(seg@, c)));
    loop
        invariant
            start <= n,
            n == seg@.len(),
            seg@ == s@.subrange(lo as int, hi as int),
            sep@ == seq![c],
            trimmed_cells(split_on(seg@, c)) == string_views(out@) + trimmed_cells(split_on(seg@.skip(start as int), c)),
        decreases n - start,
    {
        let ghost rest = seg@.skip(start as int);
        let ghost before = string_views(out@);
        match find_from(seg.as_slice(), sep.as_slice(), start) {
            None => {
                let (a, b) = trim_bounds(seg.as_slice(), start, n);
                assert(seg@.subrange(start as int, n as int) =~= rest);
                out.push(string_of(slice_vec(seg.as_slice(), a, b).as_slice()));
                assert(split_on(rest, c) == seq![rest]);
                assert(trimmed_cells(seq![rest]) =~= seq![trim(rest)]);
                assert(string_views(out@) =~= before + seq![trim(rest)]);
                return out;
            },
            Some(k) => {
                let (a, b) = trim_bounds(seg.as_slice(), start, k);
                let ghost piece = rest.take(k - start);
                assert(seg@.subrange(start as int, k as int) =~= piece);
                out.push(string_of(slice_vec(seg.as_slice(), a, b).as_slice()));
                assert(rest.skip(k - start + 1) =~= seg@.skip(k + 1));
                assert(split_on(rest, c) == seq![piece] + split_on(seg@.skip(k + 1), c));
                assert(trimmed_cells(seq![piece] + split_on(seg@.skip(k + 1), c)) =~= seq![trim(piece)]
                    + trimmed_cells(split_on(seg@.skip(k + 1), c)));
                assert(string_views(out@) =~= before + seq![trim(piece)]);
                assert(before + (seq![trim(piece)] + trimmed_cells(split_on(seg@.skip(k + 1), c))) =~= string_views(out@) + trimmed_cells(split_on(seg@.skip(k + 1), c)));
                start = k + 1;
            },
        }
    }
}

/// `split_on(s, c)`, as vectors.
pub fn split_exec(s: &[char], c: char) -> (r: Vec<Vec<char>>)
    ensures
        views(r@) == split_on(s@, c),
{
    let sep = [c];
    assert(sep@ =~= seq![c]);
    let n = s.len();
    let mut out: Vec<Vec<char>> = Vec::new();
    let mut start: usize = 0;
    assert(s@.skip(0) =~= s@);
    assert(views(out@) + split_on(s@, c) =~= split_on(s@, c));
    loop
        invariant
            start <= n,
            n == s@.len(),
            sep@ == seq![c],
            split_on(s@, c) == views(out@) + split_on(s@.skip(start as int), c),
        decreases n - start,
    {
        let ghost rest = s@.skip(start as int);
        let ghost before = views(out@);
        match find_from(s, sep.as_slice(), start) {
            None => {
                out.push(slice_vec(s, start, n));
                assert(s@.subrange(start as int, n as int) =~= rest);
                assert(split_on(rest, c) == seq![rest]);
                assert(views(out@) =~= before + seq![rest]);
                return out;
            },
            Some(k) => {
                out.push(slice_vec(s, start, k));
                assert(s@.subrange(start as int, k as int) =~= rest.take(k - start));
                assert(rest.skip(k - start + 1) =~= s@.skip(k + 1));
                assert(split_on(rest, c) == seq![rest.take(k - start)] + split_on(s@.skip(k + 1), c));
                assert(views(out@) =~= before + seq![rest.take(k - start)]);
                assert(before + (seq![rest.take(k - start)] + split_on(s@.skip(k + 1), c)) =~= views(out@) + split_on(s@.skip(k + 1), c));
                start = k + 1;
            },
        }
    }
}

/// The cells of a table row line.
pub fn table_row_exec(line: &[char]) -> (r: Vec<String>)
    ensures
        string_views(r@) == table_row(line@),
{
    let (a, b) = trim_char_bounds(line, 0, line.len(), '|');
    assert(line@.subrange(0, line@.len() as int) =~= line@);
    split_trim_exec(line, a, b, '|')
}

/// `table_lines` from line `j`.
pub fn table_lines_exec(ls: &Vec<Vec<char>>, j: usize) -> (r: (Vec<Vec<String>>, usize))
    requires
        j <= ls@.len() < usize::MAX,
    ensures
        row_views(r.0@) == table_lines(lv(ls), j as int).0,
        r.1 == table_lines(lv(ls), j as int).1,
        j <= r.1 <= ls@.len(),
{
    let ghost L = lv(ls);
    let n = ls.len();
    let mut rows: Vec<Vec<String>> = Vec::new();
    let mut k = j;
    let bar = chars_of("|");
    let plus = chars_of("+");
    assert(row_views(rows@) =~= Seq::<Seq<Seq<char>>>::empty());
    assert(Seq::<Seq<Seq<char>>>::empty() + table_lines(L, j as int).0 =~= table_lines(L, j as int).0);
    while k < n
        invariant_except_break
            table_lines(L, j as int) == (row_views(rows@) + table_lines(L, k as int).0,
                table_lines(L, k as int).1),
        invariant
            j <= k <= n,
            n == ls@.len(),
            L == lv(ls),
            bar@ == "|"@,
            plus@ == "+"@,
        ensures
            j <= k <= n,
            table_lines(L, j as int) == (row_views(rows@), k as int),
        decreases n - k,
    {
        let line = &ls[k];
        assert(line@ == L[k as int]);
        let ghost before = row_views(rows@);
        let is_row = starts_with_exec(line.as_slice(), bar.as_slice());
        if !is_row && !starts_with_exec(line.as_slice(), plus.as_slice()) {
            assert(before + Seq::<Seq<Seq<char>>>::empty() =~= before);
            break;
        }
        if is_row {
            let row = table_row_exec(line.as_slice());
            rows.push(row);
            assert(row_views(rows@) =~= before + seq![table_row(L[k as int])]);
            assert(before + (seq![table_row(L[k as int])] + table_lines(L, k + 1).0) =~= row_views(rows@) + table_lines(L, k + 1).0);
        }
        k = k + 1;
    }
    assert(row_views(rows@) + Seq::<Seq<Seq<char>>>::empty() =~= row_views(rows@));
    (rows, k)
}

/// `paragraph_lines` from line `i`, joined with spaces.
pub fn paragraph_exec(ls: &Vec<Vec<char>>, i: usize) -> (r: (Vec<char>, usize))
    requires
        i <= ls@.len() < usize::MAX,
    ensures
        r.0@ == join(paragraph_lines(lv(ls), i as int).0, " "@),
        r.1 == paragraph_lines(lv(ls), i as int).1,
        i <= r.1 <= ls@.len(),
{
    let ghost L = lv(ls);
    let n = ls.len();
    let mut parts: Vec<Vec<char>> = Vec::new();
    let mut k = i;
    let dots = chars_of(".. ");
    assert(views(parts@) =~= Seq::<Seq<char>>::empty());
    assert(Seq::<Seq<char>>::empty() + paragraph_lines(L, i as int).0 =~= paragraph_lines(L, i as int).0);
    while k < n
        invariant_except_break
            paragraph_lines(L, i as int) == (views(parts@) + paragraph_lines(L, k as int).0,
                paragraph_lines(L, k as int).1),
        invariant
            i <= k <= n,
            n == ls@.len(),
            L == lv(ls),
            dots@ == ".. "@,
        ensures
            i <= k <= n,
            paragraph_lines(L, i as int) == (views(parts@), k as int),
        decreases n - k,
    {
        let line = &ls[k];
        assert(line@ == L[k as int]);
        let ghost before = views(parts@);
        let stop = is_blank_exec(line.as_slice()) || (k + 1 < n && rule_exec(ls[k + 1].as_slice()).is_some())
            || starts_with_exec(line.as_slice(), dots.as_slice()) || is_bullet_exec(line.as_slice()).is_some();
        if stop {
            assert(before + Seq::<Seq<char>>::empty() =~= before);
            break;
        }
        let t = trim_exec(line.as_slice());
        parts.push(t);
        assert(views(parts@) =~= before + seq![trim(L[k as int])]);
        assert(before + (seq![trim(L[k as int])] + paragraph_lines(L, k + 1).0) =~= views(parts@) + paragraph_lines(L, k + 1).0);
        k = k + 1;
    }
    assert(views(parts@) + Seq::<Seq<char>>::empty() =~= views(parts@));
    let sp = chars_of(" ");
    (join_exec(&parts, sp.as_slice()), k)
}

/// The executable counterpart of `Step`.
pub enum ExecStep {
    Skip(usize),
    Emit(Vec<Block>, usize),
    Fail(LineError),
}

pub open spec fn step_is(x: ExecStep, s: Step) -> bool {
    match s {
        Step::Skip(j) => x matches ExecStep::Skip(k) && k == j,
        Step::Emit(bs, j) => x matches ExecStep::Emit(v, k) && block_views(v@) == bs && k == j,
        Step::Fail(f) => x matches ExecStep::Fail(e) && is_failure(e, f),
    }
}

pub open spec fn step_bounded(x: ExecStep, i: int, n: int) -> bool {
    match x {
        ExecStep::Skip(k) => i < k <= n,
        ExecStep::Emit(_, k) => i < k <= n,
        ExecStep::Fail(_) => true,
    }
}

/// Whether two character sequences are equal.
pub fn eq_chars(a: &[char], b: &[char]) -> (r: bool)
    ensures
        r == (a@ == b@),
{
    if a.len() != b.len() {
        return false;
    }
    let r = starts_with_exec(a, b);
    assert(a@.take(b@.len() as int) =~= a@);
    r
}

fn one_block(b: Block) -> (v: Vec<Block>)
    ensures
        block_views(v@) == seq![b@],
{
    let mut v: Vec<Block> = Vec::new();
    v.push(b);
    assert(block_views(v@) =~= seq![b@]);
    v
}

/// The heading whose underline is line `i + 1`, drawn with `ch`.
pub fn heading_exec(ls: &Vec<Vec<char>>, i: usize, ch: char) -> (r: ExecStep)
    requires
        i + 1 < ls@.len() < usize::MAX,
    ensures
        step_is(r, heading(lv(ls), i as int, ch)),
        step_bounded(r, i as int, ls@.len() as int),
{
    let line = &ls[i];
    let under = &ls[i + 1];
    assert(line@ == lv(ls)[i as int] && under@ == lv(ls)[i + 1]);
    let title = trim_exec(line.as_slice());
    let (ua, ub) = trim_bounds(under.as_slice(), 0, under.len());
    assert(under@.subrange(0, under@.len() as int) =~= under@);
    if ub - ua < title.len() {
        return ExecStep::Fail(line_error(i + 2, "heading underline is too short"));
    }
    let level: u8 = if ch == '-' {
        2
    } else if ch == '~' {
        3
    } else if ch == '^' {
        4
    } else {
        return ExecStep::Fail(line_error(i + 2, "unexpected document title"));
    };
    ExecStep::Emit(one_block(Block::Heading(level, string_of(title.as_slice()))), i + 2)
}

/// Whether every character of `lang` may stand in a code language.
pub fn code_lang_ok_exec(lang: &[char]) -> (b: bool)
    ensures
        b == code_lang_ok(lang@),
{
    let mut k: usize = 0;
    while k < lang.len()
        invariant
            k <= lang@.len(),
            forall|m: int| 0 <= m < k ==> is_ascii_alnum(#[trigger] lang@[m]) || lang@[m] == '-' || lang@[m] == '_',
        decreases lang@.len() - k,
    {
        let c = lang[k];
        if !(is_ascii_alnum_exec(c) || c == '-' || c == '_') {
            assert(!(is_ascii_alnum(lang@[k as int]) || lang@[k as int] == '-' || lang@[k as int] == '_'));
            return false;
        }
        k = k + 1;
    }
    true
}

/// `skip_one_blank` at line `j`.
pub fn skip_one_blank_exec(ls: &Vec<Vec<char>>, j: usize) -> (r: usize)
    requires
        j <= ls@.len() < usize::MAX,
    ensures
        r == skip_one_blank(lv(ls), j as int),
        j <= r <= ls@.len(),
{
    if j < ls.len() && is_blank_exec(ls[j].as_slice()) {
        assert(ls[j as int]@ == lv(ls)[j as int]);
        j + 1
    } else {
        proof {
            if j < ls@.len() {
                assert(ls[j as int]@ == lv(ls)[j as int]);
            }
        }
        j
    }
}

/// The directive on line `i`, whose text after `.. ` is `rest`.
pub fn directive_exec(ls: &Vec<Vec<char>>, i: usize, rest: &[char]) -> (r: ExecStep)
    requires
        i < ls@.len() < usize::MAX,
    ensures
        step_is(r, directive(lv(ls), i as int, rest@)),
        step_bounded(r, i as int, ls@.len() as int),
{
    let code = chars_of("code-block::");
    let image = chars_of("image::");
    let math = chars_of("math::");
    let n = rest.len();
    if starts_with_exec(rest, code.as_slice()) {
        proof { reveal_strlit("code-block::"); }
        let (a, b) = trim_bounds(rest, 12, n);
        assert(rest@.subrange(12, n as int) =~= rest@.skip(12));
        let lang = slice_vec(rest, a, b);
        if lang.len() > 0 && !code_lang_ok_exec(lang.as_slice()) {
            return ExecStep::Fail(line_error(i + 1, "invalid code language"));
        }
        let j = skip_one_blank_exec(ls, i + 1);
        match indented_exec(ls, j) {
            Ok((body, e)) => ExecStep::Emit(
                one_block(Block::Code(string_of(lang.as_slice()), string_of(body.as_slice()))),
                e,
            ),
            Err(f) => ExecStep::Fail(f),
        }
    } else if starts_with_exec(rest, image.as_slice()) {
        proof { reveal_strlit("image::"); }
        let (a, b) = trim_bounds(rest, 7, n);
        assert(rest@.subrange(7, n as int) =~= rest@.skip(7));
        if a == b {
            return ExecStep::Fail(line_error(i + 1, "image path is empty"));
        }
        let src = slice_vec(rest, a, b);
        match image_options_exec(ls, i + 1) {
            Err(f) => ExecStep::Fail(f),
            Ok((alt, caption, e)) => match alt {
                None => ExecStep::Fail(line_error(e, "image requires :alt:")),
                Some(alt) => {
                    let caption = match caption {
                        Some(c) => Some(string_of(c.as_slice())),
                        None => None,
                    };
                    ExecStep::Emit(
                        one_block(Block::Image {
                            src: string_of(src.as_slice()),
                            alt: string_of(alt.as_slice()),
                            caption,
                        }),
                        e,
                    )
                },
            },
        }
    } else {
        let t = trim_exec(rest);
        if eq_chars(t.as_slice(), math.as_slice()) {
            let j = skip_one_blank_exec(ls, i + 1);
            match indented_exec(ls, j) {
                Err(f) => ExecStep::Fail(f),
                Ok((expr, e)) => {
                    if !math_chars_ok_exec(expr.as_slice()) {
                        ExecStep::Fail(
                            line_error(
                                e,
                                "unsupported math syntax; use identifiers, numbers and basic operators",
                            ),
                        )
                    } else if !math_scripts_ok_exec(expr.as_slice()) {
                        ExecStep::Fail(line_error(e, "math script needs an identifier or number"))
                    } else {
                        ExecStep::Emit(one_block(Block::Math(string_of(expr.as_slice()))), e)
                    }
                },
            }
        } else {
            ExecStep::Fail(line_error(i + 1, "unsupported directive"))
        }
    }
}

/// The position after the trailing copies of `c` in `s[lo..hi]`.
pub fn trim_end_char_bound(s: &[char], lo: usize, hi: usize, c: char) -> (r: usize)
    requires
        lo <= hi <= s@.len(),
    ensures
        lo <= r <= hi,
        s@.subrange(lo as int, r as int) == trim_end_char(s@.subrange(lo as int, hi as int), c),
{
    let ghost u = s@.subrange(lo as int, hi as int);
    let mut j = hi;
    while j > lo && s[j - 1] == c
        invariant
            lo <= j <= hi <= s@.len(),
            trail_count(u, c) == (hi - j) + trail_count(s@.subrange(lo as int, j as int), c),
        decreases j - lo,
    {
        assert(s@.subrange(lo as int, j as int).drop_last() =~= s@.subrange(lo as int, j - 1));
        j = j - 1;
    }
    assert(trim_end_char(u, c) =~= s@.subrange(lo as int, j as int));
    j
}

/// The literal block that line `i` introduces with `::`.
pub fn literal_exec(ls: &Vec<Vec<char>>, i: usize) -> (r: ExecStep)
    requires
        i < ls@.len() < usize::MAX,
    ensures
        step_is(r, literal(lv(ls), i as int)),
        step_bounded(r, i as int, ls@.len() as int),
{
    let line = &ls[i];
    assert(line@ == lv(ls)[i as int]);
    let n = line.len();
    let tw = trail_ws_exec(line.as_slice(), 0, n);
    proof { lemma_trail_ws_bound(line@); }
    assert(line@.subrange(0, n as int) =~= line@);
    assert(trim_end(line@) =~= line@.subrange(0, n - tw));
    let c_end = trim_end_char_bound(line.as_slice(), 0, n - tw, ':');
    let (a, b) = trim_bounds(line.as_slice(), 0, c_end);
    let intro = slice_vec(line.as_slice(), a, b);
    let j = skip_one_blank_exec(ls, i + 1);
    match indented_exec(ls, j) {
        Ok((body, e)) => {
            let ghost intro_spec = trim(trim_end_char(trim_end(line@), ':'));
            assert(intro@ == intro_spec);
            let mut v: Vec<Block> = Vec::new();
            if intro.len() > 0 {
                v.push(Block::Paragraph(string_of(intro.as_slice())));
                assert(block_views(v@) =~= seq![SpecBlock::Paragraph(intro_spec)]);
            } else {
                assert(block_views(v@) =~= Seq::<SpecBlock>::empty());
            }
            let ghost before = block_views(v@);
            v.push(Block::Code(String::new(), string_of(body.as_slice())));
            assert(block_views(v@) =~= before + seq![SpecBlock::Code(Seq::empty(), body@)]);
            ExecStep::Emit(v, e)
        },
        Err(f) => ExecStep::Fail(f),
    }
}

/// Whether some row has another number of cells than the first.
pub fn ragged(rows: &Vec<Vec<String>>) -> (b: bool)
    requires
        rows@.len() > 0,
    ensures
        b == exists|r: int| 0 <= r < rows@.len() && #[trigger] row_views(rows@)[r].len() != row_views(rows@)[0].len(),
{
    let w = rows[0].len();
    let mut k: usize = 0;
    while k < rows.len()
        invariant
            k <= rows@.len(),
            rows@.len() > 0,
            w == row_views(rows@)[0].len(),
            forall|r: int| 0 <= r < k ==> #[trigger] row_views(rows@)[r].len() == w,
        decreases rows@.len() - k,
    {
        if rows[k].len() != w {
            assert(row_views(rows@)[k as int].len() != w);
            return true;
        }
        k = k + 1;
    }
    false
}

/// The grid table starting at line `i`.
pub fn table_exec(ls: &Vec<Vec<char>>, i: usize) -> (r: ExecStep)
    requires
        i < ls@.len() < usize::MAX,
    ensures
        step_is(r, table(lv(ls), i as int)),
        step_bounded(r, i as int, ls@.len() as int),
{
    let (rows, e) = table_lines_exec(ls, i + 1);
    if rows.len() == 0 {
        return ExecStep::Fail(line_error(e, "table has no rows"));
    }
    let plus = chars_of("+");
    if e == 0 || !starts_with_exec(ls[e - 1].as_slice(), plus.as_slice()) || ragged(&rows) {
        proof {
            if e > 0 {
                assert(ls[e - 1]@ == lv(ls)[e - 1]);
            }
        }
        return ExecStep::Fail(line_error(e, "malformed table"));
    }
    assert(ls[e - 1]@ == lv(ls)[e - 1]);
    ExecStep::Emit(one_block(Block::Table(rows)), e)
}

/// The paragraph starting at line `i`.
pub fn paragraph_step_exec(ls: &Vec<Vec<char>>, i: usize) -> (r: ExecStep)
    requires
        i < ls@.len() < usize::MAX,
    ensures
        step_is(r, paragraph(lv(ls), i as int)),
        step_bounded(r, i as int, ls@.len() as int),
{
    let (text, e) = paragraph_exec(ls, i);
    proof { lemma_paragraph_lines_end(lv(ls), i as int); }
    if text.len() == 0 {
        return ExecStep::Fail(line_error(e + 1, "unsupported RST syntax"));
    }
    proof {
        if e == i {
            assert(paragraph_lines(lv(ls), i as int).0.len() == 0);
        }
    }
    ExecStep::Emit(one_block(Block::Paragraph(string_of(text.as_slice()))), e)
}

/// What the block loop does at line `i`.
pub fn step_exec(ls: &Vec<Vec<char>>, i: usize) -> (r: ExecStep)
    requires
        i < ls@.len() < usize::MAX,
    ensures
        step_is(r, step(lv(ls), i as int)),
        step_bounded(r, i as int, ls@.len() as int),
{
    let ghost L = lv(ls);
    let n = ls.len();
    let line = &ls[i];
    assert(line@ == L[i as int]);
    if is_blank_exec(line.as_slice()) {
        return ExecStep::Skip(i + 1);
    }
    if i + 1 < n {
        assert(ls[i + 1]@ == L[i + 1]);
        if let Some(ch) = rule_exec(ls[i + 1].as_slice()) {
            return heading_exec(ls, i, ch);
        }
    }
    let dots = chars_of(".. ");
    if starts_with_exec(line.as_slice(), dots.as_slice()) {
        proof { reveal_strlit(".. "); }
        let rest = slice_vec(line.as_slice(), 3, line.len());
        assert(rest@ =~= line@.skip(3));
        return directive_exec(ls, i, rest.as_slice());
    }
    let colon = chars_of(":");
    if starts_with_exec(line.as_slice(), colon.as_slice()) {
        proof { lemma_field_entries_end(L, i as int); }
        return match field_entries_exec(ls, i) {
            Ok((fields, e)) => ExecStep::Emit(one_block(Block::Fields(fields)), e),
            Err(f) => ExecStep::Fail(f),
        };
    }
    if is_bullet_exec(line.as_slice()).is_some() {
        let ordered = starts_digit_exec(line.as_slice());
        proof { lemma_list_items_end(L, i as int, ordered); }
        let (items, e) = list_items_exec(ls, i, ordered);
        return ExecStep::Emit(one_block(Block::List(ordered, items)), e);
    }
    let pad = chars_of("   ");
    if starts_with_exec(line.as_slice(), pad.as_slice()) {
        proof {
            assert(indented_lines(L, i as int).1 == indented_lines(L, i + 1).1);
            lemma_indented_lines_end(L, i + 1);
        }
        return match indented_exec(ls, i) {
            Ok((body, e)) => ExecStep::Emit(one_block(Block::Quote(string_of(body.as_slice()))), e),
            Err(f) => ExecStep::Fail(f),
        };
    }
    let ln = line.len();
    let tw = trail_ws_exec(line.as_slice(), 0, ln);
    proof { lemma_trail_ws_bound(line@); }
    assert(line@.subrange(0, ln as int) =~= line@);
    let te = slice_vec(line.as_slice(), 0, ln - tw);
    assert(te@ =~= trim_end(line@));
    let t = trim_exec(line.as_slice());
    let colons = chars_of("::");
    let two_dots = chars_of("..");
    if ends_with_exec(te.as_slice(), colons.as_slice()) && !starts_with_exec(t.as_slice(), two_dots.as_slice()) {
        return literal_exec(ls, i);
    }
    let grid = chars_of("+---");
    if starts_with_exec(line.as_slice(), grid.as_slice()) {
        return table_exec(ls, i);
    }
    let bar = chars_of("|");
    if starts_with_exec(line.as_slice(), two_dots.as_slice()) || starts_with_exec(line.as_slice(), bar.as_slice())
        || rule_exec(line.as_slice()).is_some() {
        return ExecStep::Fail(line_error(i + 1, "unsupported RST syntax"));
    }
    paragraph_step_exec(ls, i)
}

pub open spec fn with_blocks(acc: Seq<SpecBlock>, r: Result<Seq<SpecBlock>, Failure>) -> Result<
    Seq<SpecBlock>,
    Failure,
> {
    match r {
        Ok(bs) => Ok(acc + bs),
        Err(f) => Err(f),
    }
}

/// The error that a failure of the file at `path` is reported as.
pub open spec fn source_error_view(path: Seq<char>, f: Failure) -> SpecError {
    SpecError::Source { path, line: f.line, message: f.message }
}

/// Parses the reStructuredText subset. On success the document is exactly
/// what `parse_spec` gives; otherwise the error names `path` with the line
/// and message of the failure `parse_spec` gives.
pub fn parse(path: &str, source: &str) -> (r: Result<Document, Error>)
    requires
        source@.len() < usize::MAX,
    ensures
        match parse_spec(source@) {
            Ok(d) => r matches Ok(doc) && doc@ == d,
            Err(f) => r matches Err(e) && e@ == source_error_view(path@, f),
        },
{
    let chars = chars_of(source);
    let ls = lines_of(chars.as_slice());
    let ghost L = lv(&ls);
    proof { lemma_lines_len(source@); }
    let n = ls.len();
    let mut k: usize = 0;
    while k < n
        invariant
            k <= n,
            n == ls@.len(),
            L == lv(&ls),
            L == lines(source@),
            link_failure(L, 0) == link_failure(L, k as int),
        decreases n - k,
    {
        assert(ls[k as int]@ == L[k as int]);
        if let Some(message) = link_problem_exec(ls[k].as_slice()) {
            return Err(Error::Source { path: String::from_str(path), line: k + 1, message });
        }
        k = k + 1;
    }
    assert(link_failure(L, 0) is None);
    if n < 2 {
        return Err(Error::Source {
            path: String::from_str(path),
            line: 1,
            message: String::from_str("expected a document title with an '=' underline"),
        });
    }
    assert(ls[0]@ == L[0] && ls[1]@ == L[1]);
    let (ta, tb) = trim_bounds(ls[0].as_slice(), 0, ls[0].len());
    let (ua, ub) = trim_bounds(ls[1].as_slice(), 0, ls[1].len());
    assert(ls[0]@.subrange(0, ls[0]@.len() as int) =~= ls[0]@);
    assert(ls[1]@.subrange(0, ls[1]@.len() as int) =~= ls[1]@);
    let r1 = rule_exec(ls[1].as_slice());
    if r1 != Some('=') || ub - ua < tb - ta || ta == tb {
        return Err(Error::Source {
            path: String::from_str(path),
            line: 1,
            message: String::from_str("expected a document title with an '=' underline"),
        });
    }
    assert(has_title(L));
    let title = string_of(slice_vec(ls[0].as_slice(), ta, tb).as_slice());
    let mut blocks: Vec<Block> = Vec::new();
    let mut i: usize = 2;
    assert(block_views(blocks@) =~= Seq::<SpecBlock>::empty());
    assert(with_blocks(Seq::empty(), blocks_from(L, 2)) =~= blocks_from(L, 2)) by {
        match blocks_from(L, 2) {
            Ok(bs) => { assert(Seq::<SpecBlock>::empty() + bs =~= bs); },
            Err(f) => {},
        }
    }
    while i < n
        invariant
            2 <= i <= n,
            n == ls@.len() < usize::MAX,
            L == lv(&ls),
            L == lines(source@),
            link_failure(L, 0) is None,
            has_title(L),
            blocks_from(L, 2) == with_blocks(block_views(blocks@), blocks_from(L, i as int)),
        decreases n - i,
    {
        let ghost before = block_views(blocks@);
        match step_exec(&ls, i) {
            ExecStep::Skip(j) => {
                i = j;
            },
            ExecStep::Emit(v, j) => {
                let mut v = v;
                let ghost added = block_views(v@);
                blocks.append(&mut v);
                assert(block_views(blocks@) =~= before + added);
                proof {
                    match blocks_from(L, j as int) {
                        Ok(bs) => { assert(before + (added + bs) =~= before + added + bs); },
                        Err(f) => {},
                    }
                }
                i = j;
            },
            ExecStep::Fail(f) => {
                return Err(Error::Source { path: String::from_str(path), line: f.line, message: f.message });
            },
        }
    }
    assert(block_views(blocks@) + Seq::<SpecBlock>::empty() =~= block_views(blocks@));
    Ok(Document { title, blocks })
}

} // verus!
