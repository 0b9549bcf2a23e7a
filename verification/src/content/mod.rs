//! Site content: calendar dates, post metadata and the checks on posts.

use vstd::prelude::*;
use crate::commands::serve::{climbs, join_path, relative_path};
use crate::error::{Error, SpecError};
use crate::rst::parser::{
    source_error_view,
    contains_char, fail_at, split_exec, parse, parse_spec, is_failure, line_error, lv, split_on, split_trim_exec, trimmed_cells,
    eq_chars, Failure, LineError,
};
use crate::rst::ast::{string_views, Block, Document, SpecBlock, SpecDocument};
use crate::text::{
    chars_of, debug_quoted, debug_str, decimal, decimal_text, find, find_from, is_ascii_alnum,
    is_ascii_alnum_exec, is_ascii_digit, is_ascii_digit_exec, is_ascii_lower, is_ascii_lower_exec,
    is_blank, is_blank_exec, join, join_exec, lemma_join_lines_len, lemma_join_skip_len,
    lemma_join_split, lines, lines_of, lemma_lines_len, push_char,
    slice_vec, starts_with, starts_with_exec, string_of, trim, trim_bounds, views,
};

verus! {

// ---------------------------------------------------------------------------
// Calendar dates
// ---------------------------------------------------------------------------

/// A date of the proleptic Gregorian calendar.
#[derive(Clone, Copy, Debug, PartialEq, Eq, Structural)]
pub struct Date {
    pub year: i32,
    pub month: u8,
    pub day: u8,
}

pub open spec fn is_leap_year(y: int) -> bool {
    (y % 4 == 0 && y % 100 != 0) || y % 400 == 0
}

pub open spec fn days_in_month(y: int, m: int) -> int {
    if m == 2 {
        if is_leap_year(y) {
            29
        } else {
            28
        }
    } else if m == 4 || m == 6 || m == 9 || m == 11 {
        30
    } else {
        31
    }
}

/// A date that the `time` crate can represent (years within ±9999).
pub open spec fn valid_date(d: Date) -> bool {
    &&& -9999 <= d.year <= 9999
    &&& 1 <= d.month <= 12
    &&& 1 <= d.day <= days_in_month(d.year as int, d.month as int)
}

/// `n` in decimal, padded with leading zeros to `width` digits.
pub open spec fn zero_padded(n: nat, width: nat) -> Seq<char>
    decreases width,
{
    if decimal_text(n).len() >= width || width == 0 {
        decimal_text(n)
    } else {
        seq!['0'] + zero_padded(n, (width - 1) as nat)
    }
}

/// The text of a date as `[year]-[month]-[day]`: a minus sign for negative
/// years, the year's magnitude in (at least) four digits, then the month and
/// the day in two digits each.
pub open spec fn date_text_spec(d: Date) -> Seq<char> {
    let y = d.year as int;
    (if y < 0 {
        "-"@
    } else {
        Seq::<char>::empty()
    }) + zero_padded((if y < 0 { -y } else { y }) as nat, 4) + "-"@ + zero_padded(d.month as nat, 2)
        + "-"@ + zero_padded(d.day as nat, 2)
}

/// Appends `zero_padded(n, width)` to `out`.
pub(crate) fn push_zero_padded(out: &mut String, n: u32, width: usize)
    ensures
        final(out)@ == old(out)@ + zero_padded(n as nat, width as nat),
    decreases width,
{
    let digits = decimal(n as usize);
    let len = digits.as_str().unicode_len();
    if len >= width || width == 0 {
        out.append(digits.as_str());
    } else {
        push_char(out, '0');
        let ghost mid = out@;
        push_zero_padded(out, n, width - 1);
        assert(out@ =~= old(out)@ + zero_padded(n as nat, width as nat));
    }
}

/// The date as `YYYY-MM-DD` (the `time` crate's `[year]-[month]-[day]`).
pub fn date_text(date: Date) -> (r: String)
    ensures
        r@ == date_text_spec(date),
{
    let mut out = String::new();
    let y: i64 = date.year as i64;
    let magnitude: u32 = if y < 0 {
        out.append("-");
        (-y) as u32
    } else {
        y as u32
    };
    push_zero_padded(&mut out, magnitude, 4);
    out.append("-");
    push_zero_padded(&mut out, date.month as u32, 2);
    out.append("-");
    push_zero_padded(&mut out, date.day as u32, 2);
    assert(out@ =~= date_text_spec(date));
    out
}

/// The value of a decimal digit.
pub open spec fn digit_value(c: char) -> int {
    (c as u32) - ('0' as u32)
}

/// The value of a run of decimal digits.
pub open spec fn digits_value(s: Seq<char>) -> int
    decreases s.len(),
{
    if s.len() == 0 {
        0
    } else {
        digits_value(s.drop_last()) * 10 + digit_value(s.last())
    }
}

pub open spec fn all_digits(s: Seq<char>) -> bool {
    forall|i: int| 0 <= i < s.len() ==> is_ascii_digit(#[trigger] s[i])
}

/// What `time::Date::parse` returns for `text` with the format description
/// `[year]-[month]-[day]` (the `large-dates` feature off), as year, month
/// and day: an optional sign, four digits of year, `-`, two digits of
/// month, `-`, two digits of day, and nothing more; the month from 1 to 12
/// and the day within that month.
pub open spec fn parsed_date(text: Seq<char>) -> Option<(i32, u8, u8)> {
    let signed = text.len() > 0 && (text[0] == '-' || text[0] == '+');
    let body = if signed { text.drop_first() } else { text };
    if body.len() == 10 && all_digits(body.take(4)) && body[4] == '-' && all_digits(body.subrange(5, 7))
        && body[7] == '-' && all_digits(body.subrange(8, 10)) {
        let magnitude = digits_value(body.take(4));
        let y = if signed && text[0] == '-' { -magnitude } else { magnitude };
        let m = digits_value(body.subrange(5, 7));
        let d = digits_value(body.subrange(8, 10));
        if 1 <= m <= 12 && 1 <= d <= days_in_month(y, m) {
            Some((y as i32, m as u8, d as u8))
        } else {
            None
        }
    } else {
        None
    }
}

pub open spec fn date_of(t: (i32, u8, u8)) -> Date {
    Date { year: t.0, month: t.1, day: t.2 }
}

proof fn lemma_decimal_digits(n: nat)
    ensures
        all_digits(decimal_text(n)),
        digits_value(decimal_text(n)) == n,
        decimal_text(n).len() >= 1,
    decreases n,
{
    if n < 10 {
        let c = (('0' as u32) + n) as char;
        assert(decimal_text(n) == seq![c]);
        assert(c as u32 == 48 + n);
        assert(c as int == 48 + n);
        assert(is_ascii_digit(c));
        assert(seq![c].drop_last() =~= Seq::<char>::empty());
        assert(seq![c][0] == c);
        assert(digits_value(seq![c]) == digits_value(Seq::<char>::empty()) * 10 + digit_value(c));
        assert(digit_value(c) == n);
    } else {
        lemma_decimal_digits(n / 10);
        let a = decimal_text(n / 10);
        let c = (('0' as u32) + (n % 10)) as char;
        assert(c as u32 == 48 + n % 10);
        assert(c as int == 48 + n % 10);
        assert(is_ascii_digit(c));
        assert((a + seq![c]).drop_last() =~= a);
        assert((a + seq![c]).last() == c);
        assert(digit_value(c) == n % 10);
        assert((n / 10) * 10 + n % 10 == n) by (nonlinear_arith);
        assert(digits_value(a + seq![c]) == digits_value(a) * 10 + digit_value(c));
        assert forall|i: int| 0 <= i < (a + seq![c]).len() implies is_ascii_digit(#[trigger] (a + seq![c])[i]) by {
            if i < a.len() {
                assert((a + seq![c])[i] == a[i]);
            }
        }
    }
}

pub open spec fn pow10(w: nat) -> nat
    decreases w,
{
    if w == 0 {
        1
    } else {
        10 * pow10((w - 1) as nat)
    }
}

proof fn lemma_decimal_len(n: nat, w: nat)
    requires
        n < pow10(w),
        w >= 1,
    ensures
        decimal_text(n).len() <= w,
    decreases n,
{
    if n >= 10 {
        let p = pow10((w - 1) as nat);
        if w == 1 {
            assert(pow10(0) == 1);
        }
        assert(w >= 2);
        assert(n < 10 * p);
        assert(n / 10 < p) by (nonlinear_arith)
            requires
                n < 10 * p,
        ;
        lemma_decimal_len(n / 10, (w - 1) as nat);
    }
}

proof fn lemma_decimal_short(n: nat)
    ensures
        n < 100 ==> decimal_text(n).len() <= 2,
        n < 10000 ==> decimal_text(n).len() <= 4,
{
    reveal_with_fuel(pow10, 5);
    assert(pow10(2) == 100);
    assert(pow10(4) == 10000);
    if n < 100 {
        lemma_decimal_len(n, 2);
    }
    if n < 10000 {
        lemma_decimal_len(n, 4);
    }
}

proof fn lemma_zero_prefix(s: Seq<char>)
    ensures
        digits_value(seq!['0'] + s) == digits_value(s),
        all_digits(s) ==> all_digits(seq!['0'] + s),
    decreases s.len(),
{
    if s.len() > 0 {
        lemma_zero_prefix(s.drop_last());
        let t = seq!['0'] + s;
        assert(t.drop_last() =~= seq!['0'] + s.drop_last());
        assert(t.last() == s.last());
        assert(digits_value(t) == digits_value(t.drop_last()) * 10 + digit_value(t.last()));
    } else {
        let t = seq!['0'] + s;
        assert(t.drop_last() =~= Seq::<char>::empty());
        assert(t.last() == '0');
        assert(digits_value(t) == digits_value(t.drop_last()) * 10 + digit_value(t.last()));
        assert(digit_value('0') == 0);
    }
    if all_digits(s) {
        assert forall|i: int| 0 <= i < (seq!['0'] + s).len() implies is_ascii_digit(#[trigger] (seq!['0'] + s)[i]) by {
            if i > 0 {
                assert((seq!['0'] + s)[i] == s[i - 1]);
            }
        }
    }
}

proof fn lemma_zero_padded_digits(n: nat, width: nat)
    requires
        decimal_text(n).len() <= width,
    ensures
        zero_padded(n, width).len() == width,
        all_digits(zero_padded(n, width)),
        digits_value(zero_padded(n, width)) == n,
    decreases width,
{
    lemma_decimal_digits(n);
    if !(decimal_text(n).len() >= width || width == 0) {
        lemma_zero_padded_digits(n, (width - 1) as nat);
        lemma_zero_prefix(zero_padded(n, (width - 1) as nat));
    }
}

/// The text of a valid date reads back as that date: `time` parses what
/// `date_text` prints.
pub proof fn date_text_reads_back(d: Date)
    requires
        valid_date(d),
    ensures
        parsed_date(date_text_spec(d)) == Some((d.year, d.month, d.day)),
{
    reveal_strlit("-");
    let y = d.year as int;
    let mag = (if y < 0 { -y } else { y }) as nat;
    lemma_decimal_short(mag);
    lemma_decimal_short(d.month as nat);
    lemma_decimal_short(d.day as nat);
    lemma_zero_padded_digits(mag, 4);
    lemma_zero_padded_digits(d.month as nat, 2);
    lemma_zero_padded_digits(d.day as nat, 2);
    let ys = zero_padded(mag, 4);
    let ms = zero_padded(d.month as nat, 2);
    let ds = zero_padded(d.day as nat, 2);
    let body = ys + "-"@ + ms + "-"@ + ds;
    let text = date_text_spec(d);
    assert(body.take(4) =~= ys);
    assert(body.subrange(5, 7) =~= ms);
    assert(body.subrange(8, 10) =~= ds);
    assert(body[4] == '-' && body[7] == '-');
    if y < 0 {
        assert(text =~= "-"@ + body);
        assert(text.drop_first() =~= body);
    } else {
        assert(text =~= body);
        assert(is_ascii_digit(ys[0]));
        assert(text[0] == ys[0]);
    }
}

/// `time::Date::parse(text, [year]-[month]-[day])`. The contract states the
/// result as `parsed_date` and what every `time::Date` is: a valid calendar
/// date with a year within ±9999 (the `large-dates` feature is off).
#[verifier::external_body]
fn parse_iso_date(text: &str) -> (r: Option<Date>)
    ensures
        r == (match parsed_date(text@) {
            Some(t) => Some(date_of(t)),
            None => None,
        }),
        r matches Some(d) ==> valid_date(d),
{
    match time::format_description::parse_borrowed::<1>("[year]-[month]-[day]") {
        Ok(items) => match time::Date::parse(text, &items) {
            Ok(d) => Some(Date { year: d.year(), month: u8::from(d.month()), day: d.day() }),
            Err(_) => None,
        },
        Err(_) => None,
    }
}

// ---------------------------------------------------------------------------
// Post metadata
// ---------------------------------------------------------------------------

/// The metadata of a post, as the model sees it.
pub struct MetaSpec {
    pub date: Date,
    pub slug: Seq<char>,
    pub tags: Seq<Seq<char>>,
    pub lang: Seq<char>,
    pub draft: bool,
}

/// The metadata of a post.
#[derive(Debug, Clone)]
pub struct PostMeta {
    pub date: Date,
    pub slug: String,
    pub tags: Vec<String>,
    pub lang: String,
    pub draft: bool,
}

impl View for PostMeta {
    type V = MetaSpec;

    open spec fn view(&self) -> MetaSpec {
        MetaSpec {
            date: self.date,
            slug: self.slug@,
            tags: string_views(self.tags@),
            lang: self.lang@,
            draft: self.draft,
        }
    }
}

pub open spec fn is_meta_key(k: Seq<char>) -> bool {
    k == "date"@ || k == "slug"@ || k == "tags"@ || k == "lang"@ || k == "draft"@
}

/// The value of the first field named `key`.
pub open spec fn lookup(fields: Seq<(Seq<char>, Seq<char>)>, key: Seq<char>) -> Option<Seq<char>>
    decreases fields.len(),
{
    if fields.len() == 0 {
        None
    } else if fields[0].0 == key {
        Some(fields[0].1)
    } else {
        lookup(fields.drop_first(), key)
    }
}

/// The index of the first line from `i` on that is not blank.
pub open spec fn first_content(lines: Seq<Seq<char>>, i: int) -> int
    decreases lines.len() - i,
{
    if 0 <= i < lines.len() && is_blank(lines[i]) {
        first_content(lines, i + 1)
    } else {
        i
    }
}

/// The metadata fields from line `i` on, after the fields `acc`, and the
/// index of the first line after them.
pub open spec fn meta_fields(lines: Seq<Seq<char>>, i: int, acc: Seq<(Seq<char>, Seq<char>)>) -> Result<
    (Seq<(Seq<char>, Seq<char>)>, int),
    Failure,
>
    decreases lines.len() - i,
{
    if 0 <= i < lines.len() && starts_with(lines[i], ":"@) {
        let body = lines[i].skip(1);
        match find(body, ":"@) {
            None => Err(fail_at(i + 1, "invalid metadata field"@)),
            Some(k) => {
                let key = body.take(k);
                let value = trim(body.skip(k + 1));
                if !is_meta_key(key) {
                    Err(fail_at(i + 1, "unknown metadata field: "@ + key))
                } else if lookup(acc, key) is Some {
                    Err(fail_at(i + 1, "duplicate metadata field: "@ + key))
                } else {
                    meta_fields(lines, i + 1, acc.push((key, value)))
                }
            },
        }
    } else {
        Ok((acc, i))
    }
}

pub open spec fn tag_ok(tag: Seq<char>) -> bool {
    tag.len() > 0 && forall|k: int|
        0 <= k < tag.len() ==> is_ascii_lower(#[trigger] tag[k]) || is_ascii_digit(tag[k]) || tag[k] == '-'
}

/// The tags of `parts`, or the message for the first bad one.
pub open spec fn checked_tags(parts: Seq<Seq<char>>) -> Result<Seq<Seq<char>>, Seq<char>>
    decreases parts.len(),
{
    if parts.len() == 0 {
        Ok(seq![])
    } else if !tag_ok(parts[0]) {
        Err("invalid or empty tag: "@ + debug_str(parts[0]))
    } else {
        match checked_tags(parts.drop_first()) {
            Ok(rest) => Ok(seq![parts[0]] + rest),
            Err(m) => Err(m),
        }
    }
}

/// The tags of a `:tags:` value: none for an empty value, otherwise the
/// comma-separated tags, trimmed.
pub open spec fn tag_list(raw: Seq<char>) -> Result<Seq<Seq<char>>, Seq<char>> {
    if raw.len() == 0 {
        Ok(seq![])
    } else {
        checked_tags(trimmed_cells(split_on(raw, ',')))
    }
}

/// A character a tag may hold: a lowercase ASCII letter, a digit or `-`.
pub open spec fn tag_char(c: char) -> bool {
    ('a' <= c && c <= 'z') || ('0' <= c && c <= '9') || c == '-'
}

proof fn lemma_tag_chars_plain(t: Seq<char>)
    requires
        forall|k: int| 0 <= k < t.len() ==> tag_char(#[trigger] t[k]),
    ensures
        forall|k: int| 0 <= k < t.len() ==> !crate::text::is_ws(#[trigger] t[k]) && t[k] != ',',
        tag_ok(t) <==> t.len() > 0,
{
    assert forall|k: int| 0 <= k < t.len() implies !crate::text::is_ws(#[trigger] t[k]) && t[k] != ',' by {
        assert(tag_char(t[k]));
    }
}

proof fn lemma_checked_tags(tags: Seq<Seq<char>>)
    requires
        forall|i: int| 0 <= i < tags.len() ==> (#[trigger] tags[i]).len() > 0 && forall|k: int|
            0 <= k < tags[i].len() ==> tag_char(#[trigger] tags[i][k]),
    ensures
        checked_tags(tags) == Ok::<Seq<Seq<char>>, Seq<char>>(tags),
    decreases tags.len(),
{
    if tags.len() > 0 {
        lemma_tag_chars_plain(tags[0]);
        let rest = tags.drop_first();
        assert forall|i: int| 0 <= i < rest.len() implies (#[trigger] rest[i]).len() > 0 && forall|k: int|
            0 <= k < rest[i].len() ==> tag_char(#[trigger] rest[i][k]) by {
            assert(rest[i] == tags[i + 1]);
        }
        lemma_checked_tags(rest);
        assert(tag_ok(tags[0]));
        assert(seq![tags[0]] + rest =~= tags);
    } else {
        assert(tags =~= Seq::<Seq<char>>::empty());
    }
}

proof fn lemma_split_joined_tags(tags: Seq<Seq<char>>)
    requires
        tags.len() > 0,
        forall|i: int| 0 <= i < tags.len() ==> forall|k: int|
            0 <= k < (#[trigger] tags[i]).len() ==> tag_char(#[trigger] tags[i][k]),
    ensures
        split_on(join(tags, ","@), ',') == tags,
    decreases tags.len(),
{
    reveal_strlit(",");
    lemma_tag_chars_plain(tags[0]);
    assert(!tags[0].contains(',')) by {
        if tags[0].contains(',') {
            let k = choose|k: int| 0 <= k < tags[0].len() && tags[0][k] == ',';
        }
    }
    if tags.len() == 1 {
        crate::commands::serve::lemma_split_whole(tags[0], ',');
        assert(seq![tags[0]] =~= tags);
    } else {
        let rest = tags.drop_first();
        assert forall|i: int| 0 <= i < rest.len() implies forall|k: int|
            0 <= k < (#[trigger] rest[i]).len() ==> tag_char(#[trigger] rest[i][k]) by {
            assert(rest[i] == tags[i + 1]);
        }
        lemma_split_joined_tags(rest);
        crate::commands::serve::lemma_split_concat(tags[0], join(rest, ","@), ',');
        crate::commands::serve::lemma_split_whole(tags[0], ',');
        assert(join(tags, ","@) =~= tags[0] + seq![','] + join(rest, ","@));
        assert(seq![tags[0]] + rest =~= tags);
    }
}

/// Tags of lowercase letters, digits and `-` are accepted: a `:tags:`
/// value that lists such tags, separated by commas, reads as exactly those
/// tags, in order.
pub proof fn tags_of_letters_digits_and_dashes_are_accepted(tags: Seq<Seq<char>>)
    requires
        tags.len() > 0,
        forall|i: int| 0 <= i < tags.len() ==> (#[trigger] tags[i]).len() > 0 && forall|k: int|
            0 <= k < tags[i].len() ==> tag_char(#[trigger] tags[i][k]),
    ensures
        tag_list(join(tags, ","@)) == Ok::<Seq<Seq<char>>, Seq<char>>(tags),
        forall|i: int| 0 <= i < tags.len() ==> tag_ok(#[trigger] tags[i]),
{
    assert forall|i: int| 0 <= i < tags.len() implies tag_ok(#[trigger] tags[i]) by {
        lemma_tag_chars_plain(tags[i]);
    }
    lemma_split_joined_tags(tags);
    assert forall|i: int| 0 <= i < tags.len() implies trim(#[trigger] tags[i]) == tags[i] by {
        lemma_tag_chars_plain(tags[i]);
        crate::text::lemma_trim_plain(tags[i]);
    }
    assert(trimmed_cells(tags) =~= tags);
    lemma_checked_tags(tags);
    assert(join(tags, ","@).len() > 0) by {
        if tags.len() == 1 {
        } else {
            assert(join(tags, ","@) == tags[0] + ","@ + join(tags.drop_first(), ","@));
        }
    }
}

pub open spec fn has_duplicate(tags: Seq<Seq<char>>) -> bool {
    exists|i: int, j: int| 0 <= i < j < tags.len() && #[trigger] tags[i] == #[trigger] tags[j]
}

pub open spec fn meta_slug_ok(slug: Seq<char>) -> bool {
    &&& slug.len() > 0
    &&& slug[0] != '-'
    &&& slug.last() != '-'
    &&& forall|k: int| 0 <= k < slug.len() ==> is_ascii_lower(#[trigger] slug[k]) || is_ascii_digit(slug[k]) || slug[k] == '-'
}

pub open spec fn lang_ok(lang: Seq<char>) -> bool {
    lang.len() > 0 && forall|k: int| 0 <= k < lang.len() ==> is_ascii_alnum(#[trigger] lang[k]) || lang[k] == '-'
}

/// The text of a post without its metadata fields: the title lines, a
/// blank line, and the lines after the fields.
pub open spec fn clean_text(lines: Seq<Seq<char>>, i: int) -> Seq<char> {
    join(lines.take(2), "\n"@) + "\n\n"@ + join(lines.skip(i), "\n"@)
}

/// What the metadata of a post source is, once its fields are known.
pub open spec fn meta_from_fields(
    lines: Seq<Seq<char>>,
    fields: Seq<(Seq<char>, Seq<char>)>,
    i: int,
) -> Result<(Seq<char>, MetaSpec), Failure> {
    match lookup(fields, "date"@) {
        None => Err(fail_at(1, "missing :date:"@)),
        Some(date_raw) => match parsed_date(date_raw) {
            None => Err(fail_at(1, "invalid :date:; expected YYYY-MM-DD"@)),
            Some(date) => match lookup(fields, "slug"@) {
                None => Err(fail_at(1, "missing :slug:"@)),
                Some(slug) => if !meta_slug_ok(slug) {
                    Err(fail_at(1, "invalid :slug:"@))
                } else {
                    match lookup(fields, "tags"@) {
                        None => Err(fail_at(1, "missing :tags:"@)),
                        Some(raw) => match tag_list(raw) {
                            Err(m) => Err(fail_at(1, m)),
                            Ok(tags) => if has_duplicate(tags) {
                                Err(fail_at(1, "duplicate tag"@))
                            } else {
                                let lang = match lookup(fields, "lang"@) {
                                    Some(l) => l,
                                    None => "en"@,
                                };
                                let draft = match lookup(fields, "draft"@) {
                                    Some(d) => d,
                                    None => "false"@,
                                };
                                if !lang_ok(lang) {
                                    Err(fail_at(1, "invalid :lang:"@))
                                } else if draft != "true"@ && draft != "false"@ {
                                    Err(fail_at(1, ":draft: must be true or false"@))
                                } else {
                                    Ok((
                                        clean_text(lines, i),
                                        MetaSpec {
                                            date: date_of(date),
                                            slug,
                                            tags,
                                            lang,
                                            draft: draft == "true"@,
                                        },
                                    ))
                                }
                            },
                        },
                    }
                },
            },
        },
    }
}

/// What the metadata of a post source is: the fields after the title and
/// blank lines, checked, and the source without them.
pub open spec fn metadata_spec(source: Seq<char>) -> Result<(Seq<char>, MetaSpec), Failure> {
    let ls = lines(source);
    if ls.len() < 2 {
        Err(fail_at(1, "post needs a title"@))
    } else {
        match meta_fields(ls, first_content(ls, 2), seq![]) {
            Err(f) => Err(f),
            Ok((fields, i)) => meta_from_fields(ls, fields, i),
        }
    }
}

pub open spec fn pair_views(v: Seq<(Vec<char>, Vec<char>)>) -> Seq<(Seq<char>, Seq<char>)> {
    v.map_values(|p: (Vec<char>, Vec<char>)| (p.0@, p.1@))
}

/// The index of the first field named `key`.
fn lookup_exec(fields: &Vec<(Vec<char>, Vec<char>)>, key: &[char]) -> (r: Option<usize>)
    ensures
        r matches Some(k) ==> k < fields@.len() && lookup(pair_views(fields@), key@) == Some(fields@[k as int].1@),
        r is None ==> lookup(pair_views(fields@), key@) is None,
{
    let ghost fs = pair_views(fields@);
    let mut k: usize = 0;
    assert(fs.skip(0) =~= fs);
    while k < fields.len()
        invariant
            k <= fields@.len(),
            fs == pair_views(fields@),
            lookup(fs, key@) == lookup(fs.skip(k as int), key@),
        decreases fields@.len() - k,
    {
        assert(fs.skip(k as int)[0] == fs[k as int]);
        if eq_chars(fields[k].0.as_slice(), key) {
            return Some(k);
        }
        assert(fs.skip(k as int).drop_first() =~= fs.skip(k + 1));
        k = k + 1;
    }
    None
}

fn is_meta_key_exec(key: &[char]) -> (b: bool)
    ensures
        b == is_meta_key(key@),
{
    let date = chars_of("date");
    let slug = chars_of("slug");
    let tags = chars_of("tags");
    let lang = chars_of("lang");
    let draft = chars_of("draft");
    eq_chars(key, date.as_slice()) || eq_chars(key, slug.as_slice()) || eq_chars(key, tags.as_slice())
        || eq_chars(key, lang.as_slice()) || eq_chars(key, draft.as_slice())
}

/// `first_content` from line `i`.
fn first_content_exec(ls: &Vec<Vec<char>>, i: usize) -> (r: usize)
    requires
        i <= ls@.len(),
    ensures
        r == first_content(lv(ls), i as int),
        i <= r <= ls@.len(),
{
    let mut k = i;
    while k < ls.len() && is_blank_exec(ls[k].as_slice())
        invariant
            i <= k <= ls@.len(),
            first_content(lv(ls), i as int) == first_content(lv(ls), k as int),
        decreases ls@.len() - k,
    {
        assert(ls[k as int]@ == lv(ls)[k as int]);
        k = k + 1;
    }
    proof {
        if k < ls@.len() {
            assert(ls[k as int]@ == lv(ls)[k as int]);
        }
    }
    k
}

fn message_with(prefix: &str, tail: &[char]) -> (m: String)
    ensures
        m@ == prefix@ + tail@,
{
    let mut m = String::from_str(prefix);
    crate::text::push_chars(&mut m, tail);
    m
}

/// `meta_fields` from line `i` with no field seen yet.
fn meta_fields_exec(ls: &Vec<Vec<char>>, i: usize) -> (r: Result<(Vec<(Vec<char>, Vec<char>)>, usize), LineError>)
    requires
        i <= ls@.len() < usize::MAX,
    ensures
        match meta_fields(lv(ls), i as int, seq![]) {
            Ok((fs, e)) => r matches Ok((rf, re)) && pair_views(rf@) == fs && re == e,
            Err(f) => r matches Err(x) && is_failure(x, f),
        },
        r matches Ok((_, e)) ==> i <= e <= ls@.len(),
{
    let ghost L = lv(ls);
    let n = ls.len();
    let mut fields: Vec<(Vec<char>, Vec<char>)> = Vec::new();
    let mut k = i;
    let colon = chars_of(":");
    proof { reveal_strlit(":"); }
    assert(pair_views(fields@) =~= Seq::<(Seq<char>, Seq<char>)>::empty());
    while k < n
        invariant
            i <= k <= n,
            n == ls@.len(),
            L == lv(ls),
            colon@ == ":"@,
            ":"@.len() == 1,
            meta_fields(L, i as int, seq![]) == meta_fields(L, k as int, pair_views(fields@)),
        ensures
            i <= k <= n,
            meta_fields(L, i as int, seq![]) == meta_fields(L, k as int, pair_views(fields@)),
            !(k < n && starts_with(L[k as int], ":"@)),
        decreases n - k,
    {
        let line = &ls[k];
        assert(line@ == L[k as int]);
        if !starts_with_exec(line.as_slice(), colon.as_slice()) {
            break;
        }
        let ghost body = L[k as int].skip(1);
        match find_from(line.as_slice(), colon.as_slice(), 1) {
            None => {
                return Err(line_error(k + 1, "invalid metadata field"));
            },
            Some(c) => {
                let key = slice_vec(line.as_slice(), 1, c);
                assert(key@ =~= body.take(c - 1));
                let ln = line.len();
                assert(c + 1 <= ln);
                let (va, vb) = trim_bounds(line.as_slice(), c + 1, ln);
                assert(line@.subrange(c + 1, line@.len() as int) =~= body.skip(c - 1 + 1));
                if !is_meta_key_exec(key.as_slice()) {
                    return Err(LineError { line: k + 1, message: message_with("unknown metadata field: ", key.as_slice()) });
                }
                if lookup_exec(&fields, key.as_slice()).is_some() {
                    return Err(LineError { line: k + 1, message: message_with("duplicate metadata field: ", key.as_slice()) });
                }
                let value = slice_vec(line.as_slice(), va, vb);
                let ghost before = pair_views(fields@);
                fields.push((key, value));
                assert(pair_views(fields@) =~= before.push((key@, value@)));
            },
        }
        k = k + 1;
    }
    Ok((fields, k))
}

fn meta_slug_ok_exec(slug: &[char]) -> (b: bool)
    ensures
        b == meta_slug_ok(slug@),
{
    let n = slug.len();
    if n == 0 || slug[0] == '-' || slug[n - 1] == '-' {
        return false;
    }
    let mut k: usize = 0;
    while k < n
        invariant
            k <= n,
            n == slug@.len(),
            forall|m: int| 0 <= m < k ==> is_ascii_lower(#[trigger] slug@[m]) || is_ascii_digit(slug@[m]) || slug@[m] == '-',
        decreases n - k,
    {
        let c = slug[k];
        if !(is_ascii_lower_exec(c) || is_ascii_digit_exec(c) || c == '-') {
            assert(!(is_ascii_lower(slug@[k as int]) || is_ascii_digit(slug@[k as int]) || slug@[k as int] == '-'));
            return false;
        }
        k = k + 1;
    }
    true
}

fn tag_ok_exec(tag: &[char]) -> (b: bool)
    ensures
        b == tag_ok(tag@),
{
    let n = tag.len();
    if n == 0 {
        return false;
    }
    let mut k: usize = 0;
    while k < n
        invariant
            k <= n,
            n == tag@.len(),
            forall|m: int| 0 <= m < k ==> is_ascii_lower(#[trigger] tag@[m]) || is_ascii_digit(tag@[m]) || tag@[m] == '-',
        decreases n - k,
    {
        let c = tag[k];
        if !(is_ascii_lower_exec(c) || is_ascii_digit_exec(c) || c == '-') {
            assert(!(is_ascii_lower(tag@[k as int]) || is_ascii_digit(tag@[k as int]) || tag@[k as int] == '-'));
            return false;
        }
        k = k + 1;
    }
    true
}

fn lang_ok_exec(lang: &[char]) -> (b: bool)
    ensures
        b == lang_ok(lang@),
{
    let n = lang.len();
    if n == 0 {
        return false;
    }
    let mut k: usize = 0;
    while k < n
        invariant
            k <= n,
            n == lang@.len(),
            forall|m: int| 0 <= m < k ==> is_ascii_alnum(#[trigger] lang@[m]) || lang@[m] == '-',
        decreases n - k,
    {
        let c = lang[k];
        if !(is_ascii_alnum_exec(c) || c == '-') {
            assert(!(is_ascii_alnum(lang@[k as int]) || lang@[k as int] == '-'));
            return false;
        }
        k = k + 1;
    }
    true
}

/// `tag_list` of a raw `:tags:` value.
fn tag_list_exec(raw: &[char]) -> (r: Result<Vec<String>, String>)
    ensures
        match tag_list(raw@) {
            Ok(tags) => r matches Ok(v) && string_views(v@) == tags,
            Err(m) => r matches Err(x) && x@ == m,
        },
{
    if raw.len() == 0 {
        let v: Vec<String> = Vec::new();
        assert(string_views(v@) =~= Seq::<Seq<char>>::empty());
        return Ok(v);
    }
    let parts = split_trim_exec(raw, 0, raw.len(), ',');
    assert(raw@.subrange(0, raw@.len() as int) =~= raw@);
    let ghost ps = trimmed_cells(split_on(raw@, ','));
    let mut tags: Vec<String> = Vec::new();
    let mut k: usize = 0;
    assert(ps.skip(0) =~= ps);
    assert(string_views(tags@) =~= Seq::<Seq<char>>::empty());
    assert(checked_tags(ps) == (match checked_tags(ps.skip(0)) {
        Ok(rest) => Ok(string_views(tags@) + rest),
        Err(m) => Err::<Seq<Seq<char>>, Seq<char>>(m),
    })) by {
        match checked_tags(ps) {
            Ok(rest) => { assert(Seq::<Seq<char>>::empty() + rest =~= rest); },
            Err(m) => {},
        }
    }
    while k < parts.len()
        invariant
            k <= parts@.len(),
            ps == string_views(parts@),
            raw@.len() > 0,
            ps == trimmed_cells(split_on(raw@, ',')),
            checked_tags(ps) == (match checked_tags(ps.skip(k as int)) {
                Ok(rest) => Ok(string_views(tags@) + rest),
                Err(m) => Err::<Seq<Seq<char>>, Seq<char>>(m),
            }),
        decreases parts@.len() - k,
    {
        let ghost rest = ps.skip(k as int);
        assert(rest[0] == parts[k as int]@);
        let tag = chars_of(parts[k].as_str());
        if !tag_ok_exec(tag.as_slice()) {
            let mut m = String::from_str("invalid or empty tag: ");
            let q = debug_quoted(parts[k].as_str());
            m.append(q.as_str());
            return Err(m);
        }
        let ghost before = string_views(tags@);
        tags.push(parts[k].clone());
        assert(string_views(tags@) =~= before.push(parts[k as int]@));
        assert(rest.drop_first() =~= ps.skip(k + 1));
        proof {
            match checked_tags(ps.skip(k + 1)) {
                Ok(r2) => { assert(before + (seq![rest[0]] + r2) =~= string_views(tags@) + r2); },
                Err(m) => {},
            }
        }
        k = k + 1;
    }
    assert(ps.skip(k as int) =~= Seq::<Seq<char>>::empty());
    assert(string_views(tags@) + Seq::<Seq<char>>::empty() =~= string_views(tags@));
    Ok(tags)
}

/// Whether two of the tags are equal.
fn has_duplicate_exec(tags: &Vec<String>) -> (b: bool)
    ensures
        b == has_duplicate(string_views(tags@)),
{
    let ghost ts = string_views(tags@);
    let n = tags.len();
    let mut j: usize = 0;
    while j < n
        invariant
            j <= n,
            n == tags@.len(),
            ts == string_views(tags@),
            forall|a: int, b: int| 0 <= a < b < j ==> #[trigger] ts[a] != #[trigger] ts[b],
        decreases n - j,
    {
        let mut i: usize = 0;
        while i < j
            invariant
                i <= j < n,
                n == tags@.len(),
                ts == string_views(tags@),
                forall|a: int, b: int| 0 <= a < b < j ==> #[trigger] ts[a] != #[trigger] ts[b],
                forall|a: int| 0 <= a < i ==> #[trigger] ts[a] != ts[j as int],
            decreases j - i,
        {
            if tags[i] == tags[j] {
                assert(ts[i as int] == ts[j as int]);
                return true;
            }
            i = i + 1;
        }
        j = j + 1;
    }
    false
}

/// The text of lines `ls[lo..hi]` joined with line feeds.
fn join_lines(ls: &Vec<Vec<char>>, lo: usize, hi: usize) -> (r: Vec<char>)
    requires
        lo <= hi <= ls@.len(),
    ensures
        r@ == join(lv(ls).subrange(lo as int, hi as int), "\n"@),
{
    let mut part: Vec<Vec<char>> = Vec::new();
    let mut k = lo;
    while k < hi
        invariant
            lo <= k <= hi <= ls@.len(),
            views(part@) == lv(ls).subrange(lo as int, k as int),
        decreases hi - k,
    {
        let line = slice_vec(ls[k].as_slice(), 0, ls[k].len());
        assert(ls[k as int]@.subrange(0, ls[k as int]@.len() as int) =~= ls[k as int]@);
        assert(line@ == lv(ls)[k as int]);
        let ghost before = views(part@);
        part.push(line);
        assert(views(part@) =~= before.push(line@));
        assert(views(part@) =~= lv(ls).subrange(lo as int, k + 1));
        k = k + 1;
    }
    let nl = chars_of("\n");
    join_exec(&part, nl.as_slice())
}

/// The value of the field `key`, or `default`.
fn value_or(fields: &Vec<(Vec<char>, Vec<char>)>, key: &str, default: &str) -> (r: Vec<char>)
    ensures
        r@ == (match lookup(pair_views(fields@), key@) {
            Some(v) => v,
            None => default@,
        }),
{
    let k = chars_of(key);
    match lookup_exec(fields, k.as_slice()) {
        Some(i) => {
            let v = slice_vec(fields[i].1.as_slice(), 0, fields[i].1.len());
            assert(fields[i as int].1@.subrange(0, fields[i as int].1@.len() as int) =~= fields[i as int].1@);
            v
        },
        None => chars_of(default),
    }
}

fn source_error(path: &str, line: usize, message: String) -> (e: Error)
    ensures
        e@ == (SpecError::Source { path: path@, line: line as nat, message: message@ }),
{
    Error::Source { path: String::from_str(path), line, message }
}

/// Reads the metadata fields of a post source. On success it returns the
/// source without its fields and the metadata, exactly as `metadata_spec`
/// gives them; otherwise the error names `path` with the line and message
/// of the failure `metadata_spec` gives.
pub fn parse_metadata(path: &str, source: &str) -> (r: Result<(String, PostMeta), Error>)
    requires
        source@.len() < usize::MAX,
    ensures
        match metadata_spec(source@) {
            Ok((clean, meta)) => r matches Ok((c, m)) && c@ == clean && m@ == meta,
            Err(f) => r matches Err(e) && e@ == source_error_view(path@, f),
        },
{
    let chars = chars_of(source);
    let ls = lines_of(chars.as_slice());
    let ghost L = lv(&ls);
    proof { lemma_lines_len(source@); }
    if ls.len() < 2 {
        return Err(source_error(path, 1, String::from_str("post needs a title")));
    }
    let start = first_content_exec(&ls, 2);
    let (fields, i) = match meta_fields_exec(&ls, start) {
        Ok(x) => x,
        Err(f) => {
            return Err(source_error(path, f.line, f.message));
        },
    };
    let ghost fs = pair_views(fields@);
    let date_key = chars_of("date");
    let date = match lookup_exec(&fields, date_key.as_slice()) {
        None => {
            return Err(source_error(path, 1, String::from_str("missing :date:")));
        },
        Some(k) => {
            let raw = string_of(fields[k].1.as_slice());
            match parse_iso_date(raw.as_str()) {
                None => {
                    return Err(source_error(path, 1, String::from_str("invalid :date:; expected YYYY-MM-DD")));
                },
                Some(d) => d,
            }
        },
    };
    let slug_key = chars_of("slug");
    let slug = match lookup_exec(&fields, slug_key.as_slice()) {
        None => {
            return Err(source_error(path, 1, String::from_str("missing :slug:")));
        },
        Some(k) => {
            if !meta_slug_ok_exec(fields[k].1.as_slice()) {
                return Err(source_error(path, 1, String::from_str("invalid :slug:")));
            }
            string_of(fields[k].1.as_slice())
        },
    };
    let tags_key = chars_of("tags");
    let tags = match lookup_exec(&fields, tags_key.as_slice()) {
        None => {
            return Err(source_error(path, 1, String::from_str("missing :tags:")));
        },
        Some(k) => match tag_list_exec(fields[k].1.as_slice()) {
            Err(m) => {
                return Err(source_error(path, 1, m));
            },
            Ok(t) => t,
        },
    };
    if has_duplicate_exec(&tags) {
        return Err(source_error(path, 1, String::from_str("duplicate tag")));
    }
    let lang = value_or(&fields, "lang", "en");
    let draft_text = value_or(&fields, "draft", "false");
    if !lang_ok_exec(lang.as_slice()) {
        return Err(source_error(path, 1, String::from_str("invalid :lang:")));
    }
    let yes = chars_of("true");
    let no = chars_of("false");
    let draft = if eq_chars(draft_text.as_slice(), yes.as_slice()) {
        true
    } else if eq_chars(draft_text.as_slice(), no.as_slice()) {
        false
    } else {
        return Err(source_error(path, 1, String::from_str(":draft: must be true or false")));
    };
    let head = join_lines(&ls, 0, 2);
    let tail = join_lines(&ls, i, ls.len());
    assert(L.subrange(0, 2) =~= L.take(2));
    assert(L.subrange(i as int, L.len() as int) =~= L.skip(i as int));
    let mut clean = string_of(head.as_slice());
    clean.append("\n\n");
    crate::text::push_chars(&mut clean, tail.as_slice());
    let meta = PostMeta { date, slug, tags, lang: string_of(lang.as_slice()), draft };
    Ok((clean, meta))
}

// ---------------------------------------------------------------------------
// Relative paths
// ---------------------------------------------------------------------------

/// A relative path whose components are all plain names (on Unix, as
/// `Path::components` reads it): not empty, not absolute, not starting with
/// `.`, with no `..` component, and with no backslash.
pub open spec fn safe_relative_spec(path: Seq<char>) -> bool {
    &&& path.len() > 0
    &&& path[0] != '/'
    &&& split_on(path, '/')[0] != "."@
    &&& forall|i: int| 0 <= i < split_on(path, '/').len() ==> #[trigger] split_on(path, '/')[i] != ".."@
    &&& !path.contains('\\')
}

pub proof fn lemma_split_on_nonempty(s: Seq<char>, c: char)
    ensures
        split_on(s, c).len() > 0,
{
}

/// Joining a path that `safe_relative` accepts to any base never leaves
/// the base: the result is the base, a `/` where the base needs one, then
/// the path, which is not rooted and has no `..` segment; after a base
/// that does not end in `/`, the segments of the result are those of the
/// base followed by those of the path.
pub proof fn safe_paths_join_under_their_base(base: Seq<char>, p: Seq<char>)
    requires
        safe_relative_spec(p),
    ensures
        starts_with(join_path(base, p), base),
        join_path(base, p).len() > base.len(),
        join_path(base, p) == base + p || join_path(base, p) == base + "/"@ + p,
        relative_path(p),
        !climbs(p),
        base.len() > 0 && base.last() != '/' ==> split_on(join_path(base, p), '/') == split_on(base, '/')
            + split_on(p, '/'),
{
    reveal_strlit("/");
    let j = join_path(base, p);
    assert(j.take(base.len() as int) =~= base);
    if split_on(p, '/').contains(".."@) {
        let i = choose|i: int| 0 <= i < split_on(p, '/').len() && split_on(p, '/')[i] == ".."@;
    }
    if base.len() > 0 && base.last() != '/' {
        assert(j =~= base + seq!['/'] + p);
        crate::commands::serve::lemma_split_concat(base, p, '/');
    }
}

/// Whether `path` is a relative path of plain names.
pub fn safe_relative(path: &str) -> (b: bool)
    ensures
        b == safe_relative_spec(path@),
{
    let p = chars_of(path);
    if p.len() == 0 || p[0] == '/' || contains_char(p.as_slice(), '\\') {
        return false;
    }
    let parts = split_exec(p.as_slice(), '/');
    proof { lemma_split_on_nonempty(p@, '/'); }
    let dot = chars_of(".");
    let dots = chars_of("..");
    assert(parts[0]@ == split_on(p@, '/')[0]);
    if eq_chars(parts[0].as_slice(), dot.as_slice()) {
        return false;
    }
    let mut k: usize = 0;
    while k < parts.len()
        invariant
            k <= parts@.len(),
            p@ == path@,
            path@.len() > 0,
            path@[0] != '/',
            !path@.contains('\\'),
            split_on(path@, '/')[0] != "."@,
            views(parts@) == split_on(p@, '/'),
            dots@ == ".."@,
            forall|i: int| 0 <= i < k ==> #[trigger] split_on(p@, '/')[i] != ".."@,
        decreases parts@.len() - k,
    {
        assert(parts[k as int]@ == split_on(p@, '/')[k as int]);
        if eq_chars(parts[k].as_slice(), dots.as_slice()) {
            return false;
        }
        k = k + 1;
    }
    true
}

// ---------------------------------------------------------------------------
// Posts
// ---------------------------------------------------------------------------

/// The images of a post's blocks that live beside it: the `src` of every
/// image that is not an `http(s)` URL, in order, each with whether it is a
/// safe relative path.
pub open spec fn local_images(blocks: Seq<SpecBlock>) -> Seq<(Seq<char>, bool)>
    decreases blocks.len(),
{
    if blocks.len() == 0 {
        seq![]
    } else {
        let srcs = local_images(blocks.drop_last());
        match blocks.last() {
            SpecBlock::Image { src, .. } => if starts_with(src, "https://"@) || starts_with(src, "http://"@) {
                srcs
            } else {
                srcs.push((src, safe_relative_spec(src)))
            },
            _ => srcs,
        }
    }
}

pub open spec fn image_views(v: Seq<(String, bool)>) -> Seq<(Seq<char>, bool)> {
    v.map_values(|p: (String, bool)| (p.0@, p.1))
}

/// The local images of a document, each with whether its path is safe.
pub fn local_images_exec(document: &Document) -> (r: Vec<(String, bool)>)
    ensures
        image_views(r@) == local_images(document@.blocks),
{
    let ghost bs = document@.blocks;
    let mut srcs: Vec<(String, bool)> = Vec::new();
    let mut i: usize = 0;
    assert(bs.take(0) =~= Seq::<SpecBlock>::empty());
    assert(image_views(srcs@) =~= Seq::<(Seq<char>, bool)>::empty());
    let https = chars_of("https://");
    let http = chars_of("http://");
    while i < document.blocks.len()
        invariant
            i <= document.blocks@.len(),
            bs == document@.blocks,
            https@ == "https://"@,
            http@ == "http://"@,
            local_images(bs.take(i as int)) == image_views(srcs@),
        decreases document.blocks@.len() - i,
    {
        assert(bs.take(i + 1).drop_last() =~= bs.take(i as int));
        assert(bs.take(i + 1).last() == document.blocks[i as int]@);
        match &document.blocks[i] {
            Block::Image { src, .. } => {
                let c = chars_of(src.as_str());
                if !(starts_with_exec(c.as_slice(), https.as_slice()) || starts_with_exec(c.as_slice(), http.as_slice())) {
                    let safe = safe_relative(src.as_str());
                    let ghost before = image_views(srcs@);
                    srcs.push((src.clone(), safe));
                    assert(image_views(srcs@) =~= before.push((src@, safe)));
                }
            },
            _ => {},
        }
        i = i + 1;
    }
    assert(bs.take(i as int) =~= bs);
    srcs
}

/// Lexicographic order of texts, character by character.
pub open spec fn text_lt(a: Seq<char>, b: Seq<char>) -> bool
    decreases a.len(),
{
    if a.len() == 0 {
        b.len() > 0
    } else if b.len() == 0 {
        false
    } else if a[0] != b[0] {
        a[0] < b[0]
    } else {
        text_lt(a.drop_first(), b.drop_first())
    }
}

pub proof fn lemma_text_lt_order(a: Seq<char>, b: Seq<char>, c: Seq<char>)
    ensures
        !(text_lt(a, b) && text_lt(b, a)),
        !text_lt(a, a),
        text_lt(a, b) && text_lt(b, c) ==> text_lt(a, c),
    decreases a.len(),
{
    if a.len() > 0 && b.len() > 0 && c.len() > 0 {
        lemma_text_lt_order(a.drop_first(), b.drop_first(), c.drop_first());
    } else if a.len() > 0 && b.len() > 0 {
        lemma_text_lt_order(a.drop_first(), b.drop_first(), b.drop_first());
    } else if a.len() > 0 {
        lemma_text_lt_order(a.drop_first(), a.drop_first(), a.drop_first());
    }
}

/// Of two different texts, one comes first.
pub proof fn lemma_text_lt_total(a: Seq<char>, b: Seq<char>)
    ensures
        a == b || text_lt(a, b) || text_lt(b, a),
    decreases a.len(),
{
    if a.len() > 0 && b.len() > 0 && a[0] == b[0] {
        lemma_text_lt_total(a.drop_first(), b.drop_first());
        if a.drop_first() == b.drop_first() {
            assert(a =~= seq![a[0]] + a.drop_first());
            assert(b =~= seq![b[0]] + b.drop_first());
        }
    } else if a.len() == 0 && b.len() == 0 {
        assert(a =~= b);
    } else if a.len() > 0 && b.len() > 0 {
        assert((a[0] as int) != (b[0] as int));
    }
}

pub open spec fn date_lt(a: Date, b: Date) -> bool {
    a.year < b.year || (a.year == b.year && (a.month < b.month || (a.month == b.month && a.day < b.day)))
}

/// Whether a post with metadata `a` is listed before one with `b`: newer
/// dates first, then slugs in lexicographic order.
pub open spec fn listed_before(a: MetaSpec, b: MetaSpec) -> bool {
    date_lt(b.date, a.date) || (a.date == b.date && text_lt(a.slug, b.slug))
}

/// Dates compare by year, then month, then day: one is earlier than
/// another exactly when it comes first in that order.
pub proof fn dates_compare_by_year_month_day(a: Date, b: Date)
    ensures
        a.year == b.year && a.month == b.month && a.day < b.day ==> date_lt(a, b),
        a.year == b.year && a.month < b.month ==> date_lt(a, b),
        a.year < b.year ==> date_lt(a, b),
        date_lt(a, b) ==> !date_lt(b, a) && a != b,
        a != b ==> date_lt(a, b) || date_lt(b, a),
{
}

/// Posts in listing order are newest first: of two posts, the earlier
/// listed has a date no earlier than the later listed, comparing year,
/// then month, then day; posts of one date come in slug order.
pub proof fn listed_posts_are_newest_first(s: Seq<PostSpec>)
    requires
        in_listing_order(s),
    ensures
        forall|i: int, j: int| 0 <= i < j < s.len() ==> {
            let a = (#[trigger] s[i]).meta.date;
            let b = (#[trigger] s[j]).meta.date;
            ||| a.year > b.year
            ||| (a.year == b.year && a.month > b.month)
            ||| (a.year == b.year && a.month == b.month && a.day >= b.day)
        },
        forall|i: int, j: int| 0 <= i < j < s.len() && (#[trigger] s[i]).meta.date == (#[trigger] s[j]).meta.date
            ==> !text_lt(s[j].meta.slug, s[i].meta.slug),
{
    assert forall|i: int, j: int| 0 <= i < j < s.len() implies {
        let a = (#[trigger] s[i]).meta.date;
        let b = (#[trigger] s[j]).meta.date;
        ||| a.year > b.year
        ||| (a.year == b.year && a.month > b.month)
        ||| (a.year == b.year && a.month == b.month && a.day >= b.day)
    } by {
        assert(!listed_before(s[j].meta, s[i].meta));
    }
    assert forall|i: int, j: int| 0 <= i < j < s.len() && (#[trigger] s[i]).meta.date == (#[trigger] s[j]).meta.date
        implies !text_lt(s[j].meta.slug, s[i].meta.slug) by {
        assert(!listed_before(s[j].meta, s[i].meta));
    }
}

pub proof fn lemma_listed_before_order(a: MetaSpec, b: MetaSpec, c: MetaSpec)
    ensures
        !(listed_before(a, b) && listed_before(b, a)),
        listed_before(a, b) && listed_before(b, c) ==> listed_before(a, c),
{
    lemma_text_lt_order(a.slug, b.slug, c.slug);
}

/// A post: where its source is, its document, its metadata, and the
/// workspace paths of the files it shows (each under the post's directory).
#[derive(Debug)]
pub struct Post {
    pub source: String,
    pub document: Document,
    pub meta: PostMeta,
    pub assets: Vec<String>,
}

pub struct PostSpec {
    pub source: Seq<char>,
    pub document: SpecDocument,
    pub meta: MetaSpec,
    pub assets: Seq<Seq<char>>,
}

impl View for Post {
    type V = PostSpec;

    open spec fn view(&self) -> PostSpec {
        PostSpec {
            source: self.source@,
            document: self.document@,
            meta: self.meta@,
            assets: string_views(self.assets@),
        }
    }
}

pub open spec fn post_views(v: Seq<Post>) -> Seq<PostSpec> {
    v.map_values(|p: Post| p@)
}

/// Posts in listing order: no post is listed before one that precedes it.
pub open spec fn in_listing_order(s: Seq<PostSpec>) -> bool {
    forall|i: int, j: int| 0 <= i < j < s.len() ==> !listed_before(#[trigger] s[j].meta, #[trigger] s[i].meta)
}

pub(crate) fn text_lt_exec(a: &String, b: &String) -> (r: bool)
    ensures
        r == text_lt(a@, b@),
{
    let x = chars_of(a.as_str());
    let y = chars_of(b.as_str());
    let mut k: usize = 0;
    assert(x@.skip(0) =~= x@);
    assert(y@.skip(0) =~= y@);
    while k < x.len() && k < y.len() && x[k] == y[k]
        invariant
            k <= x@.len(),
            k <= y@.len(),
            text_lt(a@, b@) == text_lt(x@.skip(k as int), y@.skip(k as int)),
            x@ == a@,
            y@ == b@,
        decreases x@.len() - k,
    {
        assert(x@.skip(k as int).drop_first() =~= x@.skip(k + 1));
        assert(y@.skip(k as int).drop_first() =~= y@.skip(k + 1));
        k = k + 1;
    }
    if k == x.len() {
        k < y.len()
    } else if k == y.len() {
        false
    } else {
        assert(x@.skip(k as int)[0] == x@[k as int]);
        assert(y@.skip(k as int)[0] == y@[k as int]);
        x[k] < y[k]
    }
}

fn date_lt_exec(a: Date, b: Date) -> (r: bool)
    ensures
        r == date_lt(a, b),
{
    a.year < b.year || (a.year == b.year && (a.month < b.month || (a.month == b.month && a.day < b.day)))
}

fn listed_before_exec(a: &PostMeta, b: &PostMeta) -> (r: bool)
    ensures
        r == listed_before(a@, b@),
{
    date_lt_exec(b.date, a.date) || (a.date == b.date && text_lt_exec(&a.slug, &b.slug))
}

/// The posts listed at the same place as metadata `m`: those with its
/// date and its slug.
pub open spec fn same_place(m: MetaSpec) -> spec_fn(PostSpec) -> bool {
    |q: PostSpec| q.meta.date == m.date && q.meta.slug == m.slug
}

proof fn lemma_filter_none<A>(s: Seq<A>, pred: spec_fn(A) -> bool)
    requires
        forall|i: int| 0 <= i < s.len() ==> !pred(#[trigger] s[i]),
    ensures
        s.filter(pred) == Seq::<A>::empty(),
{
    broadcast use vstd::seq_lib::group_filter_ensures;
    if s.filter(pred).len() > 0 {
        let x = s.filter(pred)[0];
        s.lemma_filter_pred(pred, 0);
        assert(s.filter(pred).contains(x));
        s.lemma_filter_contains_rev(pred, x);
        let i = choose|i: int| 0 <= i < s.len() && s[i] == x;
        assert(!pred(s[i]));
    }
    assert(s.filter(pred) =~= Seq::<A>::empty());
}

/// Inserting a post where `sort_posts` does puts it after every post
/// listed at its own place.
proof fn lemma_insert_after_equals(sv: Seq<PostSpec>, q: int, pv: PostSpec, m: MetaSpec)
    requires
        in_listing_order(sv),
        0 <= q <= sv.len(),
        q < sv.len() ==> listed_before(pv.meta, sv[q].meta),
    ensures
        sv.insert(q, pv).filter(same_place(m)) == sv.filter(same_place(m)) + (if same_place(m)(pv) {
            seq![pv]
        } else {
            Seq::<PostSpec>::empty()
        }),
{
    broadcast use vstd::seq_lib::group_filter_ensures;
    let k = same_place(m);
    let a = sv.take(q);
    let b = sv.skip(q);
    assert(sv.insert(q, pv) =~= a + seq![pv] + b);
    assert(sv =~= a + b);
    vstd::seq::Seq::filter_distributes_over_add(a + seq![pv], b, k);
    vstd::seq::Seq::filter_distributes_over_add(a, seq![pv], k);
    vstd::seq::Seq::filter_distributes_over_add(a, b, k);
    Seq::<PostSpec>::empty().lemma_filter_prepend(pv, k);
    assert(seq![pv] + Seq::<PostSpec>::empty() =~= seq![pv]);
    reveal(Seq::filter);
    assert(Seq::<PostSpec>::empty().filter(k) =~= Seq::<PostSpec>::empty());
    if k(pv) {
        assert forall|i: int| 0 <= i < b.len() implies !k(#[trigger] b[i]) by {
            if k(b[i]) {
                if i > 0 {
                    assert(!listed_before(sv[q + i].meta, sv[q].meta));
                }
                lemma_text_lt_order(pv.meta.slug, pv.meta.slug, pv.meta.slug);
            }
        }
        lemma_filter_none(b, k);
    }
}

/// Puts posts in listing order: newest first, then by slug; posts that
/// compare equal keep their order.
pub fn sort_posts(posts: Vec<Post>) -> (r: Vec<Post>)
    ensures
        post_views(r@).to_multiset() == post_views(posts@).to_multiset(),
        in_listing_order(post_views(r@)),
        forall|m: MetaSpec| #[trigger] post_views(r@).filter(same_place(m)) == post_views(posts@).filter(same_place(m)),
{
    broadcast use vstd::seq_lib::group_to_multiset_ensures;
    let ghost input = post_views(posts@);
    let mut rest = posts;
    let mut sorted: Vec<Post> = Vec::new();
    assert(post_views(sorted@) =~= Seq::<PostSpec>::empty());
    assert(post_views(sorted@).to_multiset().add(post_views(rest@).to_multiset()) =~= input.to_multiset());
    proof {
        reveal(Seq::filter);
        assert forall|m: MetaSpec| post_views(sorted@).filter(same_place(m)) + post_views(rest@).filter(same_place(m))
            == #[trigger] input.filter(same_place(m)) by {
            assert(post_views(sorted@).filter(same_place(m)) =~= Seq::<PostSpec>::empty());
            assert(post_views(rest@) == input);
            assert(Seq::<PostSpec>::empty() + input.filter(same_place(m)) =~= input.filter(same_place(m)));
        }
    }
    while rest.len() > 0
        invariant
            post_views(sorted@).to_multiset().add(post_views(rest@).to_multiset()) == input.to_multiset(),
            in_listing_order(post_views(sorted@)),
            forall|m: MetaSpec| post_views(sorted@).filter(same_place(m)) + post_views(rest@).filter(same_place(m))
                == #[trigger] input.filter(same_place(m)),
        decreases rest@.len(),
    {
        let ghost rv = post_views(rest@);
        let ghost sv = post_views(sorted@);
        let p = rest.remove(0);
        assert(post_views(rest@) =~= rv.remove(0));
        let mut q: usize = 0;
        while q < sorted.len() && !listed_before_exec(&p.meta, &sorted[q].meta)
            invariant
                q <= sorted@.len(),
                sv == post_views(sorted@),
                forall|r: int| 0 <= r < q ==> !listed_before(p@.meta, #[trigger] sv[r].meta),
            decreases sorted@.len() - q,
        {
            assert(sv[q as int] == sorted[q as int]@);
            q = q + 1;
        }
        proof {
            if q < sorted@.len() {
                assert(sv[q as int] == sorted[q as int]@);
            }
        }
        let ghost pv = p@;
        sorted.insert(q, p);
        assert(post_views(sorted@) =~= sv.insert(q as int, pv));
        proof {
            let nv = sv.insert(q as int, pv);
            assert forall|i: int, j: int| 0 <= i < j < nv.len() implies !listed_before(#[trigger] nv[j].meta, #[trigger] nv[i].meta) by {
                if j < q {
                    assert(nv[i] == sv[i] && nv[j] == sv[j]);
                } else if j == q {
                    assert(nv[i] == sv[i]);
                } else if i == q {
                    assert(nv[j] == sv[j - 1]);
                    assert(listed_before(pv.meta, sv[q as int].meta));
                    lemma_listed_before_order(sv[j - 1].meta, pv.meta, sv[q as int].meta);
                    if j - 1 > q {
                        assert(!listed_before(sv[j - 1].meta, sv[q as int].meta));
                    }
                } else if i < q {
                    assert(nv[i] == sv[i] && nv[j] == sv[j - 1]);
                } else {
                    assert(nv[i] == sv[i - 1] && nv[j] == sv[j - 1]);
                }
            }
            broadcast use vstd::multiset::group_multiset_axioms;
            vstd::seq_lib::to_multiset_remove(rv, 0);
            vstd::seq_lib::to_multiset_insert(sv, q as int, pv);
            vstd::seq_lib::to_multiset_contains(rv, pv);
            assert(rv.contains(pv)) by {
                assert(rv[0] == pv);
            }
            assert(rv[0] == pv);
            assert(nv.to_multiset().add(rv.remove(0).to_multiset()) =~= sv.to_multiset().add(rv.to_multiset()));
            assert forall|m: MetaSpec| nv.filter(same_place(m)) + rv.remove(0).filter(same_place(m))
                == #[trigger] input.filter(same_place(m)) by {
                lemma_insert_after_equals(sv, q as int, pv, m);
                assert(rv =~= seq![pv] + rv.remove(0));
                rv.remove(0).lemma_filter_prepend(pv, same_place(m));
                assert(sv.filter(same_place(m)) + rv.filter(same_place(m)) == input.filter(same_place(m)));
                if same_place(m)(pv) {
                    assert(nv.filter(same_place(m)) + rv.remove(0).filter(same_place(m))
                        =~= sv.filter(same_place(m)) + rv.filter(same_place(m)));
                } else {
                    assert(nv.filter(same_place(m)) + rv.remove(0).filter(same_place(m))
                        =~= sv.filter(same_place(m)) + rv.filter(same_place(m)));
                }
            }
        }
    }
    assert(post_views(rest@) =~= Seq::<PostSpec>::empty());
    assert(post_views(sorted@).to_multiset().add(post_views(rest@).to_multiset()) =~= post_views(sorted@).to_multiset());
    proof {
        reveal(Seq::filter);
        assert forall|m: MetaSpec| #[trigger] post_views(sorted@).filter(same_place(m)) == input.filter(same_place(m)) by {
            assert(post_views(rest@).filter(same_place(m)) =~= Seq::<PostSpec>::empty());
            assert(post_views(sorted@).filter(same_place(m)) + post_views(rest@).filter(same_place(m)) == input.filter(same_place(m)));
            assert(post_views(sorted@).filter(same_place(m)) + Seq::<PostSpec>::empty() =~= post_views(sorted@).filter(same_place(m)));
        }
    }
    sorted
}

// ---------------------------------------------------------------------------
// Reading one post
// ---------------------------------------------------------------------------

pub proof fn lemma_first_content_bounds(ls: Seq<Seq<char>>, i: int)
    requires
        0 <= i <= ls.len(),
    ensures
        i <= first_content(ls, i) <= ls.len(),
    decreases ls.len() - i,
{
    if i < ls.len() && is_blank(ls[i]) {
        lemma_first_content_bounds(ls, i + 1);
    }
}

pub proof fn lemma_meta_fields_bounds(ls: Seq<Seq<char>>, i: int, acc: Seq<(Seq<char>, Seq<char>)>)
    requires
        0 <= i <= ls.len(),
    ensures
        meta_fields(ls, i, acc) matches Ok((_, e)) ==> i <= e <= ls.len(),
    decreases ls.len() - i,
{
    if i < ls.len() && starts_with(ls[i], ":"@) {
        let body = ls[i].skip(1);
        match find(body, ":"@) {
            None => {},
            Some(k) => {
                let key = body.take(k);
                let value = trim(body.skip(k + 1));
                lemma_meta_fields_bounds(ls, i + 1, acc.push((key, value)));
            },
        }
    }
}

/// The text without the metadata fields is at most two characters longer
/// than the source.
pub proof fn lemma_clean_text_len(source: Seq<char>)
    ensures
        metadata_spec(source) matches Ok((clean, _)) ==> clean.len() <= source.len() + 2,
{
    let ls = lines(source);
    if ls.len() >= 2 {
        lemma_first_content_bounds(ls, 2);
        let start = first_content(ls, 2);
        lemma_meta_fields_bounds(ls, start, seq![]);
        if let Ok((fields, i)) = meta_fields(ls, start, seq![]) {
            reveal_strlit("\n\n");
            lemma_join_lines_len(source);
            if ls.len() > 2 {
                assert(ls =~= ls.take(2) + ls.skip(2));
                lemma_join_split(ls.take(2), ls.skip(2), "\n"@);
                lemma_join_skip_len(ls, "\n"@, 2, i);
            } else {
                assert(ls.take(2) =~= ls);
                assert(ls.skip(i) =~= Seq::<Seq<char>>::empty());
            }
        }
    }
}

/// What a post source yields before its images are looked up: its
/// metadata, its document, and its local images with whether each path is
/// safe.
pub struct PreparedPost {
    pub meta: PostMeta,
    pub document: Document,
    pub images: Vec<(String, bool)>,
}

/// What reading the post source `raw` at `path` gives, where `known` are
/// the slugs of the posts read before it.
pub open spec fn prepare_spec(path: Seq<char>, raw: Seq<char>, known: Seq<Seq<char>>) -> Result<
    (MetaSpec, SpecDocument, Seq<(Seq<char>, bool)>),
    SpecError,
> {
    match metadata_spec(raw) {
        Err(f) => Err(source_error_view(path, f)),
        Ok((clean, meta)) => if known.contains(meta.slug) {
            Err(SpecError::Source { path, line: 1, message: "duplicate slug: "@ + meta.slug })
        } else {
            match parse_spec(clean) {
                Err(f) => Err(source_error_view(path, f)),
                Ok(doc) => Ok((meta, doc, local_images(doc.blocks))),
            }
        },
    }
}

fn contains_text(known: &Vec<String>, s: &String) -> (b: bool)
    ensures
        b == string_views(known@).contains(s@),
{
    let mut k: usize = 0;
    while k < known.len()
        invariant
            k <= known@.len(),
            forall|j: int| 0 <= j < k ==> string_views(known@)[j] != s@,
        decreases known@.len() - k,
    {
        if known[k] == *s {
            assert(string_views(known@)[k as int] == s@);
            return true;
        }
        k = k + 1;
    }
    false
}

/// Reads one post source: its metadata (whose slug must be new), its
/// document and its local images.
pub fn prepare_post(path: &str, raw: &str, known_slugs: &Vec<String>) -> (r: Result<PreparedPost, Error>)
    requires
        raw@.len() < usize::MAX - 2,
    ensures
        match prepare_spec(path@, raw@, string_views(known_slugs@)) {
            Ok((meta, doc, images)) => r matches Ok(p) && p.meta@ == meta && p.document@ == doc
                && image_views(p.images@) == images,
            Err(e) => r matches Err(x) && x@ == e,
        },
{
    proof { lemma_clean_text_len(raw@); }
    let (clean, meta) = match parse_metadata(path, raw) {
        Ok(x) => x,
        Err(e) => {
            return Err(e);
        },
    };
    if contains_text(known_slugs, &meta.slug) {
        let mut m = String::from_str("duplicate slug: ");
        m.append(meta.slug.as_str());
        return Err(Error::Source { path: String::from_str(path), line: 1, message: m });
    }
    let document = match parse(path, clean.as_str()) {
        Ok(d) => d,
        Err(e) => {
            return Err(e);
        },
    };
    let images = local_images_exec(&document);
    Ok(PreparedPost { meta, document, images })
}

/// The content of a site: the summary for the home page, the resume, and
/// the posts in listing order.
#[derive(Debug)]
pub struct SiteContent {
    pub summary: Document,
    pub resume: Document,
    pub posts: Vec<Post>,
}

pub struct ContentSpec {
    pub summary: SpecDocument,
    pub resume: SpecDocument,
    pub posts: Seq<PostSpec>,
}

impl View for SiteContent {
    type V = ContentSpec;

    open spec fn view(&self) -> ContentSpec {
        ContentSpec { summary: self.summary@, resume: self.resume@, posts: post_views(self.posts@) }
    }
}

} // verus!
