//! The building blocks of the site's pages: the page shell, post listings
//! and the resume body, and the check on the site URL.

use vstd::prelude::*;
use crate::content::{date_text, date_text_spec, post_views, Post, PostSpec};
use crate::rst::ast::{field_views, Block, Document, SpecBlock, SpecDocument};
use crate::rst::render::{
    block_html, concat_map, escape_spec, inline_spec, lemma_concat_map_push, push_block,
    push_escaped, push_inline,
};
use crate::text::{chars_of, starts_with, ends_with};

verus! {

/// The style sheet of every page.
pub const CSS: &'static str = "html{font-size:14px}body{max-width:76em;margin:1.15rem auto;padding:0 1rem;font-family:\"Times New Roman\",Times,serif;line-height:1.35}nav,.mono,pre,code,kbd,samp,table,input{font-family:ui-monospace,SFMono-Regular,Menlo,Monaco,Consolas,\"Liberation Mono\",\"Courier New\",monospace}nav{margin-bottom:1rem}pre{overflow-x:auto;padding:.5rem .65rem;border-left:2px solid #bbb;background:#fafafa}code{font-size:.94em}h1{font-size:1.45rem;margin:.45rem 0}h2{font-size:1.08rem;margin:1.15rem 0 .4rem}p,ul,ol,blockquote,table,figure{margin:.65rem 0}blockquote{margin-left:1rem;padding-left:.8rem;border-left:2px solid #bbb}table{border-collapse:collapse;font-size:.92rem}th,td{padding:.25rem .7rem .25rem 0;text-align:left;vertical-align:top}figure{margin-left:0}figcaption{font-size:.9rem;font-style:italic}img{max-width:100%;height:auto}.meta{font-size:.9rem}.math{overflow-x:auto;margin:.8rem 0}input{font-size:.95rem}hr{border:0;border-top:1px solid #bbb}[hidden]{display:none!important}";
pub const SEARCH_JS: &'static str = r#"const input = document.querySelector('#search');
const latest = document.querySelector('#latest');
const results = document.querySelector('#results');
let data = [];

function render() {
  const query = input.value.trim().toLowerCase();
  latest.hidden = Boolean(query);
  results.hidden = !query;
  if (!query) return;
  const words = query.split(/\s+/);
  const found = data.filter(post => words.every(word =>
    (post.date + ' ' + post.title + ' ' + post.tags.join(' ')).toLowerCase().includes(word)));
  results.replaceChildren(document.createTextNode('Search results /\n\n'));
  if (!found.length) { results.append('(no matches)'); return; }
  for (const post of found) {
    results.append(post.date + '  ');
    if (post.tags.length) {
      const tag = document.createElement('a');
      tag.href = 'tags/' + encodeURIComponent(post.tags[0]) + '/';
      tag.textContent = post.tags[0];
      results.append(tag);
    }
    results.append('  ');
    const link = document.createElement('a');
    link.href = post.url;
    link.textContent = post.title;
    results.append(link, '\n');
  }
}

input.addEventListener('input', render);
fetch('search-index.json').then(response => response.json()).then(posts => {
  data = posts;
  render();
}).catch(() => {
  if (input.value.trim()) results.replaceChildren(document.createTextNode('Search unavailable. Use archive/ or tags/.'));
});"#;


/// The site URL is a simple `https` URL ending in `/`.
pub open spec fn site_url_ok(url: Seq<char>) -> bool {
    &&& starts_with(url, "https://"@)
    &&& ends_with(url, "/"@)
    &&& forall|k: int| 0 <= k < url.len() ==> #[trigger] url_char(url[k])
}

pub open spec fn url_char(c: char) -> bool {
    crate::text::is_ascii_alnum(c) || c == ':' || c == '/' || c == '.' || c == '-' || c == '_'
}

/// Whether the site URL is a simple `https` URL ending in `/`.
pub fn site_url_ok_exec(url: &str) -> (b: bool)
    ensures
        b == site_url_ok(url@),
{
    let u = chars_of(url);
    let https = chars_of("https://");
    let slash = chars_of("/");
    if !crate::text::starts_with_exec(u.as_slice(), https.as_slice()) || !crate::text::ends_with_exec(u.as_slice(), slash.as_slice()) {
        return false;
    }
    let mut k: usize = 0;
    while k < u.len()
        invariant
            k <= u@.len(),
            u@ == url@,
            forall|m: int| 0 <= m < k ==> #[trigger] url_char(u@[m]),
        decreases u@.len() - k,
    {
        let c = u[k];
        if !(crate::text::is_ascii_alnum_exec(c) || c == ':' || c == '/' || c == '.' || c == '-' || c == '_') {
            assert(!url_char(url@[k as int]));
            return false;
        }
        k = k + 1;
    }
    proof {
        assert(starts_with(url@, "https://"@));
    }
    true
}

/// `../` repeated `depth` times.
pub open spec fn up_levels(depth: nat) -> Seq<char>
    decreases depth,
{
    if depth == 0 {
        seq![]
    } else {
        up_levels((depth - 1) as nat) + "../"@
    }
}

/// A full page: the head with the title and style, the navigation (whose
/// links climb `depth` directories), and the body.
pub open spec fn shell_spec(title: Seq<char>, lang: Seq<char>, depth: nat, body: Seq<char>) -> Seq<char> {
    let root = up_levels(depth);
    "<!doctype html>\n<html lang=\""@ + escape_spec(lang)
        + "\"><head><meta charset=\"utf-8\"><meta name=\"viewport\" content=\"width=device-width\"><title>"@
        + escape_spec(title) + "</title><style>"@ + CSS@ + "</style></head><body>\n<nav><a href=\""@ + root
        + "\">Bochen Shen</a> · <a href=\""@ + root + "tags/\">tags</a> · <a href=\""@ + root
        + "archive/\">archive</a> · <a href=\""@ + root
        + "resume/\">resume</a> · <a href=\"https://github.com/6ixGODD\">github ↗</a> · <a href=\"mailto:6goddddddd@gmail.com\">email ↗</a></nav>\n"@
        + body + "\n</body></html>\n"@
}

fn up_levels_exec(depth: usize) -> (r: String)
    ensures
        r@ == up_levels(depth as nat),
{
    let mut r = String::new();
    let mut k: usize = 0;
    while k < depth
        invariant
            k <= depth,
            r@ == up_levels(k as nat),
        decreases depth - k,
    {
        r.append("../");
        k = k + 1;
    }
    r
}

/// A full page around `body`.
pub fn shell(title: &str, lang: &str, depth: usize, body: &str) -> (r: String)
    ensures
        r@ == shell_spec(title@, lang@, depth as nat, body@),
{
    let root = up_levels_exec(depth);
    let mut out = String::from_str("<!doctype html>\n<html lang=\"");
    push_escaped(&mut out, chars_of(lang).as_slice());
    out.append("\"><head><meta charset=\"utf-8\"><meta name=\"viewport\" content=\"width=device-width\"><title>");
    push_escaped(&mut out, chars_of(title).as_slice());
    out.append("</title><style>");
    out.append(CSS);
    out.append("</style></head><body>\n<nav><a href=\"");
    out.append(root.as_str());
    out.append("\">Bochen Shen</a> · <a href=\"");
    out.append(root.as_str());
    out.append("tags/\">tags</a> · <a href=\"");
    out.append(root.as_str());
    out.append("archive/\">archive</a> · <a href=\"");
    out.append(root.as_str());
    out.append("resume/\">resume</a> · <a href=\"https://github.com/6ixGODD\">github ↗</a> · <a href=\"mailto:6goddddddd@gmail.com\">email ↗</a></nav>\n");
    out.append(body);
    out.append("\n</body></html>\n");
    assert(out@ =~= shell_spec(title@, lang@, depth as nat, body@));
    out
}

/// The link to a post, relative to a page `prefix` away from the root.
pub open spec fn post_link_spec(slug: Seq<char>, prefix: Seq<char>) -> Seq<char> {
    prefix + "posts/"@ + slug + "/"@
}

fn post_link(post: &Post, prefix: &str) -> (r: String)
    ensures
        r@ == post_link_spec(post.meta.slug@, prefix@),
{
    let mut r = String::from_str(prefix);
    r.append("posts/");
    r.append(post.meta.slug.as_str());
    r.append("/");
    r
}

/// One line of a post listing: the date, the first tag, and the title.
pub open spec fn row_html(p: PostSpec, prefix: Seq<char>) -> Seq<char> {
    date_text_spec(p.meta.date) + "  "@ + (if p.meta.tags.len() > 0 {
        "<a href=\""@ + prefix + "tags/"@ + p.meta.tags[0] + "/\">"@ + escape_spec(p.meta.tags[0]) + "</a>"@
    } else {
        seq![]
    }) + "  <a href=\""@ + post_link_spec(p.meta.slug, prefix) + "\">"@ + escape_spec(p.document.title)
        + "</a>\n"@
}

/// The listing of the posts `ps`.
pub open spec fn rows_spec(ps: Seq<PostSpec>, prefix: Seq<char>) -> Seq<char> {
    concat_map(ps, |p: PostSpec| row_html(p, prefix))
}

/// The posts of `ps` at the indices `idx`, in that order.
pub open spec fn select(ps: Seq<PostSpec>, idx: Seq<usize>) -> Seq<PostSpec> {
    idx.map_values(|i: usize| ps[i as int])
}

pub open spec fn indices_ok(idx: Seq<usize>, n: int) -> bool {
    forall|k: int| 0 <= k < idx.len() ==> #[trigger] idx[k] < n
}

fn push_row(out: &mut String, post: &Post, prefix: &str)
    ensures
        final(out)@ == old(out)@ + row_html(post@, prefix@),
{
    let ghost start = out@;
    let day = date_text(post.meta.date);
    out.append(day.as_str());
    out.append("  ");
    let ghost mid = out@;
    if post.meta.tags.len() > 0 {
        let tag = &post.meta.tags[0];
        out.append("<a href=\"");
        out.append(prefix);
        out.append("tags/");
        out.append(tag.as_str());
        out.append("/\">");
        push_escaped(out, chars_of(tag.as_str()).as_slice());
        out.append("</a>");
    }
    assert(out@ =~= mid + (if post@.meta.tags.len() > 0 {
        "<a href=\""@ + prefix@ + "tags/"@ + post@.meta.tags[0] + "/\">"@ + escape_spec(post@.meta.tags[0]) + "</a>"@
    } else {
        seq![]
    }));
    out.append("  <a href=\"");
    let link = post_link(post, prefix);
    out.append(link.as_str());
    out.append("\">");
    push_escaped(out, chars_of(post.document.title.as_str()).as_slice());
    out.append("</a>\n");
    assert(out@ =~= start + row_html(post@, prefix@));
}

/// The listing of the posts at `idx`.
pub fn rows(posts: &Vec<Post>, idx: &Vec<usize>, prefix: &str) -> (r: String)
    requires
        indices_ok(idx@, posts@.len() as int),
    ensures
        r@ == rows_spec(select(post_views(posts@), idx@), prefix@),
{
    let ghost sel = select(post_views(posts@), idx@);
    let ghost f = |p: PostSpec| row_html(p, prefix@);
    let mut out = String::new();
    let mut k: usize = 0;
    assert(sel.take(0) =~= Seq::<PostSpec>::empty());
    while k < idx.len()
        invariant
            k <= idx@.len(),
            indices_ok(idx@, posts@.len() as int),
            sel == select(post_views(posts@), idx@),
            f == (|p: PostSpec| row_html(p, prefix@)),
            out@ == concat_map(sel.take(k as int), f),
        decreases idx@.len() - k,
    {
        proof { lemma_concat_map_push(sel, f, k as int); }
        let i = idx[k];
        assert(idx@[k as int] < posts@.len());
        assert(sel[k as int] == posts[i as int]@);
        push_row(&mut out, &posts[i], prefix);
        k = k + 1;
    }
    assert(sel.take(k as int) =~= sel);
    out
}

/// The resume page's body: field lists become lines of their values, every
/// other block renders as usual.
pub open spec fn resume_block_html(b: SpecBlock) -> Seq<char> {
    match b {
        SpecBlock::Fields(fields) => "<p>"@ + crate::text::join(
            fields.map_values(|f: (Seq<char>, Seq<char>)| inline_spec(f.1)),
            "<br>"@,
        ) + "</p>\n"@,
        _ => block_html(b),
    }
}

pub open spec fn resume_html_spec(d: SpecDocument) -> Seq<char> {
    concat_map(d.blocks, |b: SpecBlock| resume_block_html(b))
}

fn push_field_values(out: &mut String, fields: &Vec<(String, String)>)
    ensures
        final(out)@ == old(out)@ + crate::text::join(
            field_views(fields@).map_values(|f: (Seq<char>, Seq<char>)| inline_spec(f.1)),
            "<br>"@,
        ),
{
    let ghost vals = field_views(fields@).map_values(|f: (Seq<char>, Seq<char>)| inline_spec(f.1));
    let ghost start = out@;
    if fields.len() == 0 {
        assert(vals.len() == 0);
        assert(out@ =~= start + crate::text::join(vals, "<br>"@));
        return;
    }
    let mut i: usize = 0;
    while i < fields.len()
        invariant
            i <= fields@.len(),
            fields@.len() > 0,
            vals == field_views(fields@).map_values(|f: (Seq<char>, Seq<char>)| inline_spec(f.1)),
            i == 0 ==> out@ == start,
            i > 0 ==> out@ == start + crate::text::join(vals.take(i as int), "<br>"@),
        decreases fields@.len() - i,
    {
        if i > 0 {
            proof { crate::text::lemma_join_push(vals, "<br>"@, i as int); }
            out.append("<br>");
        } else {
            assert(vals.take(1) =~= seq![vals[0]]);
        }
        let (_, value) = &fields[i];
        push_inline(out, chars_of(value.as_str()).as_slice());
        assert(vals[i as int] == inline_spec(value@));
        i = i + 1;
    }
    assert(vals.take(i as int) =~= vals);
}

/// The resume page's body.
pub fn resume_html(document: &Document) -> (r: String)
    ensures
        r@ == resume_html_spec(document@),
{
    let ghost bs = document@.blocks;
    let ghost f = |b: SpecBlock| resume_block_html(b);
    let mut out = String::new();
    let mut i: usize = 0;
    assert(bs.take(0) =~= Seq::<SpecBlock>::empty());
    while i < document.blocks.len()
        invariant
            i <= document.blocks@.len(),
            bs == document@.blocks,
            f == (|b: SpecBlock| resume_block_html(b)),
            out@ == concat_map(bs.take(i as int), f),
        decreases document.blocks@.len() - i,
    {
        proof { lemma_concat_map_push(bs, f, i as int); }
        let ghost before = out@;
        match &document.blocks[i] {
            Block::Fields(fields) => {
                out.append("<p>");
                push_field_values(&mut out, fields);
                out.append("</p>\n");
            },
            other => {
                push_block(&mut out, other);
            },
        }
        assert(out@ =~= before + resume_block_html(bs[i as int]));
        i = i + 1;
    }
    assert(bs.take(i as int) =~= bs);
    out
}

} // verus!
