//! What a site build writes and copies.
//!
//! `plan_build` decides every file of the built site, in the order the
//! build makes them; carrying the plan out on disk is left to the caller.

use vstd::prelude::*;
use crate::content::{
    date_text, date_text_spec, zero_padded, ContentSpec, MetaSpec, Post, PostSpec, SiteContent,
    post_views,
};
use crate::error::{Error, SpecError};
use crate::rst::ast::{string_views, SpecDocument};
use crate::rst::render::{concat_map, escape_spec, lemma_concat_map_push, push_escaped, render_html, render_spec};
use crate::site::group::{
    has_tag, in_month, in_year, indices_in_month, indices_in_year, indices_with_tag, months_in_use,
    months_of, published, published_indices, tags_in_use, tags_of, years_in_use, years_of,
};
use crate::site::render::{
    indices_ok, post_link_spec, resume_html, resume_html_spec, rows, rows_spec, select, shell,
    shell_spec, site_url_ok, site_url_ok_exec, SEARCH_JS,
};
use crate::text::{
    chars_of, decimal, decimal_text, occurs_at_exec, rfind, rfind_exec, starts_with,
    trail_count, trim_end_char,
};

verus! {

// ---------------------------------------------------------------------------
// The plan
// ---------------------------------------------------------------------------

/// One entry of the search index.
#[derive(Debug)]
pub struct SearchEntry {
    pub title: String,
    pub date: String,
    pub tags: Vec<String>,
    pub url: String,
}

pub struct SearchEntryView {
    pub title: Seq<char>,
    pub date: Seq<char>,
    pub tags: Seq<Seq<char>>,
    pub url: Seq<char>,
}

impl View for SearchEntry {
    type V = SearchEntryView;

    open spec fn view(&self) -> SearchEntryView {
        SearchEntryView { title: self.title@, date: self.date@, tags: string_views(self.tags@), url: self.url@ }
    }
}

/// One step of a build. Paths are relative to the output directory, but
/// for the sources of copies, which are relative to the workspace.
#[derive(Debug)]
pub enum Output {
    /// Write `text` to `path`.
    Write { path: String, text: String },
    /// Copy the file `from` to `to`.
    Copy { from: String, to: String },
    /// Write the search index, the entries as a JSON array, to `path`.
    SearchIndex { path: String, entries: Vec<SearchEntry> },
}

pub enum OutputView {
    Write { path: Seq<char>, text: Seq<char> },
    Copy { from: Seq<char>, to: Seq<char> },
    SearchIndex { path: Seq<char>, entries: Seq<SearchEntryView> },
}

pub open spec fn entry_views(v: Seq<SearchEntry>) -> Seq<SearchEntryView> {
    v.map_values(|e: SearchEntry| e@)
}

impl View for Output {
    type V = OutputView;

    open spec fn view(&self) -> OutputView {
        match self {
            Output::Write { path, text } => OutputView::Write { path: path@, text: text@ },
            Output::Copy { from, to } => OutputView::Copy { from: from@, to: to@ },
            Output::SearchIndex { path, entries } => OutputView::SearchIndex {
                path: path@,
                entries: entry_views(entries@),
            },
        }
    }
}

pub open spec fn output_views(v: Seq<Output>) -> Seq<OutputView> {
    v.map_values(|o: Output| o@)
}

/// The path an output writes to.
pub open spec fn target(o: OutputView) -> Seq<char> {
    match o {
        OutputView::Write { path, .. } => path,
        OutputView::Copy { to, .. } => to,
        OutputView::SearchIndex { path, .. } => path,
    }
}

pub open spec fn write_of(path: Seq<char>, text: Seq<char>) -> OutputView {
    OutputView::Write { path, text }
}

pub open spec fn copy_of(from: Seq<char>, to: Seq<char>) -> OutputView {
    OutputView::Copy { from, to }
}

/// `f` applied to each element of `s`, the results one after another.
pub open spec fn flat_map<A, B>(s: Seq<A>, f: spec_fn(A) -> Seq<B>) -> Seq<B>
    decreases s.len(),
{
    if s.len() == 0 {
        seq![]
    } else {
        flat_map(s.drop_last(), f) + f(s.last())
    }
}

pub proof fn lemma_flat_map_push<A, B>(s: Seq<A>, f: spec_fn(A) -> Seq<B>, i: int)
    requires
        0 <= i < s.len(),
    ensures
        flat_map(s.take(i + 1), f) == flat_map(s.take(i), f) + f(s[i]),
{
    assert(s.take(i + 1).drop_last() =~= s.take(i));
}

/// `str::replace`: every occurrence of `pat` in `s`, from the left and not
/// overlapping, replaced by `rep`.
pub open spec fn replace_all(s: Seq<char>, pat: Seq<char>, rep: Seq<char>) -> Seq<char>
    decreases s.len(),
{
    if pat.len() == 0 || s.len() < pat.len() {
        s
    } else if s.take(pat.len() as int) == pat {
        rep + replace_all(s.skip(pat.len() as int), pat, rep)
    } else {
        seq![s[0]] + replace_all(s.skip(1), pat, rep)
    }
}

/// `s` with every occurrence of `pat` replaced by `rep`.
pub fn replace_all_exec(s: &str, pat: &str, rep: &str) -> (r: String)
    requires
        pat@.len() > 0,
    ensures
        r@ == replace_all(s@, pat@, rep@),
{
    let cs = chars_of(s);
    let ps = chars_of(pat);
    let n = cs.len();
    let m = ps.len();
    let mut out = String::new();
    let mut i: usize = 0;
    assert(cs@.skip(0) =~= cs@);
    while i < n
        invariant
            i <= n,
            n == cs@.len(),
            m == ps@.len(),
            m > 0,
            cs@ == s@,
            ps@ == pat@,
            out@ + replace_all(cs@.skip(i as int), ps@, rep@) == replace_all(s@, pat@, rep@),
        decreases n - i,
    {
        let ghost rest = cs@.skip(i as int);
        if n - i < m {
            assert(replace_all(rest, ps@, rep@) == rest);
            let tail = crate::text::slice_vec(cs.as_slice(), i, n);
            crate::text::push_chars(&mut out, tail.as_slice());
            assert(tail@ =~= rest);
            i = n;
            assert(cs@.skip(n as int) =~= Seq::<char>::empty());
        } else if occurs_at_exec(cs.as_slice(), ps.as_slice(), i) {
            assert(rest.take(m as int) =~= cs@.subrange(i as int, i + m));
            assert(rest.skip(m as int) =~= cs@.skip(i + m));
            out.append(rep);
            i = i + m;
        } else {
            assert(rest.take(m as int) =~= cs@.subrange(i as int, i + m));
            assert(rest.skip(1) =~= cs@.skip(i + 1));
            crate::text::push_char(&mut out, cs[i]);
            i = i + 1;
        }
    }
    assert(cs@.skip(i as int) =~= Seq::<char>::empty());
    out
}

// ---------------------------------------------------------------------------
// The home page and the search index
// ---------------------------------------------------------------------------

/// The posts a listing of the newest posts shows: the first twenty.
pub open spec fn latest(ps: Seq<PostSpec>) -> Seq<PostSpec> {
    if ps.len() <= 20 {
        ps
    } else {
        ps.take(20)
    }
}

/// The home page's body before an empty listing is marked as such.
pub open spec fn home_listing(summary: SpecDocument, ps: Seq<PostSpec>) -> Seq<char> {
    "<h1>"@ + escape_spec(summary.title) + "</h1>\n"@ + render_spec(summary)
        + "<hr>\n<label class=\"mono\" for=\"search\">search: </label> <input id=\"search\" type=\"search\" size=\"28\" autocomplete=\"off\" placeholder=\"title, tag, date\">\n<pre id=\"latest\">Index of /\n\n"@
        + rows_spec(latest(ps), ""@)
        + "\nolder: <a href=\"archive/\">archive/</a></pre><pre id=\"results\" hidden></pre>\n<p class=\"mono\"><a href=\"feed.xml\">feed</a> · <a href=\"sitemap.xml\">sitemap</a></p><script src=\"search.js\" defer></script>"@
}

/// The home page's body: the summary, a search box and the newest of the
/// published posts `ps`; with no published post, every listing heading is
/// followed by a line saying so.
pub open spec fn home_body(summary: SpecDocument, ps: Seq<PostSpec>) -> Seq<char> {
    if ps.len() == 0 {
        replace_all(home_listing(summary, ps), "Index of /\n\n"@, "Index of /\n\n(no published posts)\n"@)
    } else {
        home_listing(summary, ps)
    }
}

pub open spec fn home_page(summary: SpecDocument, ps: Seq<PostSpec>) -> OutputView {
    write_of("index.html"@, shell_spec(summary.title, "en"@, 0, home_body(summary, ps)))
}

/// The first `n` indices of `idx`.
fn first_indices(idx: &Vec<usize>, n: usize) -> (r: Vec<usize>)
    ensures
        r@ == (if idx@.len() <= n { idx@ } else { idx@.take(n as int) }),
{
    let mut r: Vec<usize> = Vec::new();
    let mut k: usize = 0;
    while k < idx.len() && k < n
        invariant
            k <= idx@.len(),
            k <= n,
            r@ == idx@.take(k as int),
        decreases idx@.len() - k,
    {
        r.push(idx[k]);
        k = k + 1;
        assert(r@ =~= idx@.take(k as int));
    }
    proof {
        if idx@.len() <= n {
            assert(r@ =~= idx@);
        }
    }
    r
}

/// The indices of the posts that `latest` keeps.
fn latest_indices(posts: &Vec<Post>, idx: &Vec<usize>) -> (r: Vec<usize>)
    requires
        indices_ok(idx@, posts@.len() as int),
    ensures
        indices_ok(r@, posts@.len() as int),
        select(post_views(posts@), r@) == latest(select(post_views(posts@), idx@)),
{
    let r = first_indices(idx, 20);
    assert(select(post_views(posts@), r@) =~= latest(select(post_views(posts@), idx@)));
    r
}

fn home_output(content: &SiteContent, pub_idx: &Vec<usize>) -> (r: Output)
    requires
        indices_ok(pub_idx@, content.posts@.len() as int),
        select(post_views(content.posts@), pub_idx@) == published(content@.posts),
    ensures
        r@ == home_page(content@.summary, published(content@.posts)),
{
    let ghost ps = published(content@.posts);
    let summary = &content.summary;
    let mut body = String::from_str("<h1>");
    push_escaped(&mut body, chars_of(summary.title.as_str()).as_slice());
    body.append("</h1>\n");
    let rendered = render_html(summary);
    body.append(rendered.as_str());
    body.append("<hr>\n<label class=\"mono\" for=\"search\">search: </label> <input id=\"search\" type=\"search\" size=\"28\" autocomplete=\"off\" placeholder=\"title, tag, date\">\n<pre id=\"latest\">Index of /\n\n");
    let latest_idx = latest_indices(&content.posts, pub_idx);
    let listing = rows(&content.posts, &latest_idx, "");
    body.append(listing.as_str());
    body.append("\nolder: <a href=\"archive/\">archive/</a></pre><pre id=\"results\" hidden></pre>\n<p class=\"mono\"><a href=\"feed.xml\">feed</a> · <a href=\"sitemap.xml\">sitemap</a></p><script src=\"search.js\" defer></script>");
    assert(body@ =~= home_listing(summary@, ps));
    let text = if pub_idx.len() == 0 {
        proof {
            reveal_strlit("Index of /\n\n");
        }
        let marked = replace_all_exec(body.as_str(), "Index of /\n\n", "Index of /\n\n(no published posts)\n");
        shell(summary.title.as_str(), "en", 0, marked.as_str())
    } else {
        shell(summary.title.as_str(), "en", 0, body.as_str())
    };
    Output::Write { path: String::from_str("index.html"), text }
}

/// The search index entry of a post.
pub open spec fn search_entry(p: PostSpec) -> SearchEntryView {
    SearchEntryView {
        title: p.document.title,
        date: date_text_spec(p.meta.date),
        tags: p.meta.tags,
        url: post_link_spec(p.meta.slug, ""@),
    }
}

fn clone_strings(v: &Vec<String>) -> (r: Vec<String>)
    ensures
        string_views(r@) == string_views(v@),
{
    let mut r: Vec<String> = Vec::new();
    let mut k: usize = 0;
    while k < v.len()
        invariant
            k <= v@.len(),
            string_views(r@) == string_views(v@).take(k as int),
        decreases v@.len() - k,
    {
        let ghost before = r@;
        r.push(v[k].clone());
        assert(r@ =~= before.push(v@[k as int]));
        assert(string_views(r@) =~= string_views(before).push(v@[k as int]@));
        k = k + 1;
        assert(string_views(r@) =~= string_views(v@).take(k as int));
    }
    assert(string_views(v@).take(k as int) =~= string_views(v@));
    r
}

fn search_entries(posts: &Vec<Post>, idx: &Vec<usize>) -> (r: Vec<SearchEntry>)
    requires
        indices_ok(idx@, posts@.len() as int),
    ensures
        entry_views(r@) == select(post_views(posts@), idx@).map_values(|p: PostSpec| search_entry(p)),
{
    let ghost want = select(post_views(posts@), idx@).map_values(|p: PostSpec| search_entry(p));
    let mut r: Vec<SearchEntry> = Vec::new();
    let mut k: usize = 0;
    while k < idx.len()
        invariant
            k <= idx@.len(),
            indices_ok(idx@, posts@.len() as int),
            want == select(post_views(posts@), idx@).map_values(|p: PostSpec| search_entry(p)),
            entry_views(r@) == want.take(k as int),
        decreases idx@.len() - k,
    {
        let post = &posts[idx[k]];
        let mut url = String::from_str("posts/");
        url.append(post.meta.slug.as_str());
        url.append("/");
        let e = SearchEntry {
            title: post.document.title.clone(),
            date: date_text(post.meta.date),
            tags: clone_strings(&post.meta.tags),
            url,
        };
        proof {
            reveal_strlit("");
            assert(url@ =~= post_link_spec(post@.meta.slug, ""@));
        }
        assert(e@ == search_entry(post@));
        let ghost before = r@;
        r.push(e);
        assert(entry_views(r@) =~= entry_views(before).push(search_entry(post@)));
        k = k + 1;
        assert(entry_views(r@) =~= want.take(k as int));
    }
    assert(want.take(k as int) =~= want);
    r
}

// ---------------------------------------------------------------------------
// The resume
// ---------------------------------------------------------------------------

pub open spec fn resume_body(resume: SpecDocument, has_pdf: bool) -> Seq<char> {
    "<article><header><h1>"@ + escape_spec(resume.title)
        + "</h1><p class=\"meta mono\"><a href=\"resume.txt\">raw</a>"@
        + (if has_pdf { " · <a href=\"../resume.pdf\">pdf</a>"@ } else { Seq::<char>::empty() })
        + "</p></header>"@ + resume_html_spec(resume) + "<p class=\"mono\">[end]</p></article>"@
}

/// The resume page and its sources: the reStructuredText twice (as `.rst`
/// and as `.txt`) and the PDF where there is one.
pub open spec fn resume_outputs(resume: SpecDocument, has_pdf: bool) -> Seq<OutputView> {
    seq![
        write_of("resume/index.html"@, shell_spec("Resume — Bochen Shen"@, "en"@, 1, resume_body(resume, has_pdf))),
        copy_of("content/resume.rst"@, "resume/resume.rst"@),
        copy_of("content/resume.rst"@, "resume/resume.txt"@),
    ] + (if has_pdf { seq![copy_of("content/resume.pdf"@, "resume.pdf"@)] } else { Seq::<OutputView>::empty() })
}

fn push_resume_outputs(out: &mut Vec<Output>, resume: &crate::rst::ast::Document, has_pdf: bool)
    ensures
        output_views(final(out)@) == output_views(old(out)@) + resume_outputs(resume@, has_pdf),
{
    let ghost start = output_views(out@);
    let mut body = String::from_str("<article><header><h1>");
    push_escaped(&mut body, chars_of(resume.title.as_str()).as_slice());
    body.append("</h1><p class=\"meta mono\"><a href=\"resume.txt\">raw</a>");
    if has_pdf {
        body.append(" · <a href=\"../resume.pdf\">pdf</a>");
    }
    body.append("</p></header>");
    let inner = resume_html(resume);
    body.append(inner.as_str());
    body.append("<p class=\"mono\">[end]</p></article>");
    assert(body@ =~= resume_body(resume@, has_pdf));
    let page = shell("Resume — Bochen Shen", "en", 1, body.as_str());
    out.push(Output::Write { path: String::from_str("resume/index.html"), text: page });
    out.push(Output::Copy { from: String::from_str("content/resume.rst"), to: String::from_str("resume/resume.rst") });
    out.push(Output::Copy { from: String::from_str("content/resume.rst"), to: String::from_str("resume/resume.txt") });
    if has_pdf {
        out.push(Output::Copy { from: String::from_str("content/resume.pdf"), to: String::from_str("resume.pdf") });
    }
    assert(output_views(out@) =~= start + resume_outputs(resume@, has_pdf));
}

// ---------------------------------------------------------------------------
// Post pages
// ---------------------------------------------------------------------------

/// The directory of a post in the built site.
pub open spec fn post_dir(slug: Seq<char>) -> Seq<char> {
    "posts/"@ + slug + "/"@
}

/// The directory of the post source `source`, with its final `/`: what
/// the paths of the post's files start with.
pub open spec fn source_dir(source: Seq<char>) -> Seq<char> {
    match rfind(source, "/"@) {
        Some(i) => source.take(i + 1),
        None => Seq::<char>::empty(),
    }
}

/// A file of the post at `source` lies under the post's directory.
pub open spec fn asset_under_post(source: Seq<char>, asset: Seq<char>) -> bool {
    starts_with(asset, source_dir(source))
}

/// Every file that the post shows lies under the post's directory.
pub open spec fn assets_under_post(p: PostSpec) -> bool {
    forall|j: int| 0 <= j < p.assets.len() ==> asset_under_post(p.source, #[trigger] p.assets[j])
}

/// Every published post of `c` has its files under its directory.
#[verifier::opaque]
pub open spec fn assets_in_place(c: ContentSpec) -> bool {
    forall|i: int| 0 <= i < published(c.posts).len() ==> assets_under_post(#[trigger] published(c.posts)[i])
}

/// Where under the post's directory in the site a file of the post at
/// `source` goes: its path with the post's directory taken off.
pub open spec fn asset_relative(source: Seq<char>, asset: Seq<char>) -> Seq<char> {
    asset.skip(source_dir(source).len() as int)
}

pub open spec fn tag_link(tag: Seq<char>) -> Seq<char> {
    " · <a href=\"../../tags/"@ + tag + "/\">"@ + tag + "</a>"@
}

/// The line under a post's title: its date, its tags and a link to its
/// source.
pub open spec fn post_meta_html(m: MetaSpec) -> Seq<char> {
    escape_spec(date_text_spec(m.date)) + concat_map(m.tags, |t: Seq<char>| tag_link(t))
        + " · <a href=\"index.txt\">raw</a>"@
}

pub open spec fn post_body(p: PostSpec) -> Seq<char> {
    "<article><header><h1>"@ + escape_spec(p.document.title) + "</h1><p class=\"meta mono\">"@
        + post_meta_html(p.meta) + "</p></header>"@ + render_spec(p.document)
        + "<p class=\"mono\">[end]</p></article>"@
}

/// A post's page, its source twice (as `.rst` and as `.txt`), and the
/// files it shows, each copied from its path in the workspace to the same
/// place under the post's directory in the site.
pub open spec fn post_outputs(p: PostSpec) -> Seq<OutputView> {
    let dir = post_dir(p.meta.slug);
    seq![
        write_of(dir + "index.html"@, shell_spec(p.document.title, p.meta.lang, 2, post_body(p))),
        copy_of(p.source, dir + "index.rst"@),
        copy_of(p.source, dir + "index.txt"@),
    ] + p.assets.map_values(|a: Seq<char>| copy_of(a, dir + asset_relative(p.source, a)))
}

fn post_meta_text(meta: &crate::content::PostMeta) -> (r: String)
    ensures
        r@ == post_meta_html(meta@),
{
    let ghost tags = meta@.tags;
    let ghost f = |t: Seq<char>| tag_link(t);
    let day = date_text(meta.date);
    let mut out = String::new();
    push_escaped(&mut out, chars_of(day.as_str()).as_slice());
    let ghost head = out@;
    let mut k: usize = 0;
    assert(tags.take(0) =~= Seq::<Seq<char>>::empty());
    while k < meta.tags.len()
        invariant
            k <= meta.tags@.len(),
            tags == meta@.tags,
            f == (|t: Seq<char>| tag_link(t)),
            out@ == head + concat_map(tags.take(k as int), f),
        decreases meta.tags@.len() - k,
    {
        proof {
            lemma_concat_map_push(tags, f, k as int);
        }
        let tag = &meta.tags[k];
        out.append(" · <a href=\"../../tags/");
        out.append(tag.as_str());
        out.append("/\">");
        out.append(tag.as_str());
        out.append("</a>");
        k = k + 1;
    }
    assert(tags.take(k as int) =~= tags);
    out.append(" · <a href=\"index.txt\">raw</a>");
    out
}

fn asset_relative_exec(source: &str, asset: &str) -> (r: String)
    requires
        asset_under_post(source@, asset@),
    ensures
        r@ == asset_relative(source@, asset@),
{
    let s = chars_of(source);
    let a = chars_of(asset);
    let slash = chars_of("/");
    proof {
        reveal_strlit("/");
    }
    let n = s.len();
    let cut = match rfind_exec(s.as_slice(), slash.as_slice()) {
        Some(i) => {
            assert(i + 1 <= n);
            i + 1
        },
        None => 0,
    };
    proof {
        reveal(asset_relative);
    }
    assert(cut == source_dir(source@).len());
    let tail = crate::text::slice_vec(a.as_slice(), cut, a.len());
    assert(tail@ =~= asset@.skip(cut as int));
    crate::text::string_of(tail.as_slice())
}

fn push_post_outputs(out: &mut Vec<Output>, post: &Post)
    requires
        assets_under_post(post@),
    ensures
        output_views(final(out)@) == output_views(old(out)@) + post_outputs(post@),
{
    let ghost start = output_views(out@);
    let ghost p = post@;
    let mut dir = String::from_str("posts/");
    dir.append(post.meta.slug.as_str());
    dir.append("/");
    let mut body = String::from_str("<article><header><h1>");
    push_escaped(&mut body, chars_of(post.document.title.as_str()).as_slice());
    body.append("</h1><p class=\"meta mono\">");
    let meta = post_meta_text(&post.meta);
    body.append(meta.as_str());
    body.append("</p></header>");
    let rendered = render_html(&post.document);
    body.append(rendered.as_str());
    body.append("<p class=\"mono\">[end]</p></article>");
    assert(body@ =~= post_body(p));
    let page = shell(post.document.title.as_str(), post.meta.lang.as_str(), 2, body.as_str());
    let mut page_path = dir.clone();
    page_path.append("index.html");
    let mut rst_path = dir.clone();
    rst_path.append("index.rst");
    let mut txt_path = dir.clone();
    txt_path.append("index.txt");
    out.push(Output::Write { path: page_path, text: page });
    out.push(Output::Copy { from: post.source.clone(), to: rst_path });
    out.push(Output::Copy { from: post.source.clone(), to: txt_path });
    let ghost g = |a: Seq<char>| copy_of(a, post_dir(p.meta.slug) + asset_relative(p.source, a));
    let ghost mid = output_views(out@);
    assert(mid =~= start + seq![
        write_of(post_dir(p.meta.slug) + "index.html"@, shell_spec(p.document.title, p.meta.lang, 2, post_body(p))),
        copy_of(p.source, post_dir(p.meta.slug) + "index.rst"@),
        copy_of(p.source, post_dir(p.meta.slug) + "index.txt"@),
    ]);
    let mut k: usize = 0;
    while k < post.assets.len()
        invariant
            k <= post.assets@.len(),
            p == post@,
            dir@ == post_dir(p.meta.slug),
            g == (|a: Seq<char>| copy_of(a, post_dir(p.meta.slug) + asset_relative(p.source, a))),
            assets_under_post(p),
            output_views(out@) == mid + p.assets.map_values(g).take(k as int),
        decreases post.assets@.len() - k,
    {
        let asset = &post.assets[k];
        assert(p.assets[k as int] == asset@);
        let relative = asset_relative_exec(post.source.as_str(), asset.as_str());
        let from = asset.clone();
        let mut to = dir.clone();
        to.append(relative.as_str());
        let ghost before = out@;
        out.push(Output::Copy { from, to });
        assert(output_views(out@) =~= output_views(before).push(g(asset@)));
        k = k + 1;
        assert(p.assets.map_values(g).take(k as int) =~= p.assets.map_values(g).take(k - 1).push(g(asset@)));
    }
    assert(p.assets.map_values(g).take(k as int) =~= p.assets.map_values(g));
    assert(output_views(out@) =~= start + post_outputs(p));
}

/// The pages and files of the posts at `idx`, one post after another.
fn push_posts_outputs(out: &mut Vec<Output>, posts: &Vec<Post>, idx: &Vec<usize>)
    requires
        indices_ok(idx@, posts@.len() as int),
        forall|k: int| 0 <= k < idx@.len() ==> assets_under_post(#[trigger] select(post_views(posts@), idx@)[k]),
    ensures
        output_views(final(out)@) == output_views(old(out)@)
            + flat_map(select(post_views(posts@), idx@), |p: PostSpec| post_outputs(p)),
{
    let ghost start = output_views(out@);
    let ghost sel = select(post_views(posts@), idx@);
    let ghost f = |p: PostSpec| post_outputs(p);
    let mut k: usize = 0;
    assert(sel.take(0) =~= Seq::<PostSpec>::empty());
    while k < idx.len()
        invariant
            k <= idx@.len(),
            indices_ok(idx@, posts@.len() as int),
            sel == select(post_views(posts@), idx@),
            f == (|p: PostSpec| post_outputs(p)),
            output_views(out@) == start + flat_map(sel.take(k as int), f),
            forall|j: int| 0 <= j < idx@.len() ==> assets_under_post(#[trigger] sel[j]),
        decreases idx@.len() - k,
    {
        proof {
            lemma_flat_map_push(sel, f, k as int);
        }
        let i = idx[k];
        assert(sel[k as int] == posts@[i as int]@);
        assert(assets_under_post(sel[k as int]));
        push_post_outputs(out, &posts[i]);
        k = k + 1;
    }
    assert(sel.take(k as int) =~= sel);
}

// ---------------------------------------------------------------------------
// Tag pages
// ---------------------------------------------------------------------------

/// The page of one tag: the published posts `ps` that carry it.
pub open spec fn tag_page(ps: Seq<PostSpec>, tag: Seq<char>) -> OutputView {
    write_of(
        "tags/"@ + tag + "/index.html"@,
        shell_spec(tag, "en"@, 2, "<h1>Index of /tags/"@ + tag + "/</h1><pre>"@
            + rows_spec(ps.filter(has_tag(tag)), "../../"@) + "</pre>"@),
    )
}

/// A tag's line in the tag index: a link and the number of its posts.
pub open spec fn tag_line(ps: Seq<PostSpec>, tag: Seq<char>) -> Seq<char> {
    "<a href=\""@ + tag + "/\">"@ + tag + "/</a>  "@ + decimal_text(ps.filter(has_tag(tag)).len()) + "\n"@
}

pub open spec fn tags_index(ps: Seq<PostSpec>) -> OutputView {
    write_of(
        "tags/index.html"@,
        shell_spec("Tags"@, "en"@, 1, "<h1>Index of /tags/</h1><pre>"@
            + concat_map(tags_in_use(ps), |t: Seq<char>| tag_line(ps, t)) + "</pre>"@),
    )
}

/// A page for each tag in use, in lexicographic order, then the tag index.
pub open spec fn tag_outputs(ps: Seq<PostSpec>) -> Seq<OutputView> {
    tags_in_use(ps).map_values(|t: Seq<char>| tag_page(ps, t)).push(tags_index(ps))
}

fn push_tag_outputs(out: &mut Vec<Output>, posts: &Vec<Post>, idx: &Vec<usize>)
    requires
        indices_ok(idx@, posts@.len() as int),
    ensures
        output_views(final(out)@) == output_views(old(out)@) + tag_outputs(select(post_views(posts@), idx@)),
{
    let ghost start = output_views(out@);
    let ghost ps = select(post_views(posts@), idx@);
    let tags = tags_of(posts, idx);
    let ghost ts = string_views(tags@);
    let ghost pages = ts.map_values(|t: Seq<char>| tag_page(ps, t));
    let ghost f = |t: Seq<char>| tag_line(ps, t);
    let mut index = String::from_str("<h1>Index of /tags/</h1><pre>");
    let ghost head = index@;
    let mut k: usize = 0;
    assert(ts.take(0) =~= Seq::<Seq<char>>::empty());
    assert(pages.take(0) =~= Seq::<OutputView>::empty());
    while k < tags.len()
        invariant
            k <= tags@.len(),
            indices_ok(idx@, posts@.len() as int),
            ps == select(post_views(posts@), idx@),
            ts == string_views(tags@),
            ts == tags_in_use(ps),
            pages == ts.map_values(|t: Seq<char>| tag_page(ps, t)),
            f == (|t: Seq<char>| tag_line(ps, t)),
            index@ == head + concat_map(ts.take(k as int), f),
            output_views(out@) == start + pages.take(k as int),
        decreases tags@.len() - k,
    {
        proof {
            lemma_concat_map_push(ts, f, k as int);
        }
        let tag = &tags[k];
        let tagged = indices_with_tag(posts, idx, tag);
        let listing = rows(posts, &tagged, "../../");
        let mut body = String::from_str("<h1>Index of /tags/");
        body.append(tag.as_str());
        body.append("/</h1><pre>");
        body.append(listing.as_str());
        body.append("</pre>");
        let page = shell(tag.as_str(), "en", 2, body.as_str());
        let mut path = String::from_str("tags/");
        path.append(tag.as_str());
        path.append("/index.html");
        let ghost before = out@;
        out.push(Output::Write { path, text: page });
        assert(output_views(out@) =~= output_views(before).push(tag_page(ps, ts[k as int])));
        let count = decimal(tagged.len());
        assert(select(post_views(posts@), tagged@).len() == tagged@.len());
        let ghost before_line = index@;
        index.append("<a href=\"");
        index.append(tag.as_str());
        index.append("/\">");
        index.append(tag.as_str());
        index.append("/</a>  ");
        index.append(count.as_str());
        index.append("\n");
        assert(index@ =~= before_line + f(ts[k as int]));
        k = k + 1;
        assert(pages.take(k as int) =~= pages.take(k - 1).push(pages[k - 1]));
    }
    assert(ts.take(k as int) =~= ts);
    assert(pages.take(k as int) =~= pages);
    index.append("</pre>");
    assert(index@ =~= "<h1>Index of /tags/</h1><pre>"@ + concat_map(tags_in_use(ps), |t: Seq<char>| tag_line(ps, t)) + "</pre>"@);
    let text = shell("Tags", "en", 1, index.as_str());
    let ghost before = out@;
    out.push(Output::Write { path: String::from_str("tags/index.html"), text });
    assert(output_views(out@) =~= output_views(before).push(tags_index(ps)));
    assert(tag_outputs(ps) =~= pages.push(tags_index(ps)));
    assert(output_views(out@) =~= start + tag_outputs(ps));
}

// ---------------------------------------------------------------------------
// The archive
// ---------------------------------------------------------------------------

/// A year in decimal, with a minus sign when negative.
pub open spec fn year_text(y: i32) -> Seq<char> {
    if y < 0 {
        "-"@ + decimal_text((-y) as nat)
    } else {
        decimal_text(y as nat)
    }
}

/// A month number in two digits.
pub open spec fn month_text(m: i32) -> Seq<char> {
    zero_padded(m as nat, 2)
}

pub open spec fn month_page(ps: Seq<PostSpec>, y: i32, m: i32) -> OutputView {
    let dir = year_text(y) + "/"@ + month_text(m);
    write_of(
        "archive/"@ + dir + "/index.html"@,
        shell_spec("Archive"@, "en"@, 3, "<h1>Index of /archive/"@ + dir + "/</h1><pre>"@
            + rows_spec(ps.filter(in_month(y, m)), "../../../"@) + "</pre>"@),
    )
}

pub open spec fn month_line(ps: Seq<PostSpec>, y: i32, m: i32) -> Seq<char> {
    "<a href=\""@ + month_text(m) + "/\">"@ + month_text(m) + "/</a>  "@
        + decimal_text(ps.filter(in_month(y, m)).len()) + "\n"@
}

pub open spec fn year_page(ps: Seq<PostSpec>, y: i32) -> OutputView {
    write_of(
        "archive/"@ + year_text(y) + "/index.html"@,
        shell_spec("Archive"@, "en"@, 2, "<h1>Index of /archive/"@ + year_text(y) + "/</h1><pre>"@
            + concat_map(months_in_use(ps, y), |m: i32| month_line(ps, y, m)) + "</pre>"@),
    )
}

/// The pages of a year: one for each of its months, latest first, then
/// the year's own.
pub open spec fn year_outputs(ps: Seq<PostSpec>, y: i32) -> Seq<OutputView> {
    months_in_use(ps, y).map_values(|m: i32| month_page(ps, y, m)).push(year_page(ps, y))
}

pub open spec fn year_line(ps: Seq<PostSpec>, y: i32) -> Seq<char> {
    "<a href=\""@ + year_text(y) + "/\">"@ + year_text(y) + "/</a>  "@
        + decimal_text(ps.filter(in_year(y)).len()) + "\n"@
}

pub open spec fn archive_index(ps: Seq<PostSpec>) -> OutputView {
    write_of(
        "archive/index.html"@,
        shell_spec("Archive"@, "en"@, 1, "<h1>Index of /archive/</h1><pre>"@
            + concat_map(years_in_use(ps), |y: i32| year_line(ps, y)) + "</pre>"@),
    )
}

/// The pages of each year with posts, newest first, then the archive index.
pub open spec fn archive_outputs(ps: Seq<PostSpec>) -> Seq<OutputView> {
    flat_map(years_in_use(ps), |y: i32| year_outputs(ps, y)).push(archive_index(ps))
}

fn year_text_exec(y: i32) -> (r: String)
    ensures
        r@ == year_text(y),
{
    if y < 0 {
        let magnitude: i64 = -(y as i64);
        let mut r = String::from_str("-");
        let digits = decimal(magnitude as usize);
        r.append(digits.as_str());
        r
    } else {
        decimal(y as usize)
    }
}

fn month_text_exec(m: i32) -> (r: String)
    requires
        0 <= m < 256,
    ensures
        r@ == month_text(m),
{
    let mut r = String::new();
    crate::content::push_zero_padded(&mut r, m as u32, 2);
    assert(r@ =~= month_text(m));
    r
}

fn push_year_outputs(out: &mut Vec<Output>, posts: &Vec<Post>, idx: &Vec<usize>, y: i32)
    requires
        indices_ok(idx@, posts@.len() as int),
    ensures
        output_views(final(out)@) == output_views(old(out)@) + year_outputs(select(post_views(posts@), idx@), y),
{
    let ghost start = output_views(out@);
    let ghost ps = select(post_views(posts@), idx@);
    let months = months_of(posts, idx, y);
    let ghost ms = months@;
    let ghost pages = ms.map_values(|m: i32| month_page(ps, y, m));
    let ghost f = |m: i32| month_line(ps, y, m);
    let yt = year_text_exec(y);
    let mut index = String::from_str("<h1>Index of /archive/");
    index.append(yt.as_str());
    index.append("/</h1><pre>");
    let ghost head = index@;
    let mut k: usize = 0;
    assert(ms.take(0) =~= Seq::<i32>::empty());
    assert(pages.take(0) =~= Seq::<OutputView>::empty());
    while k < months.len()
        invariant
            k <= months@.len(),
            indices_ok(idx@, posts@.len() as int),
            ps == select(post_views(posts@), idx@),
            ms == months@,
            ms == months_in_use(ps, y),
            forall|j: int| 0 <= j < ms.len() ==> 0 <= #[trigger] ms[j] < 256,
            yt@ == year_text(y),
            pages == ms.map_values(|m: i32| month_page(ps, y, m)),
            f == (|m: i32| month_line(ps, y, m)),
            index@ == head + concat_map(ms.take(k as int), f),
            output_views(out@) == start + pages.take(k as int),
        decreases months@.len() - k,
    {
        proof {
            lemma_concat_map_push(ms, f, k as int);
        }
        let m = months[k];
        assert(0 <= ms[k as int] < 256);
        let mt = month_text_exec(m);
        let in_month_idx = indices_in_month(posts, idx, y, m);
        let listing = rows(posts, &in_month_idx, "../../../");
        let mut body = String::from_str("<h1>Index of /archive/");
        body.append(yt.as_str());
        body.append("/");
        body.append(mt.as_str());
        body.append("/</h1><pre>");
        body.append(listing.as_str());
        body.append("</pre>");
        assert(body@ =~= "<h1>Index of /archive/"@ + (year_text(y) + "/"@ + month_text(m)) + "/</h1><pre>"@
            + rows_spec(ps.filter(in_month(y, m)), "../../../"@) + "</pre>"@);
        let page = shell("Archive", "en", 3, body.as_str());
        let mut path = String::from_str("archive/");
        path.append(yt.as_str());
        path.append("/");
        path.append(mt.as_str());
        path.append("/index.html");
        assert(path@ =~= "archive/"@ + (year_text(y) + "/"@ + month_text(m)) + "/index.html"@);
        let ghost before = out@;
        out.push(Output::Write { path, text: page });
        assert(output_views(out@) =~= output_views(before).push(month_page(ps, y, m)));
        let count = decimal(in_month_idx.len());
        assert(select(post_views(posts@), in_month_idx@).len() == in_month_idx@.len());
        let ghost before_line = index@;
        index.append("<a href=\"");
        index.append(mt.as_str());
        index.append("/\">");
        index.append(mt.as_str());
        index.append("/</a>  ");
        index.append(count.as_str());
        index.append("\n");
        assert(index@ =~= before_line + f(ms[k as int]));
        k = k + 1;
        assert(pages.take(k as int) =~= pages.take(k - 1).push(pages[k - 1]));
    }
    assert(ms.take(k as int) =~= ms);
    assert(pages.take(k as int) =~= pages);
    index.append("</pre>");
    assert(index@ =~= "<h1>Index of /archive/"@ + year_text(y) + "/</h1><pre>"@
        + concat_map(months_in_use(ps, y), |m: i32| month_line(ps, y, m)) + "</pre>"@);
    let text = shell("Archive", "en", 2, index.as_str());
    let mut path = String::from_str("archive/");
    path.append(yt.as_str());
    path.append("/index.html");
    let ghost before = out@;
    out.push(Output::Write { path, text });
    assert(output_views(out@) =~= output_views(before).push(year_page(ps, y)));
    assert(year_outputs(ps, y) =~= pages.push(year_page(ps, y)));
    assert(output_views(out@) =~= start + year_outputs(ps, y));
}

fn push_year_line(index: &mut String, posts: &Vec<Post>, idx: &Vec<usize>, y: i32)
    requires
        indices_ok(idx@, posts@.len() as int),
    ensures
        final(index)@ == old(index)@ + year_line(select(post_views(posts@), idx@), y),
{
    let yt = year_text_exec(y);
    let in_year_idx = indices_in_year(posts, idx, y);
    let count = decimal(in_year_idx.len());
    assert(select(post_views(posts@), in_year_idx@).len() == in_year_idx@.len());
    let ghost before_line = index@;
    index.append("<a href=\"");
    index.append(yt.as_str());
    index.append("/\">");
    index.append(yt.as_str());
    index.append("/</a>  ");
    index.append(count.as_str());
    index.append("\n");
    assert(index@ =~= before_line + year_line(select(post_views(posts@), idx@), y));
}

fn push_archive_outputs(out: &mut Vec<Output>, posts: &Vec<Post>, idx: &Vec<usize>, years: &Vec<i32>)
    requires
        indices_ok(idx@, posts@.len() as int),
        years@ == years_in_use(select(post_views(posts@), idx@)),
    ensures
        output_views(final(out)@) == output_views(old(out)@) + archive_outputs(select(post_views(posts@), idx@)),
{
    let ghost start = output_views(out@);
    let ghost ps = select(post_views(posts@), idx@);
    let ghost ys = years@;
    let ghost g = |y: i32| year_outputs(ps, y);
    let ghost f = |y: i32| year_line(ps, y);
    let mut index = String::from_str("<h1>Index of /archive/</h1><pre>");
    let ghost head = index@;
    let mut k: usize = 0;
    assert(ys.take(0) =~= Seq::<i32>::empty());
    while k < years.len()
        invariant
            k <= years@.len(),
            indices_ok(idx@, posts@.len() as int),
            ps == select(post_views(posts@), idx@),
            ys == years@,
            ys == years_in_use(ps),
            g == (|y: i32| year_outputs(ps, y)),
            f == (|y: i32| year_line(ps, y)),
            index@ == head + concat_map(ys.take(k as int), f),
            output_views(out@) == start + flat_map(ys.take(k as int), g),
        decreases years@.len() - k,
    {
        proof {
            lemma_concat_map_push(ys, f, k as int);
            lemma_flat_map_push(ys, g, k as int);
        }
        let y = years[k];
        push_year_outputs(out, posts, idx, y);
        push_year_line(&mut index, posts, idx, y);
        k = k + 1;
    }
    assert(ys.take(k as int) =~= ys);
    index.append("</pre>");
    assert(index@ =~= "<h1>Index of /archive/</h1><pre>"@
        + concat_map(years_in_use(ps), |y: i32| year_line(ps, y)) + "</pre>"@);
    let text = shell("Archive", "en", 1, index.as_str());
    let ghost before = out@;
    out.push(Output::Write { path: String::from_str("archive/index.html"), text });
    assert(output_views(out@) =~= output_views(before).push(archive_index(ps)));
    assert(output_views(out@) =~= start + archive_outputs(ps));
}

// ---------------------------------------------------------------------------
// The feed and the sitemap
// ---------------------------------------------------------------------------

/// The site URL without its trailing slashes.
pub open spec fn site_base(url: Seq<char>) -> Seq<char> {
    trim_end_char(url, '/')
}

fn site_base_exec(url: &str) -> (r: String)
    ensures
        r@ == site_base(url@),
{
    let cs = chars_of(url);
    let n = cs.len();
    let mut j: usize = n;
    assert(cs@.take(n as int) =~= cs@);
    while j > 0 && cs[j - 1] == '/'
        invariant
            j <= n,
            n == cs@.len(),
            cs@ == url@,
            trail_count(url@, '/') == (n - j) + trail_count(cs@.take(j as int), '/'),
        decreases j,
    {
        assert(cs@.take(j as int).drop_last() =~= cs@.take(j - 1));
        j = j - 1;
    }
    let head = crate::text::slice_vec(cs.as_slice(), 0, j);
    assert(head@ =~= trim_end_char(url@, '/'));
    crate::text::string_of(head.as_slice())
}

/// The date the feed was last updated: that of the newest post.
pub open spec fn feed_updated(ps: Seq<PostSpec>) -> Seq<char> {
    if ps.len() == 0 {
        "1970-01-01"@
    } else {
        date_text_spec(ps[0].meta.date)
    }
}

pub open spec fn post_url(base: Seq<char>, slug: Seq<char>) -> Seq<char> {
    base + "/posts/"@ + slug + "/"@
}

pub open spec fn feed_entry(base: Seq<char>, p: PostSpec) -> Seq<char> {
    "<entry><title>"@ + escape_spec(p.document.title) + "</title><id>"@ + post_url(base, p.meta.slug)
        + "</id><link href=\""@ + post_url(base, p.meta.slug) + "\"/><updated>"@
        + date_text_spec(p.meta.date) + "T00:00:00Z</updated><summary>"@ + escape_spec(p.document.title)
        + "</summary></entry>"@
}

/// The Atom feed of the newest published posts `ps`.
pub open spec fn feed_text(ps: Seq<PostSpec>, base: Seq<char>) -> Seq<char> {
    "<?xml version=\"1.0\" encoding=\"utf-8\"?><feed xmlns=\"http://www.w3.org/2005/Atom\"><title>Bochen Shen</title><id>"@
        + base + "/</id><link href=\""@ + base + "/feed.xml\" rel=\"self\"/><updated>"@ + feed_updated(ps)
        + "T00:00:00Z</updated>"@ + concat_map(latest(ps), |p: PostSpec| feed_entry(base, p)) + "</feed>\n"@
}

fn push_feed_entry(out: &mut String, post: &Post, base: &String)
    ensures
        final(out)@ == old(out)@ + feed_entry(base@, post@),
{
    let mut url = base.clone();
    url.append("/posts/");
    url.append(post.meta.slug.as_str());
    url.append("/");
    let day = date_text(post.meta.date);
    let ghost before = out@;
    out.append("<entry><title>");
    push_escaped(out, chars_of(post.document.title.as_str()).as_slice());
    out.append("</title><id>");
    out.append(url.as_str());
    out.append("</id><link href=\"");
    out.append(url.as_str());
    out.append("\"/><updated>");
    out.append(day.as_str());
    out.append("T00:00:00Z</updated><summary>");
    push_escaped(out, chars_of(post.document.title.as_str()).as_slice());
    out.append("</summary></entry>");
    assert(out@ =~= before + feed_entry(base@, post@));
}

fn feed_exec(posts: &Vec<Post>, idx: &Vec<usize>, base: &String) -> (r: String)
    requires
        indices_ok(idx@, posts@.len() as int),
    ensures
        r@ == feed_text(select(post_views(posts@), idx@), base@),
{
    let ghost ps = select(post_views(posts@), idx@);
    let mut out = String::from_str("<?xml version=\"1.0\" encoding=\"utf-8\"?><feed xmlns=\"http://www.w3.org/2005/Atom\"><title>Bochen Shen</title><id>");
    out.append(base.as_str());
    out.append("/</id><link href=\"");
    out.append(base.as_str());
    out.append("/feed.xml\" rel=\"self\"/><updated>");
    if idx.len() == 0 {
        out.append("1970-01-01");
    } else {
        let day = date_text(posts[idx[0]].meta.date);
        out.append(day.as_str());
    }
    out.append("T00:00:00Z</updated>");
    let ghost head = out@;
    let newest = latest_indices(posts, idx);
    let ghost ls = latest(ps);
    let ghost f = |p: PostSpec| feed_entry(base@, p);
    let mut k: usize = 0;
    assert(ls.take(0) =~= Seq::<PostSpec>::empty());
    while k < newest.len()
        invariant
            k <= newest@.len(),
            indices_ok(newest@, posts@.len() as int),
            ls == select(post_views(posts@), newest@),
            f == (|p: PostSpec| feed_entry(base@, p)),
            out@ == head + concat_map(ls.take(k as int), f),
        decreases newest@.len() - k,
    {
        proof {
            lemma_concat_map_push(ls, f, k as int);
        }
        let post = &posts[newest[k]];
        assert(ls[k as int] == post@);
        push_feed_entry(&mut out, post, base);
        k = k + 1;
    }
    assert(ls.take(k as int) =~= ls);
    out.append("</feed>\n");
    out
}

/// One address of the sitemap.
pub open spec fn loc(base: Seq<char>, path: Seq<char>) -> Seq<char> {
    "<url><loc>"@ + base + "/"@ + path + "</loc></url>"@
}

pub open spec fn month_locs(base: Seq<char>, ps: Seq<PostSpec>, y: i32) -> Seq<char> {
    concat_map(months_in_use(ps, y).reverse(), |m: i32| loc(base, "archive/"@ + year_text(y) + "/"@ + month_text(m) + "/"@))
}

/// The sitemap: the fixed pages, then the tag pages, the year pages and the
/// month pages in ascending order, then the published posts.
pub open spec fn sitemap_text(ps: Seq<PostSpec>, base: Seq<char>) -> Seq<char> {
    "<?xml version=\"1.0\" encoding=\"utf-8\"?><urlset xmlns=\"http://www.sitemaps.org/schemas/sitemap/0.9\">"@
        + loc(base, ""@) + loc(base, "resume/"@) + loc(base, "tags/"@) + loc(base, "archive/"@)
        + concat_map(tags_in_use(ps), |t: Seq<char>| loc(base, "tags/"@ + t + "/"@))
        + concat_map(years_in_use(ps).reverse(), |y: i32| loc(base, "archive/"@ + year_text(y) + "/"@))
        + concat_map(years_in_use(ps).reverse(), |y: i32| month_locs(base, ps, y))
        + concat_map(ps, |p: PostSpec| loc(base, "posts/"@ + p.meta.slug + "/"@))
        + "</urlset>\n"@
}

fn reversed(v: &Vec<i32>) -> (r: Vec<i32>)
    ensures
        r@ == v@.reverse(),
{
    let mut r: Vec<i32> = Vec::new();
    let mut k: usize = v.len();
    while k > 0
        invariant
            k <= v@.len(),
            r@ == v@.skip(k as int).reverse(),
        decreases k,
    {
        k = k - 1;
        r.push(v[k]);
        assert(r@ =~= v@.skip(k as int).reverse());
    }
    assert(v@.skip(0) =~= v@);
    r
}

fn push_loc(out: &mut String, base: &String, path: &String)
    ensures
        final(out)@ == old(out)@ + loc(base@, path@),
{
    out.append("<url><loc>");
    out.append(base.as_str());
    out.append("/");
    out.append(path.as_str());
    out.append("</loc></url>");
}

fn push_month_locs(out: &mut String, base: &String, posts: &Vec<Post>, idx: &Vec<usize>, y: i32)
    requires
        indices_ok(idx@, posts@.len() as int),
    ensures
        final(out)@ == old(out)@ + month_locs(base@, select(post_views(posts@), idx@), y),
{
    let ghost start = out@;
    let ghost ps = select(post_views(posts@), idx@);
    let months = months_of(posts, idx, y);
    let asc = reversed(&months);
    let ghost ms = asc@;
    let ghost f = |m: i32| loc(base@, "archive/"@ + year_text(y) + "/"@ + month_text(m) + "/"@);
    let yt = year_text_exec(y);
    let mut k: usize = 0;
    assert(ms.take(0) =~= Seq::<i32>::empty());
    while k < asc.len()
        invariant
            k <= asc@.len(),
            ms == asc@,
            ms == months_in_use(ps, y).reverse(),
            months@ == months_in_use(ps, y),
            forall|j: int| 0 <= j < months@.len() ==> 0 <= #[trigger] months@[j] < 256,
            yt@ == year_text(y),
            f == (|m: i32| loc(base@, "archive/"@ + year_text(y) + "/"@ + month_text(m) + "/"@)),
            out@ == start + concat_map(ms.take(k as int), f),
        decreases asc@.len() - k,
    {
        proof {
            lemma_concat_map_push(ms, f, k as int);
            assert(ms[k as int] == months@[months@.len() - 1 - k]);
        }
        let m = asc[k];
        let mt = month_text_exec(m);
        let mut path = String::from_str("archive/");
        path.append(yt.as_str());
        path.append("/");
        path.append(mt.as_str());
        path.append("/");
        push_loc(out, base, &path);
        assert(path@ =~= "archive/"@ + year_text(y) + "/"@ + month_text(m) + "/"@);
        k = k + 1;
    }
    assert(ms.take(k as int) =~= ms);
}

fn sitemap_exec(posts: &Vec<Post>, idx: &Vec<usize>, base: &String, tags: &Vec<String>, years: &Vec<i32>) -> (r: String)
    requires
        indices_ok(idx@, posts@.len() as int),
        string_views(tags@) == tags_in_use(select(post_views(posts@), idx@)),
        years@ == years_in_use(select(post_views(posts@), idx@)),
    ensures
        r@ == sitemap_text(select(post_views(posts@), idx@), base@),
{
    let ghost ps = select(post_views(posts@), idx@);
    let mut out = String::from_str("<?xml version=\"1.0\" encoding=\"utf-8\"?><urlset xmlns=\"http://www.sitemaps.org/schemas/sitemap/0.9\">");
    push_loc(&mut out, base, &String::from_str(""));
    push_loc(&mut out, base, &String::from_str("resume/"));
    push_loc(&mut out, base, &String::from_str("tags/"));
    push_loc(&mut out, base, &String::from_str("archive/"));
    let ghost h1 = out@;
    let ghost ts = string_views(tags@);
    let ghost ft = |t: Seq<char>| loc(base@, "tags/"@ + t + "/"@);
    let mut k: usize = 0;
    assert(ts.take(0) =~= Seq::<Seq<char>>::empty());
    while k < tags.len()
        invariant
            k <= tags@.len(),
            ts == string_views(tags@),
            ft == (|t: Seq<char>| loc(base@, "tags/"@ + t + "/"@)),
            out@ == h1 + concat_map(ts.take(k as int), ft),
        decreases tags@.len() - k,
    {
        proof {
            lemma_concat_map_push(ts, ft, k as int);
        }
        let mut path = String::from_str("tags/");
        path.append(tags[k].as_str());
        path.append("/");
        push_loc(&mut out, base, &path);
        k = k + 1;
    }
    assert(ts.take(k as int) =~= ts);
    let ghost h2 = out@;
    let asc = reversed(years);
    let ghost ys = asc@;
    let ghost fy = |y: i32| loc(base@, "archive/"@ + year_text(y) + "/"@);
    let mut k: usize = 0;
    assert(ys.take(0) =~= Seq::<i32>::empty());
    while k < asc.len()
        invariant
            k <= asc@.len(),
            ys == asc@,
            fy == (|y: i32| loc(base@, "archive/"@ + year_text(y) + "/"@)),
            out@ == h2 + concat_map(ys.take(k as int), fy),
        decreases asc@.len() - k,
    {
        proof {
            lemma_concat_map_push(ys, fy, k as int);
        }
        let yt = year_text_exec(asc[k]);
        let mut path = String::from_str("archive/");
        path.append(yt.as_str());
        path.append("/");
        push_loc(&mut out, base, &path);
        k = k + 1;
    }
    assert(ys.take(k as int) =~= ys);
    let ghost h3 = out@;
    let ghost fm = |y: i32| month_locs(base@, ps, y);
    let mut k: usize = 0;
    while k < asc.len()
        invariant
            k <= asc@.len(),
            ys == asc@,
            indices_ok(idx@, posts@.len() as int),
            ps == select(post_views(posts@), idx@),
            fm == (|y: i32| month_locs(base@, ps, y)),
            out@ == h3 + concat_map(ys.take(k as int), fm),
        decreases asc@.len() - k,
    {
        proof {
            lemma_concat_map_push(ys, fm, k as int);
        }
        push_month_locs(&mut out, base, posts, idx, asc[k]);
        k = k + 1;
    }
    assert(ys.take(k as int) =~= ys);
    let ghost h4 = out@;
    let ghost fp = |p: PostSpec| loc(base@, "posts/"@ + p.meta.slug + "/"@);
    let mut k: usize = 0;
    assert(ps.take(0) =~= Seq::<PostSpec>::empty());
    while k < idx.len()
        invariant
            k <= idx@.len(),
            indices_ok(idx@, posts@.len() as int),
            ps == select(post_views(posts@), idx@),
            fp == (|p: PostSpec| loc(base@, "posts/"@ + p.meta.slug + "/"@)),
            out@ == h4 + concat_map(ps.take(k as int), fp),
        decreases idx@.len() - k,
    {
        proof {
            lemma_concat_map_push(ps, fp, k as int);
        }
        let post = &posts[idx[k]];
        assert(ps[k as int] == post@);
        let mut path = String::from_str("posts/");
        path.append(post.meta.slug.as_str());
        path.append("/");
        push_loc(&mut out, base, &path);
        k = k + 1;
    }
    assert(ps.take(k as int) =~= ps);
    out.append("</urlset>\n");
    proof {
        reveal_strlit("");
    }
    assert(out@ =~= sitemap_text(ps, base@));
    out
}

// ---------------------------------------------------------------------------
// The whole build
// ---------------------------------------------------------------------------

/// Everything a build writes and copies, in order, for the content `c`,
/// the site URL `url`, and whether a resume PDF exists.
pub open spec fn site_outputs(c: ContentSpec, url: Seq<char>, has_pdf: bool) -> Seq<OutputView> {
    let ps = published(c.posts);
    let base = site_base(url);
    seq![
        home_page(c.summary, ps),
        write_of("search.js"@, SEARCH_JS@),
        OutputView::SearchIndex {
            path: "search-index.json"@,
            entries: ps.map_values(|p: PostSpec| search_entry(p)),
        },
    ] + resume_outputs(c.resume, has_pdf) + flat_map(ps, |p: PostSpec| post_outputs(p)) + tag_outputs(ps)
        + archive_outputs(ps) + seq![
        write_of("feed.xml"@, feed_text(ps, base)),
        write_of("sitemap.xml"@, sitemap_text(ps, base)),
    ]
}

pub open spec fn bad_site_url_message() -> Seq<char> {
    "--site-url must be a simple https URL ending in /"@
}

/// What a build does: refuse a site URL that is not a simple `https` URL
/// ending in `/`, or else produce `site_outputs`.
pub open spec fn build_spec(c: ContentSpec, url: Seq<char>, has_pdf: bool) -> Result<Seq<OutputView>, SpecError> {
    if site_url_ok(url) {
        Ok(site_outputs(c, url, has_pdf))
    } else {
        Err(SpecError::InvalidWorkspace(bad_site_url_message()))
    }
}

/// Plans the build of the site from `content`: every file to write and to
/// copy into the output directory, in order. `has_pdf` says whether the
/// workspace has a resume PDF.
pub fn plan_build(content: &SiteContent, site_url: &str, has_pdf: bool) -> (r: Result<Vec<Output>, Error>)
    requires
        assets_in_place(content@),
    ensures
        match build_spec(content@, site_url@, has_pdf) {
            Ok(outs) => r matches Ok(v) && output_views(v@) == outs,
            Err(e) => r matches Err(x) && x@ == e,
        },
{
    if !site_url_ok_exec(site_url) {
        return Err(Error::InvalidWorkspace(String::from_str("--site-url must be a simple https URL ending in /")));
    }
    let ghost c = content@;
    let ghost ps = published(c.posts);
    let posts = &content.posts;
    let pub_idx = published_indices(posts);
    let mut out: Vec<Output> = Vec::new();
    out.push(home_output(content, &pub_idx));
    out.push(Output::Write { path: String::from_str("search.js"), text: String::from_str(SEARCH_JS) });
    out.push(Output::SearchIndex { path: String::from_str("search-index.json"), entries: search_entries(posts, &pub_idx) });
    let ghost first = output_views(out@);
    assert(first =~= seq![
        home_page(c.summary, ps),
        write_of("search.js"@, SEARCH_JS@),
        OutputView::SearchIndex {
            path: "search-index.json"@,
            entries: ps.map_values(|p: PostSpec| search_entry(p)),
        },
    ]);
    push_resume_outputs(&mut out, &content.resume, has_pdf);
    assert(forall|k: int| 0 <= k < pub_idx@.len() ==> assets_under_post(#[trigger] select(post_views(posts@), pub_idx@)[k])) by {
        reveal(assets_in_place);
    }
    push_posts_outputs(&mut out, posts, &pub_idx);
    push_tag_outputs(&mut out, posts, &pub_idx);
    let years = years_of(posts, &pub_idx);
    push_archive_outputs(&mut out, posts, &pub_idx, &years);
    let base = site_base_exec(site_url);
    let feed = feed_exec(posts, &pub_idx, &base);
    out.push(Output::Write { path: String::from_str("feed.xml"), text: feed });
    let tags = tags_of(posts, &pub_idx);
    let sitemap = sitemap_exec(posts, &pub_idx, &base, &tags, &years);
    out.push(Output::Write { path: String::from_str("sitemap.xml"), text: sitemap });
    assert(output_views(out@) =~= site_outputs(c, site_url@, has_pdf));
    Ok(out)
}

// ---------------------------------------------------------------------------
// What every build keeps
// ---------------------------------------------------------------------------

pub proof fn lemma_flat_map_member<A, B>(s: Seq<A>, f: spec_fn(A) -> Seq<B>, k: int)
    requires
        0 <= k < flat_map(s, f).len(),
    ensures
        exists|i: int, j: int| 0 <= i < s.len() && 0 <= j < f(s[i]).len() && flat_map(s, f)[k] == #[trigger] f(s[i])[j],
    decreases s.len(),
{
    let rest = s.drop_last();
    let a = flat_map(rest, f);
    if k < a.len() {
        lemma_flat_map_member(rest, f, k);
        let (i, j) = choose|i: int, j: int| 0 <= i < rest.len() && 0 <= j < f(rest[i]).len() && a[k] == #[trigger] f(rest[i])[j];
        assert(s[i] == rest[i]);
        assert(flat_map(s, f)[k] == f(s[i])[j]);
    } else {
        let i = s.len() - 1;
        assert(flat_map(s, f)[k] == f(s[i])[k - a.len()]);
    }
}

pub proof fn lemma_flat_map_includes<A, B>(s: Seq<A>, f: spec_fn(A) -> Seq<B>, i: int, j: int)
    requires
        0 <= i < s.len(),
        0 <= j < f(s[i]).len(),
    ensures
        flat_map(s, f).contains(f(s[i])[j]),
    decreases s.len(),
{
    let rest = s.drop_last();
    let a = flat_map(rest, f);
    if i < s.len() - 1 {
        assert(rest[i] == s[i]);
        lemma_flat_map_includes(rest, f, i, j);
        let k = choose|k: int| 0 <= k < a.len() && a[k] == f(s[i])[j];
        assert(flat_map(s, f)[k] == f(s[i])[j]);
    } else {
        assert(flat_map(s, f)[a.len() + j] == f(s[i])[j]);
    }
}

/// No output of `outs` lands under the directory of the post `slug`.
pub open spec fn nothing_under(outs: Seq<OutputView>, slug: Seq<char>) -> bool {
    forall|k: int| 0 <= k < outs.len() ==> !starts_with(target(#[trigger] outs[k]), post_dir(slug))
}

proof fn lemma_nothing_under_concat(a: Seq<OutputView>, b: Seq<OutputView>, slug: Seq<char>)
    requires
        nothing_under(a, slug),
        nothing_under(b, slug),
    ensures
        nothing_under(a + b, slug),
{
    assert forall|k: int| 0 <= k < (a + b).len() implies !starts_with(target(#[trigger] (a + b)[k]), post_dir(slug)) by {
        if k < a.len() {
            assert((a + b)[k] == a[k]);
        } else {
            assert((a + b)[k] == b[k - a.len()]);
        }
    }
}

/// A path that does not start with `p` is under no post directory.
proof fn lemma_not_posts(t: Seq<char>, slug: Seq<char>)
    requires
        t.len() > 0,
        t[0] != 'p',
    ensures
        !starts_with(t, post_dir(slug)),
{
    reveal_strlit("posts/");
    if starts_with(t, post_dir(slug)) {
        assert(post_dir(slug)[0] == 'p');
        assert(t.take(post_dir(slug).len() as int)[0] == t[0]);
    }
}

/// Two post directories nest only where their slugs are the same.
proof fn lemma_post_dirs_apart(q: Seq<char>, rest: Seq<char>, slug: Seq<char>)
    requires
        !q.contains('/'),
        !slug.contains('/'),
        starts_with(post_dir(q) + rest, post_dir(slug)),
    ensures
        q == slug,
{
    reveal_strlit("posts/");
    reveal_strlit("/");
    let t = post_dir(q) + rest;
    let p = post_dir(slug);
    assert(t.take(p.len() as int) == p);
    if slug.len() < q.len() {
        let m = 6 + slug.len() as int;
        assert(t[m] == q[slug.len() as int]);
        assert(p[m] == '/');
        assert(t.take(p.len() as int)[m] == t[m]);
        assert(q.contains(q[slug.len() as int]));
    } else if slug.len() > q.len() {
        let m = 6 + q.len() as int;
        assert(t[m] == '/');
        assert(p[m] == slug[q.len() as int]);
        assert(t.take(p.len() as int)[m] == t[m]);
        assert(slug.contains(slug[q.len() as int]));
    } else {
        assert forall|i: int| 0 <= i < q.len() implies q[i] == slug[i] by {
            assert(t[6 + i] == q[i]);
            assert(p[6 + i] == slug[i]);
            assert(t.take(p.len() as int)[6 + i] == t[6 + i]);
        }
        assert(q =~= slug);
    }
}

proof fn lemma_post_outputs_apart(p: PostSpec, slug: Seq<char>)
    requires
        !p.meta.slug.contains('/'),
        !slug.contains('/'),
        p.meta.slug != slug,
    ensures
        nothing_under(post_outputs(p), slug),
{
    let outs = post_outputs(p);
    let dir = post_dir(p.meta.slug);
    let g = |a: Seq<char>| copy_of(a, dir + asset_relative(p.source, a));
    assert forall|k: int| 0 <= k < outs.len() implies !starts_with(target(#[trigger] outs[k]), post_dir(slug)) by {
        let rest = if k == 0 {
            "index.html"@
        } else if k == 1 {
            "index.rst"@
        } else if k == 2 {
            "index.txt"@
        } else {
            asset_relative(p.source, p.assets[k - 3])
        };
        if k >= 3 {
            assert(outs[k] == p.assets.map_values(g)[k - 3]);
        }
        assert(target(outs[k]) == post_dir(p.meta.slug) + rest);
        if starts_with(target(outs[k]), post_dir(slug)) {
            lemma_post_dirs_apart(p.meta.slug, rest, slug);
        }
    }
}

proof fn lemma_posts_outputs_apart(ps: Seq<PostSpec>, slug: Seq<char>)
    requires
        !slug.contains('/'),
        forall|i: int| 0 <= i < ps.len() ==> !(#[trigger] ps[i]).meta.slug.contains('/') && ps[i].meta.slug != slug,
    ensures
        nothing_under(flat_map(ps, |p: PostSpec| post_outputs(p)), slug),
{
    let f = |p: PostSpec| post_outputs(p);
    let outs = flat_map(ps, f);
    assert forall|k: int| 0 <= k < outs.len() implies !starts_with(target(#[trigger] outs[k]), post_dir(slug)) by {
        lemma_flat_map_member(ps, f, k);
        let (i, j) = choose|i: int, j: int| 0 <= i < ps.len() && 0 <= j < f(ps[i]).len() && outs[k] == #[trigger] f(ps[i])[j];
        lemma_post_outputs_apart(ps[i], slug);
    }
}

proof fn lemma_fixed_outputs_apart(c: ContentSpec, url: Seq<char>, has_pdf: bool, slug: Seq<char>)
    ensures
        nothing_under(seq![
            home_page(c.summary, published(c.posts)),
            write_of("search.js"@, SEARCH_JS@),
            OutputView::SearchIndex {
                path: "search-index.json"@,
                entries: published(c.posts).map_values(|p: PostSpec| search_entry(p)),
            },
        ], slug),
        nothing_under(resume_outputs(c.resume, has_pdf), slug),
        nothing_under(seq![
            write_of("feed.xml"@, feed_text(published(c.posts), site_base(url))),
            write_of("sitemap.xml"@, sitemap_text(published(c.posts), site_base(url))),
        ], slug),
{
    reveal_strlit("index.html");
    reveal_strlit("search.js");
    reveal_strlit("search-index.json");
    reveal_strlit("resume/index.html");
    reveal_strlit("resume/resume.rst");
    reveal_strlit("resume/resume.txt");
    reveal_strlit("resume.pdf");
    reveal_strlit("feed.xml");
    reveal_strlit("sitemap.xml");
    lemma_not_posts("index.html"@, slug);
    lemma_not_posts("search.js"@, slug);
    lemma_not_posts("search-index.json"@, slug);
    lemma_not_posts("resume/index.html"@, slug);
    lemma_not_posts("resume/resume.rst"@, slug);
    lemma_not_posts("resume/resume.txt"@, slug);
    lemma_not_posts("resume.pdf"@, slug);
    lemma_not_posts("feed.xml"@, slug);
    lemma_not_posts("sitemap.xml"@, slug);
}

proof fn lemma_tag_outputs_apart(ps: Seq<PostSpec>, slug: Seq<char>)
    ensures
        nothing_under(tag_outputs(ps), slug),
{
    reveal_strlit("tags/");
    reveal_strlit("tags/index.html");
    let outs = tag_outputs(ps);
    let ts = tags_in_use(ps);
    assert forall|k: int| 0 <= k < outs.len() implies !starts_with(target(#[trigger] outs[k]), post_dir(slug)) by {
        if k < ts.len() {
            assert(outs[k] == tag_page(ps, ts[k]));
            let t = target(outs[k]);
            assert(t == "tags/"@ + ts[k] + "/index.html"@);
            assert(t[0] == 't');
            lemma_not_posts(t, slug);
        } else {
            lemma_not_posts("tags/index.html"@, slug);
        }
    }
}

proof fn lemma_archive_outputs_apart(ps: Seq<PostSpec>, slug: Seq<char>)
    ensures
        nothing_under(archive_outputs(ps), slug),
{
    reveal_strlit("archive/");
    reveal_strlit("archive/index.html");
    let g = |y: i32| year_outputs(ps, y);
    let ys = years_in_use(ps);
    let outs = archive_outputs(ps);
    let body = flat_map(ys, g);
    assert forall|k: int| 0 <= k < outs.len() implies !starts_with(target(#[trigger] outs[k]), post_dir(slug)) by {
        if k < body.len() {
            lemma_flat_map_member(ys, g, k);
            let (i, j) = choose|i: int, j: int| 0 <= i < ys.len() && 0 <= j < g(ys[i]).len() && body[k] == #[trigger] g(ys[i])[j];
            let y = ys[i];
            let ms = months_in_use(ps, y);
            let t = target(outs[k]);
            assert(outs[k] == body[k]);
            if j < ms.len() {
                assert(g(y)[j] == month_page(ps, y, ms[j]));
                assert(t == "archive/"@ + (year_text(y) + "/"@ + month_text(ms[j])) + "/index.html"@);
            } else {
                assert(g(y)[j] == year_page(ps, y));
                assert(t == "archive/"@ + year_text(y) + "/index.html"@);
            }
            assert(t[0] == 'a');
            lemma_not_posts(t, slug);
        } else {
            assert(outs[k] == archive_index(ps));
            lemma_not_posts("archive/index.html"@, slug);
        }
    }
}

/// A slug that no published post has gets no file in the built site: no
/// page, no source and no image lands under `posts/<slug>/`. So a draft,
/// whose slug no other post shares, never appears as a file of the site.
pub proof fn unpublished_slugs_get_no_files(c: ContentSpec, url: Seq<char>, has_pdf: bool, slug: Seq<char>)
    requires
        !slug.contains('/'),
        forall|i: int| 0 <= i < published(c.posts).len() ==> !(#[trigger] published(c.posts)[i]).meta.slug.contains('/')
            && published(c.posts)[i].meta.slug != slug,
    ensures
        nothing_under(site_outputs(c, url, has_pdf), slug),
{
    let ps = published(c.posts);
    lemma_fixed_outputs_apart(c, url, has_pdf, slug);
    lemma_posts_outputs_apart(ps, slug);
    lemma_tag_outputs_apart(ps, slug);
    lemma_archive_outputs_apart(ps, slug);
    let a = seq![
        home_page(c.summary, ps),
        write_of("search.js"@, SEARCH_JS@),
        OutputView::SearchIndex { path: "search-index.json"@, entries: ps.map_values(|p: PostSpec| search_entry(p)) },
    ];
    let b = resume_outputs(c.resume, has_pdf);
    let d = flat_map(ps, |p: PostSpec| post_outputs(p));
    let e = tag_outputs(ps);
    let f = archive_outputs(ps);
    let g = seq![
        write_of("feed.xml"@, feed_text(ps, site_base(url))),
        write_of("sitemap.xml"@, sitemap_text(ps, site_base(url))),
    ];
    lemma_nothing_under_concat(a, b, slug);
    lemma_nothing_under_concat(a + b, d, slug);
    lemma_nothing_under_concat(a + b + d, e, slug);
    lemma_nothing_under_concat(a + b + d + e, f, slug);
    lemma_nothing_under_concat(a + b + d + e + f, g, slug);
    assert(site_outputs(c, url, has_pdf) == a + b + d + e + f + g);
}

/// Every published post gets its page, its source as `.rst` and as
/// `.txt`, and a copy of each file it shows, under `posts/<slug>/`.
pub proof fn published_posts_get_their_files(c: ContentSpec, url: Seq<char>, has_pdf: bool, i: int)
    requires
        0 <= i < published(c.posts).len(),
    ensures
        ({
            let p = published(c.posts)[i];
            let dir = post_dir(p.meta.slug);
            let outs = site_outputs(c, url, has_pdf);
            &&& outs.contains(write_of(dir + "index.html"@, shell_spec(p.document.title, p.meta.lang, 2, post_body(p))))
            &&& outs.contains(copy_of(p.source, dir + "index.rst"@))
            &&& outs.contains(copy_of(p.source, dir + "index.txt"@))
            &&& forall|j: int| 0 <= j < p.assets.len() ==> outs.contains(copy_of(#[trigger] p.assets[j], dir + asset_relative(p.source, p.assets[j])))
        }),
{
    let ps = published(c.posts);
    let p = ps[i];
    let f = |q: PostSpec| post_outputs(q);
    let a = seq![
        home_page(c.summary, ps),
        write_of("search.js"@, SEARCH_JS@),
        OutputView::SearchIndex { path: "search-index.json"@, entries: ps.map_values(|q: PostSpec| search_entry(q)) },
    ];
    let b = resume_outputs(c.resume, has_pdf);
    let d = flat_map(ps, f);
    let rest = tag_outputs(ps) + archive_outputs(ps) + seq![
        write_of("feed.xml"@, feed_text(ps, site_base(url))),
        write_of("sitemap.xml"@, sitemap_text(ps, site_base(url))),
    ];
    let outs = site_outputs(c, url, has_pdf);
    assert(outs =~= a + b + d + rest);
    assert forall|j: int| 0 <= j < f(p).len() implies outs.contains(#[trigger] f(p)[j]) by {
        lemma_flat_map_includes(ps, f, i, j);
        let k = choose|k: int| 0 <= k < d.len() && d[k] == f(p)[j];
        assert(outs[a.len() + b.len() + k] == d[k]);
    }
    let dir = post_dir(p.meta.slug);
    let g = |x: Seq<char>| copy_of(x, dir + asset_relative(p.source, x));
    assert(f(p)[0] == write_of(dir + "index.html"@, shell_spec(p.document.title, p.meta.lang, 2, post_body(p))));
    assert(f(p)[1] == copy_of(p.source, dir + "index.rst"@));
    assert(f(p)[2] == copy_of(p.source, dir + "index.txt"@));
    assert forall|j: int| 0 <= j < p.assets.len() implies outs.contains(copy_of(#[trigger] p.assets[j], dir + asset_relative(p.source, p.assets[j]))) by {
        assert(f(p)[3 + j] == p.assets.map_values(g)[j]);
    }
}

} // verus!
