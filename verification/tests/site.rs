use bwww::content::{Date, Post, PostMeta, SiteContent};
use bwww::error::Error;
use bwww::rst::ast::{Block, Document};
use bwww::site::plan::{plan_build, replace_all_exec, Output};
use bwww::site::render::{rows, shell, site_url_ok_exec};

fn post(slug: &str, title: &str, date: (i32, u8, u8), tags: &[&str], draft: bool) -> Post {
    Post {
        source: format!("content/posts/{}-{slug}/index.rst", date.0),
        document: Document {
            title: title.to_string(),
            blocks: vec![Block::Paragraph("Some **real** text.".to_string())],
        },
        meta: PostMeta {
            date: Date { year: date.0, month: date.1, day: date.2 },
            slug: slug.to_string(),
            tags: tags.iter().map(|t| t.to_string()).collect(),
            lang: "en".to_string(),
            draft,
        },
        assets: vec![],
    }
}

fn content(posts: Vec<Post>) -> SiteContent {
    SiteContent {
        summary: Document {
            title: "Bochen Shen".to_string(),
            blocks: vec![Block::Paragraph("Hello & welcome.".to_string())],
        },
        resume: Document {
            title: "Resume".to_string(),
            blocks: vec![
                Block::Fields(vec![
                    ("email".to_string(), "me@example.com".to_string()),
                    ("site".to_string(), "*mine*".to_string()),
                ]),
                Block::Paragraph("Worked.".to_string()),
            ],
        },
        posts,
    }
}

fn target(output: &Output) -> &str {
    match output {
        Output::Write { path, .. } => path,
        Output::Copy { to, .. } => to,
        Output::SearchIndex { path, .. } => path,
    }
}

fn text_of<'a>(outputs: &'a [Output], path: &str) -> &'a str {
    for output in outputs {
        if let Output::Write { path: p, text } = output {
            if p == path {
                return text;
            }
        }
    }
    panic!("no page {path}")
}

fn sample() -> SiteContent {
    let mut first = post("first", "First <post>", (2026, 9, 23), &["rust", "web"], false);
    first.assets = vec!["content/posts/2026-first/diagram.svg".to_string(), "content/posts/2026-first/img/b.png".to_string()];
    let draft = post("draft", "Draft", (2026, 9, 24), &["rust"], true);
    let older = post("older", "Older", (2025, 1, 5), &["web"], false);
    content(vec![draft, first, older])
}

#[test]
fn refuses_a_site_url_that_is_not_simple_https() {
    for url in ["http://example.com/", "https://example.com", "https://exa mple.com/", "https://ex?a/"] {
        match plan_build(&sample(), url, false) {
            Err(Error::InvalidWorkspace(message)) => {
                assert_eq!(message, "--site-url must be a simple https URL ending in /")
            }
            other => panic!("expected a refusal for {url}, got {}", other.is_ok()),
        }
    }
    assert!(site_url_ok_exec("https://6ixgodd.github.io/"));
    assert!(!site_url_ok_exec("https://6ixgodd.github.io/?x"));
}

#[test]
fn plans_published_pages_and_hides_drafts() {
    let outputs = plan_build(&sample(), "https://6ixgodd.github.io/", false).unwrap();
    let targets: Vec<&str> = outputs.iter().map(target).collect();
    assert_eq!(&targets[..3], &["index.html", "search.js", "search-index.json"]);
    assert!(targets.iter().all(|t| !t.starts_with("posts/draft/")));
    for expected in [
        "posts/first/index.html",
        "posts/first/index.rst",
        "posts/first/index.txt",
        "posts/first/diagram.svg",
        "posts/first/img/b.png",
        "posts/older/index.html",
        "tags/rust/index.html",
        "tags/web/index.html",
        "tags/index.html",
        "archive/2026/09/index.html",
        "archive/2026/index.html",
        "archive/2025/01/index.html",
        "archive/2025/index.html",
        "archive/index.html",
        "resume/index.html",
        "resume/resume.rst",
        "resume/resume.txt",
        "feed.xml",
        "sitemap.xml",
    ] {
        assert!(targets.contains(&expected), "missing {expected}");
    }
    assert!(!targets.contains(&"resume.pdf"));
    let home = text_of(&outputs, "index.html");
    assert!(home.contains("posts/first/"));
    assert!(home.contains("href=\"archive/\""));
    assert!(!home.contains("posts/draft/"));
    assert!(home.contains("Hello &amp; welcome."));
    let page = text_of(&outputs, "posts/first/index.html");
    assert!(page.contains("<h1>First &lt;post&gt;</h1>"));
    assert!(page.contains("href=\"../../archive/\""));
    assert!(page.contains("<strong>real</strong>"));
    assert!(page.contains("href=\"index.txt\">raw</a>"));
    assert!(page.contains("2026-09-23 · <a href=\"../../tags/rust/\">rust</a> · <a href=\"../../tags/web/\">web</a>"));
    let tag = text_of(&outputs, "tags/rust/index.html");
    assert!(tag.contains("posts/first/"));
    assert!(!tag.contains("posts/draft/"));
    let tags = text_of(&outputs, "tags/index.html");
    assert!(tags.contains("<a href=\"rust/\">rust/</a>  1\n<a href=\"web/\">web/</a>  2\n"));
    let archive = text_of(&outputs, "archive/index.html");
    assert!(archive.contains("<a href=\"2026/\">2026/</a>  1\n<a href=\"2025/\">2025/</a>  1\n"));
    let feed = text_of(&outputs, "feed.xml");
    assert!(feed.contains("<id>https://6ixgodd.github.io/posts/first/</id>"));
    assert!(feed.contains("<updated>2026-09-23T00:00:00Z</updated>"));
    assert!(!feed.contains("draft"));
    let resume = text_of(&outputs, "resume/index.html");
    assert!(resume.contains("href=\"resume.txt\">raw</a></p>"));
    assert!(resume.contains("<p>me@example.com<br><em>mine</em></p>"));
    match &outputs[2] {
        Output::SearchIndex { entries, .. } => {
            let urls: Vec<&str> = entries.iter().map(|e| e.url.as_str()).collect();
            assert_eq!(urls, vec!["posts/first/", "posts/older/"]);
            assert_eq!(entries[0].title, "First <post>");
            assert_eq!(entries[0].date, "2026-09-23");
            assert_eq!(entries[0].tags, vec!["rust".to_string(), "web".to_string()]);
        }
        _ => panic!("expected the search index third"),
    }
    let copy = outputs.iter().find(|o| target(o) == "posts/first/diagram.svg").unwrap();
    match copy {
        Output::Copy { from, .. } => assert_eq!(from, "content/posts/2026-first/diagram.svg"),
        _ => panic!("expected a copy"),
    }
}

#[test]
fn the_sitemap_lists_every_page_in_order() {
    let outputs = plan_build(&sample(), "https://s.io//", true).unwrap();
    let base = "https://s.io";
    let expected = format!(
        "<?xml version=\"1.0\" encoding=\"utf-8\"?><urlset xmlns=\"http://www.sitemaps.org/schemas/sitemap/0.9\">\
<url><loc>{base}/</loc></url><url><loc>{base}/resume/</loc></url><url><loc>{base}/tags/</loc></url><url><loc>{base}/archive/</loc></url>\
<url><loc>{base}/tags/rust/</loc></url><url><loc>{base}/tags/web/</loc></url>\
<url><loc>{base}/archive/2025/</loc></url><url><loc>{base}/archive/2026/</loc></url>\
<url><loc>{base}/archive/2025/01/</loc></url><url><loc>{base}/archive/2026/09/</loc></url>\
<url><loc>{base}/posts/first/</loc></url><url><loc>{base}/posts/older/</loc></url></urlset>\n"
    );
    assert_eq!(text_of(&outputs, "sitemap.xml"), expected);
    let targets: Vec<&str> = outputs.iter().map(target).collect();
    assert!(targets.contains(&"resume.pdf"));
    assert!(text_of(&outputs, "resume/index.html").contains(" · <a href=\"../resume.pdf\">pdf</a>"));
}

#[test]
fn builds_before_any_post_is_published() {
    let only_draft = content(vec![post("draft", "Draft", (2026, 1, 1), &[], true)]);
    let outputs = plan_build(&only_draft, "https://6ixgodd.github.io/", false).unwrap();
    let home = text_of(&outputs, "index.html");
    assert!(home.contains("<pre id=\"latest\">Index of /\n\n(no published posts)\n\nolder:"));
    assert!(text_of(&outputs, "feed.xml").contains("<updated>1970-01-01T00:00:00Z</updated>"));
    let targets: Vec<&str> = outputs.iter().map(target).collect();
    assert!(targets.iter().all(|t| !t.starts_with("posts/")));
    assert_eq!(text_of(&outputs, "tags/index.html").matches("<pre></pre>").count(), 1);
}

#[test]
fn replace_all_replaces_every_occurrence_from_the_left() {
    assert_eq!(replace_all_exec("aaa", "aa", "b"), "ba");
    assert_eq!(replace_all_exec("xyxy", "y", "--"), "x--x--");
    assert_eq!(replace_all_exec("none", "z", "q"), "none");
}

#[test]
fn listing_rows_and_page_shell() {
    let site = sample();
    let listing = rows(&site.posts, &vec![1, 2], "../");
    assert_eq!(
        listing,
        "2026-09-23  <a href=\"../tags/rust/\">rust</a>  <a href=\"../posts/first/\">First &lt;post&gt;</a>\n\
2025-01-05  <a href=\"../tags/web/\">web</a>  <a href=\"../posts/older/\">Older</a>\n"
    );
    let page = shell("A & B", "en", 2, "<p>x</p>");
    assert!(page.starts_with("<!doctype html>\n<html lang=\"en\"><head>"));
    assert!(page.contains("<title>A &amp; B</title>"));
    assert!(page.contains("<a href=\"../../tags/\">tags</a>"));
    assert!(page.ends_with("<p>x</p>\n</body></html>\n"));
}
