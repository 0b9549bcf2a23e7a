use bwww::content::{
    date_text, parse_metadata, prepare_post, safe_relative, sort_posts, Date, Post, PostMeta,
};
use bwww::error::Error;
use bwww::rst::ast::Document;

fn meta_error(source: &str) -> (usize, String) {
    match parse_metadata("post.rst", source) {
        Err(Error::Source { path, line, message }) => {
            assert_eq!(path, "post.rst");
            (line, message)
        }
        other => panic!("expected a source error, got {:?}", other),
    }
}

#[test]
fn dates_print_as_year_month_day() {
    assert_eq!(date_text(Date { year: 2026, month: 9, day: 23 }), "2026-09-23");
    assert_eq!(date_text(Date { year: 5, month: 1, day: 2 }), "0005-01-02");
    assert_eq!(date_text(Date { year: -44, month: 3, day: 15 }), "-0044-03-15");
}

#[test]
fn reads_post_metadata_and_strips_the_fields() {
    let source = "First\n=====\n\n:date: 2026-09-23\n:slug: first\n:tags: rust, web\n:draft: false\n\nBody text.\n";
    let (clean, meta) = parse_metadata("post.rst", source).unwrap();
    assert_eq!(clean, "First\n=====\n\n\nBody text.");
    assert_eq!(meta.date, Date { year: 2026, month: 9, day: 23 });
    assert_eq!(meta.slug, "first");
    assert_eq!(meta.tags, vec!["rust".to_string(), "web".to_string()]);
    assert_eq!(meta.lang, "en");
    assert!(!meta.draft);
}

#[test]
fn empty_tags_and_explicit_language() {
    let source = "T\n=\n:date: 2024-02-29\n:slug: leap\n:tags:\n:lang: zh-CN\n:draft: true\n";
    let (_, meta) = parse_metadata("post.rst", source).unwrap();
    assert!(meta.tags.is_empty());
    assert_eq!(meta.lang, "zh-CN");
    assert!(meta.draft);
}

#[test]
fn reports_each_metadata_error() {
    assert_eq!(meta_error("Only a title"), (1, "post needs a title".to_string()));
    assert_eq!(
        meta_error("T\n=\n\n:date 2026-01-01\n"),
        (4, "invalid metadata field".to_string())
    );
    assert_eq!(
        meta_error("T\n=\n\n:author: me\n"),
        (4, "unknown metadata field: author".to_string())
    );
    assert_eq!(
        meta_error("T\n=\n\n:slug: a\n:slug: b\n"),
        (5, "duplicate metadata field: slug".to_string())
    );
    assert_eq!(meta_error("T\n=\n\n:slug: a\n"), (1, "missing :date:".to_string()));
    assert_eq!(
        meta_error("T\n=\n\n:date: 2026-02-30\n:slug: a\n:tags:\n"),
        (1, "invalid :date:; expected YYYY-MM-DD".to_string())
    );
    assert_eq!(
        meta_error("T\n=\n\n:date: 2026-02-03\n:slug: A\n:tags:\n"),
        (1, "invalid :slug:".to_string())
    );
    assert_eq!(
        meta_error("T\n=\n\n:date: 2026-02-03\n:slug: a\n"),
        (1, "missing :tags:".to_string())
    );
    assert_eq!(
        meta_error("T\n=\n\n:date: 2026-02-03\n:slug: a\n:tags: ok, Bad\n"),
        (1, "invalid or empty tag: \"Bad\"".to_string())
    );
    assert_eq!(
        meta_error("T\n=\n\n:date: 2026-02-03\n:slug: a\n:tags: x, x\n"),
        (1, "duplicate tag".to_string())
    );
    assert_eq!(
        meta_error("T\n=\n\n:date: 2026-02-03\n:slug: a\n:tags:\n:lang: e n\n"),
        (1, "invalid :lang:".to_string())
    );
    assert_eq!(
        meta_error("T\n=\n\n:date: 2026-02-03\n:slug: a\n:tags:\n:draft: yes\n"),
        (1, ":draft: must be true or false".to_string())
    );
}

#[test]
fn safe_relative_paths_are_plain_names() {
    assert!(safe_relative("diagram.svg"));
    assert!(safe_relative("img/a.png"));
    assert!(safe_relative("img//a.png"));
    assert!(!safe_relative(""));
    assert!(!safe_relative("/etc/passwd"));
    assert!(!safe_relative("../secret"));
    assert!(!safe_relative("img/../../x"));
    assert!(!safe_relative("./a.png"));
    assert!(!safe_relative("a\\b"));
}

#[test]
fn prepares_a_post_and_refuses_a_known_slug() {
    let raw = "First\n=====\n\n:date: 2026-09-23\n:slug: first\n:tags: rust\n\n.. image:: diagram.svg\n   :alt: A diagram\n\n.. image:: ../up.png\n   :alt: Up\n\n.. image:: https://example.com/x.png\n   :alt: Remote\n";
    let prepared = prepare_post("p/index.rst", raw, &vec![]).unwrap();
    assert_eq!(prepared.meta.slug, "first");
    assert_eq!(prepared.document.title, "First");
    assert_eq!(
        prepared.images,
        vec![("diagram.svg".to_string(), true), ("../up.png".to_string(), false)]
    );
    match prepare_post("q/index.rst", raw, &vec!["first".to_string()]) {
        Err(Error::Source { path, line, message }) => {
            assert_eq!((path.as_str(), line, message.as_str()), ("q/index.rst", 1, "duplicate slug: first"));
        }
        other => panic!("expected a duplicate slug, got {:?}", other.map(|p| p.meta.slug)),
    }
}

fn post(slug: &str, year: i32, month: u8, day: u8) -> Post {
    Post {
        source: format!("content/posts/{slug}/index.rst"),
        document: Document { title: slug.to_string(), blocks: vec![] },
        meta: PostMeta {
            date: Date { year, month, day },
            slug: slug.to_string(),
            tags: vec![],
            lang: "en".to_string(),
            draft: false,
        },
        assets: vec![],
    }
}

#[test]
fn sorts_posts_newest_first_then_by_slug() {
    let sorted = sort_posts(vec![
        post("b", 2025, 1, 1),
        post("c", 2026, 3, 1),
        post("a", 2025, 1, 1),
        post("d", 2026, 2, 28),
    ]);
    let slugs: Vec<&str> = sorted.iter().map(|p| p.meta.slug.as_str()).collect();
    assert_eq!(slugs, vec!["c", "d", "a", "b"]);
}

fn read_date(text: &str) -> Option<Date> {
    let source = format!("T\n=\n\n:date: {text}\n:slug: a\n:tags:\n");
    match parse_metadata("post.rst", &source) {
        Ok((_, meta)) => Some(meta.date),
        Err(Error::Source { message, .. }) => {
            assert_eq!(message, "invalid :date:; expected YYYY-MM-DD");
            None
        }
        Err(other) => panic!("unexpected error {:?}", other),
    }
}

#[test]
fn dates_read_as_sign_four_digit_year_month_and_day() {
    assert_eq!(read_date("2024-02-29"), Some(Date { year: 2024, month: 2, day: 29 }));
    assert_eq!(read_date("+2026-09-23"), Some(Date { year: 2026, month: 9, day: 23 }));
    assert_eq!(read_date("-0044-03-15"), Some(Date { year: -44, month: 3, day: 15 }));
    assert_eq!(read_date("0000-01-01"), Some(Date { year: 0, month: 1, day: 1 }));
    assert_eq!(read_date("-0000-12-31"), Some(Date { year: 0, month: 12, day: 31 }));
    for bad in [
        "2023-02-29", "2026-13-01", "2026-00-10", "2026-01-00", "2026-9-23", "26-09-23",
        "20260-09-23", "2026/09/23", "2026-09-23x", "++2026-09-23", "２０２６-09-23",
    ] {
        assert_eq!(read_date(bad), None, "{bad}");
    }
}

#[test]
fn printed_dates_read_back() {
    for date in [
        Date { year: 2026, month: 9, day: 23 },
        Date { year: 7, month: 1, day: 2 },
        Date { year: -9999, month: 12, day: 31 },
        Date { year: 9999, month: 2, day: 28 },
    ] {
        assert_eq!(read_date(&date_text(date)), Some(date));
    }
}
