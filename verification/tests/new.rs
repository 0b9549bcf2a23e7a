use bwww::commands::new::{derive_slug, plan_new_post, plan_new_post_today, validate_slug};
use bwww::content::{date_text, parse_metadata, Date};
use bwww::rst::parser::parse;
use bwww::error::Error;

#[test]
fn derives_ascii_slug() {
    assert_eq!(
        derive_slug("Why I inject HTTP clients").unwrap(),
        "why-i-inject-http-clients"
    );
}

#[test]
fn derived_slugs_collapse_separators_and_drop_edges() {
    assert_eq!(derive_slug("  Hello,  World -- again_ ").unwrap(), "hello-world-again");
    assert_eq!(derive_slug("Rust 2024 édition").unwrap(), "rust-2024-dition");
}

#[test]
fn a_title_without_ascii_letters_has_no_slug() {
    match derive_slug("日本語") {
        Err(Error::InvalidSlug(message)) => assert_eq!(
            message,
            "could not derive an ASCII slug; pass --slug explicitly"
        ),
        other => panic!("expected an invalid slug, got {:?}", other),
    }
}

#[test]
fn validates_requested_slugs() {
    assert_eq!(validate_slug("first-post-2").unwrap(), "first-post-2");
    for bad in ["", "-a", "a-", "a--b", "Upper", "a_b", "ü"] {
        match validate_slug(bad) {
            Err(Error::InvalidSlug(message)) => assert_eq!(
                message,
                format!("{bad:?}; expected lowercase ASCII letters, digits, and single-purpose '-' separators")
            ),
            other => panic!("expected an invalid slug for {bad:?}, got {:?}", other),
        }
    }
}

#[test]
fn plans_a_draft_post_for_a_date() {
    let date = Date { year: 2026, month: 9, day: 3 };
    let post = plan_new_post("Hello", None, date).unwrap();
    assert_eq!(post.directory, "content/posts/2026-09-03-hello");
    assert_eq!(post.source, "content/posts/2026-09-03-hello/index.rst");
    assert_eq!(
        post.body,
        "Hello\n=====\n\n:date: 2026-09-03\n:slug: hello\n:tags:\n:lang: en\n:draft: true\n\n"
    );
    let post = plan_new_post("Ünïcode", Some("custom"), date).unwrap();
    assert_eq!(post.directory, "content/posts/2026-09-03-custom");
    assert!(post.body.starts_with("Ünïcode\n=======\n\n"));
}

#[test]
fn refuses_titles_that_are_not_one_line() {
    for title in ["", "   ", "two\nlines", "carriage\rreturn"] {
        match plan_new_post(title, None, Date { year: 2026, month: 1, day: 1 }) {
            Err(Error::InvalidWorkspace(message)) => {
                assert_eq!(message, "post title must be one nonempty line")
            }
            other => panic!("expected an invalid title for {title:?}, got {:?}", other),
        }
    }
    assert!(matches!(
        plan_new_post("Fine", Some("Bad Slug"), Date { year: 2026, month: 1, day: 1 }),
        Err(Error::InvalidSlug(_))
    ));
}

#[test]
fn a_new_post_reads_back_as_a_draft() {
    let date = Date { year: 2026, month: 9, day: 23 };
    let post = plan_new_post("Why I inject HTTP clients", None, date).unwrap();
    let (clean, meta) = parse_metadata(&post.source, &post.body).unwrap();
    assert_eq!(clean, "Why I inject HTTP clients\n=========================\n\n");
    assert_eq!(meta.date, date);
    assert_eq!(meta.slug, "why-i-inject-http-clients");
    assert!(meta.tags.is_empty());
    assert_eq!(meta.lang, "en");
    assert!(meta.draft);
    let document = parse(&post.source, &clean).unwrap();
    assert_eq!(document.title, "Why I inject HTTP clients");
    assert!(document.blocks.is_empty());
}

#[test]
fn todays_post_is_dated_today() {
    let post = plan_new_post_today("Today", Some("today")).unwrap();
    assert!(post.directory.ends_with(&format!("{}-today", date_text(post.date))));
    assert!(plan_new_post_today("", None).is_err());
}

#[test]
fn a_two_character_title_gets_an_underline_too_short_to_read_back() {
    let post = plan_new_post("Hi", None, Date { year: 2026, month: 9, day: 23 }).unwrap();
    let (clean, _) = parse_metadata(&post.source, &post.body).unwrap();
    assert_eq!(clean, "Hi\n==\n\n");
    assert!(parse(&post.source, &clean).is_err());
}

#[test]
fn derived_slugs_derive_to_themselves() {
    for title in ["Why I inject HTTP clients", "a-b_c d", "  --X__y--  ", "Rust, 2024!"] {
        let slug = derive_slug(title).unwrap();
        assert_eq!(derive_slug(&slug).unwrap(), slug);
        assert_eq!(validate_slug(&slug).unwrap(), slug);
        let letters: String = title
            .chars()
            .filter(|c| c.is_ascii_alphanumeric())
            .map(|c| c.to_ascii_lowercase())
            .collect();
        assert_eq!(slug.replace('-', ""), letters);
    }
    assert_eq!(derive_slug("Rust, 2024!").unwrap(), "rust-2024");
    assert_eq!(derive_slug("a,b").unwrap(), "ab");
}

#[test]
fn slugs_put_one_dash_where_words_are_separated() {
    assert_eq!(derive_slug("ab_cd").unwrap(), "ab-cd");
    assert_eq!(derive_slug("ab - cd").unwrap(), "ab-cd");
    assert_eq!(derive_slug("!! ab").unwrap(), "ab");
    assert_eq!(derive_slug("a.b c,d").unwrap(), "ab-cd");
    let left = derive_slug("Hello, World").unwrap();
    let right = derive_slug("Again 2").unwrap();
    assert_eq!(derive_slug("Hello, World_Again 2").unwrap(), format!("{left}-{right}"));
}

#[test]
fn a_dash_stands_between_letters_exactly_where_a_separator_did() {
    assert_eq!(derive_slug("ab.,cd").unwrap(), "abcd");
    assert_eq!(derive_slug("ab.,_cd").unwrap(), "ab-cd");
    assert_eq!(derive_slug("ab  __--  cd").unwrap(), "ab-cd");
    assert_eq!(derive_slug("x!y z").unwrap(), "xy-z");
}
