use bwww::commands::serve::{
    content_type_for, dist_candidate, reply_for, requested_file, resolve_dist_path,
    safe_request_path, Reply,
};

#[test]
fn request_paths_drop_the_query_and_leading_slashes() {
    assert_eq!(safe_request_path("/posts/first/?q=1").as_deref(), Some("posts/first/"));
    assert_eq!(safe_request_path("///feed.xml").as_deref(), Some("feed.xml"));
    assert_eq!(safe_request_path("/").as_deref(), Some(""));
    assert_eq!(safe_request_path("/a?b?c").as_deref(), Some("a"));
}

#[test]
fn request_paths_cannot_climb_out_of_the_site() {
    assert_eq!(safe_request_path("/../secret"), None);
    assert_eq!(safe_request_path("/posts/../../etc/passwd"), None);
    assert_eq!(safe_request_path("/a/.."), None);
    assert_eq!(safe_request_path("/...").as_deref(), Some("..."));
    assert_eq!(safe_request_path("/x?../y").as_deref(), Some("x"));
}

#[test]
fn resolves_paths_under_dist() {
    assert_eq!(dist_candidate("posts/first/"), "dist/posts/first/");
    assert_eq!(resolve_dist_path("", false), "dist/index.html");
    assert_eq!(resolve_dist_path("posts/first/", true), "dist/posts/first/index.html");
    assert_eq!(resolve_dist_path("tags", true), "dist/tags/index.html");
    assert_eq!(resolve_dist_path("feed.xml", false), "dist/feed.xml");
    assert_eq!(requested_file("/../x", false), "dist/__invalid__");
    assert_eq!(requested_file("/tags/?x", true), "dist/tags/index.html");
}

#[test]
fn content_types_follow_the_extension() {
    assert_eq!(content_type_for("dist/index.html"), Some("text/html; charset=utf-8"));
    assert_eq!(content_type_for("dist/search.js"), Some("text/javascript; charset=utf-8"));
    assert_eq!(content_type_for("dist/posts/a/index.txt"), Some("text/plain; charset=utf-8"));
    assert_eq!(content_type_for("dist/posts/a/index.rst"), Some("text/plain; charset=utf-8"));
    assert_eq!(content_type_for("dist/a/photo.jpeg"), Some("image/jpeg"));
    assert_eq!(content_type_for("dist/a/photo.JPG"), None);
    assert_eq!(content_type_for("dist/resume.pdf"), Some("application/pdf"));
    assert_eq!(content_type_for("dist/.nojekyll"), None);
    assert_eq!(content_type_for("dist/archive"), None);
    assert_eq!(content_type_for("dist/a.tar.gz"), None);
    assert_eq!(content_type_for("dist/a.svg/"), Some("image/svg+xml"));
    assert_eq!(content_type_for("dist/a.css/."), Some("text/css; charset=utf-8"));
    assert_eq!(content_type_for("dist/x.json/.."), None);
}

#[test]
fn replies_with_the_file_or_not_found() {
    assert!(matches!(reply_for("dist/nothing".to_string(), false), Reply::NotFound));
    match reply_for("dist/feed.xml".to_string(), true) {
        Reply::File { path, content_type } => {
            assert_eq!(path, "dist/feed.xml");
            assert_eq!(content_type, Some("application/xml; charset=utf-8"));
        }
        Reply::NotFound => panic!("expected the file"),
    }
}

#[test]
fn resolved_paths_stay_under_dist() {
    for url in ["/", "/a/b", "/../x", "/x/../../y", "///z?q=/../", "/posts/first/"] {
        let path = requested_file(url, true);
        assert!(path.starts_with("dist/"), "{path}");
        assert!(!path.split('/').any(|segment| segment == ".."), "{path}");
    }
    assert_eq!(resolve_dist_path("/etc/passwd", false), "/etc/passwd");
}
