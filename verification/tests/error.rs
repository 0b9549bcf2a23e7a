use bwww::error::{Error, IoContext};

#[test]
fn describes_each_error_as_the_command_line_prints_it() {
    let cases = [
        (
            Error::Io { path: "dist".to_string(), message: "denied".to_string() },
            "I/O error at dist: denied",
        ),
        (Error::InvalidWorkspace("bad".to_string()), "invalid workspace: bad"),
        (Error::InvalidSlug("\"X\"".to_string()), "invalid slug: \"X\""),
        (
            Error::Source { path: "a.rst".to_string(), line: 12, message: "oops".to_string() },
            "a.rst:12: oops",
        ),
        (Error::Server("port".to_string()), "server error: port"),
    ];
    for (error, text) in cases {
        assert_eq!(error.describe(), text);
    }
}

#[test]
fn io_errors_carry_their_path() {
    let ok: std::io::Result<u8> = Ok(7);
    assert_eq!(ok.at("x").unwrap(), 7);
    let failed: std::io::Result<u8> =
        Err(std::io::Error::new(std::io::ErrorKind::NotFound, "gone"));
    match failed.at("content/posts") {
        Err(Error::Io { path, message }) => {
            assert_eq!(path, "content/posts");
            assert_eq!(message, "gone");
        }
        other => panic!("expected an I/O error, got {:?}", other),
    }
}
