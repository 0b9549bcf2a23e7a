use bwww::rst::ast::{Block, Document};
use bwww::rst::parser::parse;
use bwww::rst::render::{escape, render_html};
use bwww::error::Error;

#[test]
fn renders_supported_blocks_and_escapes_text() {
    let source = "Title\n=====\n\nSection\n-------\n\nA **bold** `link <https://example.com>`_ and ``code``.\n\n* one\n* two\n\n.. code-block:: rust\n\n   let x = 1;\n\n.. math::\n\n   x^2 + y\n";
    let document = parse("sample.rst", source).unwrap();
    let html = render_html(&document);
    assert!(html.contains("<h2>Section</h2>"));
    assert!(html.contains("<strong>bold</strong>"));
    assert!(html.contains("<a href=\"https://example.com\">link</a>"));
    assert!(html.contains("<li>one</li>"));
    assert!(html.contains("<pre><code class=\"language-rust\">let x = 1;</code></pre>"));
    assert!(html.contains("<msup><mi>x</mi><mn>2</mn></msup>"));
}

#[test]
fn rejects_unsupported_or_unsafe_source() {
    assert!(parse("sample.rst", "Title\n=====\n\n.. include:: secret\n").is_err());
    assert!(parse("sample.rst", "Title\n=====\n\n`bad <javascript:alert(1)>`_\n").is_err());
}

fn source_error(result: Result<Document, Error>) -> (String, usize, String) {
    match result {
        Err(Error::Source { path, line, message }) => (path, line, message),
        other => panic!("expected a source error, got {:?}", other),
    }
}

#[test]
fn parse_reports_line_and_message() {
    assert_eq!(
        source_error(parse("a.rst", "Title\n=====\n\n.. include:: secret\n")),
        ("a.rst".to_string(), 4, "unsupported directive".to_string())
    );
    assert_eq!(
        source_error(parse("a.rst", "Title\n=====\n\n`bad <javascript:alert(1)>`_\n")),
        ("a.rst".to_string(), 4, "unsafe hyperlink target: javascript:alert(1)".to_string())
    );
    assert_eq!(
        source_error(parse("a.rst", "broken")),
        ("a.rst".to_string(), 1, "expected a document title with an '=' underline".to_string())
    );
    assert_eq!(
        source_error(parse("a.rst", "Title\n===\n")),
        ("a.rst".to_string(), 1, "expected a document title with an '=' underline".to_string())
    );
    assert_eq!(
        source_error(parse("a.rst", "Title\n=====\n\n| pipe\n")),
        ("a.rst".to_string(), 4, "unsupported RST syntax".to_string())
    );
    assert_eq!(
        source_error(parse("a.rst", "Title\n=====\n\nLonger heading\n---\n")),
        ("a.rst".to_string(), 5, "heading underline is too short".to_string())
    );
    assert_eq!(
        source_error(parse("a.rst", "Title\n=====\n\nOther\n=====\n")),
        ("a.rst".to_string(), 5, "unexpected document title".to_string())
    );
    assert_eq!(
        source_error(parse("a.rst", "Title\n=====\n\n.. image:: a.png\n")),
        ("a.rst".to_string(), 4, "image requires :alt:".to_string())
    );
    assert_eq!(
        source_error(parse("a.rst", "Title\n=====\n\n.. image:: a.png\n   :width: 3\n")),
        ("a.rst".to_string(), 5, "unsupported image option".to_string())
    );
    assert_eq!(
        source_error(parse("a.rst", "Title\n=====\n\n.. code-block:: c++\n\n   x\n")),
        ("a.rst".to_string(), 4, "invalid code language".to_string())
    );
    assert_eq!(
        source_error(parse("a.rst", "Title\n=====\n\n.. math::\n\n   x^\n")),
        ("a.rst".to_string(), 6, "math script needs an identifier or number".to_string())
    );
    assert_eq!(
        source_error(parse("a.rst", "Title\n=====\n\n.. math::\n\n   x; y\n")).2,
        "unsupported math syntax; use identifiers, numbers and basic operators"
    );
    assert_eq!(
        source_error(parse("a.rst", "Title\n=====\n\n.. code-block:: rust\n\nnot indented\n")),
        ("a.rst".to_string(), 6, "expected indented content".to_string())
    );
    assert_eq!(
        source_error(parse("a.rst", "Title\n=====\n\n:key:\n")),
        ("a.rst".to_string(), 4, "field list entry needs a name and value".to_string())
    );
    assert_eq!(
        source_error(parse("a.rst", "Title\n=====\n\n:novalue\n")),
        ("a.rst".to_string(), 4, "invalid field list entry".to_string())
    );
    assert_eq!(
        source_error(parse("a.rst", "Title\n=====\n\n+---+\n+---+\n")),
        ("a.rst".to_string(), 5, "table has no rows".to_string())
    );
    assert_eq!(
        source_error(parse("a.rst", "Title\n=====\n\n+---+---+\n| a | b |\n| c |\n+---+---+\n")),
        ("a.rst".to_string(), 7, "malformed table".to_string())
    );
    assert_eq!(
        source_error(parse("a.rst", "Title\n=====\n\n`x <y`_\n")),
        ("a.rst".to_string(), 4, "unsupported hyperlink syntax".to_string())
    );
}

#[test]
fn parses_every_block_kind() {
    let source = "  My Title  \n==========\n\n:author: Me\n:year: 2024\n\nFirst line\nsecond line.\n\n1. one\n2. two\n\n- a\n\n- b\n\n   quoted\n   text\n\nExample::\n\n   code here\n\n+-----+-----+\n| h1  | h2  |\n+=====+=====+\n| c1  | c2  |\n+-----+-----+\n\n.. image:: pic.png\n   :alt: A picture\n   :caption: The *caption*\n\nSub\n~~~\n\nDeep\n^^^^\n";
    let d = parse("p.rst", source).unwrap();
    assert_eq!(d.title, "My Title");
    assert_eq!(d.blocks.len(), 11);
    match &d.blocks[0] {
        Block::Fields(f) => assert_eq!(f, &vec![("author".to_string(), "Me".to_string()), ("year".to_string(), "2024".to_string())]),
        other => panic!("{:?}", other),
    }
    match &d.blocks[1] {
        Block::Paragraph(p) => assert_eq!(p, "First line second line."),
        other => panic!("{:?}", other),
    }
    match &d.blocks[2] {
        Block::List(true, items) => assert_eq!(items, &vec!["one".to_string(), "two".to_string()]),
        other => panic!("{:?}", other),
    }
    match &d.blocks[3] {
        Block::List(false, items) => assert_eq!(items, &vec!["a".to_string(), "b".to_string()]),
        other => panic!("{:?}", other),
    }
    match &d.blocks[4] {
        Block::Quote(q) => assert_eq!(q, "quoted\ntext"),
        other => panic!("{:?}", other),
    }
    match (&d.blocks[5], &d.blocks[6]) {
        (Block::Paragraph(p), Block::Code(lang, body)) => {
            assert_eq!(p, "Example");
            assert_eq!(lang, "");
            assert_eq!(body, "code here");
        }
        other => panic!("{:?}", other),
    }
    match &d.blocks[7] {
        Block::Table(rows) => assert_eq!(rows, &vec![vec!["h1".to_string(), "h2".to_string()], vec!["c1".to_string(), "c2".to_string()]]),
        other => panic!("{:?}", other),
    }
    match &d.blocks[8] {
        Block::Image { src, alt, caption } => {
            assert_eq!(src, "pic.png");
            assert_eq!(alt, "A picture");
            assert_eq!(caption.as_deref(), Some("The *caption*"));
        }
        other => panic!("{:?}", other),
    }
    assert!(matches!(&d.blocks[9], Block::Heading(3, t) if t == "Sub"));
    assert!(matches!(&d.blocks[10], Block::Heading(4, t) if t == "Deep"));
    let html = render_html(&d);
    assert!(html.contains("<dl>\n<dt>author</dt><dd>Me</dd>\n<dt>year</dt><dd>2024</dd>\n</dl>\n"));
    assert!(html.contains("<ol>\n<li>one</li>\n<li>two</li>\n</ol>\n"));
    assert!(html.contains("<blockquote><p>quoted text</p></blockquote>\n"));
    assert!(html.contains("<table>\n<tr><th>h1</th><th>h2</th></tr>\n<tr><td>c1</td><td>c2</td></tr>\n</table>\n"));
    assert!(html.contains("<figure><img src=\"pic.png\" alt=\"A picture\"><figcaption>The <em>caption</em></figcaption></figure>\n"));
    assert!(html.contains("<h3>Sub</h3>\n<h4>Deep</h4>\n"));
}

#[test]
fn escape_replaces_markup_characters() {
    assert_eq!(escape("a & b < c > d \" e ' f"), "a &amp; b &lt; c &gt; d &quot; e &#39; f");
    assert_eq!(escape("plain"), "plain");
    assert_eq!(escape(""), "");
}

#[test]
fn inline_markup_forms() {
    assert_eq!(bwww::rst::render::inline("``a<b``"), "<code>a&lt;b</code>");
    assert_eq!(bwww::rst::render::inline("**a *b* c**"), "<strong>a <em>b</em> c</strong>");
    assert_eq!(bwww::rst::render::inline("`x <http://a.b/?q=1&r=2>`_"), "<a href=\"http://a.b/?q=1&amp;r=2\">x</a>");
    assert_eq!(bwww::rst::render::inline("see [knuth-84]_"), "see <a href=\"#ref-knuth-84\">[knuth-84]</a>");
    assert_eq!(bwww::rst::render::inline("[not a ref]_"), "[not a ref]_");
    assert_eq!(bwww::rst::render::inline("2 * 3"), "2 * 3");
    assert_eq!(bwww::rst::render::inline("**"), "<em></em>");
    assert_eq!(bwww::rst::render::inline("<script>"), "&lt;script&gt;");
}

#[test]
fn renders_math_code_notes_and_references() {
    let doc = Document {
        title: "T".to_string(),
        blocks: vec![
            Block::Math("a_1 <= 10".to_string()),
            Block::Code("".to_string(), "<tag>".to_string()),
            Block::Note(Some("Careful".to_string()), "one\ntwo\n\nthree".to_string()),
            Block::Reference("k1".to_string(), "A & B".to_string(), "https://x.y/".to_string()),
        ],
    };
    let html = render_html(&doc);
    assert_eq!(
        html,
        "<div class=\"math\"><math display=\"block\"><msub><mi>a</mi><mn>1</mn></msub><mo>&lt;</mo><mo>=</mo><mn>10</mn></math></div>\n\
<pre><code>&lt;tag&gt;</code></pre>\n\
<aside class=\"note\"><p><strong>Careful</strong></p><p>one two</p><p>three</p></aside>\n\
<p id=\"ref-k1\">[k1] <a href=\"https://x.y/\">A &amp; B</a></p>\n"
    );
}

fn unescape(text: &str) -> String {
    text.replace("&lt;", "<")
        .replace("&gt;", ">")
        .replace("&quot;", "\"")
        .replace("&#39;", "'")
        .replace("&amp;", "&")
}

#[test]
fn escaped_text_reads_back() {
    for text in ["a & b < c > d \" e ' f", "&amp; already", "&lt;", "plain", ""] {
        let escaped = escape(text);
        assert!(!escaped.contains(['<', '>', '"', '\'']));
        assert_eq!(unescape(&escaped), text);
    }
}
