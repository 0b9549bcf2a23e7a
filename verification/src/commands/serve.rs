//! The decisions of the preview server: which file a request asks for, and
//! with what content type it is answered.

use vstd::prelude::*;
use crate::rst::parser::{split_exec, split_on};
use crate::text::{
    chars_of, find, find_from, lead_count, occurs_at, rfind, rfind_exec, starts_with, string_of,
    trim_start_char, views,
};

verus! {

// ---------------------------------------------------------------------------
// Request paths
// ---------------------------------------------------------------------------

/// The path part of a request target: everything before the first `?`.
pub open spec fn before_query(url: Seq<char>) -> Seq<char> {
    match find(url, "?"@) {
        Some(k) => url.take(k),
        None => url,
    }
}

/// The path a request asks for, relative to the site: the path part
/// without its leading slashes.
pub open spec fn request_relative(url: Seq<char>) -> Seq<char> {
    trim_start_char(before_query(url), '/')
}

/// A path climbs out of its directory where one of its segments is `..`.
pub open spec fn climbs(path: Seq<char>) -> bool {
    split_on(path, '/').contains(".."@)
}

/// The relative path a request asks for, or `None` where it would climb
/// out of the site.
pub open spec fn safe_request_spec(url: Seq<char>) -> Option<Seq<char>> {
    if climbs(request_relative(url)) {
        None
    } else {
        Some(request_relative(url))
    }
}

proof fn lemma_trim_start_char(s: Seq<char>, c: char)
    ensures
        lead_count(s, c) <= s.len(),
        trim_start_char(s, c).len() > 0 ==> trim_start_char(s, c)[0] != c,
    decreases s.len(),
{
    if s.len() > 0 && s[0] == c {
        lemma_trim_start_char(s.drop_first(), c);
        assert(lead_count(s, c) == 1 + lead_count(s.drop_first(), c));
        assert(s.skip(lead_count(s, c) as int) =~= s.drop_first().skip(lead_count(s.drop_first(), c) as int));
    }
}

/// A request is answered only from inside the site: the path it resolves
/// to has no `..` segment and does not start with `/`.
pub proof fn request_paths_stay_in_the_site(url: Seq<char>)
    ensures
        match safe_request_spec(url) {
            Some(p) => !climbs(p) && (p.len() == 0 || p[0] != '/'),
            None => true,
        },
{
    lemma_trim_start_char(before_query(url), '/');
}

fn is_parent_segment(seg: &Vec<char>) -> (b: bool)
    ensures
        b == (seg@ == ".."@),
{
    proof {
        reveal_strlit("..");
    }
    let r = seg.len() == 2 && seg[0] == '.' && seg[1] == '.';
    proof {
        if r {
            assert(seg@ =~= ".."@);
        }
    }
    r
}

/// The relative path that the request target `url` asks for: the part
/// before any `?`, without leading slashes; `None` where a segment of it is
/// `..`.
pub fn safe_request_path(url: &str) -> (r: Option<String>)
    ensures
        match safe_request_spec(url@) {
            Some(p) => r matches Some(s) && s@ == p,
            None => r is None,
        },
{
    let cs = chars_of(url);
    let q = chars_of("?");
    let n = cs.len();
    let end = match find_from(cs.as_slice(), q.as_slice(), 0) {
        Some(k) => k,
        None => n,
    };
    proof {
        crate::text::lemma_find_bounds(url@, "?"@);
        assert(cs@.skip(0) =~= cs@);
    }
    assert(cs@.take(end as int) =~= before_query(url@));
    let mut start: usize = 0;
    while start < end && cs[start] == '/'
        invariant
            start <= end <= n,
            n == cs@.len(),
            lead_count(before_query(url@), '/') == start + lead_count(cs@.subrange(start as int, end as int), '/'),
        decreases end - start,
    {
        assert(cs@.subrange(start as int, end as int).drop_first() =~= cs@.subrange(start + 1, end as int));
        start = start + 1;
    }
    let rel = crate::text::slice_vec(cs.as_slice(), start, end);
    assert(rel@ =~= request_relative(url@));
    let segs = split_exec(rel.as_slice(), '/');
    let mut k: usize = 0;
    while k < segs.len()
        invariant
            k <= segs@.len(),
            views(segs@) == split_on(rel@, '/'),
            rel@ == request_relative(url@),
            forall|j: int| 0 <= j < k ==> views(segs@)[j] != ".."@,
        decreases segs@.len() - k,
    {
        if is_parent_segment(&segs[k]) {
            assert(views(segs@)[k as int] == ".."@);
            assert(split_on(rel@, '/').contains(".."@));
            return None;
        }
        k = k + 1;
    }
    proof {
        if split_on(rel@, '/').contains(".."@) {
            let j = choose|j: int| 0 <= j < split_on(rel@, '/').len() && split_on(rel@, '/')[j] == ".."@;
            assert(views(segs@)[j] != ".."@);
        }
    }
    Some(string_of(rel.as_slice()))
}

// ---------------------------------------------------------------------------
// Files under `dist`
// ---------------------------------------------------------------------------

/// `Path::push`: an absolute `b` replaces `a`; otherwise `b` comes after
/// `a`, with one `/` between them unless `a` is empty or already ends in one.
pub open spec fn join_path(a: Seq<char>, b: Seq<char>) -> Seq<char> {
    if b.len() > 0 && b[0] == '/' {
        b
    } else if a.len() == 0 || a.last() == '/' {
        a + b
    } else {
        a + "/"@ + b
    }
}

/// A path that is not absolute: empty, or not starting with `/`.
pub open spec fn relative_path(p: Seq<char>) -> bool {
    p.len() == 0 || p[0] != '/'
}

pub(crate) proof fn lemma_split_whole(a: Seq<char>, c: char)
    requires
        !a.contains(c),
    ensures
        split_on(a, c) == seq![a],
{
    crate::text::lemma_find_bounds(a, seq![c]);
    if find(a, seq![c]) is Some {
        let i = find(a, seq![c])->0;
        assert(a.subrange(i, i + 1)[0] == a[i]);
    }
}

/// Splitting at a separator splits the parts on either side of it.
pub proof fn lemma_split_concat(a: Seq<char>, b: Seq<char>, c: char)
    ensures
        split_on(a + seq![c] + b, c) == split_on(a, c) + split_on(b, c),
    decreases a.len(),
{
    let s = a + seq![c] + b;
    if !a.contains(c) {
        lemma_split_whole(a, c);
        crate::text::lemma_find_char_first(a, c, b);
        assert(s.take(a.len() as int) =~= a);
        assert(s.skip(a.len() as int + 1) =~= b);
    } else {
        crate::text::lemma_find_bounds(a, seq![c]);
        let i = choose|i: int| 0 <= i < a.len() && a[i] == c;
        if find(a, seq![c]) is None {
            assert(a.subrange(i, i + 1) =~= seq![c]);
            assert(occurs_at(a, seq![c], i));
        }
        let k = find(a, seq![c])->0;
        assert(occurs_at(s, seq![c], k)) by {
            assert(s.subrange(k, k + 1) =~= a.subrange(k, k + 1));
        }
        assert(occurs_at(a, seq![c], k));
        assert forall|j: int| 0 <= j < k implies !occurs_at(s, seq![c], j) by {
            assert(!occurs_at(a, seq![c], j));
            assert(s.subrange(j, j + 1) =~= a.subrange(j, j + 1));
        }
        crate::text::lemma_occurs_unique_first(s, seq![c], k);
        let rest = a.skip(k + 1);
        lemma_split_concat(rest, b, c);
        assert(s.take(k) =~= a.take(k));
        assert(s.skip(k + 1) =~= rest + seq![c] + b);
        assert(split_on(a, c) == seq![a.take(k)] + split_on(rest, c));
        assert(split_on(s, c) =~= split_on(a, c) + split_on(b, c));
    }
}

proof fn lemma_climbs_concat(a: Seq<char>, b: Seq<char>)
    ensures
        climbs(a + seq!['/'] + b) <==> climbs(a) || climbs(b),
{
    lemma_split_concat(a, b, '/');
    let x = split_on(a, '/');
    let y = split_on(b, '/');
    if (x + y).contains(".."@) {
        let i = choose|i: int| 0 <= i < (x + y).len() && (x + y)[i] == ".."@;
        if i < x.len() {
            assert(x[i] == ".."@);
        } else {
            assert(y[i - x.len()] == ".."@);
        }
    }
    if x.contains(".."@) {
        let i = choose|i: int| 0 <= i < x.len() && x[i] == ".."@;
        assert((x + y)[i] == ".."@);
    }
    if y.contains(".."@) {
        let i = choose|i: int| 0 <= i < y.len() && y[i] == ".."@;
        assert((x + y)[x.len() + i] == ".."@);
    }
}

proof fn lemma_no_climb_word(w: Seq<char>)
    requires
        !w.contains('/'),
        w != ".."@,
    ensures
        !climbs(w),
{
    lemma_split_whole(w, '/');
}

/// A relative path without a `..` segment, put under `dist`, stays under
/// `dist`: the result starts with `dist/` and has no `..` segment.
proof fn lemma_resolve_stays(relative: Seq<char>, is_dir: bool)
    requires
        relative_path(relative),
    ensures
        starts_with(resolve_spec(relative, is_dir), "dist/"@),
        !climbs(relative) ==> !climbs(resolve_spec(relative, is_dir)),
{
    reveal_strlit("dist");
    reveal_strlit("dist/");
    reveal_strlit("/");
    reveal_strlit("index.html");
    reveal_strlit("..");
    let x = dist_candidate_spec(relative);
    assert(x =~= "dist"@ + seq!['/'] + relative);
    lemma_climbs_concat("dist"@, relative);
    assert(".."@.len() == 2);
    assert(!"dist"@.contains('/')) by {
        if "dist"@.contains('/') {
            let i = choose|i: int| 0 <= i < 4 && "dist"@[i] == '/';
        }
    }
    assert(!"index.html"@.contains('/')) by {
        if "index.html"@.contains('/') {
            let i = choose|i: int| 0 <= i < 10 && "index.html"@[i] == '/';
        }
    }
    lemma_no_climb_word("dist"@);
    lemma_no_climb_word("index.html"@);
    lemma_no_climb_word(Seq::<char>::empty());
    let r = resolve_spec(relative, is_dir);
    if relative.len() == 0 || is_dir {
        if x.last() == '/' {
            let y = x.drop_last();
            assert(x =~= y + seq!['/'] + Seq::<char>::empty());
            assert(r =~= y + seq!['/'] + "index.html"@);
            lemma_climbs_concat(y, Seq::<char>::empty());
            lemma_climbs_concat(y, "index.html"@);
        } else {
            assert(r =~= x + seq!['/'] + "index.html"@);
            lemma_climbs_concat(x, "index.html"@);
        }
        assert(r.take(5) =~= "dist/"@);
    } else {
        assert(r.take(5) =~= "dist/"@);
    }
}

/// Where under `dist` a relative request path points.
pub open spec fn dist_candidate_spec(relative: Seq<char>) -> Seq<char> {
    join_path("dist"@, relative)
}

/// The file that answers a request for `relative`: the path under `dist`,
/// or its `index.html` where the path is empty or a directory.
pub open spec fn resolve_spec(relative: Seq<char>, is_dir: bool) -> Seq<char> {
    if relative.len() == 0 || is_dir {
        join_path(dist_candidate_spec(relative), "index.html"@)
    } else {
        dist_candidate_spec(relative)
    }
}

fn join_path_exec(a: &str, b: &str) -> (r: String)
    ensures
        r@ == join_path(a@, b@),
{
    let bs = chars_of(b);
    if bs.len() > 0 && bs[0] == '/' {
        return String::from_str(b);
    }
    let cs = chars_of(a);
    let mut r = String::from_str(a);
    if cs.len() == 0 || cs[cs.len() - 1] == '/' {
        r.append(b);
    } else {
        r.append("/");
        r.append(b);
    }
    r
}

/// Where under `dist` the relative request path `relative` points.
pub fn dist_candidate(relative: &str) -> (r: String)
    ensures
        r@ == dist_candidate_spec(relative@),
{
    join_path_exec("dist", relative)
}

/// The file that answers a request for `relative`; `is_dir` says whether
/// `dist_candidate(relative)` is a directory.
pub fn resolve_dist_path(relative: &str, is_dir: bool) -> (r: String)
    ensures
        r@ == resolve_spec(relative@, is_dir),
        relative_path(relative@) ==> starts_with(r@, "dist/"@),
        relative_path(relative@) && !climbs(relative@) ==> !climbs(r@),
{
    proof {
        if relative_path(relative@) {
            lemma_resolve_stays(relative@, is_dir);
        }
    }
    let path = dist_candidate(relative);
    if relative.unicode_len() == 0 || is_dir {
        join_path_exec(path.as_str(), "index.html")
    } else {
        path
    }
}

// ---------------------------------------------------------------------------
// Content types
// ---------------------------------------------------------------------------

/// The last component of a path's `/`-separated segments, passing over
/// empty segments and `.`.
pub open spec fn last_component(segs: Seq<Seq<char>>) -> Option<Seq<char>>
    decreases segs.len(),
{
    if segs.len() == 0 {
        None
    } else if segs.last().len() == 0 || segs.last() == "."@ {
        last_component(segs.drop_last())
    } else {
        Some(segs.last())
    }
}

/// `Path::file_name`: the last component, unless it is `..`.
pub open spec fn file_name(path: Seq<char>) -> Option<Seq<char>> {
    match last_component(split_on(path, '/')) {
        Some(c) => if c == ".."@ {
            None
        } else {
            Some(c)
        },
        None => None,
    }
}

/// `Path::extension`: what follows the last `.` of the file name, unless
/// the name has no `.` but at its start.
pub open spec fn extension(path: Seq<char>) -> Option<Seq<char>> {
    match file_name(path) {
        Some(name) => match rfind(name, "."@) {
            Some(i) => if i == 0 {
                None
            } else {
                Some(name.skip(i + 1))
            },
            None => None,
        },
        None => None,
    }
}

/// The content type served for a file extension.
pub open spec fn content_type_of(ext: Seq<char>) -> Option<Seq<char>> {
    if ext == "html"@ {
        Some("text/html; charset=utf-8"@)
    } else if ext == "css"@ {
        Some("text/css; charset=utf-8"@)
    } else if ext == "js"@ {
        Some("text/javascript; charset=utf-8"@)
    } else if ext == "json"@ {
        Some("application/json; charset=utf-8"@)
    } else if ext == "xml"@ {
        Some("application/xml; charset=utf-8"@)
    } else if ext == "rst"@ || ext == "txt"@ {
        Some("text/plain; charset=utf-8"@)
    } else if ext == "svg"@ {
        Some("image/svg+xml"@)
    } else if ext == "png"@ {
        Some("image/png"@)
    } else if ext == "jpg"@ || ext == "jpeg"@ {
        Some("image/jpeg"@)
    } else if ext == "webp"@ {
        Some("image/webp"@)
    } else if ext == "avif"@ {
        Some("image/avif"@)
    } else if ext == "pdf"@ {
        Some("application/pdf"@)
    } else {
        None
    }
}

pub open spec fn content_type_spec(path: Seq<char>) -> Option<Seq<char>> {
    match extension(path) {
        Some(ext) => content_type_of(ext),
        None => None,
    }
}

fn is_text(v: &[char], s: &str) -> (b: bool)
    ensures
        b == (v@ == s@),
{
    let w = chars_of(s);
    if v.len() != w.len() {
        return false;
    }
    let mut k: usize = 0;
    while k < v.len()
        invariant
            k <= v@.len(),
            v@.len() == w@.len(),
            w@ == s@,
            forall|j: int| 0 <= j < k ==> v@[j] == w@[j],
        decreases v@.len() - k,
    {
        if v[k] != w[k] {
            return false;
        }
        k = k + 1;
    }
    assert(v@ =~= w@);
    true
}

fn last_component_exec(segs: &Vec<Vec<char>>) -> (r: Option<usize>)
    ensures
        match last_component(views(segs@)) {
            Some(c) => r matches Some(i) && i < segs@.len() && segs@[i as int]@ == c,
            None => r is None,
        },
{
    let mut k: usize = segs.len();
    assert(views(segs@).take(k as int) =~= views(segs@));
    while k > 0
        invariant
            k <= segs@.len(),
            last_component(views(segs@)) == last_component(views(segs@).take(k as int)),
        decreases k,
    {
        let seg = &segs[k - 1];
        assert(views(segs@).take(k as int).last() == seg@);
        if seg.len() == 0 || is_text(seg.as_slice(), ".") {
            assert(views(segs@).take(k as int).drop_last() =~= views(segs@).take(k - 1));
            k = k - 1;
        } else {
            return Some(k - 1);
        }
    }
    None
}

/// The content type served for the file at `path`, by its extension.
pub fn content_type_for(path: &str) -> (r: Option<&'static str>)
    ensures
        match content_type_spec(path@) {
            Some(t) => r matches Some(s) && s@ == t,
            None => r is None,
        },
{
    let cs = chars_of(path);
    let segs = split_exec(cs.as_slice(), '/');
    let name = match last_component_exec(&segs) {
        Some(i) => &segs[i],
        None => {
            return None;
        },
    };
    if is_text(name.as_slice(), "..") {
        return None;
    }
    let dot = chars_of(".");
    let i = match rfind_exec(name.as_slice(), dot.as_slice()) {
        Some(i) => i,
        None => {
            return None;
        },
    };
    if i == 0 {
        return None;
    }
    proof {
        reveal_strlit(".");
    }
    let nl = name.len();
    assert(i + 1 <= nl);
    let ext = crate::text::slice_vec(name.as_slice(), i + 1, nl);
    assert(ext@ =~= name@.skip(i + 1));
    let e = ext.as_slice();
    if is_text(e, "html") {
        Some("text/html; charset=utf-8")
    } else if is_text(e, "css") {
        Some("text/css; charset=utf-8")
    } else if is_text(e, "js") {
        Some("text/javascript; charset=utf-8")
    } else if is_text(e, "json") {
        Some("application/json; charset=utf-8")
    } else if is_text(e, "xml") {
        Some("application/xml; charset=utf-8")
    } else if is_text(e, "rst") || is_text(e, "txt") {
        Some("text/plain; charset=utf-8")
    } else if is_text(e, "svg") {
        Some("image/svg+xml")
    } else if is_text(e, "png") {
        Some("image/png")
    } else if is_text(e, "jpg") || is_text(e, "jpeg") {
        Some("image/jpeg")
    } else if is_text(e, "webp") {
        Some("image/webp")
    } else if is_text(e, "avif") {
        Some("image/avif")
    } else if is_text(e, "pdf") {
        Some("application/pdf")
    } else {
        None
    }
}

// ---------------------------------------------------------------------------
// Answering a request
// ---------------------------------------------------------------------------

/// How the server answers a request.
pub enum Reply {
    /// `404 Not Found` with a short text body.
    NotFound,
    /// The file at `path`, with a `Content-Type` header where one is known.
    File { path: String, content_type: Option<&'static str> },
}

/// The path a request resolves to, which the caller checks on disk:
/// `dist/__invalid__` for a request that would climb out of the site.
pub open spec fn requested_file_spec(url: Seq<char>, candidate_is_dir: bool) -> Seq<char> {
    match safe_request_spec(url) {
        Some(rel) => resolve_spec(rel, candidate_is_dir),
        None => "dist/__invalid__"@,
    }
}

/// The path on disk that the request target `url` resolves to.
pub fn requested_file(url: &str, candidate_is_dir: bool) -> (r: String)
    ensures
        r@ == requested_file_spec(url@, candidate_is_dir),
        starts_with(r@, "dist/"@),
        !climbs(r@),
{
    proof {
        request_paths_stay_in_the_site(url@);
        reveal_strlit("dist/__invalid__");
        reveal_strlit("dist/");
        reveal_strlit("..");
        if safe_request_spec(url@) is None {
            assert("dist/__invalid__"@ =~= "dist"@ + seq!['/'] + "__invalid__"@) by {
                reveal_strlit("dist");
                reveal_strlit("__invalid__");
            }
            reveal_strlit("dist");
            reveal_strlit("__invalid__");
            lemma_climbs_concat("dist"@, "__invalid__"@);
            assert(".."@.len() == 2);
            assert(!"dist"@.contains('/')) by {
                if "dist"@.contains('/') {
                    let i = choose|i: int| 0 <= i < 4 && "dist"@[i] == '/';
                }
            }
            assert(!"__invalid__"@.contains('/')) by {
                if "__invalid__"@.contains('/') {
                    let i = choose|i: int| 0 <= i < 11 && "__invalid__"@[i] == '/';
                }
            }
            lemma_no_climb_word("dist"@);
            lemma_no_climb_word("__invalid__"@);
            assert("dist/__invalid__"@.take(5) =~= "dist/"@);
        }
    }
    match safe_request_path(url) {
        Some(rel) => resolve_dist_path(rel.as_str(), candidate_is_dir),
        None => String::from_str("dist/__invalid__"),
    }
}

/// The reply to a request whose resolved path is `path`; `is_file` says
/// whether a file is there.
pub fn reply_for(path: String, is_file: bool) -> (r: Reply)
    ensures
        match r {
            Reply::NotFound => !is_file,
            Reply::File { path: p, content_type } => is_file && p@ == path@ && match content_type_spec(path@) {
                Some(t) => content_type matches Some(s) && s@ == t,
                None => content_type is None,
            },
        },
{
    if !is_file {
        return Reply::NotFound;
    }
    let content_type = content_type_for(path.as_str());
    Reply::File { path, content_type }
}

/// JPEG files are served as `image/jpeg` whether their name ends in
/// `.jpg` or in `.jpeg`: for any file name `stem.jpg` or `stem.jpeg` with
/// a non-empty stem.
pub proof fn jpeg_files_have_the_jpeg_type(path: Seq<char>, stem: Seq<char>)
    requires
        stem.len() > 0,
    ensures
        file_name(path) == Some(stem + ".jpg"@) ==> content_type_spec(path) == Some("image/jpeg"@),
        file_name(path) == Some(stem + ".jpeg"@) ==> content_type_spec(path) == Some("image/jpeg"@),
{
    reveal_strlit(".jpg");
    reveal_strlit(".jpeg");
    reveal_strlit(".");
    reveal_strlit("jpg");
    reveal_strlit("jpeg");
    reveal_strlit("html");
    reveal_strlit("css");
    reveal_strlit("js");
    reveal_strlit("json");
    reveal_strlit("xml");
    reveal_strlit("rst");
    reveal_strlit("txt");
    reveal_strlit("svg");
    reveal_strlit("png");
    assert(!"jpg"@.contains('.')) by {
        if "jpg"@.contains('.') {
            let k = choose|k: int| 0 <= k < 3 && "jpg"@[k] == '.';
        }
    }
    assert(!"jpeg"@.contains('.')) by {
        if "jpeg"@.contains('.') {
            let k = choose|k: int| 0 <= k < 4 && "jpeg"@[k] == '.';
        }
    }
    lemma_rfind_ext(stem, "jpg"@);
    lemma_rfind_ext(stem, "jpeg"@);
    let n1 = stem + ".jpg"@;
    let n2 = stem + ".jpeg"@;
    assert(n1 =~= stem + "."@ + "jpg"@);
    assert(n2 =~= stem + "."@ + "jpeg"@);
    assert(rfind(n1, "."@) == Some(stem.len() as int));
    assert(rfind(n2, "."@) == Some(stem.len() as int));
    assert(n1.skip(stem.len() as int + 1) =~= "jpg"@);
    assert(n2.skip(stem.len() as int + 1) =~= "jpeg"@);
    assert("jpg"@ != "html"@ && "jpg"@ != "css"@ && "jpg"@ != "js"@ && "jpg"@ != "json"@ && "jpg"@ != "xml"@
        && "jpg"@ != "rst"@ && "jpg"@ != "txt"@ && "jpg"@ != "svg"@ && "jpg"@ != "png"@) by {
        assert("jpg"@[0] != "html"@[0] && "jpg"@[0] != "css"@[0] && "jpg"@.len() != "js"@.len()
            && "jpg"@.len() != "json"@.len() && "jpg"@[0] != "xml"@[0] && "jpg"@[0] != "rst"@[0]
            && "jpg"@[0] != "txt"@[0] && "jpg"@[0] != "svg"@[0] && "jpg"@[0] != "png"@[0]);
    }
    assert("jpeg"@ != "html"@ && "jpeg"@ != "css"@ && "jpeg"@ != "js"@ && "jpeg"@ != "json"@ && "jpeg"@ != "xml"@
        && "jpeg"@ != "rst"@ && "jpeg"@ != "txt"@ && "jpeg"@ != "svg"@ && "jpeg"@ != "png"@ && "jpeg"@ != "jpg"@) by {
        assert("jpeg"@[0] != "html"@[0] && "jpeg"@[0] != "css"@[0] && "jpeg"@.len() != "js"@.len()
            && "jpeg"@[1] != "json"@[1] && "jpeg"@[0] != "xml"@[0] && "jpeg"@[0] != "rst"@[0]
            && "jpeg"@[0] != "txt"@[0] && "jpeg"@[0] != "svg"@[0] && "jpeg"@[0] != "png"@[0]
            && "jpeg"@.len() != "jpg"@.len());
    }
}

/// The last `.` of `stem.ext`, where `ext` holds none, is right after the
/// stem.
proof fn lemma_rfind_ext(stem: Seq<char>, ext: Seq<char>)
    requires
        !ext.contains('.'),
    ensures
        rfind(stem + "."@ + ext, "."@) == Some(stem.len() as int),
    decreases ext.len(),
{
    reveal_strlit(".");
    let s = stem + "."@ + ext;
    if ext.len() == 0 {
        assert(s.skip(s.len() - 1) =~= "."@);
    } else {
        assert(!crate::text::ends_with(s, "."@)) by {
            assert(s.skip(s.len() - 1)[0] == s[s.len() - 1]);
            assert(s[s.len() - 1] == ext[ext.len() - 1]);
            assert(ext.contains(ext[ext.len() - 1]));
        }
        let e2 = ext.drop_last();
        assert(!e2.contains('.')) by {
            if e2.contains('.') {
                let k = choose|k: int| 0 <= k < e2.len() && e2[k] == '.';
                assert(ext[k] == '.');
            }
        }
        lemma_rfind_ext(stem, e2);
        assert(s.drop_last() =~= stem + "."@ + e2);
    }
}

/// The extension of a file `stem.ext`, where the stem is not empty and
/// `ext` holds no `.`, is `ext`.
pub proof fn extension_follows_the_last_dot(path: Seq<char>, stem: Seq<char>, ext: Seq<char>)
    requires
        stem.len() > 0,
        !ext.contains('.'),
        file_name(path) == Some(stem + "."@ + ext),
    ensures
        extension(path) == Some(ext),
{
    reveal_strlit(".");
    lemma_rfind_ext(stem, ext);
    assert((stem + "."@ + ext).skip(stem.len() as int + 1) =~= ext);
}

proof fn lemma_no_dot(e: Seq<char>)
    requires
        forall|k: int| 0 <= k < e.len() ==> #[trigger] e[k] != '.',
    ensures
        !e.contains('.'),
{
}

/// What each file type is served as, by the extension of its name.
pub proof fn files_are_served_by_their_extension(path: Seq<char>, stem: Seq<char>)
    requires
        stem.len() > 0,
    ensures
        file_name(path) == Some(stem + ".html"@) ==> content_type_spec(path) == Some("text/html; charset=utf-8"@),
        file_name(path) == Some(stem + ".css"@) ==> content_type_spec(path) == Some("text/css; charset=utf-8"@),
        file_name(path) == Some(stem + ".js"@) ==> content_type_spec(path) == Some("text/javascript; charset=utf-8"@),
        file_name(path) == Some(stem + ".json"@) ==> content_type_spec(path) == Some("application/json; charset=utf-8"@),
        file_name(path) == Some(stem + ".xml"@) ==> content_type_spec(path) == Some("application/xml; charset=utf-8"@),
        file_name(path) == Some(stem + ".rst"@) ==> content_type_spec(path) == Some("text/plain; charset=utf-8"@),
        file_name(path) == Some(stem + ".txt"@) ==> content_type_spec(path) == Some("text/plain; charset=utf-8"@),
        file_name(path) == Some(stem + ".svg"@) ==> content_type_spec(path) == Some("image/svg+xml"@),
        file_name(path) == Some(stem + ".png"@) ==> content_type_spec(path) == Some("image/png"@),
        file_name(path) == Some(stem + ".webp"@) ==> content_type_spec(path) == Some("image/webp"@),
        file_name(path) == Some(stem + ".avif"@) ==> content_type_spec(path) == Some("image/avif"@),
        file_name(path) == Some(stem + ".pdf"@) ==> content_type_spec(path) == Some("application/pdf"@),
{
    reveal_strlit(".");
    reveal_strlit("html");
    reveal_strlit("css");
    reveal_strlit("js");
    reveal_strlit("json");
    reveal_strlit("xml");
    reveal_strlit("rst");
    reveal_strlit("txt");
    reveal_strlit("svg");
    reveal_strlit("png");
    reveal_strlit("jpg");
    reveal_strlit("jpeg");
    reveal_strlit("webp");
    reveal_strlit("avif");
    reveal_strlit("pdf");
    reveal_strlit(".html");
    reveal_strlit(".css");
    reveal_strlit(".js");
    reveal_strlit(".json");
    reveal_strlit(".xml");
    reveal_strlit(".rst");
    reveal_strlit(".txt");
    reveal_strlit(".svg");
    reveal_strlit(".png");
    reveal_strlit(".webp");
    reveal_strlit(".avif");
    reveal_strlit(".pdf");
    let exts = seq!["html"@, "css"@, "js"@, "json"@, "xml"@, "rst"@, "txt"@, "svg"@, "png"@, "webp"@, "avif"@, "pdf"@];
    assert forall|k: int| 0 <= k < exts.len() implies {
        let e = #[trigger] exts[k];
        file_name(path) == Some(stem + "."@ + e) ==> extension(path) == Some(e)
    } by {
        let e = exts[k];
        assert forall|j: int| 0 <= j < e.len() implies #[trigger] e[j] != '.' by {}
        lemma_no_dot(e);
        if file_name(path) == Some(stem + "."@ + e) {
            extension_follows_the_last_dot(path, stem, e);
        }
    }
    assert(stem + ".html"@ =~= stem + "."@ + exts[0]);
    assert(stem + ".css"@ =~= stem + "."@ + exts[1]);
    assert(stem + ".js"@ =~= stem + "."@ + exts[2]);
    assert(stem + ".json"@ =~= stem + "."@ + exts[3]);
    assert(stem + ".xml"@ =~= stem + "."@ + exts[4]);
    assert(stem + ".rst"@ =~= stem + "."@ + exts[5]);
    assert(stem + ".txt"@ =~= stem + "."@ + exts[6]);
    assert(stem + ".svg"@ =~= stem + "."@ + exts[7]);
    assert(stem + ".png"@ =~= stem + "."@ + exts[8]);
    assert(stem + ".webp"@ =~= stem + "."@ + exts[9]);
    assert(stem + ".avif"@ =~= stem + "."@ + exts[10]);
    assert(stem + ".pdf"@ =~= stem + "."@ + exts[11]);
    // The extensions differ from one another.
    assert(exts[1][0] != exts[0][0]);
    assert(exts[2].len() != exts[0].len() && exts[2].len() != exts[1].len());
    assert(exts[3][0] != exts[0][0] && exts[3][0] != exts[1][0] && exts[3].len() != exts[2].len());
    assert(exts[4][0] != exts[0][0] && exts[4][0] != exts[1][0] && exts[4][0] != exts[2][0] && exts[4][0] != exts[3][0]);
    assert(exts[5][0] != exts[0][0] && exts[5][0] != exts[1][0] && exts[5][0] != exts[2][0] && exts[5][0] != exts[3][0] && exts[5][0] != exts[4][0]);
    assert(exts[6][0] != exts[0][0] && exts[6][0] != exts[1][0] && exts[6][0] != exts[2][0] && exts[6][0] != exts[3][0] && exts[6][0] != exts[4][0] && exts[6][0] != exts[5][0]);
    assert(exts[7][0] != exts[0][0] && exts[7][0] != exts[1][0] && exts[7][0] != exts[2][0] && exts[7][0] != exts[3][0] && exts[7][0] != exts[4][0] && exts[7][0] != exts[5][0] && exts[7][0] != exts[6][0]);
    assert(exts[8][0] != exts[0][0] && exts[8][0] != exts[1][0] && exts[8][0] != exts[2][0] && exts[8][0] != exts[3][0] && exts[8][0] != exts[4][0] && exts[8][0] != exts[5][0] && exts[8][0] != exts[6][0] && exts[8][0] != exts[7][0]);
    assert(exts[9][0] != exts[0][0] && exts[9][0] != exts[1][0] && exts[9][0] != exts[2][0] && exts[9][0] != exts[3][0] && exts[9][0] != exts[4][0] && exts[9][0] != exts[5][0] && exts[9][0] != exts[6][0] && exts[9][0] != exts[7][0] && exts[9][0] != exts[8][0]);
    assert(exts[10][0] != exts[0][0] && exts[10][0] != exts[1][0] && exts[10][0] != exts[2][0] && exts[10][0] != exts[3][0] && exts[10][0] != exts[4][0] && exts[10][0] != exts[5][0] && exts[10][0] != exts[6][0] && exts[10][0] != exts[7][0] && exts[10][0] != exts[8][0] && exts[10][0] != exts[9][0]);
    assert(exts[11][0] != exts[0][0] && exts[11][0] != exts[1][0] && exts[11][0] != exts[2][0] && exts[11][0] != exts[3][0] && exts[11][0] != exts[4][0] && exts[11][0] != exts[5][0] && exts[11][0] != exts[6][0] && exts[11][0] != exts[7][0] && exts[11][0] != exts[9][0] && exts[11][0] != exts[10][0] && exts[11][1] != exts[8][1]);
    assert(exts[8][0] == "png"@[0]);
    assert("jpg"@[0] != exts[8][0] && "jpg"@[0] != exts[9][0] && "jpeg"@[0] != exts[9][0]);
    assert("jpg"@[0] != exts[10][0] && "jpeg"@[0] != exts[10][0] && "jpg"@[0] != exts[11][0] && "jpeg"@[0] != exts[11][0]);
    assert(exts[9][0] != "jpg"@[0]);
}

} // verus!
