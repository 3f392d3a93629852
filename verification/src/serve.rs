//! The development server's decisions: which file answers a request and with
//! what content type, which file-system changes call for a rebuild, and when
//! a burst of changes has settled.
//!
//! Listening, reading files and watching the disk is the caller's part.

use vstd::prelude::*;
use crate::config::{path_join, path_join_spec};
use crate::text::{chars_of, push_str, string_of_range};

verus! {

// ---------------------------------------------------------------- content types

/// The pieces of a path between `/`s that name something: empty pieces and
/// `.` are left out, as `Path::components` does after the first.
pub open spec fn path_pieces(p: Seq<char>, k: int) -> Seq<Seq<char>>
    decreases k + 1,
{
    if k <= 0 || k > p.len() {
        Seq::empty()
    } else {
        proof {
            lemma_piece_start(p, k);
        }
        let start = piece_start(p, k);
        let rest = path_pieces(p, start - 1);
        let piece = p.subrange(start, k);
        if piece.len() == 0 || piece == "."@ { rest } else { rest.push(piece) }
    }
}

/// Start of the piece that ends at `k` (just after the `/` before it).
pub open spec fn piece_start(p: Seq<char>, k: int) -> int
    decreases k,
{
    if k <= 0 {
        0
    } else if p[k - 1] == '/' {
        k
    } else {
        piece_start(p, k - 1)
    }
}

pub proof fn lemma_piece_start(p: Seq<char>, k: int)
    requires
        0 <= k <= p.len(),
    ensures
        0 <= piece_start(p, k) <= k,
        piece_start(p, k) > 0 ==> p[piece_start(p, k) - 1] == '/',
        forall|j: int| piece_start(p, k) <= j < k ==> p[j] != '/',
    decreases k,
{
    if k > 0 && p[k - 1] != '/' {
        lemma_piece_start(p, k - 1);
    }
}

/// `Path::file_name`: the last piece, unless it is `..`.
pub open spec fn file_name(p: Seq<char>) -> Option<Seq<char>> {
    let ps = path_pieces(p, p.len() as int);
    if ps.len() == 0 || ps.last() == ".."@ { None } else { Some(ps.last()) }
}

/// `Path::extension`: what follows the last `.` of the file name, unless the
/// name has no `.` or only one at its start.
pub open spec fn extension(p: Seq<char>) -> Option<Seq<char>> {
    match file_name(p) {
        Some(name) => match last_dot(name, name.len() as int) {
            Some(d) => if d > 0 { Some(name.subrange(d + 1, name.len() as int)) } else { None },
            None => None,
        },
        None => None,
    }
}

/// Index of the last `.` in `s[..k]`.
pub open spec fn last_dot(s: Seq<char>, k: int) -> Option<int>
    decreases k,
{
    if k <= 0 {
        None
    } else if s[k - 1] == '.' {
        Some(k - 1)
    } else {
        last_dot(s, k - 1)
    }
}

pub proof fn lemma_last_dot(s: Seq<char>, k: int)
    requires
        0 <= k <= s.len(),
    ensures
        last_dot(s, k) matches Some(d) ==> 0 <= d < k && s[d] == '.',
    decreases k,
{
    if k > 0 && s[k - 1] != '.' {
        lemma_last_dot(s, k - 1);
    }
}

/// The content type served for a file with extension `ext`.
pub open spec fn content_type_for(ext: Option<Seq<char>>) -> Seq<char> {
    match ext {
        Some(e) => if e == "html"@ {
            "text/html; charset=utf-8"@
        } else if e == "css"@ {
            "text/css; charset=utf-8"@
        } else if e == "js"@ {
            "application/javascript"@
        } else if e == "png"@ {
            "image/png"@
        } else if e == "jpg"@ || e == "jpeg"@ {
            "image/jpeg"@
        } else if e == "gif"@ {
            "image/gif"@
        } else if e == "svg"@ {
            "image/svg+xml"@
        } else if e == "pdf"@ {
            "application/pdf"@
        } else if e == "mp4"@ {
            "video/mp4"@
        } else if e == "ico"@ {
            "image/x-icon"@
        } else if e == "woff"@ {
            "font/woff"@
        } else if e == "woff2"@ {
            "font/woff2"@
        } else if e == "ttf"@ {
            "font/ttf"@
        } else {
            "application/octet-stream"@
        },
        None => "application/octet-stream"@,
    }
}

proof fn lemma_piece_start_at(p: Seq<char>, lo: int, k: int)
    requires
        0 <= lo <= k <= p.len(),
        lo == 0 || p[lo - 1] == '/',
        forall|j: int| lo <= j < k ==> p[j] != '/',
    ensures
        piece_start(p, k) == lo,
    decreases k,
{
    if k > lo {
        lemma_piece_start_at(p, lo, k - 1);
    }
}

proof fn lemma_last_dot_at(s: Seq<char>, d: int, k: int)
    requires
        0 <= d < k <= s.len(),
        s[d] == '.',
        forall|j: int| d < j < k ==> s[j] != '.',
    ensures
        last_dot(s, k) == Some(d),
    decreases k,
{
    if k - 1 > d {
        lemma_last_dot_at(s, d, k - 1);
    }
}

/// The extension of a file `stem.ext` in any directory `dir` (empty, or
/// ending in `/`) is `ext`, for a non-empty stem without `/` and a
/// non-empty extension without `/` or `.`.
pub proof fn lemma_extension_of(dir: Seq<char>, stem: Seq<char>, ext: Seq<char>)
    requires
        dir.len() == 0 || dir.last() == '/',
        stem.len() > 0,
        ext.len() > 0,
        forall|j: int| 0 <= j < stem.len() ==> stem[j] != '/',
        forall|j: int| 0 <= j < ext.len() ==> ext[j] != '/' && ext[j] != '.',
    ensures
        extension(dir + stem + seq!['.'] + ext) == Some(ext),
{
    let name = stem + seq!['.'] + ext;
    let p = dir + name;
    let n = p.len() as int;
    let lo = dir.len() as int;
    assert(dir + stem + seq!['.'] + ext =~= p);
    assert forall|j: int| lo <= j < n implies p[j] != '/' by {
        assert(p[j] == name[j - lo]);
        if j - lo < stem.len() {
            assert(name[j - lo] == stem[j - lo]);
        } else if j - lo > stem.len() {
            assert(name[j - lo] == ext[j - lo - stem.len() - 1]);
        }
    }
    if lo > 0 {
        assert(p[lo - 1] == dir.last());
    }
    lemma_piece_start_at(p, lo, n);
    assert(p.subrange(lo, n) =~= name);
    reveal_strlit(".");
    reveal_strlit("..");
    assert(name != "."@) by {
        assert(name.len() != "."@.len());
    }
    assert(name.len() > 0);
    assert(piece_start(p, n) == lo);
    assert(p.subrange(piece_start(p, n), n) == name);
    assert(!(name.len() == 0 || name == "."@));
    assert(0 < n <= p.len());
    let start = piece_start(p, n);
    let piece = p.subrange(start, n);
    assert(path_pieces(p, n) == (if piece.len() == 0 || piece == "."@ { path_pieces(p, start - 1) } else { path_pieces(p, start - 1).push(piece) }));
    assert(path_pieces(p, n) == path_pieces(p, lo - 1).push(name));
    assert(name != ".."@) by {
        assert(name.len() != ".."@.len());
    }
    let d = stem.len() as int;
    assert forall|j: int| d < j < name.len() implies name[j] != '.' by {
        assert(name[j] == ext[j - d - 1]);
    }
    lemma_last_dot_at(name, d, name.len() as int);
    assert(name.subrange(d + 1, name.len() as int) =~= ext);
}

/// The content types of served files, by extension: a file `stem.ext` in
/// any directory is served with the type its extension names.
pub proof fn lemma_content_types(dir: Seq<char>, stem: Seq<char>)
    requires
        dir.len() == 0 || dir.last() == '/',
        stem.len() > 0,
        forall|j: int| 0 <= j < stem.len() ==> stem[j] != '/',
    ensures
        content_type_for(extension(dir + stem + seq!['.', 'h', 't', 'm', 'l'])) == "text/html; charset=utf-8"@,
        content_type_for(extension(dir + stem + seq!['.', 'c', 's', 's'])) == "text/css; charset=utf-8"@,
        content_type_for(extension(dir + stem + seq!['.', 'j', 's'])) == "application/javascript"@,
        content_type_for(extension(dir + stem + seq!['.', 'p', 'n', 'g'])) == "image/png"@,
        content_type_for(extension(dir + stem + seq!['.', 'j', 'p', 'g'])) == "image/jpeg"@,
        content_type_for(extension(dir + stem + seq!['.', 'j', 'p', 'e', 'g'])) == "image/jpeg"@,
        content_type_for(extension(dir + stem + seq!['.', 'g', 'i', 'f'])) == "image/gif"@,
        content_type_for(extension(dir + stem + seq!['.', 's', 'v', 'g'])) == "image/svg+xml"@,
        content_type_for(extension(dir + stem + seq!['.', 'p', 'd', 'f'])) == "application/pdf"@,
        content_type_for(extension(dir + stem + seq!['.', 'm', 'p', '4'])) == "video/mp4"@,
        content_type_for(extension(dir + stem + seq!['.', 'i', 'c', 'o'])) == "image/x-icon"@,
        content_type_for(extension(dir + stem + seq!['.', 'w', 'o', 'f', 'f'])) == "font/woff"@,
        content_type_for(extension(dir + stem + seq!['.', 'w', 'o', 'f', 'f', '2'])) == "font/woff2"@,
        content_type_for(extension(dir + stem + seq!['.', 't', 't', 'f'])) == "font/ttf"@,
{
    lemma_type_html(dir, stem);
    lemma_type_css(dir, stem);
    lemma_type_js(dir, stem);
    lemma_type_png(dir, stem);
    lemma_type_jpg(dir, stem);
    lemma_type_jpeg(dir, stem);
    lemma_type_gif(dir, stem);
    lemma_type_svg(dir, stem);
    lemma_type_pdf(dir, stem);
    lemma_type_mp4(dir, stem);
    lemma_type_ico(dir, stem);
    lemma_type_woff(dir, stem);
    lemma_type_woff2(dir, stem);
    lemma_type_ttf(dir, stem);
}

proof fn lemma_type_html(dir: Seq<char>, stem: Seq<char>)
    requires
        dir.len() == 0 || dir.last() == '/',
        stem.len() > 0,
        forall|j: int| 0 <= j < stem.len() ==> stem[j] != '/',
    ensures
        content_type_for(extension(dir + stem + seq!['.', 'h', 't', 'm', 'l'])) == "text/html; charset=utf-8"@,
{
    reveal_strlit("html");
    reveal_strlit("css");
    reveal_strlit("js");
    reveal_strlit("png");
    reveal_strlit("jpg");
    reveal_strlit("jpeg");
    reveal_strlit("gif");
    reveal_strlit("svg");
    reveal_strlit("pdf");
    reveal_strlit("mp4");
    reveal_strlit("ico");
    reveal_strlit("woff");
    reveal_strlit("woff2");
    reveal_strlit("ttf");
    let e = seq!['h', 't', 'm', 'l'];
    assert(seq!['.'] + e =~= seq!['.', 'h', 't', 'm', 'l']);
    assert forall|j: int| 0 <= j < e.len() implies e[j] != '/' && e[j] != '.' by {}
    lemma_extension_of(dir, stem, e);
    assert(dir + stem + seq!['.'] + e =~= dir + stem + (seq!['.'] + e));
    assert(e =~= "html"@);
}

proof fn lemma_type_css(dir: Seq<char>, stem: Seq<char>)
    requires
        dir.len() == 0 || dir.last() == '/',
        stem.len() > 0,
        forall|j: int| 0 <= j < stem.len() ==> stem[j] != '/',
    ensures
        content_type_for(extension(dir + stem + seq!['.', 'c', 's', 's'])) == "text/css; charset=utf-8"@,
{
    reveal_strlit("html");
    reveal_strlit("css");
    reveal_strlit("js");
    reveal_strlit("png");
    reveal_strlit("jpg");
    reveal_strlit("jpeg");
    reveal_strlit("gif");
    reveal_strlit("svg");
    reveal_strlit("pdf");
    reveal_strlit("mp4");
    reveal_strlit("ico");
    reveal_strlit("woff");
    reveal_strlit("woff2");
    reveal_strlit("ttf");
    let e = seq!['c', 's', 's'];
    assert(seq!['.'] + e =~= seq!['.', 'c', 's', 's']);
    assert forall|j: int| 0 <= j < e.len() implies e[j] != '/' && e[j] != '.' by {}
    lemma_extension_of(dir, stem, e);
    assert(dir + stem + seq!['.'] + e =~= dir + stem + (seq!['.'] + e));
    assert(e =~= "css"@);
}

proof fn lemma_type_js(dir: Seq<char>, stem: Seq<char>)
    requires
        dir.len() == 0 || dir.last() == '/',
        stem.len() > 0,
        forall|j: int| 0 <= j < stem.len() ==> stem[j] != '/',
    ensures
        content_type_for(extension(dir + stem + seq!['.', 'j', 's'])) == "application/javascript"@,
{
    reveal_strlit("html");
    reveal_strlit("css");
    reveal_strlit("js");
    reveal_strlit("png");
    reveal_strlit("jpg");
    reveal_strlit("jpeg");
    reveal_strlit("gif");
    reveal_strlit("svg");
    reveal_strlit("pdf");
    reveal_strlit("mp4");
    reveal_strlit("ico");
    reveal_strlit("woff");
    reveal_strlit("woff2");
    reveal_strlit("ttf");
    let e = seq!['j', 's'];
    assert(seq!['.'] + e =~= seq!['.', 'j', 's']);
    assert forall|j: int| 0 <= j < e.len() implies e[j] != '/' && e[j] != '.' by {}
    lemma_extension_of(dir, stem, e);
    assert(dir + stem + seq!['.'] + e =~= dir + stem + (seq!['.'] + e));
    assert(e =~= "js"@);
}

proof fn lemma_type_png(dir: Seq<char>, stem: Seq<char>)
    requires
        dir.len() == 0 || dir.last() == '/',
        stem.len() > 0,
        forall|j: int| 0 <= j < stem.len() ==> stem[j] != '/',
    ensures
        content_type_for(extension(dir + stem + seq!['.', 'p', 'n', 'g'])) == "image/png"@,
{
    reveal_strlit("html");
    reveal_strlit("css");
    reveal_strlit("js");
    reveal_strlit("png");
    reveal_strlit("jpg");
    reveal_strlit("jpeg");
    reveal_strlit("gif");
    reveal_strlit("svg");
    reveal_strlit("pdf");
    reveal_strlit("mp4");
    reveal_strlit("ico");
    reveal_strlit("woff");
    reveal_strlit("woff2");
    reveal_strlit("ttf");
    let e = seq!['p', 'n', 'g'];
    assert(seq!['.'] + e =~= seq!['.', 'p', 'n', 'g']);
    assert forall|j: int| 0 <= j < e.len() implies e[j] != '/' && e[j] != '.' by {}
    lemma_extension_of(dir, stem, e);
    assert(dir + stem + seq!['.'] + e =~= dir + stem + (seq!['.'] + e));
    assert(e =~= "png"@);
}

proof fn lemma_type_jpg(dir: Seq<char>, stem: Seq<char>)
    requires
        dir.len() == 0 || dir.last() == '/',
        stem.len() > 0,
        forall|j: int| 0 <= j < stem.len() ==> stem[j] != '/',
    ensures
        content_type_for(extension(dir + stem + seq!['.', 'j', 'p', 'g'])) == "image/jpeg"@,
{
    reveal_strlit("html");
    reveal_strlit("css");
    reveal_strlit("js");
    reveal_strlit("png");
    reveal_strlit("jpg");
    reveal_strlit("jpeg");
    reveal_strlit("gif");
    reveal_strlit("svg");
    reveal_strlit("pdf");
    reveal_strlit("mp4");
    reveal_strlit("ico");
    reveal_strlit("woff");
    reveal_strlit("woff2");
    reveal_strlit("ttf");
    let e = seq!['j', 'p', 'g'];
    assert(seq!['.'] + e =~= seq!['.', 'j', 'p', 'g']);
    assert forall|j: int| 0 <= j < e.len() implies e[j] != '/' && e[j] != '.' by {}
    lemma_extension_of(dir, stem, e);
    assert(dir + stem + seq!['.'] + e =~= dir + stem + (seq!['.'] + e));
    assert(e =~= "jpg"@);
}

proof fn lemma_type_jpeg(dir: Seq<char>, stem: Seq<char>)
    requires
        dir.len() == 0 || dir.last() == '/',
        stem.len() > 0,
        forall|j: int| 0 <= j < stem.len() ==> stem[j] != '/',
    ensures
        content_type_for(extension(dir + stem + seq!['.', 'j', 'p', 'e', 'g'])) == "image/jpeg"@,
{
    reveal_strlit("html");
    reveal_strlit("css");
    reveal_strlit("js");
    reveal_strlit("png");
    reveal_strlit("jpg");
    reveal_strlit("jpeg");
    reveal_strlit("gif");
    reveal_strlit("svg");
    reveal_strlit("pdf");
    reveal_strlit("mp4");
    reveal_strlit("ico");
    reveal_strlit("woff");
    reveal_strlit("woff2");
    reveal_strlit("ttf");
    let e = seq!['j', 'p', 'e', 'g'];
    assert(seq!['.'] + e =~= seq!['.', 'j', 'p', 'e', 'g']);
    assert forall|j: int| 0 <= j < e.len() implies e[j] != '/' && e[j] != '.' by {}
    lemma_extension_of(dir, stem, e);
    assert(dir + stem + seq!['.'] + e =~= dir + stem + (seq!['.'] + e));
    assert(e =~= "jpeg"@);
}

proof fn lemma_type_gif(dir: Seq<char>, stem: Seq<char>)
    requires
        dir.len() == 0 || dir.last() == '/',
        stem.len() > 0,
        forall|j: int| 0 <= j < stem.len() ==> stem[j] != '/',
    ensures
        content_type_for(extension(dir + stem + seq!['.', 'g', 'i', 'f'])) == "image/gif"@,
{
    reveal_strlit("html");
    reveal_strlit("css");
    reveal_strlit("js");
    reveal_strlit("png");
    reveal_strlit("jpg");
    reveal_strlit("jpeg");
    reveal_strlit("gif");
    reveal_strlit("svg");
    reveal_strlit("pdf");
    reveal_strlit("mp4");
    reveal_strlit("ico");
    reveal_strlit("woff");
    reveal_strlit("woff2");
    reveal_strlit("ttf");
    let e = seq!['g', 'i', 'f'];
    assert(seq!['.'] + e =~= seq!['.', 'g', 'i', 'f']);
    assert forall|j: int| 0 <= j < e.len() implies e[j] != '/' && e[j] != '.' by {}
    lemma_extension_of(dir, stem, e);
    assert(dir + stem + seq!['.'] + e =~= dir + stem + (seq!['.'] + e));
    assert(e =~= "gif"@);
}

proof fn lemma_type_svg(dir: Seq<char>, stem: Seq<char>)
    requires
        dir.len() == 0 || dir.last() == '/',
        stem.len() > 0,
        forall|j: int| 0 <= j < stem.len() ==> stem[j] != '/',
    ensures
        content_type_for(extension(dir + stem + seq!['.', 's', 'v', 'g'])) == "image/svg+xml"@,
{
    reveal_strlit("html");
    reveal_strlit("css");
    reveal_strlit("js");
    reveal_strlit("png");
    reveal_strlit("jpg");
    reveal_strlit("jpeg");
    reveal_strlit("gif");
    reveal_strlit("svg");
    reveal_strlit("pdf");
    reveal_strlit("mp4");
    reveal_strlit("ico");
    reveal_strlit("woff");
    reveal_strlit("woff2");
    reveal_strlit("ttf");
    let e = seq!['s', 'v', 'g'];
    assert(seq!['.'] + e =~= seq!['.', 's', 'v', 'g']);
    assert forall|j: int| 0 <= j < e.len() implies e[j] != '/' && e[j] != '.' by {}
    lemma_extension_of(dir, stem, e);
    assert(dir + stem + seq!['.'] + e =~= dir + stem + (seq!['.'] + e));
    assert(e =~= "svg"@);
}

proof fn lemma_type_pdf(dir: Seq<char>, stem: Seq<char>)
    requires
        dir.len() == 0 || dir.last() == '/',
        stem.len() > 0,
        forall|j: int| 0 <= j < stem.len() ==> stem[j] != '/',
    ensures
        content_type_for(extension(dir + stem + seq!['.', 'p', 'd', 'f'])) == "application/pdf"@,
{
    reveal_strlit("html");
    reveal_strlit("css");
    reveal_strlit("js");
    reveal_strlit("png");
    reveal_strlit("jpg");
    reveal_strlit("jpeg");
    reveal_strlit("gif");
    reveal_strlit("svg");
    reveal_strlit("pdf");
    reveal_strlit("mp4");
    reveal_strlit("ico");
    reveal_strlit("woff");
    reveal_strlit("woff2");
    reveal_strlit("ttf");
    let e = seq!['p', 'd', 'f'];
    assert(seq!['.'] + e =~= seq!['.', 'p', 'd', 'f']);
    assert forall|j: int| 0 <= j < e.len() implies e[j] != '/' && e[j] != '.' by {}
    lemma_extension_of(dir, stem, e);
    assert(dir + stem + seq!['.'] + e =~= dir + stem + (seq!['.'] + e));
    assert(e =~= "pdf"@);
}

proof fn lemma_type_mp4(dir: Seq<char>, stem: Seq<char>)
    requires
        dir.len() == 0 || dir.last() == '/',
        stem.len() > 0,
        forall|j: int| 0 <= j < stem.len() ==> stem[j] != '/',
    ensures
        content_type_for(extension(dir + stem + seq!['.', 'm', 'p', '4'])) == "video/mp4"@,
{
    reveal_strlit("html");
    reveal_strlit("css");
    reveal_strlit("js");
    reveal_strlit("png");
    reveal_strlit("jpg");
    reveal_strlit("jpeg");
    reveal_strlit("gif");
    reveal_strlit("svg");
    reveal_strlit("pdf");
    reveal_strlit("mp4");
    reveal_strlit("ico");
    reveal_strlit("woff");
    reveal_strlit("woff2");
    reveal_strlit("ttf");
    let e = seq!['m', 'p', '4'];
    assert(seq!['.'] + e =~= seq!['.', 'm', 'p', '4']);
    assert forall|j: int| 0 <= j < e.len() implies e[j] != '/' && e[j] != '.' by {}
    lemma_extension_of(dir, stem, e);
    assert(dir + stem + seq!['.'] + e =~= dir + stem + (seq!['.'] + e));
    assert(e =~= "mp4"@);
}

proof fn lemma_type_ico(dir: Seq<char>, stem: Seq<char>)
    requires
        dir.len() == 0 || dir.last() == '/',
        stem.len() > 0,
        forall|j: int| 0 <= j < stem.len() ==> stem[j] != '/',
    ensures
        content_type_for(extension(dir + stem + seq!['.', 'i', 'c', 'o'])) == "image/x-icon"@,
{
    reveal_strlit("html");
    reveal_strlit("css");
    reveal_strlit("js");
    reveal_strlit("png");
    reveal_strlit("jpg");
    reveal_strlit("jpeg");
    reveal_strlit("gif");
    reveal_strlit("svg");
    reveal_strlit("pdf");
    reveal_strlit("mp4");
    reveal_strlit("ico");
    reveal_strlit("woff");
    reveal_strlit("woff2");
    reveal_strlit("ttf");
    let e = seq!['i', 'c', 'o'];
    assert(seq!['.'] + e =~= seq!['.', 'i', 'c', 'o']);
    assert forall|j: int| 0 <= j < e.len() implies e[j] != '/' && e[j] != '.' by {}
    lemma_extension_of(dir, stem, e);
    assert(dir + stem + seq!['.'] + e =~= dir + stem + (seq!['.'] + e));
    assert(e =~= "ico"@);
}

proof fn lemma_type_woff(dir: Seq<char>, stem: Seq<char>)
    requires
        dir.len() == 0 || dir.last() == '/',
        stem.len() > 0,
        forall|j: int| 0 <= j < stem.len() ==> stem[j] != '/',
    ensures
        content_type_for(extension(dir + stem + seq!['.', 'w', 'o', 'f', 'f'])) == "font/woff"@,
{
    reveal_strlit("html");
    reveal_strlit("css");
    reveal_strlit("js");
    reveal_strlit("png");
    reveal_strlit("jpg");
    reveal_strlit("jpeg");
    reveal_strlit("gif");
    reveal_strlit("svg");
    reveal_strlit("pdf");
    reveal_strlit("mp4");
    reveal_strlit("ico");
    reveal_strlit("woff");
    reveal_strlit("woff2");
    reveal_strlit("ttf");
    let e = seq!['w', 'o', 'f', 'f'];
    assert(seq!['.'] + e =~= seq!['.', 'w', 'o', 'f', 'f']);
    assert forall|j: int| 0 <= j < e.len() implies e[j] != '/' && e[j] != '.' by {}
    lemma_extension_of(dir, stem, e);
    assert(dir + stem + seq!['.'] + e =~= dir + stem + (seq!['.'] + e));
    assert(e =~= "woff"@);
}

proof fn lemma_type_woff2(dir: Seq<char>, stem: Seq<char>)
    requires
        dir.len() == 0 || dir.last() == '/',
        stem.len() > 0,
        forall|j: int| 0 <= j < stem.len() ==> stem[j] != '/',
    ensures
        content_type_for(extension(dir + stem + seq!['.', 'w', 'o', 'f', 'f', '2'])) == "font/woff2"@,
{
    reveal_strlit("html");
    reveal_strlit("css");
    reveal_strlit("js");
    reveal_strlit("png");
    reveal_strlit("jpg");
    reveal_strlit("jpeg");
    reveal_strlit("gif");
    reveal_strlit("svg");
    reveal_strlit("pdf");
    reveal_strlit("mp4");
    reveal_strlit("ico");
    reveal_strlit("woff");
    reveal_strlit("woff2");
    reveal_strlit("ttf");
    let e = seq!['w', 'o', 'f', 'f', '2'];
    assert(seq!['.'] + e =~= seq!['.', 'w', 'o', 'f', 'f', '2']);
    assert forall|j: int| 0 <= j < e.len() implies e[j] != '/' && e[j] != '.' by {}
    lemma_extension_of(dir, stem, e);
    assert(dir + stem + seq!['.'] + e =~= dir + stem + (seq!['.'] + e));
    assert(e =~= "woff2"@);
}

proof fn lemma_type_ttf(dir: Seq<char>, stem: Seq<char>)
    requires
        dir.len() == 0 || dir.last() == '/',
        stem.len() > 0,
        forall|j: int| 0 <= j < stem.len() ==> stem[j] != '/',
    ensures
        content_type_for(extension(dir + stem + seq!['.', 't', 't', 'f'])) == "font/ttf"@,
{
    reveal_strlit("html");
    reveal_strlit("css");
    reveal_strlit("js");
    reveal_strlit("png");
    reveal_strlit("jpg");
    reveal_strlit("jpeg");
    reveal_strlit("gif");
    reveal_strlit("svg");
    reveal_strlit("pdf");
    reveal_strlit("mp4");
    reveal_strlit("ico");
    reveal_strlit("woff");
    reveal_strlit("woff2");
    reveal_strlit("ttf");
    let e = seq!['t', 't', 'f'];
    assert(seq!['.'] + e =~= seq!['.', 't', 't', 'f']);
    assert forall|j: int| 0 <= j < e.len() implies e[j] != '/' && e[j] != '.' by {}
    lemma_extension_of(dir, stem, e);
    assert(dir + stem + seq!['.'] + e =~= dir + stem + (seq!['.'] + e));
    assert(e =~= "ttf"@);
}

/// A file whose extension is none of the known ones is served as
/// `application/octet-stream`.
pub proof fn lemma_unknown_content_type(dir: Seq<char>, stem: Seq<char>, ext: Seq<char>)
    requires
        dir.len() == 0 || dir.last() == '/',
        stem.len() > 0,
        ext.len() > 0,
        forall|j: int| 0 <= j < stem.len() ==> stem[j] != '/',
        forall|j: int| 0 <= j < ext.len() ==> ext[j] != '/' && ext[j] != '.',
        ext != seq!['h', 't', 'm', 'l'],
        ext != seq!['c', 's', 's'],
        ext != seq!['j', 's'],
        ext != seq!['p', 'n', 'g'],
        ext != seq!['j', 'p', 'g'],
        ext != seq!['j', 'p', 'e', 'g'],
        ext != seq!['g', 'i', 'f'],
        ext != seq!['s', 'v', 'g'],
        ext != seq!['p', 'd', 'f'],
        ext != seq!['m', 'p', '4'],
        ext != seq!['i', 'c', 'o'],
        ext != seq!['w', 'o', 'f', 'f'],
        ext != seq!['w', 'o', 'f', 'f', '2'],
        ext != seq!['t', 't', 'f'],
    ensures
        content_type_for(extension(dir + stem + seq!['.'] + ext)) == "application/octet-stream"@,
{
    reveal_strlit("html");
    reveal_strlit("css");
    reveal_strlit("js");
    reveal_strlit("png");
    reveal_strlit("jpg");
    reveal_strlit("jpeg");
    reveal_strlit("gif");
    reveal_strlit("svg");
    reveal_strlit("pdf");
    reveal_strlit("mp4");
    reveal_strlit("ico");
    reveal_strlit("woff");
    reveal_strlit("woff2");
    reveal_strlit("ttf");
    assert(seq!['h', 't', 'm', 'l'] =~= "html"@);
    assert(seq!['c', 's', 's'] =~= "css"@);
    assert(seq!['j', 's'] =~= "js"@);
    assert(seq!['p', 'n', 'g'] =~= "png"@);
    assert(seq!['j', 'p', 'g'] =~= "jpg"@);
    assert(seq!['j', 'p', 'e', 'g'] =~= "jpeg"@);
    assert(seq!['g', 'i', 'f'] =~= "gif"@);
    assert(seq!['s', 'v', 'g'] =~= "svg"@);
    assert(seq!['p', 'd', 'f'] =~= "pdf"@);
    assert(seq!['m', 'p', '4'] =~= "mp4"@);
    assert(seq!['i', 'c', 'o'] =~= "ico"@);
    assert(seq!['w', 'o', 'f', 'f'] =~= "woff"@);
    assert(seq!['w', 'o', 'f', 'f', '2'] =~= "woff2"@);
    assert(seq!['t', 't', 'f'] =~= "ttf"@);
    lemma_extension_of(dir, stem, ext);
}

fn str_is(a: &str, b: &str) -> (r: bool)
    ensures
        r == (a@ == b@),
{
    crate::render::wechat::str_eq(a, b)
}

/// The last piece of `path` that names something, if any: `(start, end)`.
fn last_piece(cs: &Vec<char>) -> (r: Option<(usize, usize)>)
    ensures
        match r {
            Some((a, b)) => a < b <= cs@.len() && path_pieces(cs@, cs@.len() as int).len() > 0
                && path_pieces(cs@, cs@.len() as int).last() == cs@.subrange(a as int, b as int),
            None => path_pieces(cs@, cs@.len() as int).len() == 0,
        },
{
    let mut k = cs.len();
    while k > 0
        invariant
            k <= cs@.len(),
            path_pieces(cs@, cs@.len() as int) == path_pieces(cs@, k as int),
        decreases k,
    {
        proof {
            lemma_piece_start(cs@, k as int);
        }
        let mut start = k;
        while start > 0 && cs[start - 1] != '/'
            invariant
                start <= k <= cs@.len(),
                piece_start(cs@, k as int) == piece_start(cs@, start as int),
            decreases start,
        {
            start = start - 1;
        }
        let piece = string_of_range(cs, start, k);
        if start == k || str_is(piece.as_str(), ".") {
            proof {
                reveal_strlit(".");
            }
            if start == 0 {
                assert(path_pieces(cs@, start - 1) =~= Seq::<Seq<char>>::empty());
                return None;
            }
            k = start - 1;
        } else {
            return Some((start, k));
        }
    }
    None
}

/// The extension of a path (`Path::extension`).
pub fn path_extension(path: &str) -> (r: Option<String>)
    ensures
        match r {
            Some(e) => extension(path@) == Some(e@),
            None => extension(path@) is None,
        },
{
    let cs = chars_of(path);
    let (a, b) = match last_piece(&cs) {
        Some(x) => x,
        None => return None,
    };
    let name = string_of_range(&cs, a, b);
    if str_is(name.as_str(), "..") {
        return None;
    }
    let ns = chars_of(name.as_str());
    let mut k = ns.len();
    while k > 0 && ns[k - 1] != '.'
        invariant
            k <= ns@.len(),
            last_dot(ns@, ns@.len() as int) == last_dot(ns@, k as int),
        decreases k,
    {
        k = k - 1;
    }
    if k == 0 {
        return None;
    }
    let d = k - 1;
    if d == 0 {
        return None;
    }
    Some(string_of_range(&ns, d + 1, ns.len()))
}

/// The content type served for a file, by its extension.
pub fn guess_content_type(path: &str) -> (r: String)
    ensures
        r@ == content_type_for(extension(path@)),
{
    let t = match path_extension(path) {
        Some(e) => {
            let e = e.as_str();
            if str_is(e, "html") {
                "text/html; charset=utf-8"
            } else if str_is(e, "css") {
                "text/css; charset=utf-8"
            } else if str_is(e, "js") {
                "application/javascript"
            } else if str_is(e, "png") {
                "image/png"
            } else if str_is(e, "jpg") || str_is(e, "jpeg") {
                "image/jpeg"
            } else if str_is(e, "gif") {
                "image/gif"
            } else if str_is(e, "svg") {
                "image/svg+xml"
            } else if str_is(e, "pdf") {
                "application/pdf"
            } else if str_is(e, "mp4") {
                "video/mp4"
            } else if str_is(e, "ico") {
                "image/x-icon"
            } else if str_is(e, "woff") {
                "font/woff"
            } else if str_is(e, "woff2") {
                "font/woff2"
            } else if str_is(e, "ttf") {
                "font/ttf"
            } else {
                "application/octet-stream"
            }
        },
        None => "application/octet-stream",
    };
    t.to_string()
}

// ---------------------------------------------------------------- requests

/// A hex digit as `char::to_digit(16)` reads it.
pub open spec fn hex_value(b: u8) -> Option<u8> {
    if 48 <= b <= 57 {
        Some((b - 48) as u8)
    } else if 97 <= b <= 102 {
        Some((b - 87) as u8)
    } else if 65 <= b <= 70 {
        Some((b - 55) as u8)
    } else {
        None
    }
}

/// Percent-decoding: `%` and two hex digits give that byte; any other byte,
/// a `%` not followed by two hex digits included, stays as it is.
pub open spec fn percent_decoded(s: Seq<u8>) -> Seq<u8>
    decreases s.len(),
{
    if s.len() == 0 {
        Seq::empty()
    } else if s[0] == 37 && s.len() >= 3 && hex_value(s[1]) is Some && hex_value(s[2]) is Some {
        seq![(hex_value(s[1]).unwrap() * 16 + hex_value(s[2]).unwrap()) as u8] + percent_decoded(s.subrange(3, s.len() as int))
    } else {
        seq![s[0]] + percent_decoded(s.drop_first())
    }
}

/// What `percent_decode(input).decode_utf8_lossy()` returns.
pub uninterp spec fn percent_decode_lossy(input: Seq<u8>) -> Seq<char>;

/// Calls `percent_encoding::percent_decode` and `decode_utf8_lossy`.
/// Claimed: the result is `percent_decode_lossy` of the input, and where the
/// percent-decoded bytes are valid UTF-8 it is their decoding (invalid
/// sequences are replaced by U+FFFD, which is not stated).
#[verifier::external_body]
fn percent_decode(input: &[u8]) -> (r: String)
    ensures
        r@ == percent_decode_lossy(input@),
        vstd::utf8::valid_utf8(percent_decoded(input@)) ==> r@ == vstd::utf8::decode_utf8(percent_decoded(input@)),
{
    percent_encoding::percent_decode(input).decode_utf8_lossy().into_owned()
}

/// `s` without its leading `/`s.
pub open spec fn trim_leading_slashes(s: Seq<char>, k: int) -> Seq<char>
    decreases s.len() - k,
{
    if 0 <= k < s.len() && s[k] == '/' {
        trim_leading_slashes(s, k + 1)
    } else if 0 <= k <= s.len() {
        s.subrange(k, s.len() as int)
    } else {
        Seq::empty()
    }
}

/// The file a request path maps to: under the output directory, with
/// `index.html` added for a path ending in `/`.
pub open spec fn request_file_spec(output_dir: Seq<char>, url: Seq<char>) -> Seq<char> {
    let rel = trim_leading_slashes(url, 0);
    if url.len() > 0 && url.last() == '/' {
        path_join_spec(path_join_spec(output_dir, rel), "index.html"@)
    } else {
        path_join_spec(output_dir, rel)
    }
}

/// The file a request asks for: its percent-decoded path mapped under the
/// output directory.
pub fn request_file(output_dir: &str, raw_url: &[u8]) -> (r: String)
    ensures
        r@ == request_file_spec(output_dir@, percent_decode_lossy(raw_url@)),
{
    let url = percent_decode(raw_url);
    let cs = chars_of(url.as_str());
    let mut k: usize = 0;
    while k < cs.len() && cs[k] == '/'
        invariant
            k <= cs@.len(),
            trim_leading_slashes(cs@, 0) == trim_leading_slashes(cs@, k as int),
        decreases cs@.len() - k,
    {
        k = k + 1;
    }
    let rel = string_of_range(&cs, k, cs.len());
    let base = path_join(output_dir, rel.as_str());
    if cs.len() > 0 && cs[cs.len() - 1] == '/' {
        path_join(base.as_str(), "index.html")
    } else {
        base
    }
}

/// `index.html` inside a directory.
pub fn index_file(dir: &str) -> (r: String)
    ensures
        r@ == path_join_spec(dir@, "index.html"@),
{
    path_join(dir, "index.html")
}

/// How a request is answered.
pub enum Reply {
    /// The file, with its content type.
    File { path: String, content_type: String },
    NotFound,
}

/// The answer to a request mapped to `file`: the file itself where it is a
/// file, else `index.html` inside it where that exists, else not found.
pub fn reply_for(file: &str, is_file: bool, index_exists: bool) -> (r: Reply)
    ensures
        match r {
            Reply::File { path, content_type } => if is_file {
                path@ == file@ && content_type@ == content_type_for(extension(file@))
            } else {
                index_exists && path@ == path_join_spec(file@, "index.html"@) && content_type@ == "text/html; charset=utf-8"@
            },
            Reply::NotFound => !is_file && !index_exists,
        },
{
    if is_file {
        Reply::File { path: file.to_string(), content_type: guess_content_type(file) }
    } else if index_exists {
        Reply::File { path: index_file(file), content_type: "text/html; charset=utf-8".to_string() }
    } else {
        Reply::NotFound
    }
}

// ---------------------------------------------------------------- rebuilding

/// `Path::starts_with` for a one-piece base: the path's first component is
/// exactly `base` (so `public/x` starts with `public`, `/public` and
/// `publications` do not).
pub open spec fn first_component_is(path: Seq<char>, base: Seq<char>) -> bool {
    &&& path.len() >= base.len()
    &&& path.subrange(0, base.len() as int) == base
    &&& (path.len() == base.len() || path[base.len() as int] == '/')
}

/// A change to `path` calls for a rebuild unless it lies under the output
/// (`public`) or build (`target`) directory.
pub open spec fn triggers_rebuild_spec(path: Seq<char>) -> bool {
    !first_component_is(path, "public"@) && !first_component_is(path, "target"@)
}

fn first_component_is_exec(cs: &Vec<char>, base: &str) -> (r: bool)
    ensures
        r == first_component_is(cs@, base@),
{
    let bc = chars_of(base);
    if cs.len() < bc.len() {
        return false;
    }
    let head = string_of_range(cs, 0, bc.len());
    if !str_is(head.as_str(), base) {
        return false;
    }
    cs.len() == bc.len() || cs[bc.len()] == '/'
}

pub fn triggers_rebuild(path: &str) -> (r: bool)
    ensures
        r == triggers_rebuild_spec(path@),
{
    let cs = chars_of(path);
    !first_component_is_exec(&cs, "public") && !first_component_is_exec(&cs, "target")
}

/// Changes are let settle this long (in milliseconds) before a rebuild.
pub open spec fn settle_ms() -> u64 {
    500
}

/// A quiet moment at `now` with the last unhandled change at `last`: the
/// change left unhandled afterwards, and whether to rebuild now.
pub open spec fn quiet_step(last: Option<u64>, now: u64) -> (Option<u64>, bool) {
    match last {
        Some(t) => {
            let elapsed = if now >= t { now - t } else { 0 };
            if elapsed >= settle_ms() { (None, true) } else { (last, false) }
        },
        None => (None, false),
    }
}

/// One rebuild per burst: once the changes have settled there is one
/// rebuild, and no other until a new change comes.
pub proof fn lemma_one_rebuild_per_burst(t: u64, now: u64, later: u64)
    requires
        now >= t + settle_ms(),
    ensures
        quiet_step(Some(t), now) == (None::<u64>, true),
        quiet_step(quiet_step(Some(t), now).0, later) == (None::<u64>, false),
{
}

/// The time of the last change not yet rebuilt for.
pub struct Debouncer {
    pub last_change: Option<u64>,
}

impl Debouncer {
    pub fn new() -> (r: Debouncer)
        ensures
            r.last_change is None,
    {
        Debouncer { last_change: None }
    }

    /// A change was seen at `at` (milliseconds).
    pub fn on_change(&mut self, at: u64)
        ensures
            final(self).last_change == Some(at),
    {
        self.last_change = Some(at);
    }

    /// A quiet moment at `now`: rebuild (and forget the change) when the
    /// last change is at least `settle_ms` old.
    pub fn on_quiet(&mut self, now: u64) -> (rebuild: bool)
        ensures
            (final(self).last_change, rebuild) == quiet_step(old(self).last_change, now),
    {
        match self.last_change {
            Some(t) => {
                let elapsed = if now >= t { now - t } else { 0 };
                if elapsed >= 500 {
                    self.last_change = None;
                    true
                } else {
                    false
                }
            },
            None => false,
        }
    }
}

} // verus!
