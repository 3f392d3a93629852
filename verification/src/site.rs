//! Site assembly: the order of the posts, pagination of the index, the
//! archive by year, the tag and category listings, and the text the search
//! index holds.
//!
//! Reading posts, rendering templates and writing the output directory is
//! the caller's part; it hands these functions plain values.

use vstd::prelude::*;
use crate::config::{path_join, path_join_spec};
use crate::post::{date_ymd_spec, format_date_ymd, DateTime, Post};
use crate::render::rewrite::{contains_spec, contains_str, replace_spec, replace_str, rewrite_all, rewrite_from, TagStrip};
use crate::render::PostHtml;
use crate::text::{chars_of, has_at, push_char, decimal, push_decimal, push_str, string_of_range, trim_seq, trim_range};

verus! {

// ---------------------------------------------------------------- ordering posts

/// `a` is earlier than `b` (date first, then time of day).
pub open spec fn date_lt(a: DateTime, b: DateTime) -> bool {
    if a.year != b.year {
        a.year < b.year
    } else if a.month != b.month {
        a.month < b.month
    } else if a.day != b.day {
        a.day < b.day
    } else if a.hour != b.hour {
        a.hour < b.hour
    } else if a.minute != b.minute {
        a.minute < b.minute
    } else {
        a.second < b.second
    }
}

pub fn date_before(a: &DateTime, b: &DateTime) -> (r: bool)
    ensures
        r == date_lt(*a, *b),
{
    if a.year != b.year {
        a.year < b.year
    } else if a.month != b.month {
        a.month < b.month
    } else if a.day != b.day {
        a.day < b.day
    } else if a.hour != b.hour {
        a.hour < b.hour
    } else if a.minute != b.minute {
        a.minute < b.minute
    } else {
        a.second < b.second
    }
}

/// Where a post goes in a list ordered newest first: before the first post
/// older than it, after every post of its date or newer.
pub open spec fn insert_pos(s: Seq<Post>, date: DateTime, k: int) -> int
    decreases s.len() - k,
{
    if k < 0 || k >= s.len() {
        s.len() as int
    } else if date_lt(s[k].frontmatter.date, date) {
        k
    } else {
        insert_pos(s, date, k + 1)
    }
}

pub proof fn lemma_insert_pos(s: Seq<Post>, date: DateTime, k: int)
    requires
        0 <= k <= s.len(),
    ensures
        k <= insert_pos(s, date, k) <= s.len(),
        forall|j: int| k <= j < insert_pos(s, date, k) ==> !date_lt(s[j].frontmatter.date, date),
        insert_pos(s, date, k) < s.len() ==> date_lt(s[insert_pos(s, date, k)].frontmatter.date, date),
    decreases s.len() - k,
{
    if k < s.len() && !date_lt(s[k].frontmatter.date, date) {
        lemma_insert_pos(s, date, k + 1);
    }
}

/// The posts newest first; posts of the same date keep their order.
pub open spec fn sort_by_date_spec(s: Seq<Post>) -> Seq<Post>
    decreases s.len(),
{
    if s.len() == 0 {
        s
    } else {
        let r = sort_by_date_spec(s.drop_last());
        r.insert(insert_pos(r, s.last().frontmatter.date, 0), s.last())
    }
}

/// Sorts posts newest first (a stable sort: posts of the same date keep
/// the order they came in).
pub fn sort_posts_by_date(posts: Vec<Post>) -> (r: Vec<Post>)
    ensures
        r@ == sort_by_date_spec(posts@),
{
    let ghost orig = posts@;
    let mut rest = posts;
    let mut out: Vec<Post> = Vec::new();
    let mut taken: usize = 0;
    let total = rest.len();
    assert(orig.subrange(0, 0) =~= Seq::<Post>::empty());
    while rest.len() > 0
        invariant
            total == orig.len(),
            taken + rest@.len() == total,
            rest@ == orig.subrange(taken as int, total as int),
            out@ == sort_by_date_spec(orig.subrange(0, taken as int)),
        decreases rest@.len(),
    {
        let post = rest.remove(0);
        let mut k: usize = 0;
        proof {
            lemma_insert_pos(out@, post.frontmatter.date, 0);
        }
        while k < out.len() && !date_before(&out[k].frontmatter.date, &post.frontmatter.date)
            invariant
                k <= out@.len(),
                insert_pos(out@, post.frontmatter.date, 0) == insert_pos(out@, post.frontmatter.date, k as int),
            decreases out@.len() - k,
        {
            k = k + 1;
        }
        proof {
            let next = orig.subrange(0, taken + 1);
            assert(next.drop_last() =~= orig.subrange(0, taken as int));
            assert(next.last() == post);
        }
        out.insert(k, post);
        taken = taken + 1;
        assert(rest@ =~= orig.subrange(taken as int, total as int));
    }
    assert(orig.subrange(0, total as int) =~= orig);
    out
}

/// A post is newer than none of the posts before it.
pub open spec fn newest_first(s: Seq<Post>) -> bool {
    forall|i: int, j: int| 0 <= i < j < s.len() ==> !date_lt(#[trigger] s[i].frontmatter.date, #[trigger] s[j].frontmatter.date)
}

proof fn lemma_date_order(a: DateTime, b: DateTime, c: DateTime)
    ensures
        date_lt(a, b) && date_lt(b, c) ==> date_lt(a, c),
        !date_lt(a, b) && !date_lt(b, c) ==> !date_lt(a, c),
        date_lt(a, b) ==> !date_lt(b, a),
{
}

/// Sorting orders the posts newest first and keeps every post: the same
/// posts, as many times each.
pub proof fn lemma_sort_by_date(s: Seq<Post>)
    ensures
        newest_first(sort_by_date_spec(s)),
        sort_by_date_spec(s).to_multiset() == s.to_multiset(),
        sort_by_date_spec(s).len() == s.len(),
    decreases s.len(),
{
    broadcast use vstd::seq_lib::to_multiset_insert, vstd::seq_lib::to_multiset_build;
    if s.len() > 0 {
        let r = sort_by_date_spec(s.drop_last());
        lemma_sort_by_date(s.drop_last());
        let p = s.last();
        let d = p.frontmatter.date;
        let k = insert_pos(r, d, 0);
        lemma_insert_pos(r, d, 0);
        let t = r.insert(k, p);
        assert(s =~= s.drop_last().push(p));
        assert forall|i: int, j: int| 0 <= i < j < t.len() implies !date_lt(#[trigger] t[i].frontmatter.date, #[trigger] t[j].frontmatter.date) by {
            if j < k {
                assert(t[i] == r[i] && t[j] == r[j]);
            } else if j == k {
                assert(t[i] == r[i]);
            } else if i == k {
                assert(t[j] == r[j - 1]);
                assert(date_lt(r[k].frontmatter.date, d));
                if j - 1 > k {
                    lemma_date_order(r[j - 1].frontmatter.date, r[k].frontmatter.date, d);
                }
                lemma_date_order(d, r[j - 1].frontmatter.date, r[k].frontmatter.date);
            } else if i < k {
                assert(t[i] == r[i] && t[j] == r[j - 1]);
            } else {
                assert(t[i] == r[i - 1] && t[j] == r[j - 1]);
            }
        }
    }
}

/// Sorted posts run from the newest to the oldest by their full date and
/// time: a post never has a later (year, month, day, hour, minute, second),
/// compared field by field in that order, than any post before it.
pub proof fn lemma_sorted_by_full_date(s: Seq<Post>)
    ensures
        forall|i: int, j: int| 0 <= i < j < sort_by_date_spec(s).len() ==> {
            let a = (#[trigger] sort_by_date_spec(s)[i]).frontmatter.date;
            let b = (#[trigger] sort_by_date_spec(s)[j]).frontmatter.date;
            !(b.year > a.year
                || (b.year == a.year && b.month > a.month)
                || (b.year == a.year && b.month == a.month && b.day > a.day)
                || (b.year == a.year && b.month == a.month && b.day == a.day && b.hour > a.hour)
                || (b.year == a.year && b.month == a.month && b.day == a.day && b.hour == a.hour && b.minute > a.minute)
                || (b.year == a.year && b.month == a.month && b.day == a.day && b.hour == a.hour && b.minute == a.minute
                    && b.second > a.second))
        },
{
    lemma_sort_by_date(s);
    let r = sort_by_date_spec(s);
    assert forall|i: int, j: int| 0 <= i < j < r.len() implies {
        let a = (#[trigger] r[i]).frontmatter.date;
        let b = (#[trigger] r[j]).frontmatter.date;
        !(b.year > a.year
            || (b.year == a.year && b.month > a.month)
            || (b.year == a.year && b.month == a.month && b.day > a.day)
            || (b.year == a.year && b.month == a.month && b.day == a.day && b.hour > a.hour)
            || (b.year == a.year && b.month == a.month && b.day == a.day && b.hour == a.hour && b.minute > a.minute)
            || (b.year == a.year && b.month == a.month && b.day == a.day && b.hour == a.hour && b.minute == a.minute
                && b.second > a.second))
    } by {
        assert(!date_lt(r[i].frontmatter.date, r[j].frontmatter.date));
    }
}

/// Sorting is stable: the posts of any one date come out in the order they
/// came in.
pub proof fn lemma_sort_stable(s: Seq<Post>, d: DateTime)
    ensures
        sort_by_date_spec(s).filter(|p: Post| p.frontmatter.date == d) == s.filter(|p: Post| p.frontmatter.date == d),
    decreases s.len(),
{
    let f = |p: Post| p.frontmatter.date == d;
    if s.len() == 0 {
        assert(sort_by_date_spec(s) == s);
    } else {
        let r = sort_by_date_spec(s.drop_last());
        lemma_sort_stable(s.drop_last(), d);
        lemma_sort_by_date(s.drop_last());
        let p = s.last();
        let k = insert_pos(r, p.frontmatter.date, 0);
        lemma_insert_pos(r, p.frontmatter.date, 0);
        let t = r.insert(k, p);
        let lo = r.subrange(0, k);
        let hi = r.subrange(k, r.len() as int);
        assert(t =~= lo + seq![p] + hi);
        assert(r =~= lo + hi);
        assert(s =~= s.drop_last().push(p));
        s.drop_last().lemma_filter_push(p, f);
        Seq::filter_distributes_over_add(lo + seq![p], hi, f);
        Seq::filter_distributes_over_add(lo, seq![p], f);
        Seq::filter_distributes_over_add(lo, hi, f);
        r.lemma_filter_push(p, f);
        assert(seq![p] =~= Seq::<Post>::empty().push(p));
        Seq::<Post>::empty().lemma_filter_push(p, f);
        assert(Seq::<Post>::empty().filter(f) =~= Seq::<Post>::empty());
        if f(p) {
            assert forall|j: int| 0 <= j < hi.len() implies !f(#[trigger] hi[j]) by {
                assert(hi[j] == r[k + j]);
                assert(date_lt(r[k].frontmatter.date, p.frontmatter.date));
                if j > 0 {
                    assert(!date_lt(r[k].frontmatter.date, r[k + j].frontmatter.date));
                }
            }
            hi.lemma_all_neg_filter_empty(f);
            assert(hi.filter(f) =~= Seq::<Post>::empty());
            assert(t.filter(f) =~= lo.filter(f) + seq![p].filter(f) + hi.filter(f));
            assert(seq![p].filter(f) =~= seq![p]);
            assert(t.filter(f) =~= r.filter(f).push(p));
        } else {
            assert(seq![p].filter(f) =~= Seq::<Post>::empty());
            assert(t.filter(f) =~= lo.filter(f) + seq![p].filter(f) + hi.filter(f));
            assert(t.filter(f) =~= r.filter(f));
        }
    }
}

// ---------------------------------------------------------------- pagination

/// Pages of the index: enough for every post, and at least one.
pub open spec fn page_count_spec(n: nat, per_page: nat) -> nat {
    if per_page == 0 || n == 0 { 1 } else { ((n + per_page - 1) / (per_page as int)) as nat }
}

pub fn page_count(n_posts: usize, per_page: usize) -> (r: usize)
    requires
        per_page > 0 || n_posts == 0,
    ensures
        r == page_count_spec(n_posts as nat, per_page as nat),
{
    if n_posts == 0 {
        1
    } else {
        let q = n_posts / per_page;
        let r = n_posts % per_page;
        proof {
            lemma_ceil_div(n_posts as nat, per_page as nat);
        }
        if r == 0 { q } else { q + 1 }
    }
}

proof fn lemma_ceil_div(n: nat, p: nat)
    requires
        p > 0,
    ensures
        (n + p - 1) / (p as int) == if n % p == 0 { n / p } else { n / p + 1 },
        n / p <= n,
        n % p != 0 ==> n / p < n,
{
    let q = n / p;
    let r = n % p;
    assert(n == q * p + r) by (nonlinear_arith)
        requires
            q == n / p,
            r == n % p,
            p > 0,
    ;
    assert(q <= n) by (nonlinear_arith)
        requires
            q == n / p,
            p > 0,
    ;
    if r != 0 {
        assert(q < n) by (nonlinear_arith)
            requires
                n == q * p + r,
                0 < r < p,
        ;
    }
    if r == 0 {
        assert((n + p - 1) / (p as int) == q) by (nonlinear_arith)
            requires
                n == q * p,
                p > 0,
        ;
    } else {
        assert((n + p - 1) / (p as int) == q + 1) by (nonlinear_arith)
            requires
                n == q * p + r,
                0 < r < p,
        ;
    }
}

/// One page of the index.
pub struct IndexPage {
    /// The posts on the page are those at `start..end`.
    pub start: usize,
    pub end: usize,
    /// The page's number, counting from 1.
    pub current: usize,
    pub total_pages: usize,
    /// Links to the newer and older pages, where there are such.
    pub prev: Option<String>,
    pub next: Option<String>,
    /// Where the page is written: the output directory for the first page,
    /// `page/N` under it for page `N`.
    pub dir: String,
}

pub open spec fn page_link(n: nat) -> Seq<char> {
    "/page/"@ + decimal(n) + "/"@
}

pub open spec fn opt_text(o: Option<String>) -> Option<Seq<char>> {
    match o {
        Some(s) => Some(s@),
        None => None,
    }
}

fn page_link_exec(n: usize) -> (r: String)
    ensures
        r@ == page_link(n as nat),
{
    let mut out = String::new();
    push_str(&mut out, "/page/");
    push_decimal(&mut out, n);
    push_str(&mut out, "/");
    out
}

/// Page `page` (counting from 0) of an index of `n_posts` posts with
/// `per_page` posts a page.
pub fn index_page(n_posts: usize, per_page: usize, page: usize, output_dir: &str) -> (r: IndexPage)
    requires
        per_page > 0 || n_posts == 0,
        page < page_count_spec(n_posts as nat, per_page as nat),
    ensures
        r.start == page * per_page,
        r.end == if page * per_page + per_page <= n_posts { page * per_page + per_page } else { n_posts as int },
        r.start <= r.end <= n_posts,
        r.current == page + 1,
        r.total_pages == page_count_spec(n_posts as nat, per_page as nat),
        opt_text(r.prev) == if page > 1 { Some(page_link(page as nat)) } else if page == 1 { Some("/"@) } else { None },
        opt_text(r.next) == if page + 1 < r.total_pages { Some(page_link((page + 2) as nat)) } else { None },
        r.dir@ == if page == 0 {
            output_dir@
        } else {
            path_join_spec(path_join_spec(output_dir@, "page"@), decimal((page + 1) as nat))
        },
{
    let total = page_count(n_posts, per_page);
    proof {
        if per_page > 0 {
            lemma_page_start(n_posts as nat, per_page as nat, page as nat);
        } else {
            assert(page == 0);
            assert(page * per_page == 0);
        }
    }
    let start = page * per_page;
    let end = if n_posts - start >= per_page { start + per_page } else { n_posts };
    let prev = if page > 1 {
        Some(page_link_exec(page))
    } else if page == 1 {
        Some("/".to_string())
    } else {
        None
    };
    let next = if page + 1 < total { Some(page_link_exec(page + 2)) } else { None };
    let dir = if page == 0 {
        output_dir.to_string()
    } else {
        let base = path_join(output_dir, "page");
        let mut num = String::new();
        push_decimal(&mut num, page + 1);
        path_join(base.as_str(), num.as_str())
    };
    IndexPage { start, end, current: page + 1, total_pages: total, prev, next, dir }
}

proof fn lemma_page_start(n: nat, p: nat, page: nat)
    requires
        p > 0,
        page < page_count_spec(n, p),
    ensures
        page * p <= n,
        n > 0 ==> page * p < n,
{
    if n > 0 {
        lemma_ceil_div(n, p);
        let q = n / p;
        let r = n % p;
        assert(n == q * p + r) by (nonlinear_arith)
            requires
                q == n / p,
                r == n % p,
                p > 0,
        ;
        if r == 0 {
            assert(page < q);
            assert(page * p < n) by (nonlinear_arith)
                requires
                    page < q,
                    n == q * p,
                    p > 0,
            ;
        } else {
            assert(page <= q);
            assert(page * p < n) by (nonlinear_arith)
                requires
                    page <= q,
                    n == q * p + r,
                    r > 0,
            ;
        }
    } else {
        assert(page == 0);
        assert(page * p == 0) by (nonlinear_arith)
            requires
                page == 0,
        ;
    }
}

/// The index pages split the posts: each page starts where the one before
/// ends, the first at the first post and the last at the end, and no page
/// is empty unless there are no posts.
pub proof fn lemma_pages_partition(n: nat, per_page: nat)
    requires
        per_page > 0,
    ensures
        ({
            let total = page_count_spec(n, per_page);
            &&& total >= 1
            &&& (total - 1) * per_page <= n <= total * per_page
            &&& n > 0 ==> (total - 1) * per_page < n
        }),
{
    let total = page_count_spec(n, per_page);
    if n > 0 {
        lemma_ceil_div(n, per_page);
        let q = n / per_page;
        let r = n % per_page;
        assert(n == q * per_page + r) by (nonlinear_arith)
            requires
                q == n / per_page,
                r == n % per_page,
                per_page > 0,
        ;
        if r == 0 {
            assert(q >= 1) by (nonlinear_arith)
                requires
                    n == q * per_page,
                    n > 0,
            ;
            assert((q - 1) * per_page < n) by (nonlinear_arith)
                requires
                    n == q * per_page,
                    q >= 1,
                    per_page > 0,
            ;
        } else {
            assert((q + 1) * per_page >= n) by (nonlinear_arith)
                requires
                    n == q * per_page + r,
                    r < per_page,
            ;
            assert(q * per_page < n);
        }
    }
}

/// The neighbours of post `i` among `n_posts` posts sorted newest first:
/// the older post just after it (the "previous" link) and the newer post
/// just before it (the "next" link), where there are such.
pub fn post_neighbours(n_posts: usize, i: usize) -> (r: (Option<usize>, Option<usize>))
    requires
        i < n_posts,
    ensures
        r.0 == (if i + 1 < n_posts { Some((i + 1) as usize) } else { None::<usize> }),
        r.1 == (if i > 0 { Some((i - 1) as usize) } else { None::<usize> }),
{
    let older = if i + 1 < n_posts { Some(i + 1) } else { None };
    let newer = if i > 0 { Some(i - 1) } else { None };
    (older, newer)
}

// ---------------------------------------------------------------- page details

/// A post uses mermaid diagrams when its body has a mermaid code fence.
pub fn uses_mermaid(body: &str) -> (b: bool)
    ensures
        b == contains_spec(body@, "```mermaid"@),
{
    contains_str(body, "```mermaid")
}

/// An excerpt needs the math stylesheet when it holds KaTeX output.
pub fn has_katex(html: &str) -> (b: bool)
    ensures
        b == contains_spec(html@, "class=\"katex\""@),
{
    contains_str(html, "class=\"katex\"")
}

/// The address of a post from its permalink.
pub fn post_url(permalink: &str) -> (r: String)
    ensures
        r@ == seq!['/'] + permalink@,
{
    let mut out = String::new();
    push_str(&mut out, "/");
    push_str(&mut out, permalink);
    proof {
        reveal_strlit("/");
    }
    assert(out@ =~= seq!['/'] + permalink@);
    out
}

/// Decoding of `&amp;`, `&lt;`, `&gt;` and `&quot;` from index `i` on, in
/// one pass from left to right: what a decoded entity gives is not read
/// again, and every other character is kept.
pub open spec fn decode_basic_from(s: Seq<char>, i: int) -> Seq<char>
    decreases s.len() - i,
{
    if i < 0 || i >= s.len() {
        Seq::empty()
    } else if i + 5 <= s.len() && s.subrange(i, i + 5) == "&amp;"@ {
        seq!['&'] + decode_basic_from(s, i + 5)
    } else if i + 4 <= s.len() && s.subrange(i, i + 4) == "&lt;"@ {
        seq!['<'] + decode_basic_from(s, i + 4)
    } else if i + 4 <= s.len() && s.subrange(i, i + 4) == "&gt;"@ {
        seq!['>'] + decode_basic_from(s, i + 4)
    } else if i + 6 <= s.len() && s.subrange(i, i + 6) == "&quot;"@ {
        seq!['"'] + decode_basic_from(s, i + 6)
    } else {
        seq![s[i]] + decode_basic_from(s, i + 1)
    }
}

/// The text of HTML for the search index: tags removed, then the entities
/// `&amp;`, `&lt;`, `&gt;`, `&quot;` each decoded once.
pub open spec fn strip_html_tags_spec(html: Seq<char>) -> Seq<char> {
    decode_basic_from(rewrite_from(TagStrip { min_inner: 0 }, html, 0), 0)
}

/// Remove HTML tags and decode common entities, used for search index text.
pub fn strip_html_tags(html: &str) -> (r: String)
    ensures
        r@ == strip_html_tags_spec(html@),
{
    proof {
        reveal_strlit("&amp;");
        reveal_strlit("&lt;");
        reveal_strlit("&gt;");
        reveal_strlit("&quot;");
    }
    let text = rewrite_all(&TagStrip { min_inner: 0 }, html);
    let cs = chars_of(text.as_str());
    let n = cs.len();
    let mut out = String::new();
    let mut i: usize = 0;
    assert(out@ + decode_basic_from(cs@, 0) =~= decode_basic_from(cs@, 0));
    while i < n
        invariant
            n == cs@.len(),
            i <= n,
            out@ + decode_basic_from(cs@, i as int) == decode_basic_from(cs@, 0),
        decreases n - i,
    {
        let ghost before = out@;
        let ghost i0 = i as int;
        proof {
            reveal_strlit("&amp;");
            reveal_strlit("&lt;");
            reveal_strlit("&gt;");
            reveal_strlit("&quot;");
        }
        if has_at(&cs, i, "&amp;") {
            push_char(&mut out, '&');
            i = i + 5;
        } else if has_at(&cs, i, "&lt;") {
            push_char(&mut out, '<');
            i = i + 4;
        } else if has_at(&cs, i, "&gt;") {
            push_char(&mut out, '>');
            i = i + 4;
        } else if has_at(&cs, i, "&quot;") {
            push_char(&mut out, '"');
            i = i + 6;
        } else {
            push_char(&mut out, cs[i]);
            i = i + 1;
        }
        assert(out@ + decode_basic_from(cs@, i as int) =~= before + decode_basic_from(cs@, i0));
    }
    out
}

// ---------------------------------------------------------------- archive

/// Text order (`str`'s `Ord`): by code points, a prefix first.
pub open spec fn text_lt(a: Seq<char>, b: Seq<char>) -> bool
    decreases a.len(),
{
    if a.len() == 0 {
        b.len() > 0
    } else if b.len() == 0 {
        false
    } else if a[0] != b[0] {
        a[0] < b[0]
    } else {
        text_lt(a.drop_first(), b.drop_first())
    }
}

pub proof fn lemma_text_lt_irreflexive(a: Seq<char>)
    ensures
        !text_lt(a, a),
    decreases a.len(),
{
    if a.len() > 0 {
        lemma_text_lt_irreflexive(a.drop_first());
    }
}

pub proof fn lemma_text_lt_transitive(a: Seq<char>, b: Seq<char>, c: Seq<char>)
    requires
        text_lt(a, b),
        text_lt(b, c),
    ensures
        text_lt(a, c),
    decreases a.len(),
{
    if a.len() > 0 && b.len() > 0 && c.len() > 0 && a[0] == b[0] && b[0] == c[0] {
        lemma_text_lt_transitive(a.drop_first(), b.drop_first(), c.drop_first());
    }
}

pub proof fn lemma_text_lt_total(a: Seq<char>, b: Seq<char>)
    ensures
        a == b || text_lt(a, b) || text_lt(b, a),
    decreases a.len(),
{
    if a.len() == 0 && b.len() == 0 {
        assert(a =~= b);
    } else if a.len() > 0 && b.len() > 0 && a[0] == b[0] {
        lemma_text_lt_total(a.drop_first(), b.drop_first());
        if a.drop_first() == b.drop_first() {
            assert(a =~= seq![a[0]] + a.drop_first());
            assert(b =~= seq![b[0]] + b.drop_first());
        }
    }
}

pub fn text_less(a: &str, b: &str) -> (r: bool)
    ensures
        r == text_lt(a@, b@),
{
    let ac = chars_of(a);
    let bc = chars_of(b);
    let mut k: usize = 0;
    assert(ac@.subrange(0, ac@.len() as int) =~= ac@);
    assert(bc@.subrange(0, bc@.len() as int) =~= bc@);
    while k < ac.len() && k < bc.len() && ac[k] == bc[k]
        invariant
            k <= ac@.len() && k <= bc@.len(),
            text_lt(ac@, bc@) == text_lt(ac@.subrange(k as int, ac@.len() as int), bc@.subrange(k as int, bc@.len() as int)),
        decreases ac@.len() - k,
    {
        proof {
            let sa = ac@.subrange(k as int, ac@.len() as int);
            let sb = bc@.subrange(k as int, bc@.len() as int);
            assert(sa.drop_first() =~= ac@.subrange(k + 1, ac@.len() as int));
            assert(sb.drop_first() =~= bc@.subrange(k + 1, bc@.len() as int));
        }
        k = k + 1;
    }
    proof {
        let sa = ac@.subrange(k as int, ac@.len() as int);
        let sb = bc@.subrange(k as int, bc@.len() as int);
        if k < ac@.len() && k < bc@.len() {
            assert(sa[0] == ac@[k as int] && sb[0] == bc@[k as int]);
        }
    }
    if k == ac.len() {
        k < bc.len()
    } else if k == bc.len() {
        false
    } else {
        ac[k] < bc[k]
    }
}

/// The year a post is archived under: the first four characters of its
/// `YYYY-MM-DD` date.
pub open spec fn archive_year(date: DateTime) -> Seq<char> {
    crate::post::year_text(date.year as int).subrange(0, 4)
}

/// The indices below `k` of the posts archived under `year`, in order.
pub open spec fn posts_of_year(dates: Seq<DateTime>, year: Seq<char>, k: int) -> Seq<usize>
    decreases k,
{
    if k <= 0 {
        Seq::empty()
    } else {
        let r = posts_of_year(dates, year, k - 1);
        if archive_year(dates[k - 1]) == year { r.push((k - 1) as usize) } else { r }
    }
}

/// One year of the archive: the year and the indices of its posts.
pub struct ArchiveYear {
    pub year: String,
    pub posts: Vec<usize>,
}

proof fn lemma_year_text_len(y: int)
    ensures
        crate::post::year_text(y).len() >= 4,
{
}

fn archive_year_exec(date: &DateTime) -> (r: String)
    ensures
        r@ == archive_year(*date),
{
    let y = crate::post::year_string(date.year);
    proof {
        lemma_year_text_len(date.year as int);
    }
    let cs = chars_of(y.as_str());
    string_of_range(&cs, 0, 4)
}

pub open spec fn texts(v: Seq<String>) -> Seq<Seq<char>> {
    v.map_values(|s: String| s@)
}

/// Each text comes after the ones that follow it.
pub open spec fn strictly_descending(ys: Seq<Seq<char>>) -> bool {
    forall|i: int, j: int| 0 <= i < j < ys.len() ==> text_lt(#[trigger] ys[j], #[trigger] ys[i])
}

/// Inserts `y` into a list ordered strictly descending, unless it is there.
fn insert_descending(years: &mut Vec<String>, y: String)
    requires
        strictly_descending(texts(old(years)@)),
    ensures
        strictly_descending(texts(final(years)@)),
        texts(final(years)@).to_set() == texts(old(years)@).to_set().insert(y@),
{
    let ghost old_ys = texts(years@);
    let mut j: usize = 0;
    while j < years.len() && text_less(y.as_str(), years[j].as_str())
        invariant
            j <= years@.len(),
            old_ys == texts(years@),
            forall|i: int| 0 <= i < j ==> text_lt(y@, #[trigger] old_ys[i]),
        decreases years@.len() - j,
    {
        j = j + 1;
    }
    if j < years.len() && str_eq_text(y.as_str(), years[j].as_str()) {
        proof {
            assert(old_ys[j as int] == y@);
            assert(old_ys.to_set().insert(y@) =~= old_ys.to_set());
        }
        return;
    }
    proof {
        if j < old_ys.len() {
            lemma_text_lt_total(y@, old_ys[j as int]);
        }
    }
    let ghost yv = y@;
    years.insert(j, y);
    proof {
        let ys = texts(years@);
        assert(ys =~= old_ys.insert(j as int, yv));
        assert forall|a: int, b: int| 0 <= a < b < ys.len() implies text_lt(#[trigger] ys[b], #[trigger] ys[a]) by {
            if b < j {
            } else if b == j {
            } else if a == j {
                if b - 1 > j {
                    lemma_text_lt_transitive(old_ys[b - 1], old_ys[j as int], yv);
                }
            } else if a < j {
            } else {
            }
        }
        assert forall|x: Seq<char>| ys.to_set().contains(x) <==> old_ys.to_set().insert(yv).contains(x) by {
            if ys.contains(x) {
                let i = choose|i: int| 0 <= i < ys.len() && ys[i] == x;
                if i < j {
                    assert(old_ys[i] == x);
                } else if i > j {
                    assert(old_ys[i - 1] == x);
                }
            }
            if old_ys.contains(x) {
                let i = choose|i: int| 0 <= i < old_ys.len() && old_ys[i] == x;
                if i < j {
                    assert(ys[i] == x);
                } else {
                    assert(ys[i + 1] == x);
                }
            }
            if x == yv {
                assert(ys[j as int] == x);
            }
        }
        assert(ys.to_set() =~= old_ys.to_set().insert(yv));
    }
}

/// The years of the first `k` posts.
pub open spec fn years_of(dates: Seq<DateTime>, k: int) -> Set<Seq<char>> {
    Set::new(|y: Seq<char>| exists|m: int| 0 <= m < k && archive_year(dates[m]) == y)
}

/// The archive: each year that has posts, newest year first (in text
/// order, as the years are written), with its posts in the order given.
pub fn archive_by_year(dates: &Vec<DateTime>) -> (r: Vec<ArchiveYear>)
    ensures
        strictly_descending(r@.map_values(|a: ArchiveYear| a.year@)),
        r@.map_values(|a: ArchiveYear| a.year@).to_set() == years_of(dates@, dates@.len() as int),
        forall|i: int| 0 <= i < r@.len() ==> (#[trigger] r@[i]).posts@ == posts_of_year(dates@, r@[i].year@, dates@.len() as int),
        forall|i: int| 0 <= i < r@.len() ==> (#[trigger] r@[i]).posts@.len() > 0,
{
    let n = dates.len();
    let mut years: Vec<String> = Vec::new();
    let mut k: usize = 0;
    assert(texts(years@).to_set() =~= years_of(dates@, 0));
    while k < n
        invariant
            n == dates@.len(),
            k <= n,
            strictly_descending(texts(years@)),
            texts(years@).to_set() == years_of(dates@, k as int),
        decreases n - k,
    {
        let y = archive_year_exec(&dates[k]);
        let ghost yv = y@;
        insert_descending(&mut years, y);
        proof {
            assert(years_of(dates@, k + 1) =~= years_of(dates@, k as int).insert(yv));
        }
        k = k + 1;
    }
    let ghost ys = texts(years@);
    let mut out: Vec<ArchiveYear> = Vec::new();
    let mut i: usize = 0;
    while i < years.len()
        invariant
            n == dates@.len(),
            i <= years@.len(),
            ys == texts(years@),
            ys.to_set() == years_of(dates@, n as int),
            out@.len() == i,
            forall|a: int| 0 <= a < i ==> (#[trigger] out@[a]).year@ == ys[a],
            forall|a: int| 0 <= a < i ==> (#[trigger] out@[a]).posts@ == posts_of_year(dates@, out@[a].year@, n as int),
            forall|a: int| 0 <= a < i ==> (#[trigger] out@[a]).posts@.len() > 0,
        decreases years@.len() - i,
    {
        let year = years[i].clone();
        let posts = posts_with_year(dates, year.as_str());
        proof {
            assert(ys.contains(ys[i as int]));
            assert(ys.to_set().contains(ys[i as int]));
            let m = choose|m: int| 0 <= m < n && archive_year(dates@[m]) == ys[i as int];
            lemma_posts_of_year_contains(dates@, year@, n as int, m);
        }
        out.push(ArchiveYear { year, posts });
        i = i + 1;
    }
    assert(out@.map_values(|a: ArchiveYear| a.year@) =~= ys);
    out
}

proof fn lemma_posts_of_year_contains(dates: Seq<DateTime>, year: Seq<char>, k: int, m: int)
    requires
        0 <= m < k <= dates.len(),
        archive_year(dates[m]) == year,
    ensures
        posts_of_year(dates, year, k).len() > 0,
    decreases k,
{
    if m < k - 1 {
        lemma_posts_of_year_contains(dates, year, k - 1, m);
    }
}

fn posts_with_year(dates: &Vec<DateTime>, year: &str) -> (r: Vec<usize>)
    ensures
        r@ == posts_of_year(dates@, year@, dates@.len() as int),
{
    let mut out: Vec<usize> = Vec::new();
    let mut k: usize = 0;
    while k < dates.len()
        invariant
            k <= dates@.len(),
            out@ == posts_of_year(dates@, year@, k as int),
        decreases dates@.len() - k,
    {
        let y = archive_year_exec(&dates[k]);
        if str_eq_text(y.as_str(), year) {
            out.push(k);
        }
        k = k + 1;
    }
    out
}

fn str_eq_text(a: &str, b: &str) -> (r: bool)
    ensures
        r == (a@ == b@),
{
    crate::render::wechat::str_eq(a, b)
}

// ---------------------------------------------------------------- tags and categories

/// A tag or category with the posts that carry it (one entry per time a
/// post lists it); its count is the number of entries.
pub struct TermListing {
    pub term: String,
    pub posts: Vec<usize>,
}

pub open spec fn listing_view(v: Seq<TermListing>) -> Seq<(Seq<char>, Seq<usize>)> {
    v.map_values(|e: TermListing| (e.term@, e.posts@))
}

/// Index of the entry for `t`.
pub open spec fn term_index(listing: Seq<(Seq<char>, Seq<usize>)>, t: Seq<char>, i: int) -> Option<int>
    decreases listing.len() - i,
{
    if i < 0 || i >= listing.len() {
        None
    } else if listing[i].0 == t {
        Some(i)
    } else {
        term_index(listing, t, i + 1)
    }
}

pub proof fn lemma_term_index(listing: Seq<(Seq<char>, Seq<usize>)>, t: Seq<char>, i: int)
    requires
        0 <= i,
    ensures
        term_index(listing, t, i) matches Some(j) ==> i <= j < listing.len() && listing[j].0 == t,
        term_index(listing, t, i) is None ==> forall|j: int| i <= j < listing.len() ==> listing[j].0 != t,
    decreases listing.len() - i,
{
    if i < listing.len() && listing[i].0 != t {
        lemma_term_index(listing, t, i + 1);
    }
}

/// Post `k` lists the term `t`: blank terms are skipped, a known term gets
/// the post added, a new one an entry at the end.
pub open spec fn add_term(listing: Seq<(Seq<char>, Seq<usize>)>, k: usize, t: Seq<char>) -> Seq<(Seq<char>, Seq<usize>)> {
    if trim_seq(t).len() == 0 {
        listing
    } else {
        match term_index(listing, t, 0) {
            Some(i) => listing.update(i, (t, listing[i].1.push(k))),
            None => listing.push((t, seq![k])),
        }
    }
}

pub open spec fn add_terms(listing: Seq<(Seq<char>, Seq<usize>)>, k: usize, ts: Seq<Seq<char>>) -> Seq<(Seq<char>, Seq<usize>)>
    decreases ts.len(),
{
    if ts.len() == 0 {
        listing
    } else {
        add_term(add_terms(listing, k, ts.drop_last()), k, ts.last())
    }
}

/// The listing of the terms of posts `0..lists.len()`: terms in the order
/// they first appear.
pub open spec fn term_listing(lists: Seq<Seq<Seq<char>>>) -> Seq<(Seq<char>, Seq<usize>)>
    decreases lists.len(),
{
    if lists.len() == 0 {
        Seq::empty()
    } else {
        add_terms(term_listing(lists.drop_last()), (lists.len() - 1) as usize, lists.last())
    }
}

pub open spec fn lists_view(lists: Seq<Vec<String>>) -> Seq<Seq<Seq<char>>> {
    lists.map_values(|v: Vec<String>| texts(v@))
}

fn is_blank(s: &str) -> (b: bool)
    ensures
        b == (trim_seq(s@).len() == 0),
{
    let cs = chars_of(s);
    let (a, z) = trim_range(&cs);
    a == z
}

/// Adds term `t` of post `k` to the listing.
fn add_term_exec(out: &mut Vec<TermListing>, k: usize, t: &String)
    ensures
        listing_view(final(out)@) == add_term(listing_view(old(out)@), k, t@),
{
    if is_blank(t.as_str()) {
        return;
    }
    let ghost lv = listing_view(out@);
    let mut i: usize = 0;
    while i < out.len()
        invariant
            i <= out@.len(),
            lv == listing_view(out@),
            lv == listing_view(old(out)@),
            trim_seq(t@).len() != 0,
            term_index(lv, t@, 0) == term_index(lv, t@, i as int),
        decreases out@.len() - i,
    {
        if crate::render::wechat::str_eq(out[i].term.as_str(), t.as_str()) {
            let mut e = out.remove(i);
            e.posts.push(k);
            out.insert(i, e);
            proof {
                assert(lv[i as int].0 == t@);
                assert(term_index(lv, t@, i as int) == Some(i as int));
                assert(listing_view(out@) =~= lv.update(i as int, (t@, lv[i as int].1.push(k))));
            }
            return;
        }
        i = i + 1;
    }
    let mut posts: Vec<usize> = Vec::new();
    posts.push(k);
    let term = t.clone();
    assert(posts@ =~= seq![k]);
    out.push(TermListing { term, posts });
    proof {
        assert(listing_view(out@) =~= lv.push((t@, seq![k])));
    }
}

/// The tags (or categories) of the posts, each with the posts that carry it,
/// in the order the terms first appear; blank terms are left out.
pub fn list_terms(lists: &Vec<Vec<String>>) -> (r: Vec<TermListing>)
    ensures
        listing_view(r@) == term_listing(lists_view(lists@)),
{
    let ghost lv = lists_view(lists@);
    let mut out: Vec<TermListing> = Vec::new();
    let mut k: usize = 0;
    assert(lv.subrange(0, 0) =~= Seq::<Seq<Seq<char>>>::empty());
    assert(listing_view(out@) =~= Seq::<(Seq<char>, Seq<usize>)>::empty());
    while k < lists.len()
        invariant
            k <= lists@.len(),
            lv == lists_view(lists@),
            listing_view(out@) == term_listing(lv.subrange(0, k as int)),
        decreases lists@.len() - k,
    {
        let ts = &lists[k];
        let ghost before = listing_view(out@);
        let ghost tv = texts(ts@);
        let mut j: usize = 0;
        assert(tv.subrange(0, 0) =~= Seq::<Seq<char>>::empty());
        while j < ts.len()
            invariant
                j <= ts@.len(),
                tv == texts(ts@),
                listing_view(out@) == add_terms(before, k, tv.subrange(0, j as int)),
            decreases ts@.len() - j,
        {
            add_term_exec(&mut out, k, &ts[j]);
            proof {
                assert(tv.subrange(0, j + 1).drop_last() =~= tv.subrange(0, j as int));
            }
            j = j + 1;
        }
        proof {
            assert(tv.subrange(0, tv.len() as int) =~= tv);
            let next = lv.subrange(0, k + 1);
            assert(next.drop_last() =~= lv.subrange(0, k as int));
            assert(next.last() == tv);
        }
        k = k + 1;
    }
    assert(lv.subrange(0, lv.len() as int) =~= lv);
    out
}

/// The post `k` once for each time its terms `ts` list the non-blank `t`.
pub open spec fn term_hits(ts: Seq<Seq<char>>, k: usize, t: Seq<char>) -> Seq<usize>
    decreases ts.len(),
{
    if ts.len() == 0 {
        Seq::empty()
    } else {
        let r = term_hits(ts.drop_last(), k, t);
        if ts.last() == t && trim_seq(t).len() > 0 { r.push(k) } else { r }
    }
}

/// The posts listing the non-blank term `t`, once per listing, in order.
pub open spec fn term_occurrences(lists: Seq<Seq<Seq<char>>>, t: Seq<char>) -> Seq<usize>
    decreases lists.len(),
{
    if lists.len() == 0 {
        Seq::empty()
    } else {
        term_occurrences(lists.drop_last(), t) + term_hits(lists.last(), (lists.len() - 1) as usize, t)
    }
}

/// `listing` lists each term once, with the posts `posts_of` gives it, and
/// every term `posts_of` gives posts to.
pub open spec fn listing_matches(listing: Seq<(Seq<char>, Seq<usize>)>, posts_of: spec_fn(Seq<char>) -> Seq<usize>) -> bool {
    &&& forall|i: int, j: int| 0 <= i < j < listing.len() ==> #[trigger] listing[i].0 != #[trigger] listing[j].0
    &&& forall|i: int| 0 <= i < listing.len() ==> #[trigger] listing[i].1 == posts_of(listing[i].0) && listing[i].1.len() > 0
    &&& forall|t: Seq<char>| #[trigger] posts_of(t).len() > 0 ==> exists|i: int| 0 <= i < listing.len() && #[trigger] listing[i].0 == t
}

proof fn lemma_add_term(listing: Seq<(Seq<char>, Seq<usize>)>, posts_of: spec_fn(Seq<char>) -> Seq<usize>, k: usize, t: Seq<char>)
    requires
        listing_matches(listing, posts_of),
    ensures
        listing_matches(
            add_term(listing, k, t),
            |u: Seq<char>| if u == t && trim_seq(t).len() > 0 { posts_of(u).push(k) } else { posts_of(u) },
        ),
{
    let h = |u: Seq<char>| if u == t && trim_seq(t).len() > 0 { posts_of(u).push(k) } else { posts_of(u) };
    let next = add_term(listing, k, t);
    if trim_seq(t).len() == 0 {
        assert(h =~= posts_of);
    } else {
        lemma_term_index(listing, t, 0);
        match term_index(listing, t, 0) {
            Some(i) => {
                assert(next == listing.update(i, (t, listing[i].1.push(k))));
                assert forall|a: int, b: int| 0 <= a < b < next.len() implies #[trigger] next[a].0 != #[trigger] next[b].0 by {
                    assert(next[a].0 == listing[a].0 && next[b].0 == listing[b].0);
                }
                assert forall|j: int| 0 <= j < next.len() implies #[trigger] next[j].1 == h(next[j].0) && next[j].1.len() > 0 by {
                    if j != i {
                        assert(next[j] == listing[j]);
                        if j < i {
                            assert(listing[j].0 != listing[i].0);
                        } else {
                            assert(listing[i].0 != listing[j].0);
                        }
                    }
                }
                assert forall|u: Seq<char>| #[trigger] h(u).len() > 0 implies exists|j: int| 0 <= j < next.len() && #[trigger] next[j].0 == u by {
                    if u == t {
                        assert(next[i].0 == u);
                    } else {
                        assert(posts_of(u).len() > 0);
                        let j = choose|j: int| 0 <= j < listing.len() && #[trigger] listing[j].0 == u;
                        assert(next[j].0 == u);
                    }
                }
            },
            None => {
                assert(next == listing.push((t, seq![k])));
                assert(posts_of(t).len() == 0) by {
                    if posts_of(t).len() > 0 {
                        let j = choose|j: int| 0 <= j < listing.len() && #[trigger] listing[j].0 == t;
                        assert(false);
                    }
                }
                assert(h(t) =~= seq![k]);
                assert forall|a: int, b: int| 0 <= a < b < next.len() implies #[trigger] next[a].0 != #[trigger] next[b].0 by {
                    if b == listing.len() {
                        assert(next[a] == listing[a]);
                    } else {
                        assert(next[a] == listing[a] && next[b] == listing[b]);
                    }
                }
                assert forall|j: int| 0 <= j < next.len() implies #[trigger] next[j].1 == h(next[j].0) && next[j].1.len() > 0 by {
                    if j < listing.len() {
                        assert(next[j] == listing[j]);
                    }
                }
                assert forall|u: Seq<char>| #[trigger] h(u).len() > 0 implies exists|j: int| 0 <= j < next.len() && #[trigger] next[j].0 == u by {
                    if u == t {
                        assert(next[listing.len() as int].0 == u);
                    } else {
                        assert(posts_of(u).len() > 0);
                        let j = choose|j: int| 0 <= j < listing.len() && #[trigger] listing[j].0 == u;
                        assert(next[j].0 == u);
                    }
                }
            },
        }
    }
}

proof fn lemma_add_terms(listing: Seq<(Seq<char>, Seq<usize>)>, posts_of: spec_fn(Seq<char>) -> Seq<usize>, k: usize, ts: Seq<Seq<char>>)
    requires
        listing_matches(listing, posts_of),
    ensures
        listing_matches(add_terms(listing, k, ts), |u: Seq<char>| posts_of(u) + term_hits(ts, k, u)),
    decreases ts.len(),
{
    if ts.len() == 0 {
        let g = |u: Seq<char>| posts_of(u) + term_hits(ts, k, u);
        assert forall|u: Seq<char>| #[trigger] g(u) == posts_of(u) by {
            assert(posts_of(u) + Seq::<usize>::empty() =~= posts_of(u));
        }
        assert(g =~= posts_of);
    } else {
        let d = ts.drop_last();
        let t = ts.last();
        lemma_add_terms(listing, posts_of, k, d);
        let g = |u: Seq<char>| posts_of(u) + term_hits(d, k, u);
        lemma_add_term(add_terms(listing, k, d), g, k, t);
        let h = |u: Seq<char>| if u == t && trim_seq(t).len() > 0 { g(u).push(k) } else { g(u) };
        let want = |u: Seq<char>| posts_of(u) + term_hits(ts, k, u);
        assert forall|u: Seq<char>| #[trigger] h(u) == want(u) by {
            if u == t && trim_seq(t).len() > 0 {
                assert((posts_of(u) + term_hits(d, k, u)).push(k) =~= posts_of(u) + term_hits(d, k, u).push(k));
            }
        }
        assert(h =~= want);
    }
}

/// What the tag and category listings mean: every term is listed once, with
/// the posts that list it, once for each time they do, in order; every
/// non-blank term some post lists is listed.
pub proof fn lemma_term_listing(lists: Seq<Seq<Seq<char>>>)
    ensures
        listing_matches(term_listing(lists), |t: Seq<char>| term_occurrences(lists, t)),
    decreases lists.len(),
{
    if lists.len() == 0 {
        let f = |t: Seq<char>| term_occurrences(lists, t);
        assert(forall|t: Seq<char>| #[trigger] f(t).len() == 0);
    } else {
        let d = lists.drop_last();
        lemma_term_listing(d);
        let f = |t: Seq<char>| term_occurrences(d, t);
        lemma_add_terms(term_listing(d), f, (lists.len() - 1) as usize, lists.last());
        let g = |u: Seq<char>| f(u) + term_hits(lists.last(), (lists.len() - 1) as usize, u);
        let want = |t: Seq<char>| term_occurrences(lists, t);
        assert(g =~= want);
    }
}

} // verus!
