//! WeChat public account article cards: preview metadata, its cache, and the
//! parsing of article pages and cached cover images.
//!
//! Fetching pages and images, and reading or writing the cache file, is done
//! by the caller; this module decides when a fetch is needed and what a fetch
//! result does to the cache.

use vstd::prelude::*;
use crate::text::{
    chars_of, char_from_u32, char_from_u32_spec, find_char, find_char_from, first_occurrence,
    first_occurrence_exec, has_at, lemma_find_char_from, lemma_first_occurrence, lemma_skip_ws,
    lemma_trim_empty, lemma_trim_idempotent, skip_ws,
    parse_u32_radix, parse_u32_spec, push_char, push_str, slice_is, string_of_range, trim_range,
    trim_seq,
};
use crate::utils::{html_unescape, unescape_seq};

verus! {

/// Where cached card images are served from.
pub open spec fn card_asset_url_prefix() -> Seq<char> {
    "/wechat-previews/"@
}

/// Metadata of one article, as cached.
pub struct WechatPreview {
    pub title: String,
    pub description: String,
    pub account_name: String,
    pub cover_url: String,
    pub local_cover_url: String,
    pub cover_is_square: bool,
    pub thumbnail_url: String,
    pub local_thumbnail_url: String,
    pub thumbnail_is_square: bool,
    pub account_avatar_url: String,
    pub local_avatar_url: String,
    pub fetched_at: String,
}

impl WechatPreview {
    /// A preview with every text empty and both flags false.
    pub fn empty() -> (r: WechatPreview)
        ensures
            r.title@.len() == 0 && r.description@.len() == 0 && r.account_name@.len() == 0,
            r.cover_url@.len() == 0 && r.local_cover_url@.len() == 0 && !r.cover_is_square,
            r.thumbnail_url@.len() == 0 && r.local_thumbnail_url@.len() == 0 && !r.thumbnail_is_square,
            r.account_avatar_url@.len() == 0 && r.local_avatar_url@.len() == 0 && r.fetched_at@.len() == 0,
    {
        WechatPreview {
            title: String::new(),
            description: String::new(),
            account_name: String::new(),
            cover_url: String::new(),
            local_cover_url: String::new(),
            cover_is_square: false,
            thumbnail_url: String::new(),
            local_thumbnail_url: String::new(),
            thumbnail_is_square: false,
            account_avatar_url: String::new(),
            local_avatar_url: String::new(),
            fetched_at: String::new(),
        }
    }

    pub open spec fn has_content_spec(&self) -> bool {
        self.title@.len() > 0 || self.description@.len() > 0 || self.account_name@.len() > 0
            || self.cover_url@.len() > 0 || self.thumbnail_url@.len() > 0 || self.account_avatar_url@.len() > 0
    }

    /// Whether a fetch found anything at all.
    pub fn has_content(&self) -> (b: bool)
        ensures
            b == self.has_content_spec(),
    {
        str_non_empty(self.title.as_str()) || str_non_empty(self.description.as_str())
            || str_non_empty(self.account_name.as_str()) || str_non_empty(self.cover_url.as_str())
            || str_non_empty(self.thumbnail_url.as_str()) || str_non_empty(self.account_avatar_url.as_str())
    }

    pub open spec fn has_suspect_text_spec(&self) -> bool {
        self.account_name@.len() == 0 || starts_with_spec(self.account_name@, "gh_"@)
            || starts_with_spec(self.account_name@, "data-"@) || starts_with_spec(self.title@, "data-"@)
            || crate::render::rewrite::contains_spec(self.description@, "\\x"@)
    }

    /// Text that looks like a scraping artefact rather than real metadata.
    pub fn has_suspect_text(&self) -> (b: bool)
        ensures
            b == self.has_suspect_text_spec(),
    {
        !str_non_empty(self.account_name.as_str()) || str_starts_with(self.account_name.as_str(), "gh_")
            || str_starts_with(self.account_name.as_str(), "data-") || str_starts_with(self.title.as_str(), "data-")
            || crate::render::rewrite::contains_str(self.description.as_str(), "\\x")
    }

    pub open spec fn cover_asset_missing_spec(&self) -> bool {
        self.cover_url@.len() > 0 && self.local_cover_url@.len() == 0
    }

    /// A cover was found but never cached locally.
    pub fn cover_asset_missing(&self) -> (b: bool)
        ensures
            b == self.cover_asset_missing_spec(),
    {
        str_non_empty(self.cover_url.as_str()) && !str_non_empty(self.local_cover_url.as_str())
    }

    pub open spec fn thumbnail_asset_missing_spec(&self) -> bool {
        self.thumbnail_url@.len() > 0 && self.local_thumbnail_url@.len() == 0
    }

    /// A thumbnail was found but never cached locally.
    pub fn thumbnail_asset_missing(&self) -> (b: bool)
        ensures
            b == self.thumbnail_asset_missing_spec(),
    {
        str_non_empty(self.thumbnail_url.as_str()) && !str_non_empty(self.local_thumbnail_url.as_str())
    }

    pub open spec fn needs_refresh_spec(&self) -> bool {
        self.has_suspect_text_spec() || self.cover_asset_missing_spec() || self.thumbnail_asset_missing_spec()
    }

    /// A cached preview that should be fetched again.
    pub fn needs_refresh(&self) -> (b: bool)
        ensures
            b == self.needs_refresh_spec(),
    {
        self.has_suspect_text() || self.cover_asset_missing() || self.thumbnail_asset_missing()
    }
}

/// `s` starts with `p`.
pub open spec fn starts_with_spec(s: Seq<char>, p: Seq<char>) -> bool {
    s.len() >= p.len() && s.subrange(0, p.len() as int) == p
}

pub fn str_starts_with(s: &str, p: &str) -> (b: bool)
    ensures
        b == starts_with_spec(s@, p@),
{
    let cs = chars_of(s);
    has_at(&cs, 0, p)
}

pub fn str_non_empty(s: &str) -> (b: bool)
    ensures
        b == (s@.len() > 0),
{
    let cs = chars_of(s);
    cs.len() > 0
}

/// The cache key of an article URL: the URL without surrounding whitespace.
pub open spec fn normalize_wechat_url_spec(url: Seq<char>) -> Seq<char> {
    trim_seq(url)
}

pub fn normalize_wechat_url(url: &str) -> (r: String)
    ensures
        r@ == normalize_wechat_url_spec(url@),
{
    let cs = chars_of(url);
    let (a, b) = trim_range(&cs);
    string_of_range(&cs, a, b)
}

// ---------------------------------------------------------------- the cache

impl WechatPreview {
    /// A field-by-field copy.
    pub fn copy(&self) -> (r: WechatPreview)
        ensures
            r == *self,
    {
        WechatPreview {
            title: self.title.clone(),
            description: self.description.clone(),
            account_name: self.account_name.clone(),
            cover_url: self.cover_url.clone(),
            local_cover_url: self.local_cover_url.clone(),
            cover_is_square: self.cover_is_square,
            thumbnail_url: self.thumbnail_url.clone(),
            local_thumbnail_url: self.local_thumbnail_url.clone(),
            thumbnail_is_square: self.thumbnail_is_square,
            account_avatar_url: self.account_avatar_url.clone(),
            local_avatar_url: self.local_avatar_url.clone(),
            fetched_at: self.fetched_at.clone(),
        }
    }
}

/// The cached preview for a key: the most recently stored one.
pub open spec fn lookup_spec(entries: Seq<(String, WechatPreview)>, key: Seq<char>) -> Option<WechatPreview>
    decreases entries.len(),
{
    if entries.len() == 0 {
        None
    } else if entries.last().0@ == key {
        Some(entries.last().1)
    } else {
        lookup_spec(entries.drop_last(), key)
    }
}

/// The cache of article previews, with the URLs whose fetch failed during this build.
pub struct WechatPreviewStore {
    entries: Vec<(String, WechatPreview)>,
    failed_urls: Vec<String>,
    dirty: bool,
}

/// What `get` decides for a URL.
pub enum WechatLookup {
    /// Use this preview.
    Ready(WechatPreview),
    /// No preview is available (a fetch already failed and nothing is cached).
    Unavailable,
    /// The page under `key` should be fetched; `cached` is what the cache holds.
    NeedsFetch { key: String, cached: Option<WechatPreview> },
}

pub open spec fn failed_contains(failed: Seq<String>, key: Seq<char>) -> bool {
    exists|i: int| 0 <= i < failed.len() && failed[i]@ == key
}

/// The decision of `get`: a cached preview that does not need a refresh is
/// used; after a failed fetch the cached preview (if any) is used; otherwise
/// the page is to be fetched.
pub open spec fn get_spec(entries: Seq<(String, WechatPreview)>, failed: Seq<String>, url: Seq<char>) -> (Seq<char>, Option<WechatPreview>, u8) {
    let key = normalize_wechat_url_spec(url);
    let cached = lookup_spec(entries, key);
    let decision: u8 = if cached is Some && !cached.unwrap().needs_refresh_spec() {
        0
    } else if failed_contains(failed, key) {
        if cached is Some { 0 } else { 1 }
    } else {
        2
    };
    (key, cached, decision)
}

impl WechatPreviewStore {
    pub closed spec fn entries_spec(&self) -> Seq<(String, WechatPreview)> {
        self.entries@
    }

    pub closed spec fn failed_spec(&self) -> Seq<String> {
        self.failed_urls@
    }

    pub closed spec fn dirty_spec(&self) -> bool {
        self.dirty
    }

    /// An empty cache.
    pub fn new() -> (r: WechatPreviewStore)
        ensures
            r.entries_spec().len() == 0,
            r.failed_spec().len() == 0,
            !r.dirty_spec(),
    {
        WechatPreviewStore { entries: Vec::new(), failed_urls: Vec::new(), dirty: false }
    }

    /// A cache holding the given previews (a later one for the same key wins).
    pub fn from_entries(entries: Vec<(String, WechatPreview)>) -> (r: WechatPreviewStore)
        ensures
            r.entries_spec() == entries@,
            r.failed_spec().len() == 0,
            !r.dirty_spec(),
    {
        WechatPreviewStore { entries, failed_urls: Vec::new(), dirty: false }
    }

    /// The cached entries (for writing the cache back).
    pub fn entries(&self) -> (r: &Vec<(String, WechatPreview)>)
        ensures
            r@ == self.entries_spec(),
    {
        &self.entries
    }

    /// Whether a fetch added something since the cache was loaded.
    pub fn is_dirty(&self) -> (b: bool)
        ensures
            b == self.dirty_spec(),
    {
        self.dirty
    }

    /// The cached preview under `key`.
    pub fn lookup(&self, key: &str) -> (r: Option<WechatPreview>)
        ensures
            r == lookup_spec(self.entries_spec(), key@),
    {
        let mut i = self.entries.len();
        assert(self.entries@.take(i as int) =~= self.entries@);
        while i > 0
            invariant
                i <= self.entries@.len(),
                lookup_spec(self.entries@, key@) == lookup_spec(self.entries@.take(i as int), key@),
            decreases i,
        {
            let ghost t = self.entries@.take(i as int);
            assert(t.drop_last() =~= self.entries@.take(i - 1));
            if str_eq(self.entries[i - 1].0.as_str(), key) {
                return Some(self.entries[i - 1].1.copy());
            }
            i = i - 1;
        }
        None
    }

    fn has_failed(&self, key: &str) -> (b: bool)
        ensures
            b == failed_contains(self.failed_urls@, key@),
    {
        let mut i: usize = 0;
        while i < self.failed_urls.len()
            invariant
                i <= self.failed_urls@.len(),
                forall|j: int| 0 <= j < i ==> self.failed_urls@[j]@ != key@,
            decreases self.failed_urls@.len() - i,
        {
            if str_eq(self.failed_urls[i].as_str(), key) {
                return true;
            }
            i = i + 1;
        }
        false
    }

    /// Decides what to do for an article URL (see `get_spec`).
    pub fn get(&self, url: &str) -> (r: WechatLookup)
        ensures
            ({
                let (key, cached, decision) = get_spec(self.entries_spec(), self.failed_spec(), url@);
                match r {
                    WechatLookup::Ready(p) => decision == 0 && cached == Some(p),
                    WechatLookup::Unavailable => decision == 1,
                    WechatLookup::NeedsFetch { key: k, cached: c } => decision == 2 && k@ == key && c == cached,
                }
            }),
    {
        let key = normalize_wechat_url(url);
        let cached = self.lookup(key.as_str());
        match cached {
            Some(p) => {
                if !p.needs_refresh() {
                    return WechatLookup::Ready(p);
                }
                if self.has_failed(key.as_str()) {
                    return WechatLookup::Ready(p);
                }
                WechatLookup::NeedsFetch { key, cached: Some(p) }
            },
            None => {
                if self.has_failed(key.as_str()) {
                    WechatLookup::Unavailable
                } else {
                    WechatLookup::NeedsFetch { key, cached: None }
                }
            },
        }
    }

    /// Records the outcome of fetching `key` (`None` when the fetch failed).
    /// A preview with content is stored and returned; otherwise the key is
    /// marked as failed and the cached preview (if any) is returned.
    pub fn record_fetch(&mut self, key: String, fetched: Option<WechatPreview>) -> (r: Option<WechatPreview>)
        ensures
            match fetched {
                Some(p) => if p.has_content_spec() {
                    &&& r == Some(p)
                    &&& final(self).entries_spec() == old(self).entries_spec().push((key, p))
                    &&& final(self).failed_spec() == old(self).failed_spec()
                    &&& final(self).dirty_spec()
                } else {
                    &&& r == lookup_spec(old(self).entries_spec(), key@)
                    &&& final(self).entries_spec() == old(self).entries_spec()
                    &&& final(self).failed_spec() == old(self).failed_spec().push(key)
                    &&& final(self).dirty_spec() == old(self).dirty_spec()
                },
                None => {
                    &&& r == lookup_spec(old(self).entries_spec(), key@)
                    &&& final(self).entries_spec() == old(self).entries_spec()
                    &&& final(self).failed_spec() == old(self).failed_spec().push(key)
                    &&& final(self).dirty_spec() == old(self).dirty_spec()
                },
            },
    {
        match fetched {
            Some(p) => {
                if p.has_content() {
                    let copy = p.copy();
                    self.entries.push((key, copy));
                    self.dirty = true;
                    return Some(p);
                }
            },
            None => {},
        }
        let cached = self.lookup(key.as_str());
        self.failed_urls.push(key);
        cached
    }

    /// The preview a card shows for `url` without fetching: what `get`
    /// decides, and the cached preview where it asks for a fetch.
    pub fn preview_for(&self, url: &str) -> (r: Option<WechatPreview>)
        ensures
            ({
                let (key, cached, decision) = get_spec(self.entries_spec(), self.failed_spec(), url@);
                r == if decision == 1 { None } else { cached }
            }),
    {
        match self.get(url) {
            WechatLookup::Ready(p) => Some(p),
            WechatLookup::Unavailable => None,
            WechatLookup::NeedsFetch { cached, .. } => cached,
        }
    }
}

/// Equality of two string slices.
pub fn str_eq(a: &str, b: &str) -> (r: bool)
    ensures
        r == (a@ == b@),
{
    let ac = chars_of(a);
    let bc = chars_of(b);
    if ac.len() != bc.len() {
        return false;
    }
    let r = has_at(&ac, 0, b);
    assert(r ==> ac@.subrange(0, bc@.len() as int) =~= ac@);
    assert(ac@ == b@ ==> ac@.subrange(0, bc@.len() as int) =~= ac@);
    r
}

// ---------------------------------------------------------------- images

/// 64-bit FNV-1a of a byte sequence.
pub open spec fn fnv1a64_spec(bytes: Seq<u8>) -> u64
    decreases bytes.len(),
{
    if bytes.len() == 0 {
        0xcbf29ce484222325u64
    } else {
        vstd::wrapping::u64_specs::wrapping_mul(fnv1a64_spec(bytes.drop_last()) ^ (bytes.last() as u64), 0x100000001b3u64)
    }
}

pub fn fnv1a64(bytes: &[u8]) -> (r: u64)
    ensures
        r == fnv1a64_spec(bytes@),
{
    let mut hash: u64 = 0xcbf29ce484222325u64;
    let mut i: usize = 0;
    while i < bytes.len()
        invariant
            i <= bytes@.len(),
            hash == fnv1a64_spec(bytes@.take(i as int)),
        decreases bytes@.len() - i,
    {
        assert(bytes@.take(i + 1).drop_last() =~= bytes@.take(i as int));
        hash = hash ^ (bytes[i] as u64);
        hash = hash.wrapping_mul(0x100000001b3u64);
        i = i + 1;
    }
    assert(bytes@.take(bytes@.len() as int) =~= bytes@);
    hash
}

pub open spec fn hex_digit(d: nat) -> char {
    if d < 10 { crate::text::digit_char(d) } else if d == 10 { 'a' } else if d == 11 { 'b' } else if d == 12 { 'c' }
    else if d == 13 { 'd' } else if d == 14 { 'e' } else { 'f' }
}

/// `format!("{:016x}", v)`: sixteen lower-case hex digits.
pub open spec fn hex16(v: u64) -> Seq<char> {
    Seq::new(16, |i: int| hex_digit(((v as nat) / pow16((15 - i) as nat)) % 16))
}

pub open spec fn pow16(k: nat) -> nat
    decreases k,
{
    if k == 0 { 1 } else { 16 * pow16((k - 1) as nat) }
}

fn hex_digit_exec(d: u64) -> (c: char)
    requires
        d < 16,
    ensures
        c == hex_digit(d as nat),
{
    if d == 0 { '0' } else if d == 1 { '1' } else if d == 2 { '2' } else if d == 3 { '3' }
    else if d == 4 { '4' } else if d == 5 { '5' } else if d == 6 { '6' } else if d == 7 { '7' }
    else if d == 8 { '8' } else if d == 9 { '9' } else if d == 10 { 'a' } else if d == 11 { 'b' }
    else if d == 12 { 'c' } else if d == 13 { 'd' } else if d == 14 { 'e' } else { 'f' }
}

fn push_hex16(out: &mut String, v: u64)
    ensures
        final(out)@ == old(out)@ + hex16(v),
{
    let ghost start = out@;
    let mut k: usize = 0;
    let mut div: u64 = 0x1000_0000_0000_0000u64;
    proof {
        reveal_with_fuel(pow16, 16);
    }
    while k < 16
        invariant
            k <= 16,
            div as nat == pow16((15 - k) as nat) || k == 16,
            out@ == start + hex16(v).take(k as int),
        decreases 16 - k,
    {
        proof {
            lemma_pow16_bounds((15 - k) as nat);
        }
        let d = (v / div) % 16;
        push_char(out, hex_digit_exec(d));
        assert(hex16(v).take(k + 1) =~= hex16(v).take(k as int).push(hex16(v)[k as int]));
        if k < 15 {
            proof {
                assert(pow16((15 - k) as nat) == 16 * pow16((14 - k) as nat));
            }
            div = div / 16;
        }
        k = k + 1;
    }
    assert(hex16(v).take(16) =~= hex16(v));
}

proof fn lemma_pow16_pos(k: nat)
    ensures
        1 <= pow16(k),
    decreases k,
{
    if k > 0 {
        lemma_pow16_pos((k - 1) as nat);
    }
}

proof fn lemma_pow16_bounds(k: nat)
    requires
        k <= 15,
    ensures
        1 <= pow16(k) <= 0x1000_0000_0000_0000,
    decreases 15 - k,
{
    lemma_pow16_pos(k);
    if k < 15 {
        lemma_pow16_bounds(k + 1);
        assert(pow16(k + 1) == 16 * pow16(k));
    } else {
        reveal_with_fuel(pow16, 16);
    }
}

/// Extensions kept for cached images; anything else is stored as `jpg`.
pub open spec fn is_image_ext(e: Seq<char>) -> bool {
    e == "jpg"@ || e == "jpeg"@ || e == "png"@ || e == "webp"@ || e == "gif"@
}

pub open spec fn ascii_lower_seq(s: Seq<char>) -> Seq<char> {
    Seq::new(s.len(), |i: int| crate::render::toc::ascii_lower(s[i]))
}

/// Index just after the last `c` in `s[..hi]`, or 0.
pub open spec fn after_last(s: Seq<char>, c: char, hi: int) -> int
    decreases hi,
{
    if hi <= 0 {
        0
    } else if s[hi - 1] == c {
        hi
    } else {
        after_last(s, c, hi - 1)
    }
}

/// The extension of an image URL: after the last `.` of the part before the
/// first `?`, lower-cased, when it is a known image extension; else `jpg`.
pub open spec fn image_ext(url: Seq<char>) -> Seq<char> {
    let path_end = match crate::text::find_char_from(url, '?', 0) {
        Some(k) => k,
        None => url.len() as int,
    };
    let e = ascii_lower_seq(url.subrange(after_last(url, '.', path_end), path_end));
    if is_image_ext(e) { e } else { "jpg"@ }
}

/// Name of the cached copy of an image: the FNV-1a hash of the URL's UTF-8
/// bytes in hex, and the image extension.
pub open spec fn image_filename_spec(url: Seq<char>) -> Seq<char> {
    hex16(fnv1a64_spec(vstd::utf8::encode_utf8(url))) + seq!['.'] + image_ext(url)
}

pub fn image_filename(url: &str) -> (r: String)
    ensures
        r@ == image_filename_spec(url@),
{
    let cs = chars_of(url);
    let path_end = match crate::text::find_char(&cs, '?', 0) {
        Some(k) => {
            proof { crate::text::lemma_find_char_from(cs@, '?', 0); }
            k
        },
        None => cs.len(),
    };
    let mut start = path_end;
    while start > 0 && cs[start - 1] != '.'
        invariant
            start <= path_end <= cs@.len(),
            after_last(cs@, '.', path_end as int) == after_last(cs@, '.', start as int),
        decreases start,
    {
        start = start - 1;
    }
    let mut ext: Vec<char> = Vec::new();
    let mut k = start;
    while k < path_end
        invariant
            start <= k <= path_end <= cs@.len(),
            ext@ =~= ascii_lower_seq(cs@.subrange(start as int, k as int)),
        decreases path_end - k,
    {
        let c = cs[k];
        let lc = if 'A' <= c && c <= 'Z' { ((c as u8) + 32) as char } else { c };
        ext.push(lc);
        k = k + 1;
    }
    let e = crate::text::string_from_chars(ext.as_slice());
    let ec = chars_of(e.as_str());
    let known = slice_is(&ec, 0, ec.len(), "jpg") || slice_is(&ec, 0, ec.len(), "jpeg")
        || slice_is(&ec, 0, ec.len(), "png") || slice_is(&ec, 0, ec.len(), "webp")
        || slice_is(&ec, 0, ec.len(), "gif");
    assert(ec@.subrange(0, ec@.len() as int) =~= ec@);
    let mut out = String::new();
    let bytes = url.as_bytes();
    push_hex16(&mut out, fnv1a64(bytes));
    push_char(&mut out, '.');
    if known {
        push_str(&mut out, e.as_str());
    } else {
        push_str(&mut out, "jpg");
    }
    out
}

/// `//host/...` URLs get an `https:` scheme.
pub open spec fn absolutize_url_spec(url: Seq<char>) -> Seq<char> {
    if starts_with_spec(url, "//"@) { "https:"@ + url } else { url }
}

pub fn absolutize_url(url: &str) -> (r: String)
    ensures
        r@ == absolutize_url_spec(url@),
{
    let mut out = String::new();
    if str_starts_with(url, "//") {
        push_str(&mut out, "https:");
    }
    push_str(&mut out, url);
    out
}

/// The address a cached image is served from.
pub fn card_asset_url(filename: &str) -> (r: String)
    ensures
        r@ == card_asset_url_prefix() + filename@,
{
    let mut out = String::new();
    push_str(&mut out, "/wechat-previews/");
    push_str(&mut out, filename);
    out
}

/// The file name of a cached image from the address it is served from.
pub fn card_asset_filename(local_url: &str) -> (r: Option<String>)
    ensures
        match r {
            Some(f) => starts_with_spec(local_url@, card_asset_url_prefix())
                && f@ == local_url@.subrange(card_asset_url_prefix().len() as int, local_url@.len() as int),
            None => !starts_with_spec(local_url@, card_asset_url_prefix()),
        },
{
    proof {
        reveal_strlit("/wechat-previews/");
    }
    let cs = chars_of(local_url);
    if has_at(&cs, 0, "/wechat-previews/") {
        Some(string_of_range(&cs, 17, cs.len()))
    } else {
        None
    }
}

/// Which image of a preview was cached.
pub enum CardImage {
    Cover,
    Thumbnail,
    Avatar,
}

/// A preview after one of its images was cached: its local address is
/// recorded, and for the cover and thumbnail whether it is roughly square
/// (false where its size could not be read).
pub fn with_cached_image(preview: WechatPreview, which: CardImage, local_url: String, size: Option<(u32, u32)>) -> (r: WechatPreview)
    ensures
        match which {
            CardImage::Cover => r == WechatPreview {
                local_cover_url: local_url,
                cover_is_square: match size { Some((w, h)) => is_squareish_spec(w, h), None => false },
                ..preview
            },
            CardImage::Thumbnail => r == WechatPreview {
                local_thumbnail_url: local_url,
                thumbnail_is_square: match size { Some((w, h)) => is_squareish_spec(w, h), None => false },
                ..preview
            },
            CardImage::Avatar => r == WechatPreview { local_avatar_url: local_url, ..preview },
        },
{
    let square = match size {
        Some((w, h)) => is_squareish(w, h),
        None => false,
    };
    let mut p = preview;
    match which {
        CardImage::Cover => {
            p.local_cover_url = local_url;
            p.cover_is_square = square;
        },
        CardImage::Thumbnail => {
            p.local_thumbnail_url = local_url;
            p.thumbnail_is_square = square;
        },
        CardImage::Avatar => {
            p.local_avatar_url = local_url;
        },
    }
    p
}

/// Width and height within 10% of each other (`0.9 <= width / height <= 1.1`).
pub open spec fn is_squareish_spec(width: u32, height: u32) -> bool {
    width != 0 && height != 0 && 9 * (height as int) <= 10 * (width as int) && 10 * (width as int) <= 11 * (height as int)
}

/// Whether an image is roughly square. The ratio test is done in integers:
/// for 32-bit sides `9h <= 10w <= 11h` agrees exactly with the `f64` test
/// `(0.9..=1.1).contains(&(w / h))`.
pub fn is_squareish(width: u32, height: u32) -> (b: bool)
    ensures
        b == is_squareish_spec(width, height),
{
    if width == 0 || height == 0 {
        return false;
    }
    let w = width as u64;
    let h = height as u64;
    9 * h <= 10 * w && 10 * w <= 11 * h
}

/// Big-endian 16-bit value at `i`.
pub open spec fn be16(b: Seq<u8>, i: int) -> nat {
    (b[i] as nat) * 256 + (b[i + 1] as nat)
}

/// `(width, height)` of a PNG: the signature, then the IHDR fields at 16 and 20.
pub open spec fn png_dimensions_spec(b: Seq<u8>) -> Option<(u32, u32)> {
    if b.len() >= 24 && b[0] == 0x89 && b[1] == 0x50 && b[2] == 0x4e && b[3] == 0x47 && b[4] == 0x0d
        && b[5] == 0x0a && b[6] == 0x1a && b[7] == 0x0a {
        Some((
            (be16(b, 16) * 65536 + be16(b, 18)) as u32,
            (be16(b, 20) * 65536 + be16(b, 22)) as u32,
        ))
    } else {
        None
    }
}

pub fn png_dimensions(b: &[u8]) -> (r: Option<(u32, u32)>)
    ensures
        r == png_dimensions_spec(b@),
{
    if !(b.len() >= 24 && b[0] == 0x89 && b[1] == 0x50 && b[2] == 0x4e && b[3] == 0x47 && b[4] == 0x0d
        && b[5] == 0x0a && b[6] == 0x1a && b[7] == 0x0a) {
        return None;
    }
    let w: u32 = (b[16] as u32) * 0x100_0000 + (b[17] as u32) * 0x1_0000 + (b[18] as u32) * 0x100 + (b[19] as u32);
    let h: u32 = (b[20] as u32) * 0x100_0000 + (b[21] as u32) * 0x1_0000 + (b[22] as u32) * 0x100 + (b[23] as u32);
    Some((w, h))
}

/// `(width, height)` of a GIF: `GIF87a` or `GIF89a`, then two little-endian 16-bit fields.
pub open spec fn gif_dimensions_spec(b: Seq<u8>) -> Option<(u32, u32)> {
    if b.len() >= 10 && b[0] == 0x47 && b[1] == 0x49 && b[2] == 0x46 && b[3] == 0x38
        && (b[4] == 0x37 || b[4] == 0x39) && b[5] == 0x61 {
        Some((((b[7] as nat) * 256 + (b[6] as nat)) as u32, ((b[9] as nat) * 256 + (b[8] as nat)) as u32))
    } else {
        None
    }
}

pub fn gif_dimensions(b: &[u8]) -> (r: Option<(u32, u32)>)
    ensures
        r == gif_dimensions_spec(b@),
{
    if !(b.len() >= 10 && b[0] == 0x47 && b[1] == 0x49 && b[2] == 0x46 && b[3] == 0x38
        && (b[4] == 0x37 || b[4] == 0x39) && b[5] == 0x61) {
        return None;
    }
    Some((((b[7] as u32) * 256 + (b[6] as u32)), ((b[9] as u32) * 256 + (b[8] as u32))))
}

/// JPEG start-of-frame markers (the ones that carry the image size).
pub open spec fn is_sof_marker(m: u8) -> bool {
    m == 0xc0 || m == 0xc1 || m == 0xc2 || m == 0xc3 || m == 0xc5 || m == 0xc6 || m == 0xc7
        || m == 0xc9 || m == 0xca || m == 0xcb || m == 0xcd || m == 0xce || m == 0xcf
}

/// First index at or after `i` that is not a `0xff` fill byte (or the end).
pub open spec fn skip_fill(b: Seq<u8>, i: int) -> int
    decreases b.len() - i,
{
    if i < 0 || i >= b.len() {
        i
    } else if b[i] == 0xff {
        skip_fill(b, i + 1)
    } else {
        i
    }
}

pub proof fn lemma_skip_fill(b: Seq<u8>, i: int)
    requires
        0 <= i,
    ensures
        i <= skip_fill(b, i),
        i <= b.len() ==> skip_fill(b, i) <= b.len(),
    decreases b.len() - i,
{
    if i < b.len() && b[i] == 0xff {
        lemma_skip_fill(b, i + 1);
    }
}

/// Walks the JPEG segments from `i`: fill bytes are skipped; end-of-image or
/// start-of-scan stops the walk; standalone markers have no length; the first
/// start-of-frame segment gives `(width, height)`; other segments are skipped
/// by their length. A walk that runs out of bytes finds nothing.
pub open spec fn jpeg_walk(b: Seq<u8>, i: int) -> Option<(u32, u32)>
    decreases b.len() - i,
{
    if i < 0 || !(i + 4 < b.len()) {
        None
    } else {
        let j = skip_fill(b, i);
        proof { lemma_skip_fill(b, i); }
        if j >= b.len() {
            None
        } else {
            let marker = b[j];
            let k = j + 1;
            if marker == 0xd9 || marker == 0xda {
                None
            } else if marker == 0x01 || (0xd0 <= marker && marker <= 0xd7) {
                jpeg_walk(b, k)
            } else if k + 2 > b.len() {
                None
            } else {
                let len = be16(b, k) as int;
                if len < 2 || k + len > b.len() {
                    None
                } else if is_sof_marker(marker) {
                    if len < 7 {
                        None
                    } else {
                        Some((be16(b, k + 5) as u32, be16(b, k + 3) as u32))
                    }
                } else {
                    jpeg_walk(b, k + len)
                }
            }
        }
    }
}

pub open spec fn jpeg_dimensions_spec(b: Seq<u8>) -> Option<(u32, u32)> {
    if b.len() < 4 || b[0] != 0xff || b[1] != 0xd8 {
        None
    } else {
        jpeg_walk(b, 2)
    }
}

/// `b[k - 1]` is a start-of-frame marker whose segment, of length at least
/// 7, lies within `b` and begins at `k` with its length field.
pub open spec fn sof_segment_at(b: Seq<u8>, k: int) -> bool {
    &&& 1 <= k
    &&& k + 2 <= b.len()
    &&& is_sof_marker(b[k - 1])
    &&& be16(b, k) >= 7
    &&& k + be16(b, k) <= b.len()
}

proof fn lemma_jpeg_walk_sof(b: Seq<u8>, i: int)
    requires
        0 <= i,
    ensures
        jpeg_walk(b, i) matches Some((w, h)) ==> exists|k: int| #![trigger sof_segment_at(b, k)]
            i < k && sof_segment_at(b, k) && w == be16(b, k + 5) && h == be16(b, k + 3),
    decreases b.len() - i,
{
    if i + 4 < b.len() {
        let j = skip_fill(b, i);
        lemma_skip_fill(b, i);
        if j < b.len() {
            let marker = b[j];
            let k = j + 1;
            if marker == 0xd9 || marker == 0xda {
            } else if marker == 0x01 || (0xd0 <= marker && marker <= 0xd7) {
                lemma_jpeg_walk_sof(b, k);
            } else if k + 2 > b.len() {
            } else {
                let len = be16(b, k) as int;
                if len < 2 || k + len > b.len() {
                } else if is_sof_marker(marker) {
                    if len >= 7 {
                        assert(sof_segment_at(b, k));
                    }
                } else {
                    lemma_jpeg_walk_sof(b, k + len);
                }
            }
        }
    }
}

/// Dimensions come only from a JPEG: the data opens with the start-of-image
/// marker, and the width and height are read from a start-of-frame segment
/// of length at least 7 (height, then width, big-endian, after the length
/// field and the precision byte).
pub proof fn lemma_jpeg_dimensions_from_sof(b: Seq<u8>)
    ensures
        jpeg_dimensions_spec(b) matches Some((w, h)) ==> b.len() >= 4 && b[0] == 0xff && b[1] == 0xd8
            && exists|k: int| #![trigger sof_segment_at(b, k)]
                2 < k && sof_segment_at(b, k) && w == be16(b, k + 5) && h == be16(b, k + 3),
{
    lemma_jpeg_walk_sof(b, 2);
}

/// The markers a walk over the segments from `i` reads, in order, each with
/// the index just after it (where its length field stands): it stops at
/// end-of-image, start-of-scan, the first start-of-frame marker, or where
/// the data runs out or a length is out of range.
pub open spec fn jpeg_markers(b: Seq<u8>, i: int) -> Seq<(u8, int)>
    decreases b.len() - i,
{
    if i < 0 || !(i + 4 < b.len()) {
        Seq::empty()
    } else {
        let j = skip_fill(b, i);
        proof { lemma_skip_fill(b, i); }
        if j >= b.len() {
            Seq::empty()
        } else {
            let marker = b[j];
            let k = j + 1;
            if marker == 0xd9 || marker == 0xda {
                seq![(marker, k)]
            } else if marker == 0x01 || (0xd0 <= marker && marker <= 0xd7) {
                seq![(marker, k)] + jpeg_markers(b, k)
            } else if k + 2 > b.len() || be16(b, k) < 2 || k + be16(b, k) > b.len() || is_sof_marker(marker) {
                seq![(marker, k)]
            } else {
                seq![(marker, k)] + jpeg_markers(b, k + be16(b, k))
            }
        }
    }
}

/// The size the first start-of-frame segment gives, if the walk ends at one
/// (a segment within the data, of length at least 7).
pub open spec fn first_sof_size(b: Seq<u8>, markers: Seq<(u8, int)>) -> Option<(u32, u32)> {
    if markers.len() == 0 {
        None
    } else {
        let (m, k) = markers.last();
        if is_sof_marker(m) && k + 2 <= b.len() && 7 <= be16(b, k) && k + be16(b, k) <= b.len() {
            Some((be16(b, k + 5) as u32, be16(b, k + 3) as u32))
        } else {
            None
        }
    }
}

proof fn lemma_jpeg_walk_markers(b: Seq<u8>, i: int)
    requires
        0 <= i,
    ensures
        jpeg_walk(b, i) == first_sof_size(b, jpeg_markers(b, i)),
        forall|x: int| 0 <= x < jpeg_markers(b, i).len() - 1 ==> {
            let m = (#[trigger] jpeg_markers(b, i)[x]).0;
            !is_sof_marker(m) && m != 0xd9 && m != 0xda
        },
    decreases b.len() - i,
{
    if i + 4 < b.len() {
        let j = skip_fill(b, i);
        lemma_skip_fill(b, i);
        if j < b.len() {
            let marker = b[j];
            let k = j + 1;
            let ms = jpeg_markers(b, i);
            if marker == 0xd9 || marker == 0xda {
            } else if marker == 0x01 || (0xd0 <= marker && marker <= 0xd7) {
                lemma_jpeg_walk_markers(b, k);
                let rest = jpeg_markers(b, k);
                assert(ms == seq![(marker, k)] + rest);
                if rest.len() > 0 {
                    assert(ms.last() == rest.last());
                }
                assert forall|x: int| 0 <= x < ms.len() - 1 implies {
                    let m = (#[trigger] ms[x]).0;
                    !is_sof_marker(m) && m != 0xd9 && m != 0xda
                } by {
                    if x > 0 {
                        assert(ms[x] == rest[x - 1]);
                    }
                }
            } else if k + 2 > b.len() || be16(b, k) < 2 || k + be16(b, k) > b.len() || is_sof_marker(marker) {
            } else {
                let len = be16(b, k) as int;
                lemma_jpeg_walk_markers(b, k + len);
                let rest = jpeg_markers(b, k + len);
                assert(ms == seq![(marker, k)] + rest);
                if rest.len() > 0 {
                    assert(ms.last() == rest.last());
                }
                assert forall|x: int| 0 <= x < ms.len() - 1 implies {
                    let m = (#[trigger] ms[x]).0;
                    !is_sof_marker(m) && m != 0xd9 && m != 0xda
                } by {
                    if x > 0 {
                        assert(ms[x] == rest[x - 1]);
                    }
                }
            }
        }
    }
}

/// The size of a JPEG is read from the first start-of-frame segment: after
/// the start-of-image marker the walk over the segments reads no other
/// start-of-frame, end-of-image or start-of-scan marker before it, and that
/// segment lies within the data with a length of at least 7; otherwise there
/// is no size.
pub proof fn lemma_jpeg_dimensions_first_sof(b: Seq<u8>)
    ensures
        jpeg_dimensions_spec(b) == if b.len() < 4 || b[0] != 0xff || b[1] != 0xd8 {
            None
        } else {
            first_sof_size(b, jpeg_markers(b, 2))
        },
        forall|x: int| 0 <= x < jpeg_markers(b, 2).len() - 1 ==> {
            let m = (#[trigger] jpeg_markers(b, 2)[x]).0;
            !is_sof_marker(m) && m != 0xd9 && m != 0xda
        },
{
    lemma_jpeg_walk_markers(b, 2);
}

pub fn jpeg_dimensions(b: &[u8]) -> (r: Option<(u32, u32)>)
    ensures
        r == jpeg_dimensions_spec(b@),
{
    let n = b.len();
    if n < 4 || b[0] != 0xff || b[1] != 0xd8 {
        return None;
    }
    let mut i: usize = 2;
    while i < n && n - i > 4
        invariant
            n == b@.len(),
            n >= 4 && b@[0] == 0xff && b@[1] == 0xd8,
            2 <= i,
            jpeg_walk(b@, 2) == jpeg_walk(b@, i as int),
        decreases n - i,
    {
        let ghost i0 = i as int;
        while i < n && b[i] == 0xff
            invariant
                n == b@.len(),
                i0 <= i <= n,
                skip_fill(b@, i0) == skip_fill(b@, i as int),
            decreases n - i,
        {
            i = i + 1;
        }
        if i >= n {
            return None;
        }
        let marker = b[i];
        i = i + 1;
        if marker == 0xd9 || marker == 0xda {
            return None;
        }
        if marker == 0x01 || (0xd0 <= marker && marker <= 0xd7) {
            continue;
        }
        if i > n || n - i < 2 {
            return None;
        }
        let len: usize = (b[i] as usize) * 256 + (b[i + 1] as usize);
        if len < 2 || len > n - i {
            return None;
        }
        if marker == 0xc0 || marker == 0xc1 || marker == 0xc2 || marker == 0xc3 || marker == 0xc5
            || marker == 0xc6 || marker == 0xc7 || marker == 0xc9 || marker == 0xca || marker == 0xcb
            || marker == 0xcd || marker == 0xce || marker == 0xcf {
            if len < 7 {
                return None;
            }
            let height: u32 = (b[i + 3] as u32) * 256 + (b[i + 4] as u32);
            let width: u32 = (b[i + 5] as u32) * 256 + (b[i + 6] as u32);
            proof {
                let j = skip_fill(b@, i0);
                assert(j == i - 1);
                assert(be16(b@, i as int) == len);
                assert(be16(b@, i + 5) == width as nat);
                assert(be16(b@, i + 3) == height as nat);
                assert(jpeg_walk(b@, i0) == Some((width, height)));
            }
            return Some((width, height));
        }
        i = i + len;
    }
    None
}

/// PNG, else GIF, else JPEG.
pub open spec fn image_dimensions_spec(b: Seq<u8>) -> Option<(u32, u32)> {
    match png_dimensions_spec(b) {
        Some(d) => Some(d),
        None => match gif_dimensions_spec(b) {
            Some(d) => Some(d),
            None => jpeg_dimensions_spec(b),
        },
    }
}

/// Width and height of a PNG, GIF or JPEG image, read from its header.
pub fn image_dimensions(b: &[u8]) -> (r: Option<(u32, u32)>)
    ensures
        r == image_dimensions_spec(b@),
{
    match png_dimensions(b) {
        Some(d) => Some(d),
        None => match gif_dimensions(b) {
            Some(d) => Some(d),
            None => jpeg_dimensions(b),
        },
    }
}

// ---------------------------------------------------------------- JavaScript strings

/// Decoding of a JavaScript string literal's escapes from index `i` on:
/// `\n \r \t \" \' \\ \/`, `\xHH` and `\uHHHH` (an invalid code is
/// dropped along with its digits), any other escaped character stands for
/// itself, and a trailing backslash is kept.
pub open spec fn js_unescape_from(s: Seq<char>, i: int) -> Seq<char>
    decreases s.len() - i,
{
    if i < 0 || i >= s.len() {
        Seq::empty()
    } else if s[i] != '\\' {
        seq![s[i]] + js_unescape_from(s, i + 1)
    } else if i + 1 >= s.len() {
        seq!['\\']
    } else {
        let c = s[i + 1];
        if c == 'x' || c == 'u' {
            let width: int = if c == 'x' { 2 } else { 4 };
            let end: int = if i + 2 + width <= s.len() { i + 2 + width } else { s.len() as int };
            let decoded: Seq<char> = match parse_u32_spec(s.subrange(i + 2, end), 16) {
                Some(v) => match char_from_u32_spec(v) {
                    Some(ch) => seq![ch],
                    None => Seq::empty(),
                },
                None => Seq::empty(),
            };
            decoded + js_unescape_from(s, end)
        } else {
            let out = if c == 'n' { '\n' } else if c == 'r' { '\r' } else if c == 't' { '\t' } else { c };
            seq![out] + js_unescape_from(s, i + 2)
        }
    }
}

pub open spec fn js_unescape_spec(s: Seq<char>) -> Seq<char> {
    js_unescape_from(s, 0)
}

/// Decodes JavaScript string escapes.
pub fn js_unescape(value: &str) -> (r: String)
    ensures
        r@ == js_unescape_spec(value@),
{
    let cs = chars_of(value);
    let n = cs.len();
    let mut out = String::new();
    let mut i: usize = 0;
    while i < n
        invariant
            n == cs@.len(),
            cs@ == value@,
            i <= n,
            out@ + js_unescape_from(cs@, i as int) == js_unescape_from(cs@, 0),
        decreases n - i,
    {
        if cs[i] != '\\' {
            push_char(&mut out, cs[i]);
            i = i + 1;
        } else if i + 1 >= n {
            push_char(&mut out, '\\');
            i = n;
        } else {
            let c = cs[i + 1];
            if c == 'x' || c == 'u' {
                let width: usize = if c == 'x' { 2 } else { 4 };
                let end: usize = if n - (i + 2) >= width { i + 2 + width } else { n };
                match parse_u32_radix(&cs, i + 2, end, 16) {
                    Some(v) => match char_from_u32(v) {
                        Some(ch) => push_char(&mut out, ch),
                        None => {},
                    },
                    None => {},
                }
                i = end;
            } else {
                let o = if c == 'n' { '\n' } else if c == 'r' { '\r' } else if c == 't' { '\t' } else { c };
                push_char(&mut out, o);
                i = i + 2;
            }
        }
    }
    assert(out@ + Seq::<char>::empty() =~= out@);
    out
}

/// The first candidate whose trimmed text is not empty, trimmed; else empty.
pub open spec fn first_non_empty_spec(values: Seq<Option<Seq<char>>>) -> Seq<char>
    decreases values.len(),
{
    if values.len() == 0 {
        Seq::empty()
    } else {
        match values[0] {
            Some(v) => if trim_seq(v).len() > 0 {
                trim_seq(v)
            } else {
                first_non_empty_spec(values.drop_first())
            },
            None => first_non_empty_spec(values.drop_first()),
        }
    }
}

/// With no value at all, there is no first non-blank one.
pub proof fn lemma_first_non_empty_none(values: Seq<Option<Seq<char>>>)
    requires
        forall|k: int| 0 <= k < values.len() ==> (#[trigger] values[k]) is None,
    ensures
        first_non_empty_spec(values) == Seq::<char>::empty(),
    decreases values.len(),
{
    if values.len() > 0 {
        assert(values[0] is None);
        assert forall|k: int| 0 <= k < values.drop_first().len() implies (#[trigger] values.drop_first()[k]) is None by {
            assert(values.drop_first()[k] == values[k + 1]);
        }
        lemma_first_non_empty_none(values.drop_first());
    }
}

/// The first non-blank value is trimmed already.
pub proof fn lemma_first_non_empty_trimmed(values: Seq<Option<Seq<char>>>)
    ensures
        trim_seq(first_non_empty_spec(values)) == first_non_empty_spec(values),
    decreases values.len(),
{
    if values.len() == 0 {
        lemma_trim_idempotent(Seq::empty());
        assert(trim_seq(Seq::<char>::empty()) =~= Seq::<char>::empty()) by {
            assert(skip_ws(Seq::<char>::empty(), 0) == 0);
        }
    } else {
        lemma_first_non_empty_trimmed(values.drop_first());
        match values[0] {
            Some(v) => lemma_trim_idempotent(v),
            None => {},
        }
    }
}

pub open spec fn opt_seq_view(o: Option<String>) -> Option<Seq<char>> {
    match o {
        Some(s) => Some(s@),
        None => None,
    }
}

pub open spec fn opts_view(v: Seq<Option<String>>) -> Seq<Option<Seq<char>>> {
    v.map_values(|o: Option<String>| opt_seq_view(o))
}

/// The first non-blank candidate, trimmed (empty when there is none).
pub fn first_non_empty(values: Vec<Option<String>>) -> (r: String)
    ensures
        r@ == first_non_empty_spec(opts_view(values@)),
{
    let ghost all = opts_view(values@);
    let mut i: usize = 0;
    assert(all.subrange(0, all.len() as int) =~= all);
    while i < values.len()
        invariant
            i <= values@.len(),
            all == opts_view(values@),
            first_non_empty_spec(all) == first_non_empty_spec(all.subrange(i as int, all.len() as int)),
        decreases values@.len() - i,
    {
        let ghost rest = all.subrange(i as int, all.len() as int);
        assert(rest.drop_first() =~= all.subrange(i + 1, all.len() as int));
        assert(rest[0] == opt_seq_view(values@[i as int]));
        match &values[i] {
            Some(v) => {
                let cs = chars_of(v.as_str());
                let (a, b) = trim_range(&cs);
                if a < b {
                    return string_of_range(&cs, a, b);
                }
            },
            None => {},
        }
        i = i + 1;
    }
    assert(all.subrange(i as int, all.len() as int) =~= Seq::<Option<Seq<char>>>::empty());
    String::new()
}

// ---------------------------------------------------------------- JavaScript objects

/// Where the object literal that starts at a `{` ends: quoted strings (with
/// backslash escapes) are skipped, braces are counted, and the object ends at
/// the `}` that brings the depth back to zero. `None` when the text ends first.
pub open spec fn object_end(s: Seq<char>, k: int, depth: nat, quote: Option<char>, escaped: bool) -> Option<int>
    decreases s.len() - k,
{
    if k < 0 || k >= s.len() {
        None
    } else {
        let ch = s[k];
        match quote {
            Some(q) => if escaped {
                object_end(s, k + 1, depth, quote, false)
            } else if ch == '\\' {
                object_end(s, k + 1, depth, quote, true)
            } else if ch == q {
                object_end(s, k + 1, depth, None, escaped)
            } else {
                object_end(s, k + 1, depth, quote, escaped)
            },
            None => if ch == '\'' || ch == '"' {
                object_end(s, k + 1, depth, Some(ch), escaped)
            } else if ch == '{' {
                object_end(s, k + 1, depth + 1, None, escaped)
            } else if ch == '}' {
                let d: nat = if depth == 0 { 0 } else { (depth - 1) as nat };
                if d == 0 {
                    Some(k)
                } else {
                    object_end(s, k + 1, d, None, escaped)
                }
            } else {
                object_end(s, k + 1, depth, None, escaped)
            },
        }
    }
}

pub proof fn lemma_object_end(s: Seq<char>, k: int, depth: nat, quote: Option<char>, escaped: bool)
    requires
        0 <= k,
    ensures
        object_end(s, k, depth, quote, escaped) matches Some(e) ==> k <= e < s.len(),
    decreases s.len() - k,
{
    if k < s.len() {
        let ch = s[k];
        match quote {
            Some(q) => {
                if escaped {
                    lemma_object_end(s, k + 1, depth, quote, false);
                } else if ch == '\\' {
                    lemma_object_end(s, k + 1, depth, quote, true);
                } else if ch == q {
                    lemma_object_end(s, k + 1, depth, None, escaped);
                } else {
                    lemma_object_end(s, k + 1, depth, quote, escaped);
                }
            },
            None => {
                if ch == '\'' || ch == '"' {
                    lemma_object_end(s, k + 1, depth, Some(ch), escaped);
                } else if ch == '{' {
                    lemma_object_end(s, k + 1, depth + 1, None, escaped);
                } else if ch == '}' {
                    let d: nat = if depth == 0 { 0 } else { (depth - 1) as nat };
                    lemma_object_end(s, k + 1, d, None, escaped);
                } else {
                    lemma_object_end(s, k + 1, depth, None, escaped);
                }
            },
        }
    }
}

/// The object literal after the first `marker` in `html`: from the first `{`
/// after it to its closing brace.
pub open spec fn js_object_after_spec(html: Seq<char>, marker: Seq<char>) -> Option<Seq<char>> {
    match first_occurrence(html, marker, 0) {
        Some(m) => match find_char_from(html, '{', m + marker.len()) {
            Some(b) => match object_end(html, b, 0, None, false) {
                Some(e) => Some(html.subrange(b, e + 1)),
                None => None,
            },
            None => None,
        },
        None => None,
    }
}

/// The JavaScript object literal assigned after `marker` in a page.
pub fn js_object_after(html: &str, marker: &str) -> (r: Option<String>)
    ensures
        opt_seq_view(r) == js_object_after_spec(html@, marker@),
{
    let cs = chars_of(html);
    let mc = chars_of(marker);
    let n = cs.len();
    let m = match first_occurrence_exec(&cs, marker, 0) {
        Some(m) => m,
        None => return None,
    };
    proof { lemma_first_occurrence(cs@, marker@, 0); }
    let b = match find_char(&cs, '{', m + mc.len()) {
        Some(b) => b,
        None => return None,
    };
    proof { lemma_find_char_from(cs@, '{', m + mc@.len()); }
    let mut depth: usize = 0;
    let mut quote: Option<char> = None;
    let mut escaped = false;
    let mut k = b;
    while k < n
        invariant
            n == cs@.len(),
            cs@ == html@,
            mc@ == marker@,
            first_occurrence(cs@, marker@, 0) == Some(m as int),
            find_char_from(cs@, '{', m + mc@.len()) == Some(b as int),
            b <= k <= n,
            b < n,
            depth <= k - b,
            object_end(cs@, b as int, 0, None, false) == object_end(cs@, k as int, depth as nat, quote, escaped),
        decreases n - k,
    {
        let ch = cs[k];
        match quote {
            Some(q) => {
                if escaped {
                    escaped = false;
                } else if ch == '\\' {
                    escaped = true;
                } else if ch == q {
                    quote = None;
                }
            },
            None => {
                if ch == '\'' || ch == '"' {
                    quote = Some(ch);
                } else if ch == '{' {
                    depth = depth + 1;
                } else if ch == '}' {
                    depth = if depth == 0 { 0 } else { depth - 1 };
                    if depth == 0 {
                        return Some(string_of_range(&cs, b, k + 1));
                    }
                }
            },
        }
        k = k + 1;
    }
    None
}

// ---------------------------------------------------------------- regex calls

/// The characters that have a meaning in a regular expression.
pub open spec fn is_regex_meta(c: char) -> bool {
    c == '\\' || c == '.' || c == '+' || c == '*' || c == '?' || c == '(' || c == ')' || c == '|'
        || c == '[' || c == ']' || c == '{' || c == '}' || c == '^' || c == '$' || c == '#' || c == '&'
        || c == '-' || c == '~'
}

/// A text escaped for use as a literal in a regular expression: a backslash
/// before each character that has a meaning there.
pub open spec fn regex_escaped(s: Seq<char>) -> Seq<char>
    decreases s.len(),
{
    if s.len() == 0 {
        Seq::empty()
    } else {
        regex_escaped(s.drop_last()) + if is_regex_meta(s.last()) {
            seq!['\\', s.last()]
        } else {
            seq![s.last()]
        }
    }
}

/// Whether `regex::Regex::new` accepts a pattern.
pub uninterp spec fn regex_valid(pattern: Seq<char>) -> bool;

/// The groups of the leftmost match of a pattern in a text (group 0 is the
/// whole match); `None` when the pattern is invalid or nothing matches.
pub uninterp spec fn regex_first_captures(pattern: Seq<char>, text: Seq<char>) -> Option<Seq<Option<Seq<char>>>>;

/// Every match of a pattern in a text, left to right, each with all its
/// groups (group 0 is the whole match); empty for an invalid pattern.
pub uninterp spec fn regex_all_captures(pattern: Seq<char>, text: Seq<char>) -> Seq<Seq<Option<Seq<char>>>>;

/// Every group present in a match is no longer than the text: a group is a
/// part of the text it was found in.
pub open spec fn groups_fit(c: Seq<Option<Seq<char>>>, n: nat) -> bool {
    forall|k: int| 0 <= k < c.len() ==> (#[trigger] c[k] matches Some(g) ==> g.len() <= n)
}

/// Calls `regex::escape`, which puts a backslash before each of the
/// characters `\\ . + * ? ( ) | [ ] { } ^ $ # & - ~` and keeps the others.
#[verifier::external_body]
fn regex_escape(s: &str) -> (r: String)
    ensures
        r@ == regex_escaped(s@),
{
    regex::escape(s)
}

/// Calls `regex::Regex::new` and reports whether it succeeded.
#[verifier::external_body]
fn regex_is_valid(pattern: &str) -> (b: bool)
    ensures
        b == regex_valid(pattern@),
{
    regex::Regex::new(pattern).is_ok()
}

/// Calls `Regex::new(pattern)` then `captures(text)`, the match turned into
/// the list of its groups. Of the result its name is stated, and that each
/// group is a part of `text` (no longer than it).
#[verifier::external_body]
fn regex_first(pattern: &str, text: &str) -> (r: Option<Vec<Option<String>>>)
    ensures
        match r {
            Some(c) => regex_first_captures(pattern@, text@) == Some(opts_view(c@)),
            None => regex_first_captures(pattern@, text@) is None,
        },
        r matches Some(c) ==> groups_fit(opts_view(c@), text@.len()),
{
    let re = regex::Regex::new(pattern).ok()?;
    re.captures(text).map(|c| c.iter().map(|g| g.map(|m| m.as_str().to_string())).collect())
}

pub open spec fn captures_view(v: Seq<Vec<Option<String>>>) -> Seq<Seq<Option<Seq<char>>>> {
    v.map_values(|c: Vec<Option<String>>| opts_view(c@))
}

/// Calls `Regex::new(pattern)` then `captures_iter(text)`, each match turned
/// into the list of its groups. Of the result its name is stated, and that
/// each group is a part of `text` (no longer than it).
#[verifier::external_body]
fn regex_captures(pattern: &str, text: &str) -> (r: Vec<Vec<Option<String>>>)
    ensures
        captures_view(r@) == regex_all_captures(pattern@, text@),
        forall|m: int| 0 <= m < r@.len() ==> groups_fit(opts_view(#[trigger] r@[m]@), text@.len()),
{
    match regex::Regex::new(pattern) {
        Ok(re) => re
            .captures_iter(text)
            .map(|c| c.iter().map(|g| g.map(|m| m.as_str().to_string())).collect())
            .collect(),
        Err(_) => Vec::new(),
    }
}

// ---------------------------------------------------------------- page fields

/// A scraped value: JavaScript escapes, then HTML entities decoded, trimmed;
/// `None` when nothing is left.
pub open spec fn clean_value(v: Seq<char>) -> Option<Seq<char>> {
    let t = trim_seq(unescape_seq(js_unescape_spec(v)));
    if t.len() > 0 { Some(t) } else { None }
}

fn clean_value_exec(v: &str) -> (r: Option<String>)
    ensures
        opt_seq_view(r) == clean_value(v@),
        v@.len() == 0 ==> r is None,
{
    let j = js_unescape(v);
    let h = html_unescape(j.as_str());
    let cs = chars_of(h.as_str());
    let (a, b) = trim_range(&cs);
    if a < b {
        Some(string_of_range(&cs, a, b))
    } else {
        assert(cs@.subrange(a as int, b as int).len() == 0);
        None
    }
}

/// Group 1 of a match (when the match has one).
pub open spec fn group1(caps: Option<Seq<Option<Seq<char>>>>) -> Option<Seq<char>> {
    match caps {
        Some(c) => if c.len() > 1 { c[1] } else { None },
        None => None,
    }
}

fn group_at(caps: &Vec<Option<String>>, i: usize) -> (r: Option<String>)
    ensures
        opt_seq_view(r) == (if i < caps@.len() { opt_seq_view(caps@[i as int]) } else { None }),
{
    if i < caps.len() {
        match &caps[i] {
            Some(t) => Some(t.clone()),
            None => None,
        }
    } else {
        None
    }
}

/// The first of two patterns that matches gives the value (its group 1).
pub open spec fn first_of_two(p1: Seq<char>, p2: Seq<char>, text: Seq<char>) -> Option<Seq<char>> {
    if !regex_valid(p1) || !regex_valid(p2) {
        None
    } else {
        match regex_first_captures(p1, text) {
            Some(c) => group1(Some(c)),
            None => group1(regex_first_captures(p2, text)),
        }
    }
}

fn first_of_two_exec(p1: &str, p2: &str, text: &str) -> (r: Option<String>)
    ensures
        opt_seq_view(r) == first_of_two(p1@, p2@, text@),
        r matches Some(v) ==> v@.len() <= text@.len(),
{
    if !regex_is_valid(p1) || !regex_is_valid(p2) {
        return None;
    }
    match regex_first(p1, text) {
        Some(c) => {
            proof { assert(opts_view(c@).len() == c@.len()); }
            let g = group_at(&c, 1);
            proof { if 1 < c@.len() { assert(opts_view(c@)[1] == opt_seq_view(c@[1])); } }
            g
        },
        None => match regex_first(p2, text) {
            Some(c) => {
                proof { assert(opts_view(c@).len() == c@.len()); }
                let g = group_at(&c, 1);
                proof { if 1 < c@.len() { assert(opts_view(c@)[1] == opt_seq_view(c@[1])); } }
                g
            },
            None => None,
        },
    }
}

pub open spec fn js_var_pattern(e: Seq<char>, double: bool) -> Seq<char> {
    if double {
        r#"(?s)\b(?:var\s+)?"#@ + e + r#"\s*=\s*(?:htmlDecode\()?"((?:\\.|[^"\\])*)""#@
    } else {
        r#"(?s)\b(?:var\s+)?"#@ + e + r#"\s*=\s*(?:htmlDecode\()?'((?:\\.|[^'\\])*)'"#@
    }
}

/// A string assigned to the JavaScript variable `name` in the page.
pub open spec fn js_var_spec(html: Seq<char>, name: Seq<char>) -> Option<Seq<char>> {
    let e = regex_escaped(name);
    match first_of_two(js_var_pattern(e, true), js_var_pattern(e, false), html) {
        Some(v) => clean_value(v),
        None => None,
    }
}

pub fn js_var(html: &str, name: &str) -> (r: Option<String>)
    ensures
        opt_seq_view(r) == js_var_spec(html@, name@),
        html@.len() == 0 ==> r is None,
{
    let e = regex_escape(name);
    let mut p1 = String::new();
    push_str(&mut p1, r#"(?s)\b(?:var\s+)?"#);
    push_str(&mut p1, e.as_str());
    push_str(&mut p1, r#"\s*=\s*(?:htmlDecode\()?"((?:\\.|[^"\\])*)""#);
    let mut p2 = String::new();
    push_str(&mut p2, r#"(?s)\b(?:var\s+)?"#);
    push_str(&mut p2, e.as_str());
    push_str(&mut p2, r#"\s*=\s*(?:htmlDecode\()?'((?:\\.|[^'\\])*)'"#);
    match first_of_two_exec(p1.as_str(), p2.as_str(), html) {
        Some(v) => clean_value_exec(v.as_str()),
        None => None,
    }
}

pub open spec fn field_pattern(k: Seq<char>, double: bool) -> Seq<char> {
    r#"(?s)(?:^|[{,]\s*)(?:""#@ + k + r#""|'"#@ + k + r#"'|"#@ + k
        + (if double { r#")\s*:\s*(?:htmlDecode\()?"((?:\\.|[^"\\])*)""#@ } else { r#")\s*:\s*(?:htmlDecode\()?'((?:\\.|[^'\\])*)'"#@ })
}

/// A string field `name` of a JavaScript object literal.
pub open spec fn js_object_string_field_spec(object: Seq<char>, name: Seq<char>) -> Option<Seq<char>> {
    let k = regex_escaped(name);
    match first_of_two(field_pattern(k, true), field_pattern(k, false), object) {
        Some(v) => clean_value(v),
        None => None,
    }
}

pub fn js_object_string_field(object: &str, name: &str) -> (r: Option<String>)
    ensures
        opt_seq_view(r) == js_object_string_field_spec(object@, name@),
{
    let k = regex_escape(name);
    let mut p1 = String::new();
    push_str(&mut p1, r#"(?s)(?:^|[{,]\s*)(?:""#);
    push_str(&mut p1, k.as_str());
    push_str(&mut p1, r#""|'"#);
    push_str(&mut p1, k.as_str());
    push_str(&mut p1, r#"'|"#);
    push_str(&mut p1, k.as_str());
    push_str(&mut p1, r#")\s*:\s*(?:htmlDecode\()?"((?:\\.|[^"\\])*)""#);
    let mut p2 = String::new();
    push_str(&mut p2, r#"(?s)(?:^|[{,]\s*)(?:""#);
    push_str(&mut p2, k.as_str());
    push_str(&mut p2, r#""|'"#);
    push_str(&mut p2, k.as_str());
    push_str(&mut p2, r#"'|"#);
    push_str(&mut p2, k.as_str());
    push_str(&mut p2, r#")\s*:\s*(?:htmlDecode\()?'((?:\\.|[^'\\])*)'"#);
    match first_of_two_exec(p1.as_str(), p2.as_str(), object) {
        Some(v) => clean_value_exec(v.as_str()),
        None => None,
    }
}

/// A string field of the page's `window.cgiDataNew` object.
pub open spec fn cgi_data_value_spec(html: Seq<char>, name: Seq<char>) -> Option<Seq<char>> {
    match js_object_after_spec(html, "window.cgiDataNew"@) {
        Some(o) => js_object_string_field_spec(o, name),
        None => None,
    }
}

pub fn cgi_data_value(html: &str, name: &str) -> (r: Option<String>)
    ensures
        opt_seq_view(r) == cgi_data_value_spec(html@, name@),
        html@.len() == 0 ==> r is None,
{
    match js_object_after(html, "window.cgiDataNew") {
        Some(o) => js_object_string_field(o.as_str(), name),
        None => None,
    }
}

pub open spec fn text_by_id_pattern(e: Seq<char>) -> Seq<char> {
    r#"(?is)<(?P<tag>[a-z0-9]+)[^>]*\bid\s*=\s*(?:""#@ + e + r#""|'"#@ + e + r#"')[^>]*>(?P<body>.*?)</[a-z0-9]+>"#@
}

/// The text inside the element with the given `id`: its first match's body
/// with tags removed, entities decoded, trimmed; `None` when empty.
pub open spec fn html_text_by_id_spec(html: Seq<char>, id: Seq<char>) -> Option<Seq<char>> {
    let pat = text_by_id_pattern(regex_escaped(id));
    if !regex_valid(pat) {
        None
    } else {
        match regex_first_captures(pat, html) {
            Some(c) => if c.len() > 2 {
                match c[2] {
                    Some(body) => {
                        let t = trim_seq(unescape_seq(
                            crate::render::rewrite::rewrite_from(crate::render::rewrite::TagStrip { min_inner: 1 }, body, 0),
                        ));
                        if t.len() > 0 { Some(t) } else { None }
                    },
                    None => None,
                }
            } else {
                None
            },
            None => None,
        }
    }
}

pub fn html_text_by_id(html: &str, id: &str) -> (r: Option<String>)
    ensures
        opt_seq_view(r) == html_text_by_id_spec(html@, id@),
        html@.len() == 0 ==> r is None,
{
    let e = regex_escape(id);
    let mut pat = String::new();
    push_str(&mut pat, r#"(?is)<(?P<tag>[a-z0-9]+)[^>]*\bid\s*=\s*(?:""#);
    push_str(&mut pat, e.as_str());
    push_str(&mut pat, r#""|'"#);
    push_str(&mut pat, e.as_str());
    push_str(&mut pat, r#"')[^>]*>(?P<body>.*?)</[a-z0-9]+>"#);
    if !regex_is_valid(pat.as_str()) {
        return None;
    }
    match regex_first(pat.as_str(), html) {
        Some(c) => {
            proof { assert(opts_view(c@).len() == c@.len()); }
            let g = group_at(&c, 2);
            proof { if 2 < c@.len() { assert(opts_view(c@)[2] == opt_seq_view(c@[2])); } }
            match g {
                Some(body) => {
                    let stripped = crate::render::rewrite::rewrite_all(
                        &crate::render::rewrite::TagStrip { min_inner: 1 },
                        body.as_str(),
                    );
                    let h = html_unescape(stripped.as_str());
                    let cs = chars_of(h.as_str());
                    let (a, b) = trim_range(&cs);
                    if a < b {
                        Some(string_of_range(&cs, a, b))
                    } else {
                        assert(cs@.subrange(a as int, b as int).len() == 0);
                        None
                    }
                },
                None => None,
            }
        },
        None => None,
    }
}

// ---------------------------------------------------------------- meta tags

pub open spec fn meta_pattern() -> Seq<char> {
    r#"(?is)<meta\s+([^>]+)>"#@
}

pub open spec fn attr_pattern() -> Seq<char> {
    r#"(?is)([a-zA-Z_:.-]+)\s*=\s*(?:"([^"]*)"|'([^']*)')"#@
}

pub open spec fn group_or_none(c: Seq<Option<Seq<char>>>, i: int) -> Option<Seq<char>> {
    if 0 <= i < c.len() { c[i] } else { None }
}

pub open spec fn or_empty(o: Option<Seq<char>>) -> Seq<char> {
    match o {
        Some(v) => v,
        None => Seq::empty(),
    }
}

/// One attribute of a `<meta>` tag: `property`/`name` set the key
/// (lower-cased), `content` the value; values are decoded.
pub open spec fn attr_step(attr: Seq<Option<Seq<char>>>, key: Option<Seq<char>>, content: Option<Seq<char>>) -> (Option<Seq<char>>, Option<Seq<char>>) {
    let name = ascii_lower_seq(or_empty(group_or_none(attr, 1)));
    let raw = match group_or_none(attr, 2) {
        Some(v) => Some(v),
        None => group_or_none(attr, 3),
    };
    let value = match raw {
        Some(v) => unescape_seq(js_unescape_spec(v)),
        None => Seq::empty(),
    };
    if name == "property"@ || name == "name"@ {
        (Some(ascii_lower_seq(value)), content)
    } else if name == "content"@ {
        (key, Some(value))
    } else {
        (key, content)
    }
}

pub open spec fn attrs_fold(attrs: Seq<Seq<Option<Seq<char>>>>, i: int, key: Option<Seq<char>>, content: Option<Seq<char>>) -> (Option<Seq<char>>, Option<Seq<char>>)
    decreases attrs.len() - i,
{
    if i < 0 || i >= attrs.len() {
        (key, content)
    } else {
        let (k, c) = attr_step(attrs[i], key, content);
        attrs_fold(attrs, i + 1, k, c)
    }
}

/// The value stored for a key (the first one stored wins).
pub open spec fn meta_get(m: Seq<(Seq<char>, Seq<char>)>, key: Seq<char>) -> Option<Seq<char>>
    decreases m.len(),
{
    if m.len() == 0 {
        None
    } else if m[0].0 == key {
        Some(m[0].1)
    } else {
        meta_get(m.drop_first(), key)
    }
}

pub open spec fn meta_entry(tag_attrs: Option<Seq<char>>) -> Option<(Seq<char>, Seq<char>)> {
    match tag_attrs {
        Some(t) => {
            let (k, c) = attrs_fold(regex_all_captures(attr_pattern(), t), 0, None, None);
            match (k, c) {
                (Some(k), Some(c)) => if trim_seq(c).len() > 0 { Some((k, trim_seq(c))) } else { None },
                _ => None,
            }
        },
        None => None,
    }
}

pub open spec fn meta_fold(caps: Seq<Seq<Option<Seq<char>>>>, i: int, m: Seq<(Seq<char>, Seq<char>)>) -> Seq<(Seq<char>, Seq<char>)>
    decreases caps.len() - i,
{
    if i < 0 || i >= caps.len() {
        m
    } else {
        let m2 = match meta_entry(group_or_none(caps[i], 1)) {
            Some((k, v)) => if meta_get(m, k) is Some { m } else { m.push((k, v)) },
            None => m,
        };
        meta_fold(caps, i + 1, m2)
    }
}

/// The `<meta>` key/value pairs of a page, in order of first appearance.
pub open spec fn meta_spec(html: Seq<char>) -> Seq<(Seq<char>, Seq<char>)> {
    meta_fold(regex_all_captures(meta_pattern(), html), 0, Seq::empty())
}

pub open spec fn pairs_view(m: Seq<(String, String)>) -> Seq<(Seq<char>, Seq<char>)> {
    m.map_values(|p: (String, String)| (p.0@, p.1@))
}

fn ascii_lowercase(s: &str) -> (r: String)
    ensures
        r@ == ascii_lower_seq(s@),
{
    let cs = chars_of(s);
    let mut out: Vec<char> = Vec::new();
    let mut k: usize = 0;
    while k < cs.len()
        invariant
            k <= cs@.len(),
            out@ =~= ascii_lower_seq(cs@.take(k as int)),
        decreases cs@.len() - k,
    {
        let c = cs[k];
        let lc = if 'A' <= c && c <= 'Z' { ((c as u8) + 32) as char } else { c };
        out.push(lc);
        k = k + 1;
    }
    assert(cs@.take(cs@.len() as int) =~= cs@);
    crate::text::string_from_chars(out.as_slice())
}

fn group_text(c: &Vec<Option<String>>, i: usize) -> (r: Option<String>)
    ensures
        opt_seq_view(r) == group_or_none(opts_view(c@), i as int),
{
    let g = group_at(c, i);
    proof { if i < c@.len() { assert(opts_view(c@)[i as int] == opt_seq_view(c@[i as int])); } }
    g
}

fn meta_get_exec(m: &Vec<(String, String)>, key: &str) -> (r: Option<String>)
    ensures
        opt_seq_view(r) == meta_get(pairs_view(m@), key@),
{
    let ghost all = pairs_view(m@);
    let mut i: usize = 0;
    assert(all.subrange(0, all.len() as int) =~= all);
    while i < m.len()
        invariant
            i <= m@.len(),
            all == pairs_view(m@),
            meta_get(all, key@) == meta_get(all.subrange(i as int, all.len() as int), key@),
        decreases m@.len() - i,
    {
        let ghost rest = all.subrange(i as int, all.len() as int);
        assert(rest.drop_first() =~= all.subrange(i + 1, all.len() as int));
        if str_eq(m[i].0.as_str(), key) {
            return Some(m[i].1.clone());
        }
        i = i + 1;
    }
    assert(all.subrange(i as int, all.len() as int).len() == 0);
    None
}

fn meta_entry_exec(tag_attrs: Option<String>) -> (r: Option<(String, String)>)
    ensures
        match r {
            Some((k, v)) => meta_entry(opt_seq_view(tag_attrs)) == Some((k@, v@)),
            None => meta_entry(opt_seq_view(tag_attrs)) is None,
        },
        tag_attrs matches Some(t) && t@.len() == 0 ==> r is None,
{
    let t = match tag_attrs {
        Some(t) => t,
        None => return None,
    };
    let attrs = regex_captures(r#"(?is)([a-zA-Z_:.-]+)\s*=\s*(?:"([^"]*)"|'([^']*)')"#, t.as_str());
    let ghost av = captures_view(attrs@);
    let mut key: Option<String> = None;
    let mut content: Option<String> = None;
    let mut i: usize = 0;
    while i < attrs.len()
        invariant
            i <= attrs@.len(),
            av == captures_view(attrs@),
            av == regex_all_captures(attr_pattern(), t@),
            attrs_fold(av, 0, None, None) == attrs_fold(av, i as int, opt_seq_view(key), opt_seq_view(content)),
            forall|m: int| 0 <= m < attrs@.len() ==> groups_fit(opts_view(#[trigger] attrs@[m]@), t@.len()),
            t@.len() == 0 ==> (content matches Some(c) ==> c@.len() == 0),
        decreases attrs@.len() - i,
    {
        let attr = &attrs[i];
        assert(av[i as int] == opts_view(attr@));
        let name_raw = match group_text(attr, 1) {
            Some(x) => x,
            None => String::new(),
        };
        let name = ascii_lowercase(name_raw.as_str());
        let raw = match group_text(attr, 2) {
            Some(v) => Some(v),
            None => group_text(attr, 3),
        };
        let value = match raw {
            Some(v) => {
                proof {
                    if t@.len() == 0 {
                        assert(groups_fit(opts_view(attr@), t@.len()));
                        assert(v@.len() == 0);
                        assert(js_unescape_spec(v@) =~= Seq::<char>::empty());
                    }
                }
                let j = js_unescape(v.as_str());
                proof {
                    if t@.len() == 0 {
                        assert(unescape_seq(j@) =~= Seq::<char>::empty());
                    }
                }
                html_unescape(j.as_str())
            },
            None => String::new(),
        };
        let nc = chars_of(name.as_str());
        if slice_is(&nc, 0, nc.len(), "property") || slice_is(&nc, 0, nc.len(), "name") {
            assert(nc@.subrange(0, nc@.len() as int) =~= nc@);
            key = Some(ascii_lowercase(value.as_str()));
        } else if slice_is(&nc, 0, nc.len(), "content") {
            assert(nc@.subrange(0, nc@.len() as int) =~= nc@);
            content = Some(value);
        } else {
            assert(nc@.subrange(0, nc@.len() as int) =~= nc@);
        }
        i = i + 1;
    }
    match (key, content) {
        (Some(k), Some(c)) => {
            let cs = chars_of(c.as_str());
            let (a, b) = trim_range(&cs);
            proof {
                if t@.len() == 0 {
                    lemma_trim_empty();
                    assert(cs@ =~= Seq::<char>::empty());
                }
            }
            if a < b {
                Some((k, string_of_range(&cs, a, b)))
            } else {
                assert(cs@.subrange(a as int, b as int).len() == 0);
                None
            }
        },
        _ => None,
    }
}

/// The `<meta>` tags of a page: `(key, content)` with the key lower-cased
/// and the content decoded and trimmed; the first tag for a key wins.
pub fn collect_meta_tags(html: &str) -> (r: Vec<(String, String)>)
    ensures
        pairs_view(r@) == meta_spec(html@),
        html@.len() == 0 ==> r@.len() == 0,
{
    let caps = regex_captures(r#"(?is)<meta\s+([^>]+)>"#, html);
    let ghost cv = captures_view(caps@);
    let mut m: Vec<(String, String)> = Vec::new();
    let mut i: usize = 0;
    assert(pairs_view(m@) =~= Seq::<(Seq<char>, Seq<char>)>::empty());
    while i < caps.len()
        invariant
            i <= caps@.len(),
            cv == captures_view(caps@),
            cv == regex_all_captures(meta_pattern(), html@),
            meta_fold(cv, 0, Seq::empty()) == meta_fold(cv, i as int, pairs_view(m@)),
            forall|k: int| 0 <= k < caps@.len() ==> groups_fit(opts_view(#[trigger] caps@[k]@), html@.len()),
            html@.len() == 0 ==> m@.len() == 0,
        decreases caps@.len() - i,
    {
        assert(cv[i as int] == opts_view(caps@[i as int]@));
        let g = group_text(&caps[i], 1);
        proof {
            if html@.len() == 0 {
                assert(groups_fit(opts_view(caps@[i as int]@), html@.len()));
            }
        }
        match meta_entry_exec(g) {
            Some((k, v)) => {
                match meta_get_exec(&m, k.as_str()) {
                    Some(_) => {},
                    None => {
                        let ghost before = m@;
                        m.push((k, v));
                        assert(pairs_view(m@) =~= pairs_view(before).push((k@, v@)));
                    },
                }
            },
            None => {},
        }
        i = i + 1;
    }
    m
}

// ---------------------------------------------------------------- the page

pub open spec fn parse_wechat_html_title(html: Seq<char>, m: Seq<(Seq<char>, Seq<char>)>) -> Seq<char> {
    first_non_empty_spec(seq![
        js_var_spec(html, "msg_title"@),
        cgi_data_value_spec(html, "title"@),
        meta_get(m, "og:title"@),
        meta_get(m, "twitter:title"@),
    ])
}

pub open spec fn parse_wechat_html_description(html: Seq<char>, m: Seq<(Seq<char>, Seq<char>)>) -> Seq<char> {
    first_non_empty_spec(seq![
        js_var_spec(html, "msg_desc"@),
        cgi_data_value_spec(html, "desc"@),
        meta_get(m, "og:description"@),
        meta_get(m, "description"@),
        meta_get(m, "twitter:description"@),
    ])
}

pub open spec fn parse_wechat_html_account(html: Seq<char>, m: Seq<(Seq<char>, Seq<char>)>) -> Seq<char> {
    first_non_empty_spec(seq![
        js_var_spec(html, "nickname"@),
        js_var_spec(html, "nick_name"@),
        cgi_data_value_spec(html, "nick_name"@),
        html_text_by_id_spec(html, "js_name"@),
        js_var_spec(html, "user_name"@),
        cgi_data_value_spec(html, "user_name"@),
        meta_get(m, "author"@),
    ])
}

pub open spec fn parse_wechat_html_cover(html: Seq<char>, m: Seq<(Seq<char>, Seq<char>)>) -> Seq<char> {
    first_non_empty_spec(seq![
        js_var_spec(html, "msg_cdn_url"@),
        cgi_data_value_spec(html, "cdn_url"@),
        cgi_data_value_spec(html, "cover"@),
        meta_get(m, "og:image"@),
        meta_get(m, "twitter:image"@),
    ])
}

pub open spec fn parse_wechat_html_thumbnail(html: Seq<char>) -> Seq<char> {
    first_non_empty_spec(seq![
        js_var_spec(html, "cdn_url_1_1"@),
        cgi_data_value_spec(html, "cdn_url_1_1"@),
        cgi_data_value_spec(html, "cdn_1_1_img"@),
    ])
}

pub open spec fn parse_wechat_html_avatar(html: Seq<char>) -> Seq<char> {
    first_non_empty_spec(seq![
        js_var_spec(html, "round_head_img"@),
        cgi_data_value_spec(html, "round_head_img"@),
        js_var_spec(html, "hd_head_img"@),
        cgi_data_value_spec(html, "hd_head_img"@),
    ])
}

/// Scrapes an article page: each field is the first non-blank of its
/// candidates (JavaScript variables, the `cgiDataNew` object, the account
/// name element, `<meta>` tags); the local-asset fields stay empty.
pub fn parse_wechat_html(html: &str) -> (r: WechatPreview)
    ensures
        r.title@ == parse_wechat_html_title(html@, meta_spec(html@)),
        r.description@ == parse_wechat_html_description(html@, meta_spec(html@)),
        r.account_name@ == parse_wechat_html_account(html@, meta_spec(html@)),
        r.cover_url@ == parse_wechat_html_cover(html@, meta_spec(html@)),
        r.thumbnail_url@ == parse_wechat_html_thumbnail(html@),
        r.account_avatar_url@ == parse_wechat_html_avatar(html@),
        r.local_cover_url@.len() == 0 && !r.cover_is_square,
        r.local_thumbnail_url@.len() == 0 && !r.thumbnail_is_square,
        r.local_avatar_url@.len() == 0 && r.fetched_at@.len() == 0,
        html@.len() == 0 ==> r.title@.len() == 0 && r.description@.len() == 0 && r.account_name@.len() == 0
            && r.cover_url@.len() == 0 && r.thumbnail_url@.len() == 0 && r.account_avatar_url@.len() == 0,
{
    let meta = collect_meta_tags(html);
    let mut p = WechatPreview::empty();

    let v = vec![js_var(html, "msg_title"), cgi_data_value(html, "title"), meta_get_exec(&meta, "og:title"),
        meta_get_exec(&meta, "twitter:title")];
    assert(opts_view(v@) =~= seq![js_var_spec(html@, "msg_title"@), cgi_data_value_spec(html@, "title"@),
        meta_get(meta_spec(html@), "og:title"@), meta_get(meta_spec(html@), "twitter:title"@)]);
    proof {
        if html@.len() == 0 {
            lemma_first_non_empty_none(opts_view(v@));
        }
    }
    p.title = first_non_empty(v);

    let v = vec![js_var(html, "msg_desc"), cgi_data_value(html, "desc"), meta_get_exec(&meta, "og:description"),
        meta_get_exec(&meta, "description"), meta_get_exec(&meta, "twitter:description")];
    assert(opts_view(v@) =~= seq![js_var_spec(html@, "msg_desc"@), cgi_data_value_spec(html@, "desc"@),
        meta_get(meta_spec(html@), "og:description"@), meta_get(meta_spec(html@), "description"@),
        meta_get(meta_spec(html@), "twitter:description"@)]);
    proof {
        if html@.len() == 0 {
            lemma_first_non_empty_none(opts_view(v@));
        }
    }
    p.description = first_non_empty(v);

    let v = vec![js_var(html, "nickname"), js_var(html, "nick_name"), cgi_data_value(html, "nick_name"),
        html_text_by_id(html, "js_name"), js_var(html, "user_name"), cgi_data_value(html, "user_name"),
        meta_get_exec(&meta, "author")];
    assert(opts_view(v@) =~= seq![js_var_spec(html@, "nickname"@), js_var_spec(html@, "nick_name"@),
        cgi_data_value_spec(html@, "nick_name"@), html_text_by_id_spec(html@, "js_name"@),
        js_var_spec(html@, "user_name"@), cgi_data_value_spec(html@, "user_name"@),
        meta_get(meta_spec(html@), "author"@)]);
    proof {
        if html@.len() == 0 {
            lemma_first_non_empty_none(opts_view(v@));
        }
    }
    p.account_name = first_non_empty(v);

    let v = vec![js_var(html, "msg_cdn_url"), cgi_data_value(html, "cdn_url"), cgi_data_value(html, "cover"),
        meta_get_exec(&meta, "og:image"), meta_get_exec(&meta, "twitter:image")];
    assert(opts_view(v@) =~= seq![js_var_spec(html@, "msg_cdn_url"@), cgi_data_value_spec(html@, "cdn_url"@),
        cgi_data_value_spec(html@, "cover"@), meta_get(meta_spec(html@), "og:image"@),
        meta_get(meta_spec(html@), "twitter:image"@)]);
    proof {
        if html@.len() == 0 {
            lemma_first_non_empty_none(opts_view(v@));
        }
    }
    p.cover_url = first_non_empty(v);

    let v = vec![js_var(html, "cdn_url_1_1"), cgi_data_value(html, "cdn_url_1_1"), cgi_data_value(html, "cdn_1_1_img")];
    assert(opts_view(v@) =~= seq![js_var_spec(html@, "cdn_url_1_1"@), cgi_data_value_spec(html@, "cdn_url_1_1"@),
        cgi_data_value_spec(html@, "cdn_1_1_img"@)]);
    proof {
        if html@.len() == 0 {
            lemma_first_non_empty_none(opts_view(v@));
        }
    }
    p.thumbnail_url = first_non_empty(v);

    let v = vec![js_var(html, "round_head_img"), cgi_data_value(html, "round_head_img"), js_var(html, "hd_head_img"),
        cgi_data_value(html, "hd_head_img")];
    assert(opts_view(v@) =~= seq![js_var_spec(html@, "round_head_img"@), cgi_data_value_spec(html@, "round_head_img"@),
        js_var_spec(html@, "hd_head_img"@), cgi_data_value_spec(html@, "hd_head_img"@)]);
    proof {
        if html@.len() == 0 {
            lemma_first_non_empty_none(opts_view(v@));
        }
    }
    p.account_avatar_url = first_non_empty(v);
    p
}

/// Every text field that a page gives is trimmed: no field of a scraped
/// preview starts or ends with whitespace.
pub proof fn lemma_parse_wechat_html_trimmed(html: Seq<char>)
    ensures
        ({
            let m = meta_spec(html);
            &&& trim_seq(parse_wechat_html_title(html, m)) == parse_wechat_html_title(html, m)
            &&& trim_seq(parse_wechat_html_description(html, m)) == parse_wechat_html_description(html, m)
            &&& trim_seq(parse_wechat_html_account(html, m)) == parse_wechat_html_account(html, m)
            &&& trim_seq(parse_wechat_html_cover(html, m)) == parse_wechat_html_cover(html, m)
            &&& trim_seq(parse_wechat_html_thumbnail(html)) == parse_wechat_html_thumbnail(html)
            &&& trim_seq(parse_wechat_html_avatar(html)) == parse_wechat_html_avatar(html)
        }),
{
    let m = meta_spec(html);
    lemma_first_non_empty_trimmed(seq![
        js_var_spec(html, "msg_title"@),
        cgi_data_value_spec(html, "title"@),
        meta_get(m, "og:title"@),
        meta_get(m, "twitter:title"@),
    ]);
    lemma_first_non_empty_trimmed(seq![
        js_var_spec(html, "msg_desc"@),
        cgi_data_value_spec(html, "desc"@),
        meta_get(m, "og:description"@),
        meta_get(m, "description"@),
        meta_get(m, "twitter:description"@),
    ]);
    lemma_first_non_empty_trimmed(seq![
        js_var_spec(html, "nickname"@),
        js_var_spec(html, "nick_name"@),
        cgi_data_value_spec(html, "nick_name"@),
        html_text_by_id_spec(html, "js_name"@),
        js_var_spec(html, "user_name"@),
        cgi_data_value_spec(html, "user_name"@),
        meta_get(m, "author"@),
    ]);
    lemma_first_non_empty_trimmed(seq![
        js_var_spec(html, "msg_cdn_url"@),
        cgi_data_value_spec(html, "cdn_url"@),
        cgi_data_value_spec(html, "cover"@),
        meta_get(m, "og:image"@),
        meta_get(m, "twitter:image"@),
    ]);
    lemma_first_non_empty_trimmed(seq![
        js_var_spec(html, "cdn_url_1_1"@),
        cgi_data_value_spec(html, "cdn_url_1_1"@),
        cgi_data_value_spec(html, "cdn_1_1_img"@),
    ]);
    lemma_first_non_empty_trimmed(seq![
        js_var_spec(html, "round_head_img"@),
        cgi_data_value_spec(html, "round_head_img"@),
        js_var_spec(html, "hd_head_img"@),
        cgi_data_value_spec(html, "hd_head_img"@),
    ]);
}

/// Read your write: once a fetched preview is stored under a key, looking
/// the key up gives that preview.
pub proof fn lemma_lookup_after_store(entries: Seq<(String, WechatPreview)>, key: String, p: WechatPreview)
    ensures
        lookup_spec(entries.push((key, p)), key@) == Some(p),
{
    assert(entries.push((key, p)).last() == (key, p));
}

/// A page is fetched at most once a build: after its fetch failed it is
/// not asked for again (the cached preview is used where there is one, and
/// otherwise none is shown).
pub proof fn lemma_failed_not_refetched(entries: Seq<(String, WechatPreview)>, failed: Seq<String>, url: Seq<char>, key: String)
    requires
        key@ == normalize_wechat_url_spec(url),
    ensures
        ({
            let (k, cached, decision) = get_spec(entries, failed.push(key), url);
            &&& decision != 2
            &&& decision == 1 <==> cached is None
        }),
{
    assert(failed.push(key)[failed.len() as int] == key);
}

} // verus!
