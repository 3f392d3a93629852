//! Site configuration (what `config.toml` holds): site information, the
//! permalink pattern, pagination, profile links, filing numbers, theme
//! settings and Giscus comments.
//!
//! Reading the file is the caller's part; the defaults of missing fields are
//! defined here. Paths are kept as text.

use vstd::prelude::*;
use crate::text::{chars_of, push_str};

verus! {

/// The site configuration.
pub struct SiteConfig {
    pub title: String,
    pub subtitle: String,
    pub author: String,
    pub url: String,
    pub language: String,
    pub avatar: String,
    pub github: String,
    pub email: String,
    pub motto: String,
    pub since: u32,
    pub icp: String,
    pub gongan: String,
    pub gongan_id: String,
    pub permalink: String,
    pub per_page: usize,
    pub source_dir: String,
    pub output_dir: String,
    pub theme: ThemeConfig,
    pub giscus: GiscusConfig,
}

/// Theme settings.
pub struct ThemeConfig {
    pub toc: bool,
    pub code_theme: String,
    pub accent_color: String,
}

/// Giscus comment settings.
pub struct GiscusConfig {
    pub repo: String,
    pub repo_id: String,
    pub category: String,
    pub category_id: String,
}

/// A missing `[theme]` table: the documented defaults, as for a present
/// table with no fields (table of contents on, `InspiredGitHub`, `#428bca`).
impl Default for ThemeConfig {
    fn default() -> (r: ThemeConfig)
        ensures
            r.toc && r.code_theme@ == "InspiredGitHub"@ && r.accent_color@ == "#428bca"@,
    {
        ThemeConfig { toc: default_true(), code_theme: default_code_theme(), accent_color: default_accent_color() }
    }
}

/// A missing `[giscus]` table: every field empty (comments off).
impl Default for GiscusConfig {
    fn default() -> (r: GiscusConfig)
        ensures
            r.repo@.len() == 0 && r.repo_id@.len() == 0 && r.category@.len() == 0 && r.category_id@.len() == 0,
    {
        GiscusConfig { repo: String::new(), repo_id: String::new(), category: String::new(), category_id: String::new() }
    }
}

impl GiscusConfig {
    /// Comments are on when both the repository and its id are given.
    pub fn is_enabled(&self) -> (b: bool)
        ensures
            b == (self.repo@.len() > 0 && self.repo_id@.len() > 0),
    {
        let r = chars_of(self.repo.as_str());
        let i = chars_of(self.repo_id.as_str());
        r.len() > 0 && i.len() > 0
    }
}

pub fn default_language() -> (r: String)
    ensures
        r@ == "zh-CN"@,
{
    "zh-CN".to_string()
}

pub fn default_since() -> (r: u32)
    ensures
        r == 2022,
{
    2022
}

pub fn default_permalink() -> (r: String)
    ensures
        r@ == ":year/:month/:day/:id/"@,
{
    ":year/:month/:day/:id/".to_string()
}

pub fn default_per_page() -> (r: usize)
    ensures
        r == 10,
{
    10
}

pub fn default_source_dir() -> (r: String)
    ensures
        r@ == "content"@,
{
    "content".to_string()
}

pub fn default_output_dir() -> (r: String)
    ensures
        r@ == "public"@,
{
    "public".to_string()
}

pub fn default_true() -> (r: bool)
    ensures
        r,
{
    true
}

pub fn default_code_theme() -> (r: String)
    ensures
        r@ == "InspiredGitHub"@,
{
    "InspiredGitHub".to_string()
}

pub fn default_accent_color() -> (r: String)
    ensures
        r@ == "#428bca"@,
{
    "#428bca".to_string()
}

/// `PathBuf::join` on text: an absolute `rel` replaces `base`; otherwise
/// `rel` is appended, with a `/` where `base` does not already end in one.
pub open spec fn path_join_spec(base: Seq<char>, rel: Seq<char>) -> Seq<char> {
    if rel.len() > 0 && rel[0] == '/' {
        rel
    } else if base.len() == 0 || base.last() == '/' {
        base + rel
    } else {
        base + seq!['/'] + rel
    }
}

pub fn path_join(base: &str, rel: &str) -> (r: String)
    ensures
        r@ == path_join_spec(base@, rel@),
{
    let bc = chars_of(base);
    let rc = chars_of(rel);
    if rc.len() > 0 && rc[0] == '/' {
        return rel.to_string();
    }
    let mut out = base.to_string();
    if !(bc.len() == 0 || bc[bc.len() - 1] == '/') {
        push_str(&mut out, "/");
        proof {
            reveal_strlit("/");
            assert("/"@ =~= seq!['/']);
        }
    }
    push_str(&mut out, rel);
    out
}

impl SiteConfig {
    /// Where the posts are: `_posts` under the source directory.
    pub fn posts_dir(&self) -> (r: String)
        ensures
            r@ == path_join_spec(self.source_dir@, "_posts"@),
    {
        path_join(self.source_dir.as_str(), "_posts")
    }

    /// Where the gallery is: `gallery` under the source directory.
    pub fn gallery_dir(&self) -> (r: String)
        ensures
            r@ == path_join_spec(self.source_dir@, "gallery"@),
    {
        path_join(self.source_dir.as_str(), "gallery")
    }
}

} // verus!
