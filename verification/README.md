# blog-rs

A static blog engine compatible with Hexo content: posts in Markdown with
YAML frontmatter, Hexo tag plugins (`note`, `grouppicture`, `video`, `pdf`),
KaTeX math, syntect code highlighting, mermaid diagrams, a table of contents,
WeChat article cards, pagination, archives, tag and category pages and a
search index.

## Layout

- `src/` — the library, written in Verus and verified:
  - `text.rs`, `utils.rs` — character-level helpers, HTML escaping and entity
    decoding;
  - `post.rs` — frontmatter splitting, dates, excerpts, permalinks;
  - `render/` — the rendering pipeline: Hexo tags (`hexo_tags.rs`), markdown
    events (`markdown.rs`), math (`math.rs`), code blocks
    (`code_highlight.rs`), the table of contents (`toc.rs`), WeChat previews
    and their cache (`wechat.rs`), left-to-right rewriting (`rewrite.rs`) and
    the pipeline itself with its HTML tidying (`mod.rs`);
  - `site.rs` — post order, pagination, archive, tag and category listings,
    search text;
  - `serve.rs` — the development server's decisions (which file answers a
    request, which changes trigger a rebuild, when changes have settled);
  - `config.rs` — the site configuration and its defaults.
- `app/` — the command-line program: reading and writing files, templates,
  the HTTP server, file watching and network fetches.
- `tests/` — tests of the library.

## Usage

```bash
blog-rs build    # generate the site into public/
blog-rs serve    # build and preview on localhost:3000
```
