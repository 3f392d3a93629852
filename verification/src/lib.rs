//! A static blog engine's rendering core: text utilities, Hexo-style tags,
//! table-of-contents generation, post parsing and site assembly helpers.

pub mod config;
pub mod text;
pub mod utils;
pub mod post;
pub mod render;
pub mod serve;
pub mod site;
