//! A small static-site generator core: a tokenizer for a compact markdown
//! dialect, a single-pass HTML generator, and the page-assembly rules that
//! splice generated HTML into layout templates.

pub mod text;
pub mod parsers;
pub mod generators;
pub mod commands;
pub mod server;
