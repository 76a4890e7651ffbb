//! Italic: the verified core of a static site generator for digital gardens.

pub mod text;
pub mod html;
pub mod paths;
pub mod slug;
pub mod date;
pub mod permalink;
pub mod hashtag;
pub mod yaml;
pub mod taxonomy;
pub mod query;
pub mod backlinks;
pub mod report;
pub mod doc;
pub mod config;
pub mod frontmatter;
pub mod archive;
pub mod sorted;
pub mod order;
pub mod listing;
pub mod doc_index;
pub mod index;
pub mod wikilink;
pub mod wikitext;
pub mod alias;
pub mod defaults;
pub mod output;
pub mod generator;
pub mod livereload;
pub mod url;
pub mod laws;
pub mod templates;
pub mod site_data;
pub mod entries;
pub mod related;
