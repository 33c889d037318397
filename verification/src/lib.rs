//! Structure-aware markdown retrieval: heading-tree indexing of markdown
//! corpora, with contracts proved by Verus.

pub mod access;
pub mod builder;
pub mod candidates;
pub mod cli;
pub mod config;
pub mod corpus;
pub mod corpus_map;
pub mod debounce;
pub mod derived;
pub mod document;
pub mod eval;
pub mod export;
pub mod frontmatter;
pub mod headings;
pub mod json;
pub mod link_laws;
pub mod links;
pub mod listing;
pub mod markdown;
pub mod model;
pub mod obsidian;
pub mod okf;
pub mod parse;
pub mod query;
pub mod search;
pub mod service;
pub mod stem;
pub mod summary;
pub mod text;
pub mod toc;
pub mod tokens;
pub mod tools;
pub mod tree_laws;
pub mod types;
pub mod updates;
pub mod walk_laws;
pub mod watching;
