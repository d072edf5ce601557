//! Merging of tagged PDF documents: a PDF object model, the structure-tree
//! sanitizer and the tagged-PDF merger, with their contracts.

pub mod bytes;
pub mod object;
pub mod table;
pub mod document;
pub mod frame;
pub mod helpers;
pub mod walker;
pub mod text;
pub mod dissolve;
pub mod sanitize;
pub mod clean;
pub mod shape;
pub mod settle;
pub mod flatten;
pub mod fix_tagged;
pub mod pdf_utils;
pub mod extract;
pub mod keys;
pub mod assemble;
pub mod wiring;
pub mod merge;
pub mod merged;
pub mod outline;
pub mod pages;
pub mod run;
pub mod clean_run;
pub mod title;
pub mod toc;
pub mod sitemap;
pub mod navbar;
pub mod adapters;
pub mod browser;
