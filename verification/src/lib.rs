//! Conversion of Confluence pages to portable Markdown.

pub mod answer_laws;
pub mod asset_laws;
pub mod cells;
pub mod confluence;
pub mod diagram_laws;
pub mod dom;
pub mod drawio;
pub mod element_laws;
pub mod entities;
pub mod export_html;
pub mod export_laws;
pub mod grid;
pub mod headings;
pub mod html_laws;
pub mod jira;
pub mod json;
pub mod logger;
pub mod lookup;
pub mod macro_laws;
pub mod macros;
pub mod mxfile;
pub mod mxfile_laws;
pub mod names;
pub mod page;
pub mod page_laws;
pub mod pattern;
pub mod plantuml;
pub mod percent;
pub mod png;
pub mod reading;
pub mod table_laws;
pub mod tables;
pub mod tag_laws;
pub mod text;
pub mod text_laws;
pub mod trees;
pub mod utils;
pub mod web;
