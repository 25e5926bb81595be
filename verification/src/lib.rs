//! Typoena's verified core: config, preferences, snippets, Markdown
//! formatting, fuzzy matching and the small pure helpers of the app layer.

pub mod text;
pub mod conf;
pub mod prefs;
pub mod fuzzy;
pub mod snippets;
pub mod ports;
pub mod progress;
pub mod runtime;
pub mod panel;
pub mod palette;
pub mod buffers;
pub mod tables;
pub mod markdown;
pub mod render;
pub mod refresh;
pub mod motions;
pub mod search;
pub mod objects;
pub mod edits;
pub mod layout;
pub mod commands;
pub mod filelist;
pub mod newfile;
pub mod normal;
pub mod modal;
pub mod insert;
pub mod publish;
