//! A file-search engine: a trie index over file names, a ranked search
//! router, the parsing of NTFS change-journal records, and the settings
//! and journal-state formats of the desktop front ends.
pub mod text;
pub mod usn;
pub mod types;
pub mod order;
pub mod index_engine;
pub mod pinyin;
pub mod searcher;
pub mod entry_json;
pub mod storage;
pub mod usn_reader;
pub mod file_kinds;
pub mod ui_config;
pub mod journal_state;
pub mod app_config;
pub mod win32;
pub mod display;
pub mod index_sync;
pub mod walker;
pub mod cli;
pub mod overlay;
pub mod json_tokens;
pub mod search_panel;
pub mod settings_form;
pub mod raster;
pub mod commands;
