//! Plain-text notes: a span-indexed note format, its parser, and the decisions
//! of the editor built on top of it.

pub mod ai;
pub mod ai_panel;
pub mod answer_laws;
pub mod app;
pub mod app_laws;
pub mod app_rules;
pub mod append_laws;
pub mod bar_laws;
pub mod buffer;
pub mod capture_laws;
pub mod command_bar;
pub mod command_laws;
pub mod commands;
pub mod config;
pub mod current_note;
pub mod date;
pub mod delimiter;
pub mod editing;
pub mod editor;
pub mod editor_laws;
pub mod ending_laws;
pub mod filter_laws;
pub mod filter_panel;
pub mod find_laws;
pub mod header_laws;
pub mod help;
pub mod highlight;
pub mod highlight_laws;
pub mod history;
pub mod index;
pub mod input;
pub mod key_laws;
pub mod keys;
pub mod layout;
pub mod mode;
pub mod note_laws;
pub mod numbers;
pub mod overlay;
pub mod paint_laws;
pub mod parse_laws;
pub mod parser;
pub mod paths;
pub mod persistence;
pub mod positions;
pub mod scan_laws;
pub mod screen;
pub mod screen_laws;
pub mod search;
pub mod search_laws;
pub mod search_mode;
pub mod spans;
pub mod spell;
pub mod spell_laws;
pub mod spell_wizard;
pub mod state;
pub mod status;
pub mod style;
pub mod sync;
pub mod sync_laws;
pub mod tag_laws;
pub mod text;
pub mod todo_laws;
pub mod todo_list;
pub mod todo_overlay;
pub mod toggle_laws;
pub mod unicode;
pub mod view_laws;
pub mod wizard_laws;
pub mod words;
pub mod wrap;
pub mod wrap_laws;
pub mod writing_laws;
