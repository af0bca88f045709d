//! The rules behind a prompting workbench.

pub mod activity;
pub mod chain_laws;
pub mod command_laws;
pub mod component_laws;
pub mod harness;
pub mod hidden_anchor;
pub mod history_list;
pub mod layout_laws;
pub mod listing;
pub mod path_laws;
pub mod paths;
pub mod prompt_mode;
pub mod prompt_queue;
pub mod prompt_view;
pub mod questions;
pub mod queueing;
pub mod quoting_laws;
pub mod recent_projects;
pub mod reference_laws;
pub mod referenced_spec;
pub mod reply;
pub mod reply_laws;
pub mod rescope;
pub mod rescope_laws;
pub mod rescope_view;
pub mod ribbon;
pub mod runs;
pub mod scrollbar;
pub mod send_mode;
pub mod settings_window;
pub mod shell;
pub mod shell_format;
pub mod shell_layout;
pub mod shell_lines;
pub mod shell_paths;
pub mod shell_words;
pub mod spec_component_form;
pub mod spec_components;
pub mod system_prompts;
pub mod task;
pub mod task_table;
pub mod template_laws;
pub mod text;
pub mod theme;
pub mod theme_preference;
pub mod tools;
pub mod word_laws;
