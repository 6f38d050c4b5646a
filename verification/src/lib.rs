//! `pebble`: a task tracker whose tasks live in Markdown files with YAML
//! frontmatter and form a dependency graph.
pub mod models;
pub mod text;
pub mod reach;
pub mod sorting;
pub mod strs;
pub mod graph;
pub mod ordering;
pub mod config;
pub mod store;
pub mod worktree;
pub mod issue_update;
pub mod clock;
pub mod inputs;
pub mod cli;
pub mod listing;
pub mod commands;
pub mod task_view;
pub mod update;
pub mod slug;
pub mod ids;
pub mod parser;
pub mod diagnostics;
pub mod task_files;
pub mod archive;
pub mod adding;
pub mod init;
pub mod loading;
pub mod process;
pub mod help_schema;
pub mod roundtrip;
pub mod issue_query;
pub mod components;
