//! Review logic for agent-written git changes.
pub mod actions;
pub mod apply;
pub mod bytes;
pub mod calls;
pub mod comments;
pub mod commit_editor;
pub mod detect;
pub mod diff;
pub mod diff_rows;
pub mod display;
pub mod git;
pub mod hooks;
pub mod ipc;
pub mod json;
pub mod labels;
pub mod launch;
pub mod ops;
pub mod order;
pub mod patch;
pub mod picker;
pub mod repo;
pub mod review;
pub mod rows;
pub mod settings;
pub mod sorting;
pub mod store;
pub mod switcher;
pub mod syntax;
pub mod text;
pub mod text_buffer;
pub mod theme;
pub mod timeline;
pub mod tree;
pub mod turns;
pub mod utf8;
pub mod view;
pub mod watch;
pub mod world;
