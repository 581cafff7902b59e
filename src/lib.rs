//! Project scaffolding from template trees: a placeholder template engine with
//! named text transforms, and the planning of a generated directory tree.
pub mod arrange;
pub mod config;
pub mod format;
pub mod placeholder;
pub mod project;
pub mod template;
pub mod text;
