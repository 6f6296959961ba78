//! diamem: a minimal DSL for live-coding diagrams, compiled to Mermaid.
pub mod text;
pub mod parser;
pub mod dsl;
pub mod render;
pub mod theme;
pub mod editor;

pub use editor::DiamemApp;
