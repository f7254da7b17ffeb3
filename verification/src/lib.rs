pub mod text;
pub mod order;
pub mod path;
pub mod module;
pub mod json;
pub mod glob;
pub mod resolve;
pub mod graph;
pub mod model;
pub mod color;
pub mod config;
pub mod analyzer;
pub mod help_ai;
pub mod output;
pub mod run;
