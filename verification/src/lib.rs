//! Layered prompt composition: Promptfile parsing, layer sections, merging and rendering.
pub mod text;
pub mod strmap;
pub mod error;
pub mod parser;
pub mod layer;
pub mod merger;
pub mod renderer;
pub mod config;
pub mod resolver;
pub mod pull;
pub mod push;
pub mod output;
pub mod registry;
pub mod similarity;
pub mod export;
pub mod pipeline;
pub mod commands;
pub mod common;
