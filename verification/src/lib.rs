pub mod cloner;
pub mod codec;
pub mod collector;
pub mod commands;
pub mod container;
pub mod convert;
pub mod data_url;
pub mod encryption;
pub mod error;
pub mod graph;
pub mod guarantees;
pub mod merger;
pub mod names;
pub mod object;
pub mod packed;
pub mod paths;
pub mod sealing;
pub mod structs;
pub mod text;
pub mod thumbnails;
