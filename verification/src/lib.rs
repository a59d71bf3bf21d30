//! Forebodere: the logic of a Discord quote bot, with its contracts.
pub mod text;
pub mod unicode;
pub mod lol;
pub mod db;
pub mod commands;
pub mod llm;
pub mod markov_model;
pub mod metrics;
