//! Settings profiles for League of Legends: the settings model, the decisions the
//! engine takes, and the small parsers and formats it needs, with their contracts.

pub mod text;
pub mod settings;
pub mod tray;
pub mod updates;
pub mod json;
pub mod lcu;
pub mod champions;
pub mod commands;
pub mod demo;
pub mod engine;
pub mod naming;
pub mod order;
pub mod platform;
pub mod profiles;
