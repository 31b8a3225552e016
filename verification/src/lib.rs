//! Statistics of Minecraft mods published on Modrinth and CurseForge: the
//! decisions, parsers and rules of the dashboard, with their contracts.

pub mod models;
pub mod text;
pub mod json;
pub mod sorting;
pub mod collect;
pub mod gestures;
pub mod error;
pub mod oauth;
pub mod providers;
pub mod publish;
pub mod publish_api;
pub mod dates;
pub mod queries;
pub mod rankings;
pub mod sync;
pub mod scrape;
pub mod matching;
pub mod config;
pub mod secrets;
pub mod commands;
pub mod store;
pub mod money;
pub mod figures;
pub mod detail;
pub mod revenue;
pub mod loaders;
