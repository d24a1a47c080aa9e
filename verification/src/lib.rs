//! Verified core of the sldr presentation manager: language blocks, media
//! references, slide metadata, search ranking, usage indexing, flavor CSS and
//! the native PPTX part builders.

pub mod text;
pub mod lang;
pub mod media;
pub mod config;
pub mod slide;
pub mod fuzzy;
pub mod find;
pub mod report;
pub mod flavor;
pub mod pptx;
pub mod presentation;
pub mod usage;
pub mod cli;
pub mod package;
pub mod xml;
pub mod mdooxml;
pub mod deck;
pub mod preflight;
pub mod show;
pub mod list;
pub mod export;
pub mod add;
pub mod bundle;
