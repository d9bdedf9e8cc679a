//! Verified core of a Beat Saber map scaffolder: YouTube URI handling, tool
//! lookup on the search path, the flat `section.key = "value"` configuration
//! file, probe-output parsing and the naming rules of a new map folder.

pub mod text;
pub mod youtube;
pub mod config;
pub mod config_laws;
pub mod settings;
pub mod start;
pub mod audio;
pub mod beatmap;
