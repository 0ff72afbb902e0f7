//! Mod-manager model: archive layout detection, mod lists, metadata and
//! catalogs, each stated over a mathematical model and proved.

pub mod text;
pub mod archive;
pub mod picker;
pub mod naming;
pub mod ini;
pub mod paths;
pub mod meta;
pub mod sections;
pub mod categories;
pub mod modlist;
pub mod mo2;
pub mod plugins;
pub mod instance_ops;
pub mod unmanaged;
pub mod saves;
pub mod settings;
pub mod manifest;
pub mod registry;
pub mod tools;
pub mod backup;
pub mod export;
pub mod inis;
pub mod provenance;
