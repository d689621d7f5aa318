pub mod classify;
pub mod config;
pub mod document;
pub mod inidoc;
pub mod numtext;
pub mod reconcile;
pub mod strutil;
pub mod sun;
