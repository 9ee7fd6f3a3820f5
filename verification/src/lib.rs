//! Core logic of the mdlite markdown previewer: recent-file lists, path
//! display, folder scanning, the watched-file registry and update checks.

pub mod config;
pub mod menu;
pub mod paths;
pub mod registry;
pub mod scan;
pub mod session;
pub mod text;
pub mod update;
pub mod watch;
