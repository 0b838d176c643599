//! Listening-port discovery and process control for a menu-bar port killer:
//! the text of `lsof`/`ps` output turned into port entries, and the
//! decisions taken around killing and focusing processes.
pub mod text;
pub mod ports;
pub mod kill;
pub mod focus;
pub mod panel;
