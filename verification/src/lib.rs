//! A coherence layer for command-driven applications: one registry of
//! commands, fuzzy matching of query text against command names, and the
//! logic of a searchable command palette.

pub mod command;
pub mod fuzzy;
pub mod palette;
pub mod registry;
pub mod state;

pub use command::{ActionId, Command};
pub use palette::visible_commands;
pub use registry::CommandRegistry;
pub use state::{Effects, FocusChange, PaletteState};
