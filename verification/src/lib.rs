//! A command palette: commands with badges, shortcuts and drill-down
//! submenus, ranked fuzzy search over them, and the palette's navigation state.

pub mod text;
pub mod search;
pub mod shortcut;
pub mod command;
pub mod position;
pub mod theme;
pub mod context;
pub mod component;
pub mod style;
pub mod laws;

pub use command::{filter_commands, Command, CommandBadge, CommandId, CommandPalettePosition};
pub use component::{GlobalKeyAction, InputKeyAction};
pub use context::{CommandPaletteContext, NavLevel};
pub use shortcut::{KeyStroke, Modifier, Shortcut};
pub use theme::{
    CommandPaletteBackdropTheme, CommandPaletteEmptyTheme, CommandPaletteInputTheme,
    CommandPaletteItemTheme, CommandPaletteTheme,
};
