use vstd::prelude::*;

verus! {

/// Theme for the command palette overlay backdrop.
#[derive(Clone, Debug)]
pub struct CommandPaletteBackdropTheme {
    /// Background color of the overlay behind the palette.
    pub background: String,
    /// Stacking order of the overlay. Should be high enough to sit above the
    /// host app's positioned content, since the palette is an app-modal overlay.
    pub z_index: u32,
}

impl Default for CommandPaletteBackdropTheme {
    fn default() -> (r: Self)
        ensures
            r.background@ == "rgba(0,0,0,0.5)"@,
            r.z_index == 9999,
    {
        CommandPaletteBackdropTheme {
            background: "rgba(0,0,0,0.5)".to_owned(),
            z_index: 9999,
        }
    }
}

/// Theme for the command palette panel.
#[derive(Clone, Debug)]
pub struct CommandPaletteTheme {
    /// Background color of the palette.
    pub background: String,
    /// Text color.
    pub color: String,
    /// Border (CSS shorthand).
    pub border: String,
    /// Border radius.
    pub border_radius: String,
    /// Width of the palette (e.g. "500px").
    pub width: String,
    /// Max height before scrolling.
    pub max_height: String,
    /// Box shadow.
    pub shadow: String,
    /// Font size.
    pub font_size: String,
    /// Padding inside the palette container.
    pub padding: String,
}

impl Default for CommandPaletteTheme {
    fn default() -> (r: Self)
        ensures
            r.background@ == "#1e1e1e"@,
            r.color@ == "#cccccc"@,
            r.border@ == "1px solid #3c3c3c"@,
            r.border_radius@ == "8px"@,
            r.width@ == "500px"@,
            r.max_height@ == "400px"@,
            r.shadow@ == "0 8px 30px rgba(0,0,0,0.5)"@,
            r.font_size@ == "14px"@,
            r.padding@ == "8px"@,
    {
        CommandPaletteTheme {
            background: "#1e1e1e".to_owned(),
            color: "#cccccc".to_owned(),
            border: "1px solid #3c3c3c".to_owned(),
            border_radius: "8px".to_owned(),
            width: "500px".to_owned(),
            max_height: "400px".to_owned(),
            shadow: "0 8px 30px rgba(0,0,0,0.5)".to_owned(),
            font_size: "14px".to_owned(),
            padding: "8px".to_owned(),
        }
    }
}

/// Theme for the search input inside the palette.
#[derive(Clone, Debug)]
pub struct CommandPaletteInputTheme {
    /// Background color of the input.
    pub background: String,
    /// Text color of the input.
    pub color: String,
    /// Border.
    pub border: String,
    /// Border radius.
    pub border_radius: String,
    /// Font size.
    pub font_size: String,
    /// Padding inside the input.
    pub padding: String,
    /// Placeholder text color.
    pub placeholder_color: String,
    /// Margin below the input (space between input and results list).
    pub margin_bottom: String,
}

impl Default for CommandPaletteInputTheme {
    fn default() -> (r: Self)
        ensures
            r.background@ == "#2a2a2a"@,
            r.color@ == "#cccccc"@,
            r.border@ == "1px solid #3c3c3c"@,
            r.border_radius@ == "4px"@,
            r.font_size@ == "14px"@,
            r.padding@ == "8px 12px"@,
            r.placeholder_color@ == "#666666"@,
            r.margin_bottom@ == "8px"@,
    {
        CommandPaletteInputTheme {
            background: "#2a2a2a".to_owned(),
            color: "#cccccc".to_owned(),
            border: "1px solid #3c3c3c".to_owned(),
            border_radius: "4px".to_owned(),
            font_size: "14px".to_owned(),
            padding: "8px 12px".to_owned(),
            placeholder_color: "#666666".to_owned(),
            margin_bottom: "8px".to_owned(),
        }
    }
}

/// Theme for individual command items in the list.
#[derive(Clone, Debug)]
pub struct CommandPaletteItemTheme {
    /// Padding for each item.
    pub padding: String,
    /// Border radius for each item.
    pub border_radius: String,
    /// Background color when selected/highlighted.
    pub selected_background: String,
    /// Text color when selected.
    pub selected_color: String,
    /// Color for the command description text.
    pub description_color: String,
    /// Font size for the description.
    pub description_font_size: String,
    /// Margin above the description line.
    pub description_margin_top: String,
    /// Color for the shortcut hint text.
    pub shortcut_color: String,
    /// Font size for the shortcut hint.
    pub shortcut_font_size: String,
    /// Opacity for the shortcut hint.
    pub shortcut_opacity: String,
    /// Left margin for the shortcut hint (space between name and shortcut).
    pub shortcut_margin_left: String,
}

impl Default for CommandPaletteItemTheme {
    fn default() -> (r: Self)
        ensures
            r.padding@ == "8px 12px"@,
            r.border_radius@ == "4px"@,
            r.selected_background@ == "#094771"@,
            r.selected_color@ == "#ffffff"@,
            r.description_color@ == "#888888"@,
            r.description_font_size@ == "12px"@,
            r.description_margin_top@ == "2px"@,
            r.shortcut_color@ == "#888888"@,
            r.shortcut_font_size@ == "12px"@,
            r.shortcut_opacity@ == "0.7"@,
            r.shortcut_margin_left@ == "12px"@,
    {
        CommandPaletteItemTheme {
            padding: "8px 12px".to_owned(),
            border_radius: "4px".to_owned(),
            selected_background: "#094771".to_owned(),
            selected_color: "#ffffff".to_owned(),
            description_color: "#888888".to_owned(),
            description_font_size: "12px".to_owned(),
            description_margin_top: "2px".to_owned(),
            shortcut_color: "#888888".to_owned(),
            shortcut_font_size: "12px".to_owned(),
            shortcut_opacity: "0.7".to_owned(),
            shortcut_margin_left: "12px".to_owned(),
        }
    }
}

/// Theme for the empty state shown when no commands match the query.
#[derive(Clone, Debug)]
pub struct CommandPaletteEmptyTheme {
    /// Padding around the empty message.
    pub padding: String,
    /// Text alignment.
    pub text_align: String,
    /// Text color.
    pub color: String,
    /// Text opacity.
    pub opacity: String,
    /// Font size.
    pub font_size: String,
}

impl Default for CommandPaletteEmptyTheme {
    fn default() -> (r: Self)
        ensures
            r.padding@ == "12px"@,
            r.text_align@ == "center"@,
            r.color@ == "inherit"@,
            r.opacity@ == "0.5"@,
            r.font_size@ == "inherit"@,
    {
        CommandPaletteEmptyTheme {
            padding: "12px".to_owned(),
            text_align: "center".to_owned(),
            color: "inherit".to_owned(),
            opacity: "0.5".to_owned(),
            font_size: "inherit".to_owned(),
        }
    }
}

} // verus!
