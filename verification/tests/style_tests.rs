use leptos_command_palette::style::u32_to_decimal;
use leptos_command_palette::text::char_is_whitespace;
use leptos_command_palette::style::{
    back_arrow_style, backdrop_style, chevron_style, crumb_separator_style, crumb_style,
    description_style, empty_style, input_style, item_style, panel_style, placeholder_css,
    shortcut_style,
};
use leptos_command_palette::{
    CommandPaletteBackdropTheme, CommandPaletteEmptyTheme, CommandPaletteInputTheme,
    CommandPaletteItemTheme, CommandPalettePosition, CommandPaletteTheme,
};

#[test]
fn the_default_position_is_top_center() {
    assert!(matches!(CommandPalettePosition::default(), CommandPalettePosition::TopCenter));
}

#[test]
fn preset_positions_have_fixed_css() {
    assert_eq!(
        CommandPalettePosition::TopCenter.to_css(),
        "top:20%;left:50%;transform:translateX(-50%)"
    );
    assert_eq!(
        CommandPalettePosition::Center.to_css(),
        "top:50%;left:50%;transform:translate(-50%,-50%)"
    );
}

#[test]
fn custom_positions_join_the_given_properties() {
    let p = CommandPalettePosition::Custom {
        top: Some("10px".to_string()),
        right: None,
        bottom: None,
        left: Some("5px".to_string()),
        transform: Some("none".to_string()),
    };
    assert_eq!(p.to_css(), "top:10px;left:5px;transform:none");
    let all = CommandPalettePosition::Custom {
        top: Some("1px".to_string()),
        right: Some("2px".to_string()),
        bottom: Some("3px".to_string()),
        left: Some("4px".to_string()),
        transform: None,
    };
    assert_eq!(all.to_css(), "top:1px;right:2px;bottom:3px;left:4px");
    let none = CommandPalettePosition::Custom {
        top: None,
        right: None,
        bottom: None,
        left: None,
        transform: None,
    };
    assert_eq!(none.to_css(), "");
}

#[test]
fn default_themes_hold_the_documented_values() {
    let b = CommandPaletteBackdropTheme::default();
    assert_eq!(b.background, "rgba(0,0,0,0.5)");
    assert_eq!(b.z_index, 9999);
    let p = CommandPaletteTheme::default();
    assert_eq!(p.background, "#1e1e1e");
    assert_eq!(p.width, "500px");
    assert_eq!(p.max_height, "400px");
    let i = CommandPaletteInputTheme::default();
    assert_eq!(i.placeholder_color, "#666666");
    assert_eq!(i.padding, "8px 12px");
    let it = CommandPaletteItemTheme::default();
    assert_eq!(it.selected_background, "#094771");
    assert_eq!(it.shortcut_opacity, "0.7");
    let e = CommandPaletteEmptyTheme::default();
    assert_eq!(e.text_align, "center");
    assert_eq!(e.opacity, "0.5");
}

#[test]
fn backdrop_style_writes_the_z_index_in_decimal() {
    assert_eq!(
        backdrop_style(&CommandPaletteBackdropTheme::default()),
        "position:fixed;top:0;left:0;right:0;bottom:0;background:rgba(0,0,0,0.5);z-index:9999"
    );
    let mut t = CommandPaletteBackdropTheme::default();
    t.z_index = 0;
    t.background = "red".to_string();
    assert_eq!(
        backdrop_style(&t),
        "position:fixed;top:0;left:0;right:0;bottom:0;background:red;z-index:0"
    );
    t.z_index = 4294967295;
    assert!(backdrop_style(&t).ends_with("z-index:4294967295"));
}

#[test]
fn panel_style_places_the_panel() {
    let css = CommandPalettePosition::Center.to_css();
    assert_eq!(
        panel_style(&CommandPaletteTheme::default(), &css),
        "position:absolute;top:50%;left:50%;transform:translate(-50%,-50%);background:#1e1e1e;color:#cccccc;border:1px solid #3c3c3c;border-radius:8px;width:500px;max-height:400px;box-shadow:0 8px 30px rgba(0,0,0,0.5);font-size:14px;padding:8px;overflow:hidden;display:flex;flex-direction:column"
    );
}

#[test]
fn input_and_empty_styles_use_their_themes() {
    assert_eq!(
        input_style(&CommandPaletteInputTheme::default()),
        "width:100%;box-sizing:border-box;background:#2a2a2a;color:#cccccc;border:1px solid #3c3c3c;border-radius:4px;font-size:14px;padding:8px 12px;outline:none;margin-bottom:8px"
    );
    assert_eq!(
        placeholder_css(&CommandPaletteInputTheme::default()),
        ".command-palette-input::placeholder { color: #666666; opacity: 1; }"
    );
    assert_eq!(
        empty_style(&CommandPaletteEmptyTheme::default()),
        "padding:12px;text-align:center;color:inherit;opacity:0.5;font-size:inherit"
    );
}

#[test]
fn breadcrumb_styles_use_the_panel_and_item_colors() {
    let panel = CommandPaletteTheme::default();
    let item = CommandPaletteItemTheme::default();
    assert_eq!(
        back_arrow_style(&panel),
        "cursor:pointer;color:#cccccc;opacity:0.7;padding-right:2px"
    );
    assert_eq!(crumb_style(&panel), "cursor:pointer;color:#cccccc");
    assert_eq!(crumb_separator_style(&item), "color:#888888;opacity:0.5");
}

#[test]
fn item_styles_follow_the_selection() {
    let item = CommandPaletteItemTheme::default();
    assert_eq!(
        item_style(&item, true),
        "padding:8px 12px;border-radius:4px;background:#094771;color:#ffffff;cursor:pointer;display:flex;justify-content:space-between;align-items:center"
    );
    assert_eq!(
        item_style(&item, false),
        "padding:8px 12px;border-radius:4px;background:transparent;color:inherit;cursor:pointer;display:flex;justify-content:space-between;align-items:center"
    );
    assert_eq!(
        chevron_style(&item),
        "color:#888888;opacity:0.7;flex-shrink:0;margin-left:12px;font-size:16px;line-height:1"
    );
    assert_eq!(description_style(&item), "color:#888888;font-size:12px;margin-top:2px");
    assert_eq!(
        shortcut_style(&item),
        "color:#888888;font-size:12px;opacity:0.7;flex-shrink:0;margin-left:12px"
    );
}

#[test]
fn decimal_writing_matches_to_string() {
    for n in [0u32, 7, 10, 99, 100, 9999, 65536, 4294967295] {
        assert_eq!(u32_to_decimal(n), n.to_string());
    }
}

#[test]
fn whitespace_test_matches_std() {
    for c in ['\t', '\n', '\r', ' ', '\u{85}', '\u{a0}', '\u{1680}', '\u{2000}', '\u{200a}', '\u{2028}', '\u{2029}', '\u{202f}', '\u{205f}', '\u{3000}', 'a', '0', '\u{200b}', '\u{feff}', '\u{180e}', '_'] {
        assert_eq!(char_is_whitespace(c), c.is_whitespace(), "{c:?}");
    }
}
