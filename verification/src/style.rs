use vstd::prelude::*;
use crate::text::{push_char, push_str};
use crate::theme::{
    CommandPaletteBackdropTheme, CommandPaletteEmptyTheme, CommandPaletteInputTheme,
    CommandPaletteItemTheme, CommandPaletteTheme,
};

verus! {

/// The decimal digit for `d` (0 to 9).
pub open spec fn digit_char(d: nat) -> char {
    ((d + 48) as u32) as char
}

/// `n` written in decimal, without leading zeros.
pub open spec fn decimal(n: nat) -> Seq<char>
    decreases n,
{
    if n < 10 {
        seq![digit_char(n)]
    } else {
        decimal(n / 10).push(digit_char(n % 10))
    }
}

/// The decimal digit for `d`.
fn digit(d: u32) -> (r: char)
    requires
        d < 10,
    ensures
        r == digit_char(d as nat),
{
    match d {
        0 => '0',
        1 => '1',
        2 => '2',
        3 => '3',
        4 => '4',
        5 => '5',
        6 => '6',
        7 => '7',
        8 => '8',
        _ => '9',
    }
}

/// Appends `n` in decimal, without leading zeros.
fn push_decimal(s: &mut String, n: u32)
    ensures
        final(s)@ == old(s)@ + decimal(n as nat),
    decreases n,
{
    if n >= 10 {
        push_decimal(s, n / 10);
    }
    push_char(s, digit(n % 10));
    proof {
        if n >= 10 {
            assert(decimal(n as nat) == decimal((n / 10) as nat).push(digit_char((n % 10) as nat)));
        } else {
            assert(decimal(n as nat) =~= seq![digit_char((n % 10) as nat)]);
        }
    }
}

/// `n` in decimal, without leading zeros (what `u32::to_string` gives).
pub fn u32_to_decimal(n: u32) -> (r: String)
    ensures
        r@ == decimal(n as nat),
{
    let mut s = String::new();
    push_decimal(&mut s, n);
    s
}

/// Style of the overlay behind the palette.
pub open spec fn backdrop_style_spec(theme: CommandPaletteBackdropTheme) -> Seq<char> {
    "position:fixed;top:0;left:0;right:0;bottom:0;background:"@ + theme.background@ + ";z-index:"@ + decimal(theme.z_index as nat)
}

/// Style of the overlay behind the palette.
pub fn backdrop_style(theme: &CommandPaletteBackdropTheme) -> (r: String)
    ensures
        r@ == backdrop_style_spec(*theme),
{
    let mut s = "position:fixed;top:0;left:0;right:0;bottom:0;background:".to_owned();
    push_str(&mut s, theme.background.as_str());
    push_str(&mut s, ";z-index:");
    let z = u32_to_decimal(theme.z_index);
    push_str(&mut s, z.as_str());
    s
}

/// Style of the palette panel, placed by `position_css`.
pub open spec fn panel_style_spec(theme: CommandPaletteTheme, position_css: Seq<char>) -> Seq<char> {
    "position:absolute;"@ + position_css + ";background:"@ + theme.background@ + ";color:"@ + theme.color@ + ";border:"@ + theme.border@ + ";border-radius:"@ + theme.border_radius@ + ";width:"@ + theme.width@ + ";max-height:"@ + theme.max_height@ + ";box-shadow:"@ + theme.shadow@ + ";font-size:"@ + theme.font_size@ + ";padding:"@ + theme.padding@ + ";overflow:hidden;display:flex;flex-direction:column"@
}

/// Style of the palette panel, placed by `position_css`.
pub fn panel_style(theme: &CommandPaletteTheme, position_css: &str) -> (r: String)
    ensures
        r@ == panel_style_spec(*theme, position_css@),
{
    let mut s = "position:absolute;".to_owned();
    push_str(&mut s, position_css);
    push_str(&mut s, ";background:");
    push_str(&mut s, theme.background.as_str());
    push_str(&mut s, ";color:");
    push_str(&mut s, theme.color.as_str());
    push_str(&mut s, ";border:");
    push_str(&mut s, theme.border.as_str());
    push_str(&mut s, ";border-radius:");
    push_str(&mut s, theme.border_radius.as_str());
    push_str(&mut s, ";width:");
    push_str(&mut s, theme.width.as_str());
    push_str(&mut s, ";max-height:");
    push_str(&mut s, theme.max_height.as_str());
    push_str(&mut s, ";box-shadow:");
    push_str(&mut s, theme.shadow.as_str());
    push_str(&mut s, ";font-size:");
    push_str(&mut s, theme.font_size.as_str());
    push_str(&mut s, ";padding:");
    push_str(&mut s, theme.padding.as_str());
    push_str(&mut s, ";overflow:hidden;display:flex;flex-direction:column");
    s
}

/// Style of the search input.
pub open spec fn input_style_spec(theme: CommandPaletteInputTheme) -> Seq<char> {
    "width:100%;box-sizing:border-box;background:"@ + theme.background@ + ";color:"@ + theme.color@ + ";border:"@ + theme.border@ + ";border-radius:"@ + theme.border_radius@ + ";font-size:"@ + theme.font_size@ + ";padding:"@ + theme.padding@ + ";outline:none;margin-bottom:"@ + theme.margin_bottom@
}

/// Style of the search input.
pub fn input_style(theme: &CommandPaletteInputTheme) -> (r: String)
    ensures
        r@ == input_style_spec(*theme),
{
    let mut s = "width:100%;box-sizing:border-box;background:".to_owned();
    push_str(&mut s, theme.background.as_str());
    push_str(&mut s, ";color:");
    push_str(&mut s, theme.color.as_str());
    push_str(&mut s, ";border:");
    push_str(&mut s, theme.border.as_str());
    push_str(&mut s, ";border-radius:");
    push_str(&mut s, theme.border_radius.as_str());
    push_str(&mut s, ";font-size:");
    push_str(&mut s, theme.font_size.as_str());
    push_str(&mut s, ";padding:");
    push_str(&mut s, theme.padding.as_str());
    push_str(&mut s, ";outline:none;margin-bottom:");
    push_str(&mut s, theme.margin_bottom.as_str());
    s
}

/// Style of the message shown when nothing matches.
pub open spec fn empty_style_spec(theme: CommandPaletteEmptyTheme) -> Seq<char> {
    "padding:"@ + theme.padding@ + ";text-align:"@ + theme.text_align@ + ";color:"@ + theme.color@ + ";opacity:"@ + theme.opacity@ + ";font-size:"@ + theme.font_size@
}

/// Style of the message shown when nothing matches.
pub fn empty_style(theme: &CommandPaletteEmptyTheme) -> (r: String)
    ensures
        r@ == empty_style_spec(*theme),
{
    let mut s = "padding:".to_owned();
    push_str(&mut s, theme.padding.as_str());
    push_str(&mut s, ";text-align:");
    push_str(&mut s, theme.text_align.as_str());
    push_str(&mut s, ";color:");
    push_str(&mut s, theme.color.as_str());
    push_str(&mut s, ";opacity:");
    push_str(&mut s, theme.opacity.as_str());
    push_str(&mut s, ";font-size:");
    push_str(&mut s, theme.font_size.as_str());
    s
}

/// Style sheet rule that colors the search input's placeholder.
pub open spec fn placeholder_css_spec(theme: CommandPaletteInputTheme) -> Seq<char> {
    ".command-palette-input::placeholder { color: "@ + theme.placeholder_color@ + "; opacity: 1; }"@
}

/// Style sheet rule that colors the search input's placeholder.
pub fn placeholder_css(theme: &CommandPaletteInputTheme) -> (r: String)
    ensures
        r@ == placeholder_css_spec(*theme),
{
    let mut s = ".command-palette-input::placeholder { color: ".to_owned();
    push_str(&mut s, theme.placeholder_color.as_str());
    push_str(&mut s, "; opacity: 1; }");
    s
}

/// Style of the breadcrumb's back arrow.
pub open spec fn back_arrow_style_spec(theme: CommandPaletteTheme) -> Seq<char> {
    "cursor:pointer;color:"@ + theme.color@ + ";opacity:0.7;padding-right:2px"@
}

/// Style of the breadcrumb's back arrow.
pub fn back_arrow_style(theme: &CommandPaletteTheme) -> (r: String)
    ensures
        r@ == back_arrow_style_spec(*theme),
{
    let mut s = "cursor:pointer;color:".to_owned();
    push_str(&mut s, theme.color.as_str());
    push_str(&mut s, ";opacity:0.7;padding-right:2px");
    s
}

/// Style of one breadcrumb label.
pub open spec fn crumb_style_spec(theme: CommandPaletteTheme) -> Seq<char> {
    "cursor:pointer;color:"@ + theme.color@
}

/// Style of one breadcrumb label.
pub fn crumb_style(theme: &CommandPaletteTheme) -> (r: String)
    ensures
        r@ == crumb_style_spec(*theme),
{
    let mut s = "cursor:pointer;color:".to_owned();
    push_str(&mut s, theme.color.as_str());
    s
}

/// Style of the separator after a breadcrumb label.
pub open spec fn crumb_separator_style_spec(theme: CommandPaletteItemTheme) -> Seq<char> {
    "color:"@ + theme.shortcut_color@ + ";opacity:0.5"@
}

/// Style of the separator after a breadcrumb label.
pub fn crumb_separator_style(theme: &CommandPaletteItemTheme) -> (r: String)
    ensures
        r@ == crumb_separator_style_spec(*theme),
{
    let mut s = "color:".to_owned();
    push_str(&mut s, theme.shortcut_color.as_str());
    push_str(&mut s, ";opacity:0.5");
    s
}

/// Style of the chevron that marks a submenu.
pub open spec fn chevron_style_spec(theme: CommandPaletteItemTheme) -> Seq<char> {
    "color:"@ + theme.shortcut_color@ + ";opacity:"@ + theme.shortcut_opacity@ + ";flex-shrink:0;margin-left:"@ + theme.shortcut_margin_left@ + ";font-size:16px;line-height:1"@
}

/// Style of the chevron that marks a submenu.
pub fn chevron_style(theme: &CommandPaletteItemTheme) -> (r: String)
    ensures
        r@ == chevron_style_spec(*theme),
{
    let mut s = "color:".to_owned();
    push_str(&mut s, theme.shortcut_color.as_str());
    push_str(&mut s, ";opacity:");
    push_str(&mut s, theme.shortcut_opacity.as_str());
    push_str(&mut s, ";flex-shrink:0;margin-left:");
    push_str(&mut s, theme.shortcut_margin_left.as_str());
    push_str(&mut s, ";font-size:16px;line-height:1");
    s
}

/// Style of a command's description line.
pub open spec fn description_style_spec(theme: CommandPaletteItemTheme) -> Seq<char> {
    "color:"@ + theme.description_color@ + ";font-size:"@ + theme.description_font_size@ + ";margin-top:"@ + theme.description_margin_top@
}

/// Style of a command's description line.
pub fn description_style(theme: &CommandPaletteItemTheme) -> (r: String)
    ensures
        r@ == description_style_spec(*theme),
{
    let mut s = "color:".to_owned();
    push_str(&mut s, theme.description_color.as_str());
    push_str(&mut s, ";font-size:");
    push_str(&mut s, theme.description_font_size.as_str());
    push_str(&mut s, ";margin-top:");
    push_str(&mut s, theme.description_margin_top.as_str());
    s
}

/// Style of a command's shortcut hint.
pub open spec fn shortcut_style_spec(theme: CommandPaletteItemTheme) -> Seq<char> {
    "color:"@ + theme.shortcut_color@ + ";font-size:"@ + theme.shortcut_font_size@ + ";opacity:"@ + theme.shortcut_opacity@ + ";flex-shrink:0;margin-left:"@ + theme.shortcut_margin_left@
}

/// Style of a command's shortcut hint.
pub fn shortcut_style(theme: &CommandPaletteItemTheme) -> (r: String)
    ensures
        r@ == shortcut_style_spec(*theme),
{
    let mut s = "color:".to_owned();
    push_str(&mut s, theme.shortcut_color.as_str());
    push_str(&mut s, ";font-size:");
    push_str(&mut s, theme.shortcut_font_size.as_str());
    push_str(&mut s, ";opacity:");
    push_str(&mut s, theme.shortcut_opacity.as_str());
    push_str(&mut s, ";flex-shrink:0;margin-left:");
    push_str(&mut s, theme.shortcut_margin_left.as_str());
    s
}

/// Style of a result row; the highlighted row uses the selection colors.
pub open spec fn item_style_spec(theme: CommandPaletteItemTheme, selected: bool) -> Seq<char> {
    "padding:"@ + theme.padding@ + ";border-radius:"@ + theme.border_radius@ + ";background:"@ + (if selected {
        theme.selected_background@
    } else {
        "transparent"@
    }) + ";color:"@ + (if selected {
        theme.selected_color@
    } else {
        "inherit"@
    }) + ";cursor:pointer;display:flex;justify-content:space-between;align-items:center"@
}

/// Style of a result row; the highlighted row uses the selection colors.
pub fn item_style(theme: &CommandPaletteItemTheme, selected: bool) -> (r: String)
    ensures
        r@ == item_style_spec(*theme, selected),
{
    let mut s = "padding:".to_owned();
    push_str(&mut s, theme.padding.as_str());
    push_str(&mut s, ";border-radius:");
    push_str(&mut s, theme.border_radius.as_str());
    push_str(&mut s, ";background:");
    if selected {
        push_str(&mut s, theme.selected_background.as_str());
    } else {
        push_str(&mut s, "transparent");
    }
    push_str(&mut s, ";color:");
    if selected {
        push_str(&mut s, theme.selected_color.as_str());
    } else {
        push_str(&mut s, "inherit");
    }
    push_str(&mut s, ";cursor:pointer;display:flex;justify-content:space-between;align-items:center");
    s
}

} // verus!
