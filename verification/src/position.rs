use vstd::prelude::*;
use crate::text::push_str;

verus! {

/// Position of the command palette on screen.
#[derive(Clone, Debug)]
pub enum CommandPalettePosition {
    /// Centered horizontally at the top of the window (default).
    TopCenter,
    /// Centered both horizontally and vertically.
    Center,
    /// Custom CSS positioning. Values are applied directly as CSS properties.
    Custom {
        top: Option<String>,
        right: Option<String>,
        bottom: Option<String>,
        left: Option<String>,
        transform: Option<String>,
    },
}

impl Default for CommandPalettePosition {
    fn default() -> (r: Self)
        ensures
            r is TopCenter,
    {
        CommandPalettePosition::TopCenter
    }
}

/// `name:value` when the value is present, nothing otherwise.
pub open spec fn css_part(name: Seq<char>, value: Option<String>) -> Seq<Seq<char>> {
    match value {
        Some(v) => seq![name + ":"@ + v@],
        None => seq![],
    }
}

/// `parts` joined by ";".
pub open spec fn join_semicolon(parts: Seq<Seq<char>>) -> Seq<char>
    decreases parts.len(),
{
    if parts.len() == 0 {
        seq![]
    } else if parts.len() == 1 {
        parts[0]
    } else {
        join_semicolon(parts.drop_last()) + ";"@ + parts.last()
    }
}

/// The CSS declarations that place the palette.
pub open spec fn position_css(p: CommandPalettePosition) -> Seq<char> {
    match p {
        CommandPalettePosition::TopCenter => "top:20%;left:50%;transform:translateX(-50%)"@,
        CommandPalettePosition::Center => "top:50%;left:50%;transform:translate(-50%,-50%)"@,
        CommandPalettePosition::Custom { top, right, bottom, left, transform } => join_semicolon(
            css_part("top"@, top) + css_part("right"@, right) + css_part("bottom"@, bottom)
                + css_part("left"@, left) + css_part("transform"@, transform),
        ),
    }
}

fn push_part(parts: &mut Vec<String>, name: &str, value: &Option<String>)
    ensures
        parts_view(final(parts)@) == parts_view(old(parts)@) + css_part(name@, *value),
{
    match value {
        Some(v) => {
            let mut part = name.to_owned();
            push_str(&mut part, ":");
            push_str(&mut part, v.as_str());
            let ghost before = parts@;
            parts.push(part);
            assert(parts_view(parts@) =~= parts_view(before) + css_part(name@, *value));
        },
        None => {
            assert(parts_view(parts@) =~= parts_view(parts@) + css_part(name@, *value));
        },
    }
}

pub open spec fn parts_view(s: Seq<String>) -> Seq<Seq<char>> {
    s.map_values(|x: String| x@)
}

fn join_parts(parts: &Vec<String>) -> (r: String)
    ensures
        r@ == join_semicolon(parts_view(parts@)),
{
    let ghost pv = parts_view(parts@);
    let mut out = String::new();
    let n = parts.len();
    let mut i: usize = 0;
    while i < n
        invariant
            i <= n,
            n == parts@.len(),
            pv == parts_view(parts@),
            out@ == join_semicolon(pv.take(i as int)),
        decreases n - i,
    {
        assert(pv.take(i + 1).drop_last() =~= pv.take(i as int));
        if i > 0 {
            push_str(&mut out, ";");
        } else {
            assert(pv.take(0) =~= Seq::<Seq<char>>::empty());
            assert(out@ =~= Seq::<char>::empty());
        }
        push_str(&mut out, parts[i].as_str());
        proof {
            if i == 0 {
                assert(out@ =~= pv[0]);
            }
        }
        i += 1;
    }
    assert(pv.take(n as int) =~= pv);
    out
}

impl CommandPalettePosition {
    /// The CSS declarations that place the palette.
    pub fn to_css(&self) -> (r: String)
        ensures
            r@ == position_css(*self),
    {
        match self {
            CommandPalettePosition::TopCenter => "top:20%;left:50%;transform:translateX(-50%)".to_owned(),
            CommandPalettePosition::Center => "top:50%;left:50%;transform:translate(-50%,-50%)".to_owned(),
            CommandPalettePosition::Custom { top, right, bottom, left, transform } => {
                let mut parts: Vec<String> = Vec::new();
                push_part(&mut parts, "top", top);
                push_part(&mut parts, "right", right);
                push_part(&mut parts, "bottom", bottom);
                push_part(&mut parts, "left", left);
                push_part(&mut parts, "transform", transform);
                assert(parts_view(parts@) =~= css_part("top"@, *top) + css_part("right"@, *right) + css_part("bottom"@, *bottom)
                    + css_part("left"@, *left) + css_part("transform"@, *transform));
                join_parts(&parts)
            },
        }
    }
}

} // verus!
