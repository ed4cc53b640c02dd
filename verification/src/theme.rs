//! Colour roles and the SGR sequences that paint them.
//!
//! Each theme maps a role to a `(basic, extended)` colour code so the same
//! theme works on an eight-colour terminal and a 256-colour one. Roles, not
//! colours, are used at the call site, which keeps the renderer free of
//! literals.
use vstd::prelude::*;

use crate::text::{contains, contains_text, decimal, decimal_u64, push_str, same_text, views};

verus! {

pub const RESET: &'static str = "\x1b[0m";

/// What a piece of text *is*, rather than what colour it should be.
#[derive(Clone, Copy, Debug, PartialEq, Eq, Structural)]
pub enum Role {
    Text,
    Dim,
    Untyped,
    Correct,
    Incorrect,
    Extra,
    Accent,
}

/// The position of a role in a palette.
pub open spec fn role_index(role: Role) -> int {
    match role {
        Role::Text => 0,
        Role::Dim => 1,
        Role::Untyped => 2,
        Role::Correct => 3,
        Role::Incorrect => 4,
        Role::Extra => 5,
        Role::Accent => 6,
    }
}

impl Role {
    pub fn index(self) -> (i: usize)
        ensures
            i == role_index(self),
    {
        match self {
            Role::Text => 0,
            Role::Dim => 1,
            Role::Untyped => 2,
            Role::Correct => 3,
            Role::Incorrect => 4,
            Role::Extra => 5,
            Role::Accent => 6,
        }
    }
}

/// Extra styling layered on top of a role's colour.
#[derive(Clone, Copy, Debug, PartialEq, Eq, Structural)]
pub struct Attrs {
    pub bold: bool,
    pub underline: bool,
}

/// The sequences that switch the attributes on: bold first, then underline.
pub open spec fn attrs_spec(attrs: Attrs) -> Seq<char> {
    (if attrs.bold { "\x1b[1m"@ } else { Seq::empty() }) + (if attrs.underline {
        "\x1b[4m"@
    } else {
        Seq::empty()
    })
}

impl Attrs {
    /// No extra styling.
    pub fn none() -> (a: Attrs)
        ensures
            !a.bold && !a.underline,
    {
        Attrs { bold: false, underline: false }
    }

    /// Bold, and nothing else.
    pub fn bolded() -> (a: Attrs)
        ensures
            a.bold && !a.underline,
    {
        Attrs { bold: true, underline: false }
    }

    /// Underlined, and nothing else.
    pub fn underlined() -> (a: Attrs)
        ensures
            !a.bold && a.underline,
    {
        Attrs { bold: false, underline: true }
    }

    /// Appends the sequences that switch these attributes on.
    pub fn write(self, out: &mut String)
        ensures
            final(out)@ == old(out)@ + attrs_spec(self),
    {
        let ghost start = out@;
        if self.bold {
            push_str(out, "\x1b[1m");
        }
        let ghost middle = out@;
        if self.underline {
            push_str(out, "\x1b[4m");
        }
        assert(out@ =~= start + attrs_spec(self));
    }
}

impl Default for Attrs {
    fn default() -> (a: Attrs)
        ensures
            !a.bold && !a.underline,
    {
        Attrs::none()
    }
}

/// The theme names, sorted, in palette order.
pub open spec fn theme_names() -> Seq<Seq<char>> {
    seq!["default"@, "matrix"@, "mono"@, "ocean"@]
}

/// The `(basic, extended)` colour code of each role in each palette, roles in
/// [`role_index`] order.
pub open spec fn palette_spec(palette: int) -> Seq<(u16, u16)> {
    if palette == 0 {
        seq![(37, 252), (90, 240), (90, 245), (97, 231), (91, 203), (31, 131), (93, 221)]
    } else if palette == 1 {
        seq![(32, 157), (32, 22), (32, 65), (92, 46), (91, 196), (31, 88), (92, 118)]
    } else if palette == 2 {
        seq![(37, 250), (90, 238), (90, 243), (97, 255), (90, 240), (90, 236), (97, 255)]
    } else {
        seq![(36, 152), (34, 24), (34, 67), (96, 195), (91, 210), (31, 95), (96, 81)]
    }
}

fn palette(index: usize) -> (p: Vec<(u16, u16)>)
    requires
        index < 4,
    ensures
        p@ == palette_spec(index as int),
{
    let p = if index == 0 {
        vec![(37, 252), (90, 240), (90, 245), (97, 231), (91, 203), (31, 131), (93, 221)]
    } else if index == 1 {
        vec![(32, 157), (32, 22), (32, 65), (92, 46), (91, 196), (31, 88), (92, 118)]
    } else if index == 2 {
        vec![(37, 250), (90, 238), (90, 243), (97, 255), (90, 240), (90, 236), (97, 255)]
    } else {
        vec![(36, 152), (34, 24), (34, 67), (96, 195), (91, 210), (31, 95), (96, 81)]
    };
    assert(p@ =~= palette_spec(index as int));
    p
}

/// How many colours the terminal can show.
#[derive(Clone, Copy, Debug, PartialEq, Eq, Structural)]
pub enum ColourDepth {
    /// The original eight ANSI colours.
    Basic,
    /// The 256-colour palette.
    Extended,
}

/// The depth a terminal advertises through `COLORTERM` and `TERM`: any
/// `COLORTERM` at all, or a `TERM` naming 256 colours or direct colour.
pub open spec fn depth_spec(colorterm: Seq<char>, term: Seq<char>) -> ColourDepth {
    if colorterm.len() > 0 || contains_text(term, "256"@) || contains_text(term, "direct"@) {
        ColourDepth::Extended
    } else {
        ColourDepth::Basic
    }
}

/// The colour depth, from the values of `COLORTERM` and `TERM` (empty when
/// unset).
pub fn detect_depth(colorterm: &str, term: &str) -> (d: ColourDepth)
    ensures
        d == depth_spec(colorterm@, term@),
{
    if colorterm.unicode_len() > 0 || contains(term, "256") || contains(term, "direct") {
        ColourDepth::Extended
    } else {
        ColourDepth::Basic
    }
}

/// The palette a name selects: its own, or the first when it is unknown.
pub open spec fn palette_of(name: Seq<char>) -> int {
    if name == "matrix"@ {
        1
    } else if name == "mono"@ {
        2
    } else if name == "ocean"@ {
        3
    } else {
        0
    }
}

/// The escape sequence for one colour code at a depth.
pub open spec fn colour_sequence(code: (u16, u16), depth: ColourDepth) -> Seq<char> {
    match depth {
        ColourDepth::Extended => "\x1b[38;5;"@ + decimal(code.1 as nat) + "m"@,
        ColourDepth::Basic => "\x1b["@ + decimal(code.0 as nat) + "m"@,
    }
}

/// The sequences of a theme, one per role.
pub open spec fn theme_spec(name: Seq<char>, depth: ColourDepth) -> Seq<Seq<char>> {
    palette_spec(palette_of(name)).map_values(|code: (u16, u16)| colour_sequence(code, depth))
}

/// A theme: the escape sequence of each role.
#[derive(Clone, Debug)]
pub struct Theme {
    sequences: Vec<String>,
}

impl Theme {
    /// The sequence of each role, in [`role_index`] order.
    pub closed spec fn sequences(&self) -> Seq<Seq<char>> {
        views_of(self.sequences@)
    }

    /// Names of the available themes.
    pub fn names() -> (r: Vec<&'static str>)
        ensures
            views(r@) == theme_names(),
    {
        let mut names: Vec<&'static str> = Vec::new();
        names.push("default");
        names.push("matrix");
        names.push("mono");
        names.push("ocean");
        assert(views(names@) =~= theme_names());
        names
    }

    /// Whether a theme of that name exists.
    pub fn is_known(name: &str) -> (b: bool)
        ensures
            b == theme_names().contains(name@),
    {
        Theme::find(name).is_some()
    }

    /// The palette of a name, if it is one.
    fn find(name: &str) -> (r: Option<usize>)
        ensures
            match r {
                Some(i) => theme_names().contains(name@) && i == palette_of(name@),
                None => !theme_names().contains(name@),
            },
    {
        let names = Theme::names();
        let mut i: usize = 0;
        while i < names.len()
            invariant
                views(names@) == theme_names(),
                i <= names@.len(),
                forall|j: int| 0 <= j < i ==> theme_names()[j] != name@,
            decreases names@.len() - i,
        {
            if same_text(names[i], name) {
                assert(theme_names()[i as int] == name@);
                proof {
                    reveal_strlit("default");
                    reveal_strlit("matrix");
                    reveal_strlit("mono");
                    reveal_strlit("ocean");
                    assert(theme_names().contains(name@));
                    if i == 0 {
                        assert(name@ == "default"@);
                    } else if i == 1 {
                        assert(name@ == "matrix"@);
                    } else if i == 2 {
                        assert(name@ == "mono"@);
                    } else {
                        assert(name@ == "ocean"@);
                    }
                }
                return Some(i);
            }
            i = i + 1;
        }
        assert(!theme_names().contains(name@));
        None
    }

    /// Builds a theme at a known colour depth. An unknown name gets the
    /// default palette.
    pub fn build_with(name: &str, depth: ColourDepth) -> (t: Theme)
        ensures
            t.sequences() == theme_spec(name@, depth),
            t.wf(),
    {
        let index = match Theme::find(name) {
            Some(i) => i,
            None => 0,
        };
        let codes = palette(index);
        let mut sequences: Vec<String> = Vec::new();
        let mut i: usize = 0;
        while i < codes.len()
            invariant
                codes@ == palette_spec(index as int),
                index == palette_of(name@),
                i <= codes@.len(),
                sequences@.len() == i,
                forall|j: int|
                    0 <= j < i ==> #[trigger] sequences@[j]@ == colour_sequence(codes@[j], depth),
            decreases codes@.len() - i,
        {
            let (basic, wide) = codes[i];
            let mut out = String::new();
            match depth {
                ColourDepth::Extended => {
                    push_str(&mut out, "\x1b[38;5;");
                    push_str(&mut out, decimal_u64(wide as u64).as_str());
                    push_str(&mut out, "m");
                },
                ColourDepth::Basic => {
                    push_str(&mut out, "\x1b[");
                    push_str(&mut out, decimal_u64(basic as u64).as_str());
                    push_str(&mut out, "m");
                },
            }
            sequences.push(out);
            i = i + 1;
        }
        let t = Theme { sequences };
        assert(t.sequences() =~= theme_spec(name@, depth));
        proof {
            lemma_built_themes_are_complete(name@, depth);
        }
        t
    }

    /// Builds a theme at the depth the terminal advertises through the
    /// values of `COLORTERM` and `TERM`.
    pub fn build(name: &str, colorterm: &str, term: &str) -> (t: Theme)
        ensures
            t.sequences() == theme_spec(name@, depth_spec(colorterm@, term@)),
            t.wf(),
    {
        Theme::build_with(name, detect_depth(colorterm, term))
    }

    /// Whether every role has a sequence.
    pub open spec fn wf(&self) -> bool {
        self.sequences().len() == 7
    }

    /// The escape sequence that switches to a role's colour.
    pub fn code(&self, role: Role) -> (s: &str)
        requires
            self.wf(),
        ensures
            s@ == self.sequences()[role_index(role)],
    {
        self.sequences[role.index()].as_str()
    }

    /// Appends `text` painted in a role's colour plus any extra attributes.
    pub fn paint_into(&self, out: &mut String, role: Role, text: &str, attrs: Attrs)
        requires
            self.wf(),
        ensures
            final(out)@ == old(out)@ + self.sequences()[role_index(role)] + attrs_spec(attrs)
                + text@ + RESET@,
    {
        push_str(out, self.code(role));
        attrs.write(out);
        push_str(out, text);
        push_str(out, RESET);
    }
}

/// The characters of each string.
pub open spec fn views_of(v: Seq<String>) -> Seq<Seq<char>> {
    v.map_values(|s: String| s@)
}

/// Every theme has a sequence for every role.
pub proof fn lemma_built_themes_are_complete(name: Seq<char>, depth: ColourDepth)
    ensures
        theme_spec(name, depth).len() == 7,
{
    assert(palette_spec(palette_of(name)).len() == 7);
}

} // verus!
