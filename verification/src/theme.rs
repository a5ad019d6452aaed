//! Visual themes for both renderers.
//!
//! A [`Theme`] is a complete look: page colours, fonts, corner radius, and a
//! `flat` flag that switches the chart to solid "band member" bars. Three are
//! built in ([`builtins`]); more can be supplied through a theme config and
//! offered in the interactive page's theme menu.
use vstd::prelude::*;
use crate::model::clone_opt;
use crate::text::{
    chars_of, decimal, str_eq, seq_lt, seq_lt_exec, lemma_seq_lt_trans, lemma_seq_lt_total, lemma_seq_lt_irrefl, push_char, push_str, string_of, trim_start_char, trim_start_char_exec, u64_to_string,
    utf8_len, lemma_utf8_len_mono,
};

verus! {

/// A fully-resolved theme. String colours are emitted verbatim into CSS/SVG.
#[derive(Clone, Debug)]
pub struct Theme {
    pub id: String,
    pub label: String,
    /// Dark background: drives `color-scheme`, shadow choice, avatar lightness.
    pub dark: bool,
    /// Solid per-row band bars + a sans-serif chart font (the Wikipedia look).
    pub flat: bool,
    /// Corner radius for cards/controls, in pixels.
    pub radius: u32,
    pub font_sans: String,
    pub font_display: String,
    pub bg: String,
    pub card: String,
    pub border: String,
    pub border_strong: String,
    pub text: String,
    pub muted: String,
    pub faint: String,
    pub accent: String,
    /// Optional explicit accent-soft; derived from `accent` when absent.
    pub accent_soft: Option<String>,
    pub grid_year: String,
    pub grid_month: String,
    pub track: String,
    /// Colour of the release marker verticals.
    pub release: String,
    pub ctx_area: String,
    pub ctx_line: String,
}

/// The view of an optional string.
pub open spec fn ov(o: Option<String>) -> Option<Seq<char>> {
    match o {
        Some(s) => Some(s@),
        None => None,
    }
}

/// Two themes with the same settings.
pub open spec fn same_theme(a: Theme, b: Theme) -> bool {
    &&& a.id@ == b.id@ && a.label@ == b.label@
    &&& a.dark == b.dark && a.flat == b.flat && a.radius == b.radius
    &&& a.font_sans@ == b.font_sans@ && a.font_display@ == b.font_display@
    &&& a.bg@ == b.bg@ && a.card@ == b.card@ && a.border@ == b.border@ && a.border_strong@ == b.border_strong@
    &&& a.text@ == b.text@ && a.muted@ == b.muted@ && a.faint@ == b.faint@
    &&& a.accent@ == b.accent@ && ov(a.accent_soft) == ov(b.accent_soft)
    &&& a.grid_year@ == b.grid_year@ && a.grid_month@ == b.grid_month@ && a.track@ == b.track@
    &&& a.release@ == b.release@ && a.ctx_area@ == b.ctx_area@ && a.ctx_line@ == b.ctx_line@
}

/// A copy of a theme.
pub fn copy_theme(t: &Theme) -> (r: Theme)
    ensures
        same_theme(r, *t),
{
    Theme {
        id: t.id.clone(),
        label: t.label.clone(),
        dark: t.dark,
        flat: t.flat,
        radius: t.radius,
        font_sans: t.font_sans.clone(),
        font_display: t.font_display.clone(),
        bg: t.bg.clone(),
        card: t.card.clone(),
        border: t.border.clone(),
        border_strong: t.border_strong.clone(),
        text: t.text.clone(),
        muted: t.muted.clone(),
        faint: t.faint.clone(),
        accent: t.accent.clone(),
        accent_soft: clone_opt(&t.accent_soft),
        grid_year: t.grid_year.clone(),
        grid_month: t.grid_month.clone(),
        track: t.track.clone(),
        release: t.release.clone(),
        ctx_area: t.ctx_area.clone(),
        ctx_line: t.ctx_line.clone(),
    }
}

// ---------------------------------------------------------------------------
// Colours
// ---------------------------------------------------------------------------
/// The value of a hexadecimal digit.
pub open spec fn hex_val(c: char) -> Option<nat> {
    if '0' <= c && c <= '9' {
        Some((c as nat - '0' as nat) as nat)
    } else if 'a' <= c && c <= 'f' {
        Some((c as nat - 'a' as nat + 10) as nat)
    } else if 'A' <= c && c <= 'F' {
        Some((c as nat - 'A' as nat + 10) as nat)
    } else {
        None
    }
}

/// `u8::from_str_radix(.., 16)` on two characters: two hex digits, or `+`
/// and one hex digit.
pub open spec fn hex_byte(a: char, b: char) -> Option<nat> {
    if a == '+' {
        hex_val(b)
    } else {
        match (hex_val(a), hex_val(b)) {
            (Some(x), Some(y)) => Some(x * 16 + y),
            _ => None,
        }
    }
}

/// The `(r, g, b)` of `#rrggbb` (the `#` optional), if it is one.
pub open spec fn rgb_of(hex: Seq<char>) -> Option<(nat, nat, nat)> {
    let h = trim_start_char(hex, '#');
    if h.len() == 6 {
        match (hex_byte(h[0], h[1]), hex_byte(h[2], h[3]), hex_byte(h[4], h[5])) {
            (Some(r), Some(g), Some(b)) => Some((r, g, b)),
            _ => None,
        }
    } else {
        None
    }
}

/// Whether converting `hex` stays on character boundaries: a six-byte
/// colour is cut into three two-byte pieces, which must each be whole
/// characters.
pub open spec fn rgba_ok(hex: Seq<char>) -> bool {
    let h = trim_start_char(hex, '#');
    utf8_len(h) == 6 ==> (exists|k: int| 0 <= k <= h.len() && #[trigger] utf8_len(h.take(k)) == 2) && (exists|k: int|
        0 <= k <= h.len() && #[trigger] utf8_len(h.take(k)) == 4)
}

/// `rgba(r,g,b,alpha)` for a `#rrggbb` colour, or a neutral tint otherwise.
pub open spec fn rgba_text(hex: Seq<char>, alpha: Seq<char>) -> Seq<char> {
    match rgb_of(hex) {
        Some((r, g, b)) => "rgba("@ + decimal(r) + seq![','] + decimal(g) + seq![','] + decimal(b) + seq![','] + alpha
            + seq![')'],
        None => "rgba(120,132,148,"@ + alpha + seq![')'],
    }
}

/// The value of a hexadecimal digit.
fn hex_val_exec(c: char) -> (r: Option<u64>)
    ensures
        match r {
            Some(v) => hex_val(c) == Some(v as nat) && v < 16,
            None => hex_val(c) is None,
        },
{
    if '0' <= c && c <= '9' {
        Some((c as u32 - '0' as u32) as u64)
    } else if 'a' <= c && c <= 'f' {
        Some((c as u32 - 'a' as u32 + 10) as u64)
    } else if 'A' <= c && c <= 'F' {
        Some((c as u32 - 'A' as u32 + 10) as u64)
    } else {
        None
    }
}

/// The byte written by two characters in hexadecimal.
fn hex_byte_exec(a: char, b: char) -> (r: Option<u64>)
    ensures
        match r {
            Some(v) => hex_byte(a, b) == Some(v as nat),
            None => hex_byte(a, b) is None,
        },
{
    if a == '+' {
        return hex_val_exec(b);
    }
    match (hex_val_exec(a), hex_val_exec(b)) {
        (Some(x), Some(y)) => Some(x * 16 + y),
        _ => None,
    }
}

/// Convert `#rrggbb` into `rgba(r,g,b,alpha)`; falls back to a neutral tint.
pub fn rgba(hex: &str, alpha: &str) -> (r: String)
    requires
        rgba_ok(hex@),
    ensures
        r@ == rgba_text(hex@, alpha@),
{
    let h = trim_start_char_exec(&chars_of(hex), '#');
    if h.len() == 6 {
        match (hex_byte_exec(h[0], h[1]), hex_byte_exec(h[2], h[3]), hex_byte_exec(h[4], h[5])) {
            (Some(r), Some(g), Some(b)) => {
                let mut out = "rgba(".to_string();
                push_str(&mut out, u64_to_string(r).as_str());
                push_char(&mut out, ',');
                push_str(&mut out, u64_to_string(g).as_str());
                push_char(&mut out, ',');
                push_str(&mut out, u64_to_string(b).as_str());
                push_char(&mut out, ',');
                push_str(&mut out, alpha);
                push_char(&mut out, ')');
                return out;
            },
            _ => {},
        }
    }
    let mut out = "rgba(120,132,148,".to_string();
    push_str(&mut out, alpha);
    push_char(&mut out, ')');
    out
}

proof fn lemma_utf8_step(h: Seq<char>, k: int)
    requires
        0 <= k < h.len(),
    ensures
        utf8_len(h.take(k + 1)) == utf8_len(h.take(k)) + crate::text::utf8_width(h[k]),
        utf8_len(h.take(k + 1)) > utf8_len(h.take(k)),
{
    assert(h.take(k + 1).drop_last() =~= h.take(k));
}

proof fn lemma_utf8_strict(h: Seq<char>, a: int, b: int)
    requires
        0 <= a < b <= h.len(),
    ensures
        utf8_len(h.take(a)) < utf8_len(h.take(b)),
    decreases b - a,
{
    lemma_utf8_step(h, b - 1);
    if a < b - 1 {
        lemma_utf8_strict(h, a, b - 1);
    }
}

/// Whether `rgba` can convert `hex` without cutting a character (see
/// [`rgba_ok`]).
pub fn rgba_safe(hex: &str) -> (r: bool)
    ensures
        r == rgba_ok(hex@),
{
    let h = trim_start_char_exec(&chars_of(hex), '#');
    let mut acc: usize = 0;
    let mut hit2 = false;
    let mut hit4 = false;
    let mut i: usize = 0;
    while i < h.len()
        invariant
            i <= h@.len(),
            h@ == trim_start_char(hex@, '#'),
            acc == utf8_len(h@.take(i as int)),
            acc <= 6,
            hit2 == exists|k: int| 0 <= k <= i && #[trigger] utf8_len(h@.take(k)) == 2,
            hit4 == exists|k: int| 0 <= k <= i && #[trigger] utf8_len(h@.take(k)) == 4,
        decreases h@.len() - i,
    {
        let c = h[i];
        let w: usize = if (c as u32) < 0x80 {
            1
        } else if (c as u32) < 0x800 {
            2
        } else if (c as u32) < 0x10000 {
            3
        } else {
            4
        };
        proof {
            lemma_utf8_step(h@, i as int);
            assert(w == crate::text::utf8_width(h@[i as int]));
        }
        if acc + w > 6 {
            proof {
                lemma_utf8_len_mono(h@, i + 1);
                assert(h@.take(h@.len() as int) =~= h@);
            }
            return true;
        }
        acc = acc + w;
        proof {
            assert forall|k: int| 0 <= k <= i + 1 && #[trigger] utf8_len(h@.take(k)) == 2 implies k <= i || acc == 2 by {}
            if acc == 2 {
                assert(utf8_len(h@.take(i + 1)) == 2);
            }
            if acc == 4 {
                assert(utf8_len(h@.take(i + 1)) == 4);
            }
        }
        if acc == 2 {
            hit2 = true;
        }
        if acc == 4 {
            hit4 = true;
        }
        i += 1;
    }
    proof {
        assert(h@.take(i as int) =~= h@);
        assert forall|k: int| 0 <= k <= h@.len() && #[trigger] utf8_len(h@.take(k)) == 2 implies hit2 by {
            assert(0 <= k <= i);
        }
        assert forall|k: int| 0 <= k <= h@.len() && #[trigger] utf8_len(h@.take(k)) == 4 implies hit4 by {
            assert(0 <= k <= i);
        }
    }
    acc != 6 || (hit2 && hit4)
}


// ---------------------------------------------------------------------------
// Theme properties
// ---------------------------------------------------------------------------
/// The accent tint: the explicit one, or the accent at 12% opacity.
pub open spec fn accent_soft_of(t: Theme) -> Seq<char> {
    match t.accent_soft {
        Some(a) => a@,
        None => rgba_text(t.accent@, "0.12"@),
    }
}

/// The card shadow.
pub open spec fn shadow_of(t: Theme) -> Seq<char> {
    if t.flat {
        "none"@
    } else if t.dark {
        "0 1px 2px rgba(0,0,0,.4)"@
    } else {
        "0 1px 2px rgba(16,24,40,.04), 0 1px 6px rgba(16,24,40,.05)"@
    }
}

/// The popup shadow.
pub open spec fn shadow_lg_of(t: Theme) -> Seq<char> {
    if t.dark {
        "0 10px 32px rgba(0,0,0,.55)"@
    } else {
        "0 8px 28px rgba(16,24,40,.14)"@
    }
}

/// The colour of dimmed rows.
pub open spec fn dim_of(t: Theme) -> Seq<char> {
    if t.dark {
        "rgba(120,132,148,.14)"@
    } else {
        "rgba(120,132,148,.18)"@
    }
}

/// The CSS custom properties (plus `color-scheme`) of a theme, in order.
pub open spec fn css_pairs(t: Theme) -> Seq<(Seq<char>, Seq<char>)> {
    seq![
        ("--bg"@, t.bg@),
        ("--card"@, t.card@),
        ("--border"@, t.border@),
        ("--border-strong"@, t.border_strong@),
        ("--text"@, t.text@),
        ("--muted"@, t.muted@),
        ("--faint"@, t.faint@),
        ("--accent"@, t.accent@),
        ("--accent-soft"@, accent_soft_of(t)),
        ("--shadow"@, shadow_of(t)),
        ("--shadow-lg"@, shadow_lg_of(t)),
        ("--grid-year"@, t.grid_year@),
        ("--grid-month"@, t.grid_month@),
        ("--track"@, t.track@),
        ("--release"@, t.release@),
        ("--radius"@, decimal(t.radius as nat) + "px"@),
        ("--font-sans"@, t.font_sans@),
        ("--font-display"@, t.font_display@),
        ("color-scheme"@, if t.dark { "dark"@ } else { "light"@ }),
    ]
}

/// The view of a list of string pairs.
pub open spec fn pairs_view(v: Seq<(String, String)>) -> Seq<(Seq<char>, Seq<char>)> {
    v.map_values(|p: (String, String)| (p.0@, p.1@))
}

impl Theme {
    /// HSL lightness (%) for initials-fallback avatar discs.
    pub fn avatar_l(&self) -> (r: u32)
        ensures
            r == (if self.dark {
                48u32
            } else {
                62u32
            }),
    {
        if self.dark {
            48
        } else {
            62
        }
    }

    /// The accent tint: explicit, or derived from the accent.
    pub fn accent_soft(&self) -> (r: String)
        requires
            self.accent_soft is Some || rgba_ok(self.accent@),
        ensures
            r@ == accent_soft_of(*self),
    {
        match &self.accent_soft {
            Some(a) => a.clone(),
            None => rgba(self.accent.as_str(), "0.12"),
        }
    }

    /// The card shadow.
    pub fn shadow(&self) -> (r: &'static str)
        ensures
            r@ == shadow_of(*self),
    {
        if self.flat {
            "none"
        } else if self.dark {
            "0 1px 2px rgba(0,0,0,.4)"
        } else {
            "0 1px 2px rgba(16,24,40,.04), 0 1px 6px rgba(16,24,40,.05)"
        }
    }

    /// The popup shadow.
    pub fn shadow_lg(&self) -> (r: &'static str)
        ensures
            r@ == shadow_lg_of(*self),
    {
        if self.dark {
            "0 10px 32px rgba(0,0,0,.55)"
        } else {
            "0 8px 28px rgba(16,24,40,.14)"
        }
    }

    /// The colour of dimmed rows.
    pub fn dim(&self) -> (r: &'static str)
        ensures
            r@ == dim_of(*self),
    {
        if self.dark {
            "rgba(120,132,148,.14)"
        } else {
            "rgba(120,132,148,.18)"
        }
    }

    /// CSS custom properties (plus `color-scheme`) for a `[data-theme]` block.
    pub fn css_vars(&self) -> (r: Vec<(String, String)>)
        requires
            self.accent_soft is Some || rgba_ok(self.accent@),
        ensures
            pairs_view(r@) == css_pairs(*self),
    {
        let mut radius = u64_to_string(self.radius as u64);
        push_str(&mut radius, "px");
        let scheme = if self.dark {
            "dark".to_string()
        } else {
            "light".to_string()
        };
        let r = vec![
            ("--bg".to_string(), self.bg.clone()),
            ("--card".to_string(), self.card.clone()),
            ("--border".to_string(), self.border.clone()),
            ("--border-strong".to_string(), self.border_strong.clone()),
            ("--text".to_string(), self.text.clone()),
            ("--muted".to_string(), self.muted.clone()),
            ("--faint".to_string(), self.faint.clone()),
            ("--accent".to_string(), self.accent.clone()),
            ("--accent-soft".to_string(), self.accent_soft()),
            ("--shadow".to_string(), self.shadow().to_string()),
            ("--shadow-lg".to_string(), self.shadow_lg().to_string()),
            ("--grid-year".to_string(), self.grid_year.clone()),
            ("--grid-month".to_string(), self.grid_month.clone()),
            ("--track".to_string(), self.track.clone()),
            ("--release".to_string(), self.release.clone()),
            ("--radius".to_string(), radius),
            ("--font-sans".to_string(), self.font_sans.clone()),
            ("--font-display".to_string(), self.font_display.clone()),
            ("color-scheme".to_string(), scheme),
        ];
        assert(pairs_view(r@) =~= css_pairs(*self));
        r
    }
}

/// The sans-serif font stack of the built-in light and dark themes.
pub open spec fn sans_font() -> Seq<char> {
    "-apple-system, 'Segoe UI', Inter, 'Helvetica Neue', Arial, sans-serif"@
}

/// The sans-serif font stack.
fn sans_font_exec() -> (r: &'static str)
    ensures
        r@ == sans_font(),
{
    "-apple-system, 'Segoe UI', Inter, 'Helvetica Neue', Arial, sans-serif"
}

/// `t` is the built-in Light theme.
pub open spec fn is_light_theme(t: Theme) -> bool {
    &&& t.id@ == "light"@
    &&& t.label@ == "Light"@
    &&& t.dark == false
    &&& t.flat == false
    &&& t.radius == 12
    &&& t.font_sans@ == sans_font()
    &&& t.font_display@ == sans_font()
    &&& t.bg@ == "#f6f7f9"@
    &&& t.card@ == "#ffffff"@
    &&& t.border@ == "#e4e7ec"@
    &&& t.border_strong@ == "#d4d9e0"@
    &&& t.text@ == "#1c2530"@
    &&& t.muted@ == "#5d6b7c"@
    &&& t.faint@ == "#98a3b1"@
    &&& t.accent@ == "#2f6feb"@
    &&& ov(t.accent_soft) == Some("rgba(47,111,235,.1)"@)
    &&& t.grid_year@ == "#e2e6ec"@
    &&& t.grid_month@ == "#eef1f5"@
    &&& t.track@ == "#e8ebf0"@
    &&& t.release@ == "#6b7a99"@
    &&& t.ctx_area@ == "#c9d7f5"@
    &&& t.ctx_line@ == "#7d9ce8"@
}

/// `t` is the built-in Dark theme.
pub open spec fn is_dark_theme(t: Theme) -> bool {
    &&& t.id@ == "dark"@
    &&& t.label@ == "Dark"@
    &&& t.dark == true
    &&& t.flat == false
    &&& t.radius == 12
    &&& t.font_sans@ == sans_font()
    &&& t.font_display@ == sans_font()
    &&& t.bg@ == "#0d1117"@
    &&& t.card@ == "#151b23"@
    &&& t.border@ == "#262d37"@
    &&& t.border_strong@ == "#333c48"@
    &&& t.text@ == "#e6ebf2"@
    &&& t.muted@ == "#9aa7b6"@
    &&& t.faint@ == "#5f6c7b"@
    &&& t.accent@ == "#2f6feb"@
    &&& ov(t.accent_soft) == Some("rgba(83,140,255,.13)"@)
    &&& t.grid_year@ == "#232b35"@
    &&& t.grid_month@ == "#1a212a"@
    &&& t.track@ == "#2a323d"@
    &&& t.release@ == "#8893ad"@
    &&& t.ctx_area@ == "#23344f"@
    &&& t.ctx_line@ == "#4a6da8"@
}

/// `t` is the built-in Wikipedia theme.
pub open spec fn is_wikipedia_theme(t: Theme) -> bool {
    &&& t.id@ == "wikipedia"@
    &&& t.label@ == "Wikipedia"@
    &&& t.dark == false
    &&& t.flat == true
    &&& t.radius == 2
    &&& t.font_sans@ == "sans-serif"@
    &&& t.font_display@ == "'Linux Libertine', Georgia, 'Times New Roman', serif"@
    &&& t.bg@ == "#ffffff"@
    &&& t.card@ == "#ffffff"@
    &&& t.border@ == "#c8ccd1"@
    &&& t.border_strong@ == "#a2a9b1"@
    &&& t.text@ == "#202122"@
    &&& t.muted@ == "#54595d"@
    &&& t.faint@ == "#72777d"@
    &&& t.accent@ == "#3366cc"@
    &&& ov(t.accent_soft) == Some("rgba(51,102,204,.1)"@)
    &&& t.grid_year@ == "#c8ccd1"@
    &&& t.grid_month@ == "#eaecf0"@
    &&& t.track@ == "#e8e8e8"@
    &&& t.release@ == "#000000"@
    &&& t.ctx_area@ == "#cdd9f2"@
    &&& t.ctx_line@ == "#5b81d4"@
}

/// The three built-in themes, in menu order: Light, Dark, Wikipedia.
pub fn builtins() -> (r: Vec<Theme>)
    ensures
        r@.len() == 3,
        is_light_theme(r@[0]),
        is_dark_theme(r@[1]),
        is_wikipedia_theme(r@[2]),
{
    vec![
        Theme {
            id: "light".to_string(),
            label: "Light".to_string(),
            dark: false,
            flat: false,
            radius: 12,
            font_sans: sans_font_exec().to_string(),
            font_display: sans_font_exec().to_string(),
            bg: "#f6f7f9".to_string(),
            card: "#ffffff".to_string(),
            border: "#e4e7ec".to_string(),
            border_strong: "#d4d9e0".to_string(),
            text: "#1c2530".to_string(),
            muted: "#5d6b7c".to_string(),
            faint: "#98a3b1".to_string(),
            accent: "#2f6feb".to_string(),
            accent_soft: Some("rgba(47,111,235,.1)".to_string()),
            grid_year: "#e2e6ec".to_string(),
            grid_month: "#eef1f5".to_string(),
            track: "#e8ebf0".to_string(),
            release: "#6b7a99".to_string(),
            ctx_area: "#c9d7f5".to_string(),
            ctx_line: "#7d9ce8".to_string(),
        },
        Theme {
            id: "dark".to_string(),
            label: "Dark".to_string(),
            dark: true,
            flat: false,
            radius: 12,
            font_sans: sans_font_exec().to_string(),
            font_display: sans_font_exec().to_string(),
            bg: "#0d1117".to_string(),
            card: "#151b23".to_string(),
            border: "#262d37".to_string(),
            border_strong: "#333c48".to_string(),
            text: "#e6ebf2".to_string(),
            muted: "#9aa7b6".to_string(),
            faint: "#5f6c7b".to_string(),
            accent: "#2f6feb".to_string(),
            accent_soft: Some("rgba(83,140,255,.13)".to_string()),
            grid_year: "#232b35".to_string(),
            grid_month: "#1a212a".to_string(),
            track: "#2a323d".to_string(),
            release: "#8893ad".to_string(),
            ctx_area: "#23344f".to_string(),
            ctx_line: "#4a6da8".to_string(),
        },
        Theme {
            id: "wikipedia".to_string(),
            label: "Wikipedia".to_string(),
            dark: false,
            flat: true,
            radius: 2,
            font_sans: "sans-serif".to_string(),
            font_display: "'Linux Libertine', Georgia, 'Times New Roman', serif".to_string(),
            bg: "#ffffff".to_string(),
            card: "#ffffff".to_string(),
            border: "#c8ccd1".to_string(),
            border_strong: "#a2a9b1".to_string(),
            text: "#202122".to_string(),
            muted: "#54595d".to_string(),
            faint: "#72777d".to_string(),
            accent: "#3366cc".to_string(),
            accent_soft: Some("rgba(51,102,204,.1)".to_string()),
            grid_year: "#c8ccd1".to_string(),
            grid_month: "#eaecf0".to_string(),
            track: "#e8e8e8".to_string(),
            release: "#000000".to_string(),
            ctx_area: "#cdd9f2".to_string(),
            ctx_line: "#5b81d4".to_string(),
        },
    ]
}

// ---------------------------------------------------------------------------
// Custom themes
// ---------------------------------------------------------------------------
/// A custom theme as written in the theme config. Every setting is optional;
/// anything omitted is inherited from `extends` (default: `light`).
#[derive(Debug, Clone)]
pub struct RawTheme {
    pub label: Option<String>,
    pub extends: Option<String>,
    pub dark: Option<bool>,
    pub flat: Option<bool>,
    pub radius: Option<u32>,
    pub font_sans: Option<String>,
    pub font_display: Option<String>,
    pub bg: Option<String>,
    pub card: Option<String>,
    pub border: Option<String>,
    pub border_strong: Option<String>,
    pub text: Option<String>,
    pub muted: Option<String>,
    pub faint: Option<String>,
    pub accent: Option<String>,
    pub grid_year: Option<String>,
    pub grid_month: Option<String>,
    pub track: Option<String>,
    pub release: Option<String>,
    pub ctx_area: Option<String>,
    pub ctx_line: Option<String>,
    pub accent_soft: Option<String>,
}

/// A theme config: custom themes plus the page's menu settings.
#[derive(Debug, Clone)]
pub struct RawConfig {
    /// Initial theme id for the page (overridden by `--theme`).
    pub default: Option<String>,
    /// Theme ids to offer in the menu, in order. Defaults to every theme.
    pub available: Option<Vec<String>>,
    /// Hide the menu and pin the page to the default theme.
    pub lock: Option<bool>,
    /// The custom themes by id (each id once).
    pub themes: Option<Vec<(String, RawTheme)>>,
}

/// Themes plus the page's menu configuration.
pub struct ThemeSet {
    /// Every theme (built-ins first, then custom), used to resolve `--theme`.
    pub all: Vec<Theme>,
    /// Just the custom themes, serialised into the page.
    pub custom: Vec<Theme>,
    /// Theme ids to show in the menu, in order.
    pub order: Vec<String>,
    /// Initial theme from the config (`--theme` still wins).
    pub default: Option<String>,
    /// Hide the switcher and pin to a single theme.
    pub lock: bool,
}

/// Why a theme config is refused.
#[derive(Debug, Clone)]
pub enum ThemeError {
    /// A custom theme reuses the id of a built-in one.
    Shadows(String),
    /// A custom theme extends a theme that is not defined before it.
    UnknownBase { id: String, extends: String },
    /// `available` lists an undefined theme.
    UnknownAvailable(String),
    /// `default` names an undefined theme.
    UnknownDefault(String),
}

/// The ids of a list of themes.
pub open spec fn theme_ids(v: Seq<Theme>) -> Seq<Seq<char>> {
    v.map_values(|t: Theme| t.id@)
}

/// The view of a list of strings.
pub open spec fn strs(v: Seq<String>) -> Seq<Seq<char>> {
    v.map_values(|s: String| s@)
}

impl Default for ThemeSet {
    fn default() -> (r: Self)
        ensures
            r.all@.len() == 3,
            is_light_theme(r.all@[0]),
            is_dark_theme(r.all@[1]),
            is_wikipedia_theme(r.all@[2]),
            r.custom@.len() == 0,
            strs(r.order@) == theme_ids(r.all@),
            r.default is None,
            !r.lock,
    {
        let all = builtins();
        let order = vec![all[0].id.clone(), all[1].id.clone(), all[2].id.clone()];
        assert(strs(order@) =~= theme_ids(all@));
        ThemeSet { all, custom: Vec::new(), order, default: None, lock: false }
    }
}

/// `j` is the first theme of `v` with id `id`.
pub open spec fn first_with_id(v: Seq<Theme>, id: Seq<char>, j: int) -> bool {
    0 <= j < v.len() && v[j].id@ == id && forall|j2: int| 0 <= j2 < j ==> (#[trigger] v[j2]).id@ != id
}

/// The position of the first theme with id `id`.
fn find_theme(v: &Vec<Theme>, id: &str) -> (r: Option<usize>)
    ensures
        match r {
            Some(j) => first_with_id(v@, id@, j as int),
            None => forall|j: int| 0 <= j < v@.len() ==> (#[trigger] v@[j]).id@ != id@,
        },
{
    let mut j: usize = 0;
    while j < v.len()
        invariant
            j <= v@.len(),
            forall|j2: int| 0 <= j2 < j ==> (#[trigger] v@[j2]).id@ != id@,
        decreases v@.len() - j,
    {
        if str_eq(v[j].id.as_str(), id) {
            return Some(j);
        }
        j += 1;
    }
    None
}

impl ThemeSet {
    /// The theme with id `id`, if defined (the first, should there be more).
    pub fn get(&self, id: &str) -> (r: Option<&Theme>)
        ensures
            match r {
                Some(t) => exists|j: int| first_with_id(self.all@, id@, j) && *t == self.all@[j],
                None => forall|j: int| 0 <= j < self.all@.len() ==> (#[trigger] self.all@[j]).id@ != id@,
            },
    {
        match find_theme(&self.all, id) {
            Some(j) => Some(&self.all[j]),
            None => None,
        }
    }
}

/// A setting: the given one or the inherited one.
pub open spec fn pick(o: Option<String>, d: Seq<char>) -> Seq<char> {
    match o {
        Some(s) => s@,
        None => d,
    }
}

/// `t` is the custom theme `id` written as `raw` on top of `base`: every
/// setting given or inherited; the accent tint inherited only along with
/// the accent itself, so a new accent derives a fresh tint.
pub open spec fn resolved(t: Theme, id: Seq<char>, raw: RawTheme, base: Theme) -> bool {
    &&& t.id@ == id
    &&& t.label@ == pick(raw.label, id)
    &&& t.dark == (match raw.dark {
        Some(d) => d,
        None => base.dark,
    })
    &&& t.flat == (match raw.flat {
        Some(f) => f,
        None => base.flat,
    })
    &&& t.radius == (match raw.radius {
        Some(r) => r,
        None => base.radius,
    })
    &&& t.font_sans@ == pick(raw.font_sans, base.font_sans@)
    &&& t.font_display@ == pick(raw.font_display, base.font_display@)
    &&& t.bg@ == pick(raw.bg, base.bg@)
    &&& t.card@ == pick(raw.card, base.card@)
    &&& t.border@ == pick(raw.border, base.border@)
    &&& t.border_strong@ == pick(raw.border_strong, base.border_strong@)
    &&& t.text@ == pick(raw.text, base.text@)
    &&& t.muted@ == pick(raw.muted, base.muted@)
    &&& t.faint@ == pick(raw.faint, base.faint@)
    &&& t.accent@ == pick(raw.accent, base.accent@)
    &&& t.grid_year@ == pick(raw.grid_year, base.grid_year@)
    &&& t.grid_month@ == pick(raw.grid_month, base.grid_month@)
    &&& t.track@ == pick(raw.track, base.track@)
    &&& t.release@ == pick(raw.release, base.release@)
    &&& t.ctx_area@ == pick(raw.ctx_area, base.ctx_area@)
    &&& t.ctx_line@ == pick(raw.ctx_line, base.ctx_line@)
    &&& ov(t.accent_soft) == (match raw.accent_soft {
        Some(a) => Some(a@),
        None => if raw.accent is None {
            ov(base.accent_soft)
        } else {
            None
        },
    })
}

/// A setting: the given one or the inherited one.
fn pick_exec(o: &Option<String>, d: &String) -> (r: String)
    ensures
        r@ == pick(*o, d@),
{
    match o {
        Some(s) => s.clone(),
        None => d.clone(),
    }
}

/// The custom theme `id` written as `raw` on top of `base`.
pub fn resolve(id: &str, raw: &RawTheme, base: &Theme) -> (r: Theme)
    ensures
        resolved(r, id@, *raw, *base),
{
    Theme {
        id: id.to_string(),
        label: match &raw.label {
            Some(l) => l.clone(),
            None => id.to_string(),
        },
        dark: match raw.dark {
            Some(d) => d,
            None => base.dark,
        },
        flat: match raw.flat {
            Some(f) => f,
            None => base.flat,
        },
        radius: match raw.radius {
            Some(r) => r,
            None => base.radius,
        },
        font_sans: pick_exec(&raw.font_sans, &base.font_sans),
        font_display: pick_exec(&raw.font_display, &base.font_display),
        bg: pick_exec(&raw.bg, &base.bg),
        card: pick_exec(&raw.card, &base.card),
        border: pick_exec(&raw.border, &base.border),
        border_strong: pick_exec(&raw.border_strong, &base.border_strong),
        text: pick_exec(&raw.text, &base.text),
        muted: pick_exec(&raw.muted, &base.muted),
        faint: pick_exec(&raw.faint, &base.faint),
        accent: pick_exec(&raw.accent, &base.accent),
        grid_year: pick_exec(&raw.grid_year, &base.grid_year),
        grid_month: pick_exec(&raw.grid_month, &base.grid_month),
        track: pick_exec(&raw.track, &base.track),
        release: pick_exec(&raw.release, &base.release),
        ctx_area: pick_exec(&raw.ctx_area, &base.ctx_area),
        ctx_line: pick_exec(&raw.ctx_line, &base.ctx_line),
        accent_soft: match &raw.accent_soft {
            Some(a) => Some(a.clone()),
            None => if raw.accent.is_none() {
                clone_opt(&base.accent_soft)
            } else {
                None
            },
        },
    }
}

/// The ids of the built-in themes.
pub open spec fn builtin_ids() -> Seq<Seq<char>> {
    seq!["light"@, "dark"@, "wikipedia"@]
}

/// The custom themes of a config.
pub open spec fn raw_themes(raw: RawConfig) -> Seq<(String, RawTheme)> {
    match raw.themes {
        Some(v) => v@,
        None => Seq::empty(),
    }
}

/// The ids of custom themes.
pub open spec fn raw_ids(ths: Seq<(String, RawTheme)>) -> Seq<Seq<char>> {
    ths.map_values(|e: (String, RawTheme)| e.0@)
}

/// `p` lists the positions of `ids` in increasing order of id.
pub open spec fn sorted_perm(ids: Seq<Seq<char>>, p: Seq<int>) -> bool {
    &&& p.len() == ids.len()
    &&& forall|k: int| 0 <= k < p.len() ==> 0 <= #[trigger] p[k] < ids.len()
    &&& forall|k: int, l: int| 0 <= k < l < p.len() ==> seq_lt(ids[#[trigger] p[k]], ids[#[trigger] p[l]])
}

/// The custom ids in processing order.
pub open spec fn sorted_ids(ths: Seq<(String, RawTheme)>, p: Seq<int>) -> Seq<Seq<char>> {
    p.map_values(|i: int| ths[i].0@)
}

/// The `k`-th custom theme (in id order) is acceptable: its id is not a
/// built-in one, and what it extends is defined before it.
pub open spec fn step_ok(ths: Seq<(String, RawTheme)>, p: Seq<int>, k: int) -> bool {
    &&& !builtin_ids().contains(ths[p[k]].0@)
    &&& match ths[p[k]].1.extends {
        Some(e) => (builtin_ids() + sorted_ids(ths, p).take(k)).contains(e@),
        None => true,
    }
}

/// The `k`-th custom theme is the first unacceptable one.
pub open spec fn first_bad(ths: Seq<(String, RawTheme)>, p: Seq<int>, k: int) -> bool {
    0 <= k < ths.len() && !step_ok(ths, p, k) && forall|k2: int| 0 <= k2 < k ==> #[trigger] step_ok(ths, p, k2)
}

/// Every custom theme is acceptable.
pub open spec fn steps_ok(ths: Seq<(String, RawTheme)>, p: Seq<int>) -> bool {
    forall|k: int| 0 <= k < ths.len() ==> #[trigger] step_ok(ths, p, k)
}

/// Every theme in `available` is defined.
pub open spec fn available_ok(raw: RawConfig, ids: Seq<Seq<char>>) -> bool {
    raw.available is Some ==> forall|i: int| 0 <= i < raw.available->0@.len() ==> ids.contains((#[trigger] raw.available->0@[i])@)
}

/// The `default` theme is defined.
pub open spec fn default_ok(raw: RawConfig, ids: Seq<Seq<char>>) -> bool {
    raw.default is Some ==> ids.contains(raw.default->0@)
}

/// `t` is custom theme `id`, the `k`-th in id order, written as `rt` on top
/// of the theme it extends among the themes before it in `all` (the first
/// with that id), or of the light theme.
pub open spec fn based(all: Seq<Theme>, k: int, id: Seq<char>, rt: RawTheme, t: Theme) -> bool {
    match rt.extends {
        None => resolved(t, id, rt, all[0]),
        Some(e) => exists|j: int| #[trigger] first_with_id(all.take(3 + k), e@, j) && resolved(t, id, rt, all[j]),
    }
}

/// `ts` is the theme set a config builds when it is accepted.
pub open spec fn built(raw: RawConfig, p: Seq<int>, ts: ThemeSet) -> bool {
    let ths = raw_themes(raw);
    let n = ths.len();
    let ids = sorted_ids(ths, p);
    &&& ts.all@.len() == 3 + n
    &&& is_light_theme(ts.all@[0]) && is_dark_theme(ts.all@[1]) && is_wikipedia_theme(ts.all@[2])
    &&& ts.custom@.len() == n
    &&& forall|k: int| 0 <= k < n ==> same_theme(#[trigger] ts.custom@[k], ts.all@[3 + k])
    &&& forall|k: int| 0 <= k < n ==> based(ts.all@, k, ids[k], ths[p[k]].1, #[trigger] ts.custom@[k])
    &&& strs(ts.order@) == (match raw.available {
        Some(l) => strs(l@),
        None => theme_ids(ts.all@),
    })
    &&& ov(ts.default) == ov(raw.default)
    &&& ts.lock == (match raw.lock {
        Some(b) => b,
        None => false,
    })
}

/// What a config with custom themes taken in the order `p` gives: the theme
/// set, or the first problem found.
pub open spec fn config_outcome(raw: RawConfig, p: Seq<int>, r: Result<ThemeSet, ThemeError>) -> bool {
    let ths = raw_themes(raw);
    let ids = sorted_ids(ths, p);
    let all_ids = builtin_ids() + ids;
    match r {
        Ok(ts) => steps_ok(ths, p) && available_ok(raw, all_ids) && default_ok(raw, all_ids) && built(raw, p, ts),
        Err(ThemeError::Shadows(x)) => exists|k: int|
            first_bad(ths, p, k) && builtin_ids().contains(ids[k]) && x@ == #[trigger] ids[k],
        Err(ThemeError::UnknownBase { id, extends }) => exists|k: int|
            first_bad(ths, p, k) && !builtin_ids().contains(ids[k]) && id@ == #[trigger] ids[k] && ths[p[k]].1.extends is Some
                && extends@ == ths[p[k]].1.extends->0@,
        Err(ThemeError::UnknownAvailable(x)) => {
            &&& steps_ok(ths, p)
            &&& raw.available is Some
            &&& exists|i: int|
                0 <= i < raw.available->0@.len() && !all_ids.contains((#[trigger] raw.available->0@[i])@) && x@
                    == raw.available->0@[i]@ && forall|i2: int|
                    0 <= i2 < i ==> all_ids.contains((#[trigger] raw.available->0@[i2])@)
        },
        Err(ThemeError::UnknownDefault(x)) => {
            &&& steps_ok(ths, p)
            &&& available_ok(raw, all_ids)
            &&& raw.default is Some
            &&& !all_ids.contains(raw.default->0@)
            &&& x@ == raw.default->0@
        },
    }
}

/// The ids of custom themes are distinct (they are the keys of a map).
pub open spec fn distinct_ids(raw: RawConfig) -> bool {
    let ids = raw_ids(raw_themes(raw));
    forall|a: int, b: int| 0 <= a < b < ids.len() ==> ids[a] != ids[b]
}

/// Positions as integers.
pub open spec fn as_ints(v: Seq<usize>) -> Seq<int> {
    v.map_values(|i: usize| i as int)
}

/// The positions of custom themes in increasing order of id.
fn sort_by_id(ths: &Vec<(String, RawTheme)>) -> (p: Vec<usize>)
    requires
        forall|a: int, b: int| 0 <= a < b < ths@.len() ==> raw_ids(ths@)[a] != raw_ids(ths@)[b],
    ensures
        sorted_perm(raw_ids(ths@), as_ints(p@)),
{
    let ghost ids = raw_ids(ths@);
    let mut p: Vec<usize> = Vec::new();
    let mut i: usize = 0;
    while i < ths.len()
        invariant
            i <= ths@.len(),
            ids == raw_ids(ths@),
            forall|a: int, b: int| 0 <= a < b < ths@.len() ==> ids[a] != ids[b],
            p@.len() == i,
            forall|k: int| 0 <= k < p@.len() ==> #[trigger] p@[k] < i,
            forall|k: int, l: int| 0 <= k < l < p@.len() ==> seq_lt(ids[#[trigger] p@[k] as int], ids[#[trigger] p@[l] as int]),
        decreases ths@.len() - i,
    {
        let x = chars_of(ths[i].0.as_str());
        assert(x@ == ids[i as int]);
        // the first position whose id sorts after the new one
        let mut q: usize = 0;
        while q < p.len() && !seq_lt_exec(&x, &chars_of(ths[p[q]].0.as_str()))
            invariant
                q <= p@.len(),
                x@ == ids[i as int],
                ids == raw_ids(ths@),
                forall|k: int| 0 <= k < p@.len() ==> #[trigger] p@[k] < i,
                i < ths@.len(),
                forall|k: int| 0 <= k < q ==> !seq_lt(ids[i as int], ids[#[trigger] p@[k] as int]),
            decreases p@.len() - q,
        {
            q += 1;
        }
        let ghost p0 = p@;
        proof {
            assert forall|k: int| 0 <= k < q implies seq_lt(ids[#[trigger] p0[k] as int], ids[i as int]) by {
                lemma_seq_lt_total(ids[p0[k] as int], ids[i as int]);
                assert(ids[p0[k] as int] != ids[i as int]);
            }
            if q < p0.len() {
                assert(seq_lt(ids[i as int], ids[p0[q as int] as int]));
                assert forall|k: int| q <= k < p0.len() implies seq_lt(ids[i as int], ids[#[trigger] p0[k] as int]) by {
                    if k > q {
                        lemma_seq_lt_trans(ids[i as int], ids[p0[q as int] as int], ids[p0[k] as int]);
                    }
                }
            }
        }
        p.insert(q, i);
        proof {
            assert forall|k: int, l: int| 0 <= k < l < p@.len() implies seq_lt(ids[#[trigger] p@[k] as int], ids[#[trigger] p@[l] as int]) by {
                if l < q {
                    assert(p@[k] == p0[k] && p@[l] == p0[l]);
                } else if l == q {
                    assert(p@[k] == p0[k]);
                } else if k < q {
                    assert(p@[k] == p0[k] && p@[l] == p0[l - 1]);
                    lemma_seq_lt_trans(ids[p0[k] as int], ids[i as int], ids[p0[l - 1] as int]);
                } else if k == q {
                    assert(p@[l] == p0[l - 1]);
                } else {
                    assert(p@[k] == p0[k - 1] && p@[l] == p0[l - 1]);
                }
            }
        }
        i += 1;
    }
    proof {
        let pi = as_ints(p@);
        assert forall|k: int, l: int| 0 <= k < l < pi.len() implies seq_lt(ids[#[trigger] pi[k]], ids[#[trigger] pi[l]]) by {
            assert(pi[k] == p@[k] as int && pi[l] == p@[l] as int);
        }
        assert forall|k: int| 0 <= k < pi.len() implies 0 <= #[trigger] pi[k] < ids.len() by {
            assert(pi[k] == p@[k] as int);
        }
    }
    p
}

/// Whether `id` is the id of a built-in theme.
fn is_builtin_id(id: &str) -> (r: bool)
    ensures
        r == builtin_ids().contains(id@),
{
    let r = str_eq(id, "light") || str_eq(id, "dark") || str_eq(id, "wikipedia");
    proof {
        assert(builtin_ids()[0] == "light"@);
        assert(builtin_ids()[1] == "dark"@);
        assert(builtin_ids()[2] == "wikipedia"@);
        if builtin_ids().contains(id@) {
            let q = choose|q: int| 0 <= q < 3 && builtin_ids()[q] == id@;
        }
    }
    r
}

/// Combine a theme config with the built-ins: custom themes are resolved in
/// order of id, each on top of the theme it extends (the light theme by
/// default), which must be defined before it; no custom theme may reuse a
/// built-in id; `available` and `default` may name only defined themes.
pub fn theme_set_from(raw: &RawConfig) -> (r: Result<ThemeSet, ThemeError>)
    requires
        distinct_ids(*raw),
    ensures
        exists|p: Seq<int>| sorted_perm(raw_ids(raw_themes(*raw)), p) && config_outcome(*raw, p, r),
{
    let empty: Vec<(String, RawTheme)> = Vec::new();
    let ths: &Vec<(String, RawTheme)> = match &raw.themes {
        Some(v) => v,
        None => &empty,
    };
    assert(ths@ == raw_themes(*raw));
    let perm = sort_by_id(ths);
    let r = build_theme_set(raw, ths, &perm);
    assert(sorted_perm(raw_ids(raw_themes(*raw)), as_ints(perm@)));
    r
}

/// The theme set of a config whose custom themes `ths`, taken in the order
/// `perm`, are in increasing order of id.
fn build_theme_set(raw: &RawConfig, ths: &Vec<(String, RawTheme)>, perm: &Vec<usize>) -> (r: Result<ThemeSet, ThemeError>)
    requires
        ths@ == raw_themes(*raw),
        sorted_perm(raw_ids(ths@), as_ints(perm@)),
    ensures
        config_outcome(*raw, as_ints(perm@), r),
{
    let ghost p = as_ints(perm@);
    let ghost ids = sorted_ids(ths@, p);
    let n = ths.len();
    let mut all = builtins();
    let mut custom: Vec<Theme> = Vec::new();
    let mut k: usize = 0;
    while k < n
        invariant
            k <= n == ths@.len() == perm@.len(),
            ths@ == raw_themes(*raw),
            p == as_ints(perm@),
            ids == sorted_ids(ths@, p),
            sorted_perm(raw_ids(ths@), p),
            all@.len() == 3 + k,
            is_light_theme(all@[0]) && is_dark_theme(all@[1]) && is_wikipedia_theme(all@[2]),
            custom@.len() == k,
            theme_ids(all@) == builtin_ids() + ids.take(k as int),
            forall|k2: int| 0 <= k2 < k ==> same_theme(#[trigger] custom@[k2], all@[3 + k2]),
            forall|k2: int| 0 <= k2 < k ==> #[trigger] step_ok(ths@, p, k2),
            forall|k2: int| 0 <= k2 < k ==> based(all@, k2, ids[k2], ths@[p[k2]].1, #[trigger] custom@[k2]),
        decreases n - k,
    {
        let pk = perm[k];
        proof {
            assert(p[k as int] == pk as int);
            assert(0 <= p[k as int] < ths@.len());
            assert(ids[k as int] == ths@[pk as int].0@);
            assert(theme_ids(all@) == builtin_ids() + ids.take(k as int));
        }
        let id = &ths[pk].0;
        let rt = &ths[pk].1;
        if is_builtin_id(id.as_str()) {
            proof {
                assert(first_bad(ths@, p, k as int));
            }
            return Err(ThemeError::Shadows(id.clone()));
        }
        let base: usize = match &rt.extends {
            Some(e) => match find_theme(&all, e.as_str()) {
                Some(j) => {
                    proof {
                        assert(theme_ids(all@)[j as int] == e@);
                        assert((builtin_ids() + ids.take(k as int)).contains(e@));
                        assert(all@.take(3 + k as int) =~= all@);
                    }
                    j
                },
                None => {
                    proof {
                        assert(!(builtin_ids() + ids.take(k as int)).contains(e@)) by {
                            if (builtin_ids() + ids.take(k as int)).contains(e@) {
                                let q = choose|q: int| 0 <= q < theme_ids(all@).len() && theme_ids(all@)[q] == e@;
                                assert(all@[q].id@ == e@);
                            }
                        }
                        assert(first_bad(ths@, p, k as int));
                    }
                    return Err(ThemeError::UnknownBase { id: id.clone(), extends: e.clone() });
                },
            },
            None => 0,
        };
        let theme = resolve(id.as_str(), rt, &all[base]);
        let ghost all0 = all@;
        let ghost custom0 = custom@;
        all.push(copy_theme(&theme));
        custom.push(theme);
        proof {
            assert(step_ok(ths@, p, k as int));
            assert(theme_ids(all@) =~= builtin_ids() + ids.take(k + 1)) by {
                assert(theme_ids(all@) =~= theme_ids(all0).push(ids[k as int]));
                assert(ids.take(k + 1) =~= ids.take(k as int).push(ids[k as int]));
            }
            assert forall|k2: int| 0 <= k2 < k + 1 implies same_theme(#[trigger] custom@[k2], all@[3 + k2]) by {
                if k2 < k {
                    assert(custom@[k2] == custom0[k2] && all@[3 + k2] == all0[3 + k2]);
                }
            }
            assert forall|k2: int| 0 <= k2 < k + 1 implies based(all@, k2, ids[k2], ths@[p[k2]].1, #[trigger] custom@[k2]) by {
                assert(all@.take(3 + k2) =~= all0.take(3 + k2));
                if k2 < k {
                    assert(custom@[k2] == custom0[k2]);
                    assert(based(all0, k2, ids[k2], ths@[p[k2]].1, custom0[k2]));
                    match ths@[p[k2]].1.extends {
                        None => {
                            assert(all@[0] == all0[0]);
                        },
                        Some(e) => {
                            let j = choose|j: int|
                                #[trigger] first_with_id(all0.take(3 + k2), e@, j) && resolved(custom0[k2], ids[k2], ths@[p[k2]].1, all0[j]);
                            assert(all@[j] == all0[j]);
                            assert(first_with_id(all@.take(3 + k2), e@, j));
                        },
                    }
                } else {
                    assert(custom@[k2] == theme);
                    assert(all@[base as int] == all0[base as int]);
                    assert(ths@[p[k2]].1 == *rt);
                    match ths@[p[k2]].1.extends {
                        None => {},
                        Some(e) => {
                            assert(first_with_id(all0, e@, base as int));
                            assert(all@.take(3 + k2) =~= all0);
                            assert(first_with_id(all@.take(3 + k2), e@, base as int));
                        },
                    }
                }
            }
        }
        k += 1;
    }
    let ghost all_ids = builtin_ids() + ids;
    proof {
        assert(ids.take(k as int) =~= ids);
        assert(steps_ok(ths@, p));
    }
    // the menu order
    let order: Vec<String> = match &raw.available {
        Some(list) => {
            let mut i: usize = 0;
            while i < list.len()
                invariant
                    i <= list@.len(),
                    theme_ids(all@) == all_ids,
                    raw.available == Some(*list),
                    p == as_ints(perm@),
                    steps_ok(ths@, p),
                    ths@ == raw_themes(*raw),
                    all_ids == builtin_ids() + sorted_ids(ths@, p),
                    forall|i2: int| 0 <= i2 < i ==> all_ids.contains((#[trigger] list@[i2])@),
                decreases list@.len() - i,
            {
                match find_theme(&all, list[i].as_str()) {
                    Some(j) => {
                        assert(theme_ids(all@)[j as int] == list@[i as int]@);
                    },
                    None => {
                        proof {
                            assert(!all_ids.contains(list@[i as int]@)) by {
                                if all_ids.contains(list@[i as int]@) {
                                    let q = choose|q: int| 0 <= q < all_ids.len() && all_ids[q] == list@[i as int]@;
                                    assert(all@[q].id@ == list@[i as int]@);
                                }
                            }
                        }
                        let x = list[i].clone();
                        proof {
                            assert(raw.available->0 == *list);
                            assert(!all_ids.contains((raw.available->0@[i as int])@) && x@ == raw.available->0@[i as int]@ && forall|i2: int|
                                0 <= i2 < i ==> all_ids.contains((#[trigger] raw.available->0@[i2])@));
                            assert(config_outcome(*raw, p, Err(ThemeError::UnknownAvailable(x))));
                        }
                        return Err(ThemeError::UnknownAvailable(x));
                    },
                }
                i += 1;
            }
            copy_strs(list)
        },
        None => {
            let mut o: Vec<String> = Vec::new();
            let mut i: usize = 0;
            while i < all.len()
                invariant
                    i <= all@.len(),
                    strs(o@) == theme_ids(all@).take(i as int),
                decreases all@.len() - i,
            {
                let ghost o0 = o@;
                o.push(all[i].id.clone());
                assert(strs(o@) =~= strs(o0).push(all@[i as int].id@));
                assert(theme_ids(all@).take(i + 1) =~= theme_ids(all@).take(i as int).push(all@[i as int].id@));
                i += 1;
            }
            assert(theme_ids(all@).take(i as int) =~= theme_ids(all@));
            o
        },
    };
    match &raw.default {
        Some(d) => {
            match find_theme(&all, d.as_str()) {
                Some(j) => {
                    assert(theme_ids(all@)[j as int] == d@);
                },
                None => {
                    proof {
                        assert(!all_ids.contains(d@)) by {
                            if all_ids.contains(d@) {
                                let q = choose|q: int| 0 <= q < all_ids.len() && all_ids[q] == d@;
                                assert(all@[q].id@ == d@);
                            }
                        }
                    }
                    return Err(ThemeError::UnknownDefault(d.clone()));
                },
            }
        },
        None => {},
    }
    let lock = match raw.lock {
        Some(b) => b,
        None => false,
    };
    let ts = ThemeSet { all, custom, order, default: clone_opt(&raw.default), lock };
    proof {
        assert(built(*raw, p, ts));
        assert(config_outcome(*raw, p, Ok(ts)));
    }
    Ok(ts)
}

/// A copy of a list of strings.
fn copy_strs(v: &Vec<String>) -> (r: Vec<String>)
    ensures
        strs(r@) == strs(v@),
{
    let mut r: Vec<String> = Vec::new();
    let mut i: usize = 0;
    while i < v.len()
        invariant
            i <= v@.len(),
            strs(r@) == strs(v@).take(i as int),
        decreases v@.len() - i,
    {
        let ghost r0 = r@;
        r.push(v[i].clone());
        assert(strs(r@) =~= strs(r0).push(v@[i as int]@));
        assert(strs(v@).take(i + 1) =~= strs(v@).take(i as int).push(v@[i as int]@));
        i += 1;
    }
    assert(strs(v@).take(i as int) =~= strs(v@));
    r
}
} // verus!
