//! Skin identifiers and drawing-style flags. A theme is pure data; the colors
//! themselves live with the renderer.
use vstd::prelude::*;

verus! {

#[derive(Debug, Clone, Copy, PartialEq, Eq, Structural)]
pub enum ThemeId {
    Classic,
    Honeycomb,
    RetroLcd,
    Neon,
    Natural,
    Colorblind,
}

impl Default for ThemeId {
    fn default() -> (t: Self)
        ensures
            t == ThemeId::Classic,
    {
        ThemeId::Classic
    }
}

impl ThemeId {
    /// All themes in menu order.
    pub fn all() -> (all: [ThemeId; 6])
        ensures
            all@ == seq![
                ThemeId::Classic,
                ThemeId::Honeycomb,
                ThemeId::RetroLcd,
                ThemeId::Neon,
                ThemeId::Natural,
                ThemeId::Colorblind,
            ],
    {
        let all = [
            ThemeId::Classic,
            ThemeId::Honeycomb,
            ThemeId::RetroLcd,
            ThemeId::Neon,
            ThemeId::Natural,
            ThemeId::Colorblind,
        ];
        assert(all@ =~= seq![
            ThemeId::Classic,
            ThemeId::Honeycomb,
            ThemeId::RetroLcd,
            ThemeId::Neon,
            ThemeId::Natural,
            ThemeId::Colorblind,
        ]);
        all
    }

    pub fn label(self) -> (s: &'static str)
        ensures
            s@ == match self {
                ThemeId::Classic => "Klassisch"@,
                ThemeId::Honeycomb => "Honigwabe"@,
                ThemeId::RetroLcd => "Retro-LCD"@,
                ThemeId::Neon => "Neon"@,
                ThemeId::Natural => "Naturalistisch"@,
                ThemeId::Colorblind => "Farbenblind-sicher"@,
            },
    {
        match self {
            ThemeId::Classic => "Klassisch",
            ThemeId::Honeycomb => "Honigwabe",
            ThemeId::RetroLcd => "Retro-LCD",
            ThemeId::Neon => "Neon",
            ThemeId::Natural => "Naturalistisch",
            ThemeId::Colorblind => "Farbenblind-sicher",
        }
    }
}

/// How the snake body is rendered.
#[derive(Debug, Clone, Copy, PartialEq, Eq, Structural)]
pub enum SnakeStyle {
    /// Filled inset hexes per occupied cell (classic look).
    Hexes,
    /// Connected band through the cell centers.
    Band { taper: bool, glow: bool },
    /// Chain of circles, like a caterpillar.
    Caterpillar,
}

/// How the food is rendered.
#[derive(Debug, Clone, Copy, PartialEq, Eq, Structural)]
pub enum FoodStyle {
    /// Plain filled circle.
    Circle,
    /// Drop shape (circle with a tip), e.g. honey.
    Drop,
    /// Monochrome ring (LCD look).
    Ring,
    /// Glowing orb (layered translucent circles).
    GlowOrb,
    /// Apple: circle with stem and leaf.
    Apple,
    /// Upward triangle — differs from the snake by shape.
    Triangle,
}

/// Extra marker on the head so it is identifiable beyond color.
#[derive(Debug, Clone, Copy, PartialEq, Eq, Structural)]
pub enum HeadMarker {
    NoMarker,
    /// White ring (shape cue, colorblind-safe).
    Ring,
    /// Eyes that look toward the food.
    Eyes,
}

} // verus!
