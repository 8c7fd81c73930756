//! Pre-game options chosen in the menu.
use vstd::prelude::*;

use crate::board::BoundaryMode;
use crate::strategy::hamilton::{serpentine_compatible, HamiltonRider};
use crate::theme::ThemeId;

verus! {

#[derive(Debug, Clone, Copy, PartialEq, Eq, Structural)]
pub enum SizePreset {
    Small,
    Medium,
    Large,
    Custom,
}

impl SizePreset {
    /// All presets in menu order.
    pub fn all() -> (all: [SizePreset; 4])
        ensures
            all@ == seq![SizePreset::Small, SizePreset::Medium, SizePreset::Large, SizePreset::Custom],
    {
        let all = [SizePreset::Small, SizePreset::Medium, SizePreset::Large, SizePreset::Custom];
        assert(all@ =~= seq![SizePreset::Small, SizePreset::Medium, SizePreset::Large, SizePreset::Custom]);
        all
    }

    pub fn label(self) -> (s: &'static str)
        ensures
            s@ == match self {
                SizePreset::Small => "Klein (16×12)"@,
                SizePreset::Medium => "Mittel (24×18)"@,
                SizePreset::Large => "Groß (32×24)"@,
                SizePreset::Custom => "Frei wählbar"@,
            },
    {
        match self {
            SizePreset::Small => "Klein (16×12)",
            SizePreset::Medium => "Mittel (24×18)",
            SizePreset::Large => "Groß (32×24)",
            SizePreset::Custom => "Frei wählbar",
        }
    }
}

// Declaration order is the speed order: Slow < Normal < Fast.
#[derive(Debug, Clone, Copy, PartialEq, Eq, Structural, PartialOrd, Ord)]
pub enum Speed {
    Slow,
    Normal,
    Fast,
}

impl Speed {
    /// All speeds, slowest first.
    pub fn all() -> (all: [Speed; 3])
        ensures
            all@ == seq![Speed::Slow, Speed::Normal, Speed::Fast],
    {
        let all = [Speed::Slow, Speed::Normal, Speed::Fast];
        assert(all@ =~= seq![Speed::Slow, Speed::Normal, Speed::Fast]);
        all
    }

    pub fn label(self) -> (s: &'static str)
        ensures
            s@ == match self {
                Speed::Slow => "Gemütlich"@,
                Speed::Normal => "Normal"@,
                Speed::Fast => "Schnell"@,
            },
    {
        match self {
            Speed::Slow => "Gemütlich",
            Speed::Normal => "Normal",
            Speed::Fast => "Schnell",
        }
    }

    /// The key word of this speed in mode keys.
    pub fn key_word(self) -> (s: &'static str)
        ensures
            s@ == match self {
                Speed::Slow => "slow"@,
                Speed::Normal => "normal"@,
                Speed::Fast => "fast"@,
            },
    {
        match self {
            Speed::Slow => "slow",
            Speed::Normal => "normal",
            Speed::Fast => "fast",
        }
    }
}

#[derive(Debug, Clone, Copy, PartialEq, Eq, Structural)]
pub enum StrategyChoice {
    Human,
    Chaos,
    Greedy,
    Planner,
    Space,
    Hamilton,
    MonteCarlo,
    NeuralNet,
    Neat,
    Dqn,
    Ppo,
}

impl Default for StrategyChoice {
    fn default() -> (s: Self)
        ensures
            s == StrategyChoice::Human,
    {
        StrategyChoice::Human
    }
}

impl StrategyChoice {
    pub fn label(self) -> (s: &'static str)
        ensures
            s@ == match self {
                StrategyChoice::Human => "Aus (selbst spielen)"@,
                StrategyChoice::Chaos => "Chaos-Walker"@,
                StrategyChoice::Greedy => "Greedy"@,
                StrategyChoice::Planner => "Pfadplaner"@,
                StrategyChoice::Space => "Raumgreifer"@,
                StrategyChoice::Hamilton => "Hamilton"@,
                StrategyChoice::MonteCarlo => "Monte-Carlo"@,
                StrategyChoice::NeuralNet => "Neural Net"@,
                StrategyChoice::Neat => "NEAT"@,
                StrategyChoice::Dqn => "DQN"@,
                StrategyChoice::Ppo => "PPO"@,
            },
    {
        match self {
            StrategyChoice::Human => "Aus (selbst spielen)",
            StrategyChoice::Chaos => "Chaos-Walker",
            StrategyChoice::Greedy => "Greedy",
            StrategyChoice::Planner => "Pfadplaner",
            StrategyChoice::Space => "Raumgreifer",
            StrategyChoice::Hamilton => "Hamilton",
            StrategyChoice::MonteCarlo => "Monte-Carlo",
            StrategyChoice::NeuralNet => "Neural Net",
            StrategyChoice::Neat => "NEAT",
            StrategyChoice::Dqn => "DQN",
            StrategyChoice::Ppo => "PPO",
        }
    }

    /// Hamilton needs a board with an even height; everything else runs
    /// everywhere.
    pub fn compatible_with(self, width: i32, height: i32) -> (r: bool)
        requires
            serpentine_compatible(width as int, height as int) ==> width * height <= i32::MAX,
        ensures
            r == (self != StrategyChoice::Hamilton || serpentine_compatible(
                width as int,
                height as int,
            )),
    {
        match self {
            StrategyChoice::Hamilton => HamiltonRider::compatible(width, height),
            _ => true,
        }
    }
}

/// Tooltip shown on the greyed-out Hamilton entry.
pub const HAMILTON_INCOMPATIBLE_HINT: &'static str =
    "Benötigt eine gerade Feldhöhe (und mind. 2×2) — sonst existiert der Serpentinen-Hamilton-Zyklus nicht.";

#[derive(Debug, Clone, PartialEq, Eq, Structural)]
pub struct Settings {
    pub boundary: BoundaryMode,
    pub preset: SizePreset,
    pub custom_width: i32,
    pub custom_height: i32,
    pub speed: Speed,
    /// Autopilot strategy; `Human` disables it.
    pub strategy: StrategyChoice,
    /// Visual skin; pure rendering, no influence on the game logic.
    pub theme: ThemeId,
}

impl Default for Settings {
    fn default() -> (s: Self)
        ensures
            s == (Settings {
                boundary: BoundaryMode::Walls,
                preset: SizePreset::Medium,
                custom_width: 20,
                custom_height: 15,
                speed: Speed::Normal,
                strategy: StrategyChoice::Human,
                theme: ThemeId::Classic,
            }),
    {
        Settings {
            boundary: BoundaryMode::Walls,
            preset: SizePreset::Medium,
            custom_width: 20,
            custom_height: 15,
            speed: Speed::Normal,
            strategy: StrategyChoice::default(),
            theme: ThemeId::default(),
        }
    }
}

/// Board dimensions of a size preset (custom sizes come from the settings).
pub open spec fn dimensions_of(s: Settings) -> (i32, i32) {
    match s.preset {
        SizePreset::Small => (16, 12),
        SizePreset::Medium => (24, 18),
        SizePreset::Large => (32, 24),
        SizePreset::Custom => (s.custom_width, s.custom_height),
    }
}

impl Settings {
    pub fn dimensions(&self) -> (d: (i32, i32))
        ensures
            d == dimensions_of(*self),
    {
        match self.preset {
            SizePreset::Small => (16, 12),
            SizePreset::Medium => (24, 18),
            SizePreset::Large => (32, 24),
            SizePreset::Custom => (self.custom_width, self.custom_height),
        }
    }
}

} // verus!
