//! Aggregate statistics over self-played (non-autopilot) games.
use vstd::prelude::*;

verus! {

#[derive(Debug, Clone, Copy, PartialEq, Eq, Structural)]
pub struct Stats {
    pub games: u64,
    pub total_final_length: u64,
    pub best_score: u32,
    pub best_length: u32,
}

impl Default for Stats {
    fn default() -> (s: Self)
        ensures
            s == (Stats { games: 0, total_final_length: 0, best_score: 0, best_length: 0 }),
    {
        Stats { games: 0, total_final_length: 0, best_score: 0, best_length: 0 }
    }
}

impl Stats {
    /// Count one finished game.
    pub fn record(&mut self, score: u32, final_length: u32)
        requires
            old(self).games < u64::MAX,
            old(self).total_final_length + final_length <= u64::MAX,
        ensures
            final(self).games == old(self).games + 1,
            final(self).total_final_length == old(self).total_final_length + final_length,
            final(self).best_score == if score > old(self).best_score {
                score
            } else {
                old(self).best_score
            },
            final(self).best_length == if final_length > old(self).best_length {
                final_length
            } else {
                old(self).best_length
            },
    {
        self.games += 1;
        self.total_final_length += final_length as u64;
        self.best_score = if score > self.best_score { score } else { self.best_score };
        self.best_length = if final_length > self.best_length {
            final_length
        } else {
            self.best_length
        };
    }
}

} // verus!
