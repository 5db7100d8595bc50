//! Board configuration: the size and mine count of one round, and the
//! difficulty presets a configuration file describes.

use vstd::prelude::*;

verus! {

/// The immutable configuration of one round.
#[derive(Clone, Copy)]
pub struct BoardInfo {
    pub board_size: usize,
    pub num_mines: usize,
}

impl BoardInfo {
    /// A usable configuration: a positive board size small enough that the
    /// cell count fits comfortably in `usize`, and fewer mines than cells.
    pub open spec fn valid(self) -> bool {
        &&& 1 <= self.board_size <= 46340
        &&& self.num_mines < self.board_size * self.board_size
    }

    /// Executable validity check, for callers that obtain a configuration
    /// from the outside.
    pub fn is_valid(&self) -> (r: bool)
        ensures
            r == self.valid(),
    {
        if self.board_size < 1 || self.board_size > 46340 {
            return false;
        }
        proof {
            assert(self.board_size * self.board_size <= 46340 * 46340) by (nonlinear_arith)
                requires
                    1 <= self.board_size <= 46340,
            ;
        }
        let total = self.board_size * self.board_size;
        self.num_mines < total
    }
}

/// One difficulty preset from the configuration file.
pub struct GameMode {
    pub name: String,
    pub board_size: u32,
    pub num_mines: u32,
    pub index: u32,
}

/// The set of difficulty presets.
pub struct Config {
    pub game_modes: Vec<GameMode>,
}

impl Config {
    /// The largest preset index, or zero when there are no presets.
    pub fn max_index(&self) -> (r: u32)
        ensures
            forall|i: int| 0 <= i < self.game_modes@.len() ==> (#[trigger] self.game_modes@[i]).index <= r,
            self.game_modes@.len() > 0 ==> exists|i: int|
                0 <= i < self.game_modes@.len() && (#[trigger] self.game_modes@[i]).index == r,
            self.game_modes@.len() == 0 ==> r == 0,
    {
        let mut best: u32 = 0;
        let mut found: bool = false;
        let mut k: usize = 0;
        while k < self.game_modes.len()
            invariant
                0 <= k <= self.game_modes@.len(),
                forall|i: int| 0 <= i < k ==> (#[trigger] self.game_modes@[i]).index <= best,
                found <==> k > 0,
                found ==> exists|i: int|
                    0 <= i < k && (#[trigger] self.game_modes@[i]).index == best,
                !found ==> best == 0,
            decreases self.game_modes@.len() - k,
        {
            let idx = self.game_modes[k].index;
            if !found || idx > best {
                best = idx;
                found = true;
            }
            k = k + 1;
        }
        best
    }

    /// The board configuration of the first preset whose index is `index`,
    /// or `None` when no preset has that index.
    pub fn find_mode(&self, index: u32) -> (r: Option<BoardInfo>)
        ensures
            match r {
                Some(bi) => exists|i: int|
                    {
                        &&& 0 <= i < self.game_modes@.len()
                        &&& (#[trigger] self.game_modes@[i]).index == index
                        &&& forall|j: int|
                            0 <= j < i ==> (#[trigger] self.game_modes@[j]).index != index
                        &&& bi.board_size == self.game_modes@[i].board_size as usize
                        &&& bi.num_mines == self.game_modes@[i].num_mines as usize
                    },
                None => forall|i: int|
                    0 <= i < self.game_modes@.len() ==> (#[trigger] self.game_modes@[i]).index
                        != index,
            },
    {
        let mut k: usize = 0;
        while k < self.game_modes.len()
            invariant
                0 <= k <= self.game_modes@.len(),
                forall|j: int| 0 <= j < k ==> (#[trigger] self.game_modes@[j]).index != index,
            decreases self.game_modes@.len() - k,
        {
            if self.game_modes[k].index == index {
                let r = BoardInfo {
                    board_size: self.game_modes[k].board_size as usize,
                    num_mines: self.game_modes[k].num_mines as usize,
                };
                return Some(r);
            }
            k = k + 1;
        }
        None
    }
}

} // verus!
