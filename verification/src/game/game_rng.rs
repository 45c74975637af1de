//! Sources of the randomness the board needs: the value and the position
//! of each newly placed tile.

use vstd::prelude::*;

use crate::game::board::NUM_TILES;
use crate::random::{random_decile, random_index_below};

verus! {

/// The value a new tile takes for a given decile draw: a four on a zero
/// draw (one chance in ten), otherwise a two.
pub open spec fn spawn_value(draw: u32) -> u32 {
    if draw == 0 {
        4u32
    } else {
        2u32
    }
}

/// Turns one decile draw into the new tile's value.
pub fn tile_value_for(draw: u32) -> (v: u32)
    ensures
        v == spawn_value(draw),
        v == 2 || v == 4,
{
    if draw == 0 {
        4
    } else {
        2
    }
}

/// A source of new-tile draws. The fake implementation makes board
/// behaviour reproducible in tests.
pub trait GameRng: Sized {
    /// Which values this source can hand out as new tiles.
    spec fn value_ok(&self, v: u32) -> bool;

    /// The value of the next tile to place.
    fn new_tile_value(&self) -> (v: u32)
        ensures
            self.value_ok(v),
    ;

    /// The preferred slot for the next tile.
    fn new_tile_position(&self) -> (p: usize)
        ensures
            p < NUM_TILES,
    ;

    /// A fresh source of the same kind, for derived boards.
    fn fresh() -> Self;
}

/// The real source: draws from the process-wide generator.
#[derive(Clone, Debug)]
pub struct RealGameRng {}

impl RealGameRng {
    /// A fresh real source.
    pub fn new() -> RealGameRng {
        RealGameRng {  }
    }
}

impl Default for RealGameRng {
    fn default() -> RealGameRng {
        RealGameRng {  }
    }
}

impl GameRng for RealGameRng {
    /// The real source spawns only twos and fours.
    open spec fn value_ok(&self, v: u32) -> bool {
        v == 2 || v == 4
    }

    fn new_tile_value(&self) -> (v: u32)
        ensures
            self.value_ok(v),
    {
        tile_value_for(random_decile())
    }

    fn new_tile_position(&self) -> (p: usize)
        ensures
            p < NUM_TILES,
    {
        random_index_below(NUM_TILES)
    }

    fn fresh() -> RealGameRng {
        RealGameRng {  }
    }
}

/// A fixed source for tests: always the same value and the same preferred
/// slot.
#[derive(Debug)]
pub struct FakeGameRng {
    tile_value: u32,
    tile_position: usize,
}

impl FakeGameRng {
    /// A source that always answers with the given value and slot.
    pub fn new(tile_value: u32, tile_position: usize) -> FakeGameRng {
        FakeGameRng { tile_value, tile_position }
    }
}

impl Default for FakeGameRng {
    fn default() -> FakeGameRng {
        FakeGameRng { tile_value: 2, tile_position: 0 }
    }
}

impl GameRng for FakeGameRng {
    /// The fake source spawns exactly its configured value.
    closed spec fn value_ok(&self, v: u32) -> bool {
        v == self.tile_value
    }

    fn new_tile_value(&self) -> (v: u32)
        ensures
            self.value_ok(v),
    {
        self.tile_value
    }

    fn new_tile_position(&self) -> (p: usize)
        ensures
            p < NUM_TILES,
    {
        self.tile_position % NUM_TILES
    }

    fn fresh() -> FakeGameRng {
        FakeGameRng { tile_value: 2, tile_position: 0 }
    }
}

} // verus!
