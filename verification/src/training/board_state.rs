//! The board as a reinforcement-learning state: four move actions and a
//! one-hot feature encoding of each cell's tile exponent.

use vstd::prelude::*;

use crate::game::board::{can_move_spec, is_over_spec, Board, Direction, Tile, NUM_TILES};
use crate::game::game_rng::RealGameRng;
use crate::state::{ActionType, StateType};

verus! {

/// Number of one-hot slots per cell: tile exponents above this are folded
/// into the last slot.
pub const SLOTS_PER_TILE: usize = 12;

/// Number of feature values: one-hot slots for each of the sixteen cells.
pub const NUM_FEATURES: usize = NUM_TILES * SLOTS_PER_TILE;

/// The direction with the given dense index.
pub open spec fn dir_of_index(i: int) -> Direction {
    if i == 0 {
        Direction::Up
    } else if i == 1 {
        Direction::Down
    } else if i == 2 {
        Direction::Left
    } else {
        Direction::Right
    }
}

/// Floor of the base-two logarithm.
pub open spec fn log2_floor(v: nat) -> nat
    decreases v,
{
    if v <= 1 {
        0
    } else {
        1 + log2_floor(v / 2)
    }
}

/// A value below `pow2(k)` has a logarithm below `k`.
pub proof fn lemma_log2_bound(v: nat, k: nat)
    requires
        1 <= v,
        v < vstd::arithmetic::power2::pow2(k),
    ensures
        log2_floor(v) < k,
    decreases k,
{
    if k == 0 {
        vstd::arithmetic::power2::lemma2_to64();
        assert(false);
    } else {
        vstd::arithmetic::power2::lemma_pow2_unfold(k);
        if v > 1 {
            lemma_log2_bound(v / 2, (k - 1) as nat);
        }
    }
}

/// The one-hot feature at position `i` of the flattened encoding: feature
/// `12 * cell + slot` is one exactly when the cell holds a positive value
/// whose (clipped) tile exponent is `slot`.
pub open spec fn feature_bit(t: Seq<Tile>, i: int) -> u32 {
    let cell = i / 12;
    let slot = i % 12;
    match t[cell] {
        Tile::Empty => 0u32,
        Tile::Value(v) => {
            if v >= 1 && (if log2_floor(v as nat) > 11 {
                11int
            } else {
                log2_floor(v as nat) as int
            }) == slot {
                1u32
            } else {
                0u32
            }
        },
    }
}

/// The flattened feature encoding of a board.
pub open spec fn board_features(t: Seq<Tile>) -> Seq<u32> {
    Seq::new(192, |i: int| feature_bit(t, i))
}

/// Floor of the base-two logarithm.
pub(crate) fn log2_floor_exec(v: u32) -> (r: u32)
    requires
        v >= 1,
    ensures
        r as nat == log2_floor(v as nat),
        r <= 31,
{
    let mut x: u32 = v;
    let mut r: u32 = 0;
    proof {
        vstd::arithmetic::power2::lemma2_to64();
        lemma_log2_bound(v as nat, 32);
    }
    while x > 1
        invariant
            x >= 1,
            log2_floor(v as nat) == r + log2_floor(x as nat),
            r <= log2_floor(v as nat),
            log2_floor(v as nat) <= 31,
        decreases x,
    {
        x = x / 2;
        r = r + 1;
    }
    r
}

impl ActionType for Direction {
    open spec fn index_spec(&self) -> int {
        match self {
            Direction::Up => 0,
            Direction::Down => 1,
            Direction::Left => 2,
            Direction::Right => 3,
        }
    }

    fn index(&self) -> (i: usize)
        ensures
            i as int == self.index_spec(),
    {
        match self {
            Direction::Up => 0,
            Direction::Down => 1,
            Direction::Left => 2,
            Direction::Right => 3,
        }
    }

    fn dup(&self) -> (a: Direction)
        ensures
            a.index_spec() == self.index_spec(),
    {
        *self
    }
}

impl StateType for Board<RealGameRng> {
    type Action = Direction;

    open spec fn num_actions_spec() -> int {
        4
    }

    open spec fn num_features_spec() -> int {
        192
    }

    open spec fn is_terminal_spec(&self) -> bool {
        is_over_spec(self@)
    }

    open spec fn action_allowed(&self, idx: int) -> bool {
        0 <= idx < 4 && can_move_spec(self@, dir_of_index(idx))
    }

    open spec fn features_spec(&self) -> Seq<u32> {
        board_features(self@)
    }

    fn num_actions() -> (n: usize)
        ensures
            n as int == Self::num_actions_spec(),
    {
        4
    }

    fn num_features() -> (n: usize)
        ensures
            n as int == Self::num_features_spec(),
    {
        NUM_FEATURES
    }

    fn initial_state() -> Board<RealGameRng> {
        Board::new()
    }

    fn possible_actions(&self) -> (acts: Vec<Direction>)
        ensures
            forall|k: int|
                0 <= k < acts@.len() ==> 0 <= (#[trigger] acts@[k].index_spec())
                    < Self::num_actions_spec(),
            forall|i: int|
                0 <= i < Self::num_actions_spec() ==> ((#[trigger] self.action_allowed(i))
                    <==> (exists|k: int|
                    0 <= k < acts@.len() && (#[trigger] acts@[k].index_spec()) == i)),
            forall|k1: int, k2: int|
                0 <= k1 < k2 < acts@.len() ==> (#[trigger] acts@[k1].index_spec()) < (
                #[trigger] acts@[k2].index_spec()),
    {
        let mut acts: Vec<Direction> = Vec::new();
        let up = self.can_move_up();
        let down = self.can_move_down();
        let left = self.can_move_left();
        let right = self.can_move_right();
        if up {
            acts.push(Direction::Up);
        }
        if down {
            acts.push(Direction::Down);
        }
        if left {
            acts.push(Direction::Left);
        }
        if right {
            acts.push(Direction::Right);
        }
        proof {
            let a = acts@;
            assert forall|i: int| 0 <= i < 4 implies ((#[trigger] self.action_allowed(i)) <==> (
            exists|k: int| 0 <= k < a.len() && (#[trigger] a[k].index_spec()) == i)) by {
                if self.action_allowed(i) {
                    if i == 0 {
                        assert(a[0] == Direction::Up);
                        assert(a[0].index_spec() == 0);
                    } else if i == 1 {
                        let w: int = if up {
                            1int
                        } else {
                            0int
                        };
                        assert(a[w] == Direction::Down);
                        assert(a[w].index_spec() == 1);
                    } else if i == 2 {
                        let w: int = (if up {
                            1int
                        } else {
                            0int
                        }) + (if down {
                            1int
                        } else {
                            0int
                        });
                        assert(a[w] == Direction::Left);
                        assert(a[w].index_spec() == 2);
                    } else {
                        let w: int = (if up {
                            1int
                        } else {
                            0int
                        }) + (if down {
                            1int
                        } else {
                            0int
                        }) + (if left {
                            1int
                        } else {
                            0int
                        });
                        assert(a[w] == Direction::Right);
                        assert(a[w].index_spec() == 3);
                    }
                }
                if exists|k: int| 0 <= k < a.len() && (#[trigger] a[k].index_spec()) == i {
                    let k = choose|k: int| 0 <= k < a.len() && (#[trigger] a[k].index_spec()) == i;
                    assert(self.action_allowed(a[k].index_spec()));
                }
            }
            assert forall|k1: int, k2: int| 0 <= k1 < k2 < a.len() implies (
            #[trigger] a[k1].index_spec()) < (#[trigger] a[k2].index_spec()) by {}
        }
        acts
    }

    fn advance(&self, action: &Direction) -> Board<RealGameRng> {
        let mut board = self.duplicate();
        match action {
            Direction::Up => board.move_up(),
            Direction::Down => board.move_down(),
            Direction::Left => board.move_left(),
            Direction::Right => board.move_right(),
        }
        board
    }

    fn is_terminal(&self) -> (t: bool)
        ensures
            t == self.is_terminal_spec(),
    {
        self.is_over()
    }

    fn as_features(&self) -> (f: Vec<u32>)
        ensures
            f@ == self.features_spec(),
            f@.len() == Self::num_features_spec(),
    {
        let cells = self.tiles();
        let mut f: Vec<u32> = Vec::new();
        let mut cell: usize = 0;
        while cell < 16
            invariant
                cells@.len() == 16,
                cells@ == self@,
                cell <= 16,
                f@.len() == 12 * cell,
                forall|j: int| 0 <= j < f@.len() ==> (#[trigger] f@[j]) == feature_bit(self@, j),
            decreases 16 - cell,
        {
            let hot: Option<u32> = match cells[cell] {
                Tile::Empty => None,
                Tile::Value(v) => {
                    if v >= 1 {
                        let lg = log2_floor_exec(v);
                        Some(if lg > 11 {
                            11
                        } else {
                            lg
                        })
                    } else {
                        None
                    }
                },
            };
            let mut slot: usize = 0;
            while slot < 12
                invariant
                    cells@.len() == 16,
                    cells@ == self@,
                    cell < 16,
                    slot <= 12,
                    f@.len() == 12 * cell + slot,
                    forall|j: int|
                        0 <= j < f@.len() ==> (#[trigger] f@[j]) == feature_bit(self@, j),
                    hot == (match self@[cell as int] {
                        Tile::Empty => Option::<u32>::None,
                        Tile::Value(v) => {
                            if v >= 1 {
                                Option::<u32>::Some(
                                    if log2_floor(v as nat) > 11 {
                                        11u32
                                    } else {
                                        log2_floor(v as nat) as u32
                                    },
                                )
                            } else {
                                Option::<u32>::None
                            }
                        },
                    }),
                decreases 12 - slot,
            {
                let bit: u32 = match hot {
                    Some(h) => {
                        if h as usize == slot {
                            1
                        } else {
                            0
                        }
                    },
                    None => 0,
                };
                proof {
                    let j = 12 * cell as int + slot as int;
                    assert(j / 12 == cell as int && j % 12 == slot as int) by (nonlinear_arith)
                        requires
                            0 <= cell < 16,
                            0 <= slot < 12,
                            j == 12 * cell as int + slot as int,
                    ;
                    assert(bit == feature_bit(self@, j));
                }
                f.push(bit);
                slot = slot + 1;
            }
            cell = cell + 1;
        }
        proof {
            assert(f@ =~= board_features(self@));
        }
        f
    }

    fn duplicate(&self) -> (s: Board<RealGameRng>)
        ensures
            s.is_terminal_spec() == self.is_terminal_spec(),
            s.features_spec() == self.features_spec(),
            forall|i: int| (#[trigger] s.action_allowed(i)) == self.action_allowed(i),
    {
        Board::duplicate(self)
    }
}

} // verus!
