//! Board configuration: grid size, content densities and the number of levels.

use vstd::prelude::*;
use crate::geometry::MAX_GRID_SIZE;
use vstd::arithmetic::div_mod::lemma_div_is_ordered_by_denominator;

verus! {

/// Side of the default square grid.
pub const GRID_SIZE: usize = 6;

/// Default divisor of the room count that gives the number of treasure rooms.
pub const TREASURE_DIVISOR: usize = 10;

/// Default divisor of the room count that gives the number of enemy rooms.
pub const ENEMY_DIVISOR: usize = 5;

/// Default number of levels in a game.
pub const LEVEL_COUNT: usize = 3;

/// What a board is built from.
#[derive(PartialEq, Eq, Structural, Clone, Copy, Debug)]
pub struct Config {
    /// Side of the square grid; coordinates lie in `[0, grid_size)`.
    pub grid_size: usize,
    /// The board holds `max(1, round(rooms / treasure_divisor))` treasure rooms.
    pub treasure_divisor: usize,
    /// The board holds `rooms / enemy_divisor` enemy rooms (integer division).
    pub enemy_divisor: usize,
    /// Number of levels; reaching the goal of the last one ends the game.
    pub level_count: usize,
}

/// Why a configuration cannot produce a board.
#[derive(PartialEq, Eq, Structural, Clone, Copy, Debug)]
pub enum ConfigError {
    /// The grid side exceeds `MAX_GRID_SIZE`.
    GridTooLarge,
    /// A density divisor is zero.
    ZeroDivisor,
    /// The game has no level.
    NoLevels,
    /// The grid has too few rooms for a goal, a start, the treasure and the enemies.
    TooFewRooms,
}

/// `k` is `g^1.5` rounded to the nearest integer: `|k - sqrt(g^3)| < 1/2`.
pub open spec fn rounds_three_halves(g: int, k: int) -> bool {
    &&& k >= 0
    &&& (k == 0 || (2 * k - 1) * (2 * k - 1) <= 4 * (g * g * g))
    &&& 4 * (g * g * g) < (2 * k + 1) * (2 * k + 1)
}

/// Number of rooms on a grid of side `g`: `round(g^1.5)`.
pub open spec fn room_count(g: nat) -> nat {
    (choose|k: nat| rounds_three_halves(g as int, k as int)) as nat
}

/// Number of treasure rooms among `n` rooms: `max(1, round(n / d))`.
pub open spec fn treasure_count(n: nat, d: nat) -> nat
    recommends
        d > 0,
{
    let r = (2 * n + d) / (2 * d);
    if r < 1 { 1 } else { r }
}

/// Number of enemy rooms among `n` rooms: `n / d`.
pub open spec fn enemy_count(n: nat, d: nat) -> nat
    recommends
        d > 0,
{
    n / d
}

/// At most one integer rounds `g^1.5`.
proof fn lemma_rounding_unique(g: int, k1: int, k2: int)
    requires
        g >= 0,
        rounds_three_halves(g, k1),
        rounds_three_halves(g, k2),
    ensures
        k1 == k2,
{
    if k1 < k2 {
        let a = 2 * k1 + 1;
        let b = 2 * k2 - 1;
        assert(a <= b);
        assert(a * a <= b * b) by (nonlinear_arith)
            requires
                0 <= a <= b,
        ;
    } else if k2 < k1 {
        let a = 2 * k2 + 1;
        let b = 2 * k1 - 1;
        assert(a <= b);
        assert(a * a <= b * b) by (nonlinear_arith)
            requires
                0 <= a <= b,
        ;
    }
}

/// The room count is the one value that rounds `g^1.5`.
pub proof fn lemma_room_count(g: nat, k: nat)
    requires
        rounds_three_halves(g as int, k as int),
    ensures
        room_count(g) == k,
{
    let c = choose|c: nat| rounds_three_halves(g as int, c as int);
    lemma_rounding_unique(g as int, c as int, k as int);
}

/// `round(grid_size^1.5)`, the number of rooms on a grid of that side.
pub fn target_count(grid_size: usize) -> (k: usize)
    requires
        grid_size <= MAX_GRID_SIZE,
    ensures
        k == room_count(grid_size as nat),
        k <= grid_size * grid_size,
        k <= MAX_GRID_SIZE * MAX_GRID_SIZE,
{
    let g: u64 = grid_size as u64;
    assert(g * g <= 1024 * 1024) by (nonlinear_arith)
        requires
            g <= 1024,
    ;
    let g2: u64 = g * g;
    assert(g2 * g <= 1024 * 1024 * 1024) by (nonlinear_arith)
        requires
            g <= 1024,
            g2 <= 1024 * 1024,
    ;
    let c: u64 = 4 * (g2 * g);
    let mut k: u64 = 0;
    loop
        invariant_except_break
            c == 4 * (g * g * g),
            c <= 4 * 1024 * 1024 * 1024,
            k <= 32768,
            k == 0 || (2 * k - 1) * (2 * k - 1) <= c,
        ensures
            k == 0 || (2 * k - 1) * (2 * k - 1) <= c,
            c < (2 * k + 1) * (2 * k + 1),
            c == 4 * (g * g * g),
        decreases 32768 - k,
    {
        let s: u64 = 2 * k + 1;
        assert(s * s <= 65537 * 65537) by (nonlinear_arith)
            requires
                s <= 65537,
        ;
        if s * s > c {
            break;
        }
        assert(k < 32768) by (nonlinear_arith)
            requires
                s == 2 * k + 1,
                s * s <= c,
                c <= 4 * 1024 * 1024 * 1024,
        ;
        k = k + 1;
    }
    proof {
        lemma_room_count(grid_size as nat, k as nat);
        let gi = g as int;
        let ki = k as int;
        if ki > gi * gi {
            assert(2 * ki - 1 >= 2 * (gi * gi) + 1);
            assert((2 * ki - 1) * (2 * ki - 1) > 4 * (gi * gi * gi)) by (nonlinear_arith)
                requires
                    2 * ki - 1 >= 2 * (gi * gi) + 1,
                    gi >= 0,
            ;
        }
        assert(gi * gi <= 1024 * 1024) by (nonlinear_arith)
            requires
                0 <= gi <= 1024,
        ;
    }
    k as usize
}

impl Config {
    /// The standard configuration: a 6 by 6 grid, three levels.
    pub open spec fn standard_spec() -> Config {
        Config {
            grid_size: GRID_SIZE,
            treasure_divisor: TREASURE_DIVISOR,
            enemy_divisor: ENEMY_DIVISOR,
            level_count: LEVEL_COUNT,
        }
    }

    /// The standard configuration: a 6 by 6 grid, three levels.
    pub fn standard() -> (c: Config)
        ensures
            c == Config::standard_spec(),
    {
        Config {
            grid_size: GRID_SIZE,
            treasure_divisor: TREASURE_DIVISOR,
            enemy_divisor: ENEMY_DIVISOR,
            level_count: LEVEL_COUNT,
        }
    }

    /// Number of rooms on this grid.
    pub open spec fn rooms(&self) -> nat {
        room_count(self.grid_size as nat)
    }

    /// Number of treasure rooms on this grid.
    pub open spec fn treasures(&self) -> nat {
        treasure_count(self.rooms(), self.treasure_divisor as nat)
    }

    /// Number of enemy rooms on this grid.
    pub open spec fn enemies(&self) -> nat {
        enemy_count(self.rooms(), self.enemy_divisor as nat)
    }

    /// The error that `check` reports, if any, in the order the checks are made.
    pub open spec fn error(&self) -> Option<ConfigError> {
        if self.grid_size > MAX_GRID_SIZE {
            Some(ConfigError::GridTooLarge)
        } else if self.treasure_divisor == 0 || self.enemy_divisor == 0 {
            Some(ConfigError::ZeroDivisor)
        } else if self.level_count == 0 {
            Some(ConfigError::NoLevels)
        } else if 2 + self.treasures() + self.enemies() > self.rooms() {
            Some(ConfigError::TooFewRooms)
        } else {
            None
        }
    }

    /// A configuration from which a board can be built.
    pub open spec fn valid(&self) -> bool {
        self.error().is_none()
    }

    /// Checks that a board can be built from this configuration.
    pub fn check(&self) -> (r: Result<(), ConfigError>)
        ensures
            match r {
                Ok(()) => self.valid(),
                Err(e) => self.error() == Some(e),
            },
    {
        if self.grid_size > MAX_GRID_SIZE {
            return Err(ConfigError::GridTooLarge);
        }
        if self.treasure_divisor == 0 || self.enemy_divisor == 0 {
            return Err(ConfigError::ZeroDivisor);
        }
        if self.level_count == 0 {
            return Err(ConfigError::NoLevels);
        }
        let n = target_count(self.grid_size);
        if 2 + self.treasure_total(n) + self.enemy_total(n) > n {
            return Err(ConfigError::TooFewRooms);
        }
        Ok(())
    }

    /// Number of treasure rooms among `n` rooms.
    pub fn treasure_total(&self, n: usize) -> (r: usize)
        requires
            self.treasure_divisor > 0,
            n <= MAX_GRID_SIZE * MAX_GRID_SIZE,
        ensures
            r == treasure_count(n as nat, self.treasure_divisor as nat),
            r <= 2 * n + 1,
    {
        let d = self.treasure_divisor;
        let r = if d > 2 * n {
            assert((2 * n + d) / (2 * d) == 0) by (nonlinear_arith)
                requires
                    2 * n < d,
            ;
            0
        } else {
            let q = (2 * n + d) / (2 * d);
            proof {
                lemma_div_is_ordered_by_denominator((2 * n + d) as int, 2, (2 * d) as int);
            }
            q
        };
        if r < 1 { 1 } else { r }
    }

    /// Number of enemy rooms among `n` rooms.
    pub fn enemy_total(&self, n: usize) -> (r: usize)
        requires
            self.enemy_divisor > 0,
        ensures
            r == enemy_count(n as nat, self.enemy_divisor as nat),
            r <= n,
    {
        n / self.enemy_divisor
    }
}

} // verus!
