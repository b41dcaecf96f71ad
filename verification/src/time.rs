//! Time allocation from UCI clock information.
use vstd::prelude::*;
use crate::nnue::tdiv;
use crate::types::Color;

verus! {

/// The clocks and increments of both sides, moves to the next time control, and
/// the overhead to keep in reserve per move.
#[derive(Copy, Clone)]
pub struct TimeControl {
    pub wtime: i64,
    pub btime: i64,
    pub winc: i64,
    pub binc: i64,
    pub movestogo: i32,
    pub move_overhead_ms: i64,
}

impl Default for TimeControl {
    fn default() -> (t: Self)
        ensures
            t.wtime == 0 && t.btime == 0 && t.winc == 0 && t.binc == 0 && t.movestogo == 0
                && t.move_overhead_ms == 0,
    {
        TimeControl { wtime: 0, btime: 0, winc: 0, binc: 0, movestogo: 0, move_overhead_ms: 0 }
    }
}

/// The soft and hard budgets (in milliseconds, as signed numbers) for the side
/// `turn`: with no time left, 10 and 50; else, with `t` the time left after the
/// overhead (at least 10 ms kept back, at least 10 ms left) and `i` the increment,
/// `t / (movestogo + 2) + i` and the smaller of `t` and four times that when the
/// moves to go are known, else `t / 20 + i / 2` and the smaller of `t / 4` and
/// five times that; sums and products wrap at 64 bits.
pub open spec fn budgets(tc: TimeControl, turn: Color) -> (i64, i64) {
    let (time, inc) = if turn == Color::White {
        (tc.wtime, tc.winc)
    } else {
        (tc.btime, tc.binc)
    };
    if time <= 0 {
        (10, 50)
    } else {
        let overhead: i64 = if tc.move_overhead_ms > 10 { tc.move_overhead_ms } else { 10 };
        let time_left: i64 = if time - overhead > 10 { (time - overhead) as i64 } else { 10 };
        if tc.movestogo > 0 {
            let soft = vstd::wrapping::i64_specs::wrapping_add((time_left as int / (tc.movestogo as int + 2)) as i64, inc);
            let soft4 = vstd::wrapping::i64_specs::wrapping_mul(soft, 4);
            (soft, if time_left < soft4 { time_left } else { soft4 })
        } else {
            let soft = (time_left as int / 20 + tdiv(inc as int, 2)) as i64;
            let soft5 = vstd::wrapping::i64_specs::wrapping_mul(soft, 5);
            (soft, if time_left as int / 4 < soft5 { (time_left as int / 4) as i64 } else { soft5 })
        }
    }
}

impl TimeControl {
    /// The soft and hard time budgets of the side `turn`, in milliseconds (negative
    /// budgets wrap, as a cast to `u64` does).
    pub fn allocation_ms(&self, turn: Color) -> (r: (u64, u64))
        ensures
            r == (budgets(*self, turn).0 as u64, budgets(*self, turn).1 as u64),
    {
        let (time, inc) = if turn == Color::White {
            (self.wtime, self.winc)
        } else {
            (self.btime, self.binc)
        };
        if time <= 0 {
            return (10, 50);
        }
        let overhead = if self.move_overhead_ms > 10 {
            self.move_overhead_ms
        } else {
            10
        };
        let time_left = if time - overhead > 10 {
            time - overhead
        } else {
            10
        };
        if self.movestogo > 0 {
            let moves = self.movestogo as i64;
            let time_slice = time_left / (moves + 2);
            let soft = time_slice.wrapping_add(inc);
            let soft4 = soft.wrapping_mul(4);
            let hard = if time_left < soft4 {
                time_left
            } else {
                soft4
            };
            return (soft as u64, hard as u64);
        }
        let soft = (time_left / 20) + (inc / 2);
        let soft5 = soft.wrapping_mul(5);
        let hard = if time_left / 4 < soft5 {
            time_left / 4
        } else {
            soft5
        };
        (soft as u64, hard as u64)
    }
}

} // verus!
