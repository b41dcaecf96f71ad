//! The bookkeeping of a match between two engines: engine options, who plays
//! white, and the running score with its breakdowns.
use vstd::prelude::*;
use vstd::string::StringExecFns;
use crate::game_runner::{GameEndReason, GameOutcome, GameResult};
use crate::text::{chars_of, eq_ignore_ascii_case, eq_ignore_case, string_from_chars, trim, trim_chars};

verus! {

/// What a match needs: the two engines and their options, the clock, the number of
/// games, how many run at once, and the position to start from.
pub struct TournamentConfig {
    pub engine1_path: String,
    pub engine2_path: String,
    pub e1_options: Vec<(String, String)>,
    pub e2_options: Vec<(String, String)>,
    pub base_time_ms: u64,
    pub increment_ms: u64,
    pub rounds: usize,
    pub concurrency: usize,
    pub start_fen: Option<String>,
}

/// `k` is the first index of `c` in `s`.
pub open spec fn first_index(s: Seq<char>, c: char, k: int) -> bool {
    0 <= k < s.len() && s[k] == c && forall|j: int| 0 <= j < k ==> s[j] != c
}

/// The message for an option without `=`.
pub open spec fn option_error(s: Seq<char>) -> Seq<char> {
    "Invalid option '"@ + s + "', expected Name=Value"@
}

fn push_all(out: &mut Vec<char>, s: &Vec<char>)
    ensures
        final(out)@ == old(out)@ + s@,
{
    let mut i: usize = 0;
    let ghost o = out@;
    while i < s.len()
        invariant
            i <= s@.len(),
            out@ == o + s@.take(i as int),
        decreases s@.len() - i,
    {
        out.push(s[i]);
        proof {
            assert(out@ =~= o + s@.take(i + 1));
        }
        i = i + 1;
    }
    proof {
        assert(s@.take(s@.len() as int) =~= s@);
    }
}

/// Reads an engine option `Name=Value`: split at the first `=`, both sides
/// trimmed; an error message when there is no `=`.
pub fn parse_option(s: &str) -> (r: Result<(String, String), String>)
    ensures
        match r {
            Ok((name, value)) => exists|k: int| first_index(s@, '=', k) && name@ == trim(s@.take(k)) && value@
                == trim(s@.skip(k + 1)),
            Err(e) => !s@.contains('=') && e@ == option_error(s@),
        },
{
    let c = chars_of(s);
    let mut i: usize = 0;
    while i < c.len()
        invariant
            i <= c@.len(),
            c@ == s@,
            forall|j: int| 0 <= j < i ==> c@[j] != '=',
        decreases c@.len() - i,
    {
        if c[i] == '=' {
            let mut name: Vec<char> = Vec::new();
            let mut value: Vec<char> = Vec::new();
            let mut j: usize = 0;
            while j < c.len()
                invariant
                    j <= c@.len(),
                    i < c@.len(),
                    name@ == c@.take(if j < i { j as int } else { i as int }),
                    value@ == (if j <= i { Seq::<char>::empty() } else { c@.subrange(i + 1, j as int) }),
                decreases c@.len() - j,
            {
                if j < i {
                    name.push(c[j]);
                    proof {
                        assert(name@ =~= c@.take(j + 1));
                    }
                } else if j > i {
                    value.push(c[j]);
                    proof {
                        assert(value@ =~= c@.subrange(i + 1, j + 1));
                    }
                } else {
                    proof {
                        assert(c@.subrange(i + 1, i + 1) =~= Seq::<char>::empty());
                    }
                }
                j = j + 1;
            }
            proof {
                assert(c@.subrange(i + 1, c@.len() as int) =~= c@.skip(i + 1));
                assert(first_index(s@, '=', i as int));
            }
            let n = trim_chars(&name);
            let v = trim_chars(&value);
            return Ok((string_from_chars(&n), string_from_chars(&v)));
        }
        i = i + 1;
    }
    let mut msg = chars_of("Invalid option '");
    push_all(&mut msg, &c);
    push_all(&mut msg, &chars_of("', expected Name=Value"));
    proof {
        assert forall|j: int| 0 <= j < s@.len() implies s@[j] != '=' by {
            assert(c@[j] != '=');
        }
    }
    Err(string_from_chars(&msg))
}

/// The text after the last `/` of `s` (all of it when there is none).
pub open spec fn last_segment(s: Seq<char>) -> Seq<char> {
    if s.contains('/') {
        let k = choose|k: int| 0 <= k < s.len() && s[k] == '/' && forall|j: int| k < j < s.len() ==> s[j] != '/';
        s.skip(k + 1)
    } else {
        s
    }
}

/// The name an engine goes by: its path after the last `/`.
pub fn engine_name(path: &str) -> (r: String)
    ensures
        r@ == last_segment(path@),
{
    let c = chars_of(path);
    let mut i: usize = c.len();
    while i > 0
        invariant
            i <= c@.len(),
            c@ == path@,
            forall|j: int| i <= j < c@.len() ==> c@[j] != '/',
        decreases i,
    {
        if c[i - 1] == '/' {
            let mut out: Vec<char> = Vec::new();
            let mut j = i;
            while j < c.len()
                invariant
                    i <= j <= c@.len(),
                    out@ == c@.subrange(i as int, j as int),
                decreases c@.len() - j,
            {
                out.push(c[j]);
                proof {
                    assert(out@ =~= c@.subrange(i as int, j + 1));
                }
                j = j + 1;
            }
            proof {
                let k0 = i - 1;
                assert(path@.contains('/')) by {
                    assert(path@[k0 as int] == '/');
                }
                let k = choose|k: int| 0 <= k < path@.len() && path@[k] == '/' && forall|j: int| k < j < path@.len() ==> path@[j] != '/';
                assert(k == k0) by {
                    if k < k0 {
                        assert(path@[k0 as int] != '/');
                    } else if k > k0 {
                        assert(path@[k] != '/');
                    }
                }
                assert(out@ =~= path@.skip(i as int));
            }
            return string_from_chars(&out);
        }
        i = i - 1;
    }
    proof {
        assert(!path@.contains('/'));
    }
    string_from_chars(&c)
}

/// No option of the list is named `Threads` (in any ASCII case): the engine is then
/// told to use one thread.
pub fn needs_single_thread(options: &Vec<(String, String)>) -> (r: bool)
    ensures
        r == forall|i: int| 0 <= i < options@.len() ==> !eq_ignore_case(#[trigger] options@[i].0@, "Threads"@),
{
    let w = chars_of("Threads");
    let mut i: usize = 0;
    while i < options.len()
        invariant
            i <= options@.len(),
            w@ == "Threads"@,
            forall|k: int| 0 <= k < i ==> !eq_ignore_case(#[trigger] options@[k].0@, "Threads"@),
        decreases options@.len() - i,
    {
        let k = chars_of(options[i].0.as_str());
        if eq_ignore_ascii_case(&k, &w) {
            return false;
        }
        i = i + 1;
    }
    true
}

/// Engine 1 has white in the even-numbered games (counting from 0).
pub fn e1_plays_white(game_idx: usize) -> (r: bool)
    ensures
        r == (game_idx % 2 == 0),
{
    game_idx % 2 == 0
}

/// The result in the usual notation.
pub open spec fn result_spec(r: GameResult) -> Seq<char> {
    match r {
        GameResult::WhiteWin => "1-0"@,
        GameResult::BlackWin => "0-1"@,
        GameResult::Draw => "1/2-1/2"@,
    }
}

pub fn result_text(r: GameResult) -> (s: String)
    ensures
        s@ == result_spec(r),
{
    match r {
        GameResult::WhiteWin => String::from_str("1-0"),
        GameResult::BlackWin => String::from_str("0-1"),
        GameResult::Draw => String::from_str("1/2-1/2"),
    }
}

/// Whether engine 1 and engine 2 won a game with result `r`.
pub open spec fn winners(r: GameResult, e1_is_white: bool) -> (bool, bool) {
    match r {
        GameResult::WhiteWin => (e1_is_white, !e1_is_white),
        GameResult::BlackWin => (!e1_is_white, e1_is_white),
        GameResult::Draw => (false, false),
    }
}

/// The running score of a match, from engine 1's side: wins, losses and draws,
/// split by the colour engine 1 had; the reasons games ended; game lengths in plies
/// (the shortest is `usize::MAX` before the first game).
#[derive(Copy, Clone)]
pub struct Score {
    pub e1_wins: usize,
    pub e2_wins: usize,
    pub draws: usize,
    pub completed: usize,
    pub e1_wins_as_white: usize,
    pub e1_wins_as_black: usize,
    pub e2_wins_as_white: usize,
    pub e2_wins_as_black: usize,
    pub draws_e1_white: usize,
    pub draws_e1_black: usize,
    pub checkmates: usize,
    pub stalemates: usize,
    pub repetitions: usize,
    pub fifty_move: usize,
    pub flag_falls: usize,
    pub move_limits: usize,
    pub illegal_moves: usize,
    pub crashes: usize,
    pub total_plies: usize,
    pub shortest_game: usize,
    pub longest_game: usize,
}

pub open spec fn one(b: bool) -> int {
    if b {
        1
    } else {
        0
    }
}

/// The score after one more game.
pub open spec fn recorded(s: Score, o: GameOutcome, e1_is_white: bool) -> Score {
    let (e1_win, e2_win) = winners(o.result, e1_is_white);
    let draw = !e1_win && !e2_win;
    Score {
        e1_wins: (s.e1_wins + one(e1_win)) as usize,
        e2_wins: (s.e2_wins + one(e2_win)) as usize,
        draws: (s.draws + one(draw)) as usize,
        completed: (s.completed + 1) as usize,
        e1_wins_as_white: (s.e1_wins_as_white + one(e1_is_white && e1_win)) as usize,
        e1_wins_as_black: (s.e1_wins_as_black + one(!e1_is_white && e1_win)) as usize,
        e2_wins_as_white: (s.e2_wins_as_white + one(e1_is_white && e2_win)) as usize,
        e2_wins_as_black: (s.e2_wins_as_black + one(!e1_is_white && e2_win)) as usize,
        draws_e1_white: (s.draws_e1_white + one(e1_is_white && draw)) as usize,
        draws_e1_black: (s.draws_e1_black + one(!e1_is_white && draw)) as usize,
        checkmates: (s.checkmates + one(o.reason == GameEndReason::Checkmate)) as usize,
        stalemates: (s.stalemates + one(o.reason == GameEndReason::Stalemate)) as usize,
        repetitions: (s.repetitions + one(o.reason == GameEndReason::Repetition)) as usize,
        fifty_move: (s.fifty_move + one(o.reason == GameEndReason::FiftyMoveRule)) as usize,
        flag_falls: (s.flag_falls + one(o.reason == GameEndReason::FlagFall)) as usize,
        move_limits: (s.move_limits + one(o.reason == GameEndReason::MoveLimitExceeded)) as usize,
        illegal_moves: (s.illegal_moves + one(o.reason == GameEndReason::IllegalMove)) as usize,
        crashes: (s.crashes + one(o.reason == GameEndReason::EngineCrash)) as usize,
        total_plies: (s.total_plies + o.move_count) as usize,
        shortest_game: if o.move_count < s.shortest_game { o.move_count } else { s.shortest_game },
        longest_game: if o.move_count > s.longest_game { o.move_count } else { s.longest_game },
    }
}

impl Score {
    /// Every game counted is counted once as a win, loss or draw, once under the
    /// colour engine 1 had, and once under the reason it ended; lengths are in order.
    pub open spec fn wf(&self) -> bool {
        &&& self.e1_wins + self.e2_wins + self.draws == self.completed
        &&& self.e1_wins == self.e1_wins_as_white + self.e1_wins_as_black
        &&& self.e2_wins == self.e2_wins_as_white + self.e2_wins_as_black
        &&& self.draws == self.draws_e1_white + self.draws_e1_black
        &&& self.checkmates + self.stalemates + self.repetitions + self.fifty_move + self.flag_falls
            + self.move_limits + self.illegal_moves + self.crashes == self.completed
        &&& (self.completed == 0 ==> self.shortest_game == usize::MAX && self.longest_game == 0
            && self.total_plies == 0)
        &&& (self.completed > 0 ==> self.shortest_game <= self.longest_game <= self.total_plies)
    }

    /// No game yet.
    pub fn new() -> (s: Score)
        ensures
            s.wf(),
            s.completed == 0,
    {
        Score {
            e1_wins: 0,
            e2_wins: 0,
            draws: 0,
            completed: 0,
            e1_wins_as_white: 0,
            e1_wins_as_black: 0,
            e2_wins_as_white: 0,
            e2_wins_as_black: 0,
            draws_e1_white: 0,
            draws_e1_black: 0,
            checkmates: 0,
            stalemates: 0,
            repetitions: 0,
            fifty_move: 0,
            flag_falls: 0,
            move_limits: 0,
            illegal_moves: 0,
            crashes: 0,
            total_plies: 0,
            shortest_game: usize::MAX,
            longest_game: 0,
        }
    }

    /// Counts one game, whose outcome is `o`, engine 1 having had white or not.
    pub fn record(&mut self, o: GameOutcome, e1_is_white: bool)
        requires
            old(self).wf(),
            old(self).completed < usize::MAX,
            old(self).total_plies + o.move_count <= usize::MAX,
        ensures
            *final(self) == recorded(*old(self), o, e1_is_white),
            final(self).wf(),
    {
        self.count_result(o.result, e1_is_white);
        self.count_reason(o.reason);
        self.count_length(o.move_count);
    }

    fn count_result(&mut self, result: GameResult, e1_is_white: bool)
        requires
            old(self).e1_wins + old(self).e2_wins + old(self).draws == old(self).completed,
            old(self).e1_wins == old(self).e1_wins_as_white + old(self).e1_wins_as_black,
            old(self).e2_wins == old(self).e2_wins_as_white + old(self).e2_wins_as_black,
            old(self).draws == old(self).draws_e1_white + old(self).draws_e1_black,
            old(self).completed < usize::MAX,
        ensures
            ({
                let (e1_win, e2_win) = winners(result, e1_is_white);
                let draw = !e1_win && !e2_win;
                &&& final(self).e1_wins == old(self).e1_wins + one(e1_win)
                &&& final(self).e2_wins == old(self).e2_wins + one(e2_win)
                &&& final(self).draws == old(self).draws + one(draw)
                &&& final(self).completed == old(self).completed + 1
                &&& final(self).e1_wins_as_white == old(self).e1_wins_as_white + one(e1_is_white && e1_win)
                &&& final(self).e1_wins_as_black == old(self).e1_wins_as_black + one(!e1_is_white && e1_win)
                &&& final(self).e2_wins_as_white == old(self).e2_wins_as_white + one(e1_is_white && e2_win)
                &&& final(self).e2_wins_as_black == old(self).e2_wins_as_black + one(!e1_is_white && e2_win)
                &&& final(self).draws_e1_white == old(self).draws_e1_white + one(e1_is_white && draw)
                &&& final(self).draws_e1_black == old(self).draws_e1_black + one(!e1_is_white && draw)
            }),
            final(self).checkmates == old(self).checkmates,
            final(self).stalemates == old(self).stalemates,
            final(self).repetitions == old(self).repetitions,
            final(self).fifty_move == old(self).fifty_move,
            final(self).flag_falls == old(self).flag_falls,
            final(self).move_limits == old(self).move_limits,
            final(self).illegal_moves == old(self).illegal_moves,
            final(self).crashes == old(self).crashes,
            final(self).total_plies == old(self).total_plies,
            final(self).shortest_game == old(self).shortest_game,
            final(self).longest_game == old(self).longest_game,
    {
        let (e1_win, e2_win) = match result {
            GameResult::WhiteWin => (e1_is_white, !e1_is_white),
            GameResult::BlackWin => (!e1_is_white, e1_is_white),
            GameResult::Draw => (false, false),
        };
        if e1_win {
            self.e1_wins = self.e1_wins + 1;
            if e1_is_white {
                self.e1_wins_as_white = self.e1_wins_as_white + 1;
            } else {
                self.e1_wins_as_black = self.e1_wins_as_black + 1;
            }
        } else if e2_win {
            self.e2_wins = self.e2_wins + 1;
            if e1_is_white {
                self.e2_wins_as_white = self.e2_wins_as_white + 1;
            } else {
                self.e2_wins_as_black = self.e2_wins_as_black + 1;
            }
        } else {
            self.draws = self.draws + 1;
            if e1_is_white {
                self.draws_e1_white = self.draws_e1_white + 1;
            } else {
                self.draws_e1_black = self.draws_e1_black + 1;
            }
        }
        self.completed = self.completed + 1;
    }

    fn count_reason(&mut self, reason: GameEndReason)
        requires
            old(self).checkmates + old(self).stalemates + old(self).repetitions + old(self).fifty_move
                + old(self).flag_falls + old(self).move_limits + old(self).illegal_moves + old(self).crashes
                < usize::MAX,
        ensures
            final(self).checkmates == old(self).checkmates + one(reason == GameEndReason::Checkmate),
            final(self).stalemates == old(self).stalemates + one(reason == GameEndReason::Stalemate),
            final(self).repetitions == old(self).repetitions + one(reason == GameEndReason::Repetition),
            final(self).fifty_move == old(self).fifty_move + one(reason == GameEndReason::FiftyMoveRule),
            final(self).flag_falls == old(self).flag_falls + one(reason == GameEndReason::FlagFall),
            final(self).move_limits == old(self).move_limits + one(reason == GameEndReason::MoveLimitExceeded),
            final(self).illegal_moves == old(self).illegal_moves + one(reason == GameEndReason::IllegalMove),
            final(self).crashes == old(self).crashes + one(reason == GameEndReason::EngineCrash),
            final(self).e1_wins == old(self).e1_wins,
            final(self).e2_wins == old(self).e2_wins,
            final(self).draws == old(self).draws,
            final(self).completed == old(self).completed,
            final(self).e1_wins_as_white == old(self).e1_wins_as_white,
            final(self).e1_wins_as_black == old(self).e1_wins_as_black,
            final(self).e2_wins_as_white == old(self).e2_wins_as_white,
            final(self).e2_wins_as_black == old(self).e2_wins_as_black,
            final(self).draws_e1_white == old(self).draws_e1_white,
            final(self).draws_e1_black == old(self).draws_e1_black,
            final(self).total_plies == old(self).total_plies,
            final(self).shortest_game == old(self).shortest_game,
            final(self).longest_game == old(self).longest_game,
    {
        match reason {
            GameEndReason::Checkmate => self.checkmates = self.checkmates + 1,
            GameEndReason::Stalemate => self.stalemates = self.stalemates + 1,
            GameEndReason::Repetition => self.repetitions = self.repetitions + 1,
            GameEndReason::FiftyMoveRule => self.fifty_move = self.fifty_move + 1,
            GameEndReason::FlagFall => self.flag_falls = self.flag_falls + 1,
            GameEndReason::MoveLimitExceeded => self.move_limits = self.move_limits + 1,
            GameEndReason::IllegalMove => self.illegal_moves = self.illegal_moves + 1,
            GameEndReason::EngineCrash => self.crashes = self.crashes + 1,
        }
    }

    fn count_length(&mut self, plies: usize)
        requires
            old(self).total_plies + plies <= usize::MAX,
        ensures
            *final(self) == (Score {
                total_plies: (old(self).total_plies + plies) as usize,
                shortest_game: if plies < old(self).shortest_game { plies } else { old(self).shortest_game },
                longest_game: if plies > old(self).longest_game { plies } else { old(self).longest_game },
                ..*old(self)
            }),
    {
        self.total_plies = self.total_plies + plies;
        if plies < self.shortest_game {
            self.shortest_game = plies;
        }
        if plies > self.longest_game {
            self.longest_game = plies;
        }
    }

    /// Games engine 1 played with white, and with black.
    pub fn games_by_colour(&self) -> (r: (usize, usize))
        requires
            self.wf(),
        ensures
            r.0 == self.e1_wins_as_white + self.e2_wins_as_white + self.draws_e1_white,
            r.1 == self.e1_wins_as_black + self.e2_wins_as_black + self.draws_e1_black,
    {
        (self.e1_wins_as_white + self.e2_wins_as_white + self.draws_e1_white, self.e1_wins_as_black
            + self.e2_wins_as_black + self.draws_e1_black)
    }
}

} // verus!
