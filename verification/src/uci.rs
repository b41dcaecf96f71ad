//! The decisions of the UCI protocol loop: reading commands and their arguments,
//! engine options, time to use for `go`, and the position of `position`.
use vstd::prelude::*;
use crate::board::Board;
use crate::fen::{board_matches, fen_spec, lemma_consistent_congruent};
use crate::makemove::{lemma_generated_is_sane, lemma_make_keeps_consistent};
use crate::movegen::lemma_generated_is_pseudo_legal;
use crate::movepicker::{lemma_legal_same_setup, lemma_same_setup_of};
use crate::search::{made, restored_but_accumulator};
use crate::tt::SharedTransTable;
use crate::makemove::lemma_decoded_is_sane;
use crate::types::{Move, Undo};
use crate::uci_io::{answers, uci_request};
use vstd::string::StringSliceAdditionalSpecFns;
use vstd::utf8::encode_utf8;
use crate::makemove::sane_move;
use crate::text::{
    same_chars,
    chars_of, eq_ignore_ascii_case, eq_ignore_case, i64_of, lower_char, parse_i64, parse_u64,
    split_whitespace, string_from_chars, to_lower, trim, trim_chars, u64_of, views, ws_tokens,
};
use crate::time::{budgets, TimeControl};
use crate::types::{Color, START_FEN};
use crate::uci_io::parse_uci_move;

verus! {

/// The value after the first pair of tokens `key value` (from `i` on) whose value
/// reads as an `i64` and whose key equals `key` up to ASCII case.
pub open spec fn keyed_value(toks: Seq<Seq<char>>, key: Seq<char>, i: int) -> Option<i64>
    decreases toks.len() - i,
{
    if i < 0 || i + 1 >= toks.len() {
        None
    } else if i64_of(toks[i + 1]) is Some && eq_ignore_case(toks[i], key) {
        i64_of(toks[i + 1])
    } else {
        keyed_value(toks, key, i + 1)
    }
}

/// The number after `key` among the white-separated tokens of `cmd`: the first
/// token pair `key n` (key in any ASCII case) whose second token is an `i64`.
pub fn extract_i64(cmd: &str, key: &str) -> (r: Option<i64>)
    ensures
        r == keyed_value(ws_tokens(cmd@), key@, 0),
{
    let c = chars_of(cmd);
    let k = chars_of(key);
    let toks = split_whitespace(&c);
    let ghost t = views(toks@);
    let n = toks.len();
    let mut i: usize = 0;
    while n > 0 && i < n - 1
        invariant
            n == toks@.len(),
            t == views(toks@),
            t == ws_tokens(cmd@),
            k@ == key@,
            i <= n,
            keyed_value(t, key@, i as int) == keyed_value(t, key@, 0),
        decreases n - i,
    {
        let v = parse_i64(&toks[i + 1]);
        assert(toks@[i + 1]@ == t[i + 1]);
        assert(toks@[i as int]@ == t[i as int]);
        if v.is_some() && eq_ignore_ascii_case(&toks[i], &k) {
            return v;
        }
        i = i + 1;
    }
    None
}

/// The first index from `from` at which `pat` occurs in `s`.
pub open spec fn find_from(s: Seq<char>, pat: Seq<char>, from: int) -> Option<int>
    decreases s.len() + 1 - from,
{
    if from < 0 || from + pat.len() > s.len() {
        None
    } else if s.subrange(from, from + pat.len()) == pat {
        Some(from)
    } else {
        find_from(s, pat, from + 1)
    }
}

/// `s` with every leading copy of `pat` removed (`str::trim_start_matches`).
pub open spec fn strip_all(s: Seq<char>, pat: Seq<char>) -> Seq<char>
    decreases s.len(),
{
    if pat.len() > 0 && s.len() >= pat.len() && s.take(pat.len() as int) == pat {
        strip_all(s.skip(pat.len() as int), pat)
    } else {
        s
    }
}

pub open spec fn name_word() -> Seq<char> {
    seq!['n', 'a', 'm', 'e']
}

pub open spec fn value_word() -> Seq<char> {
    seq![' ', 'v', 'a', 'l', 'u', 'e', ' ']
}

/// What `setoption` names: after the first `name`, up to the first ` value ` (in any
/// ASCII case) the name, after it (with leading exact copies of ` value ` removed)
/// the value, both trimmed; no value when there is no ` value `.
pub open spec fn setoption_spec(s: Seq<char>) -> Option<(Seq<char>, Seq<char>)> {
    match find_from(s, name_word(), 0) {
        None => None,
        Some(k) => {
            let after = trim(s.skip(k + 4));
            let low = after.map_values(|c: char| lower_char(c));
            match find_from(low, value_word(), 0) {
                Some(idx) => Some((trim(after.take(idx)), trim(strip_all(after.skip(idx), value_word())))),
                None => Some((trim(after), Seq::empty())),
            }
        },
    }
}

fn find_chars(s: &Vec<char>, pat: &Vec<char>) -> (r: Option<usize>)
    ensures
        match r {
            Some(i) => find_from(s@, pat@, 0) == Some(i as int) && i + pat@.len() <= s@.len(),
            None => find_from(s@, pat@, 0) is None,
        },
{
    let n = s.len();
    let m = pat.len();
    if m > n {
        return None;
    }
    let mut i: usize = 0;
    while i <= n - m
        invariant
            n == s@.len(),
            m == pat@.len(),
            m <= n,
            i <= n,
            find_from(s@, pat@, i as int) == find_from(s@, pat@, 0),
        decreases n - i,
    {
        let mut j: usize = 0;
        let mut same = true;
        while j < m
            invariant
                j <= m,
                i + m <= n,
                n == s@.len(),
                m == pat@.len(),
                same == forall|t: int| 0 <= t < j ==> s@[i + t] == pat@[t],
            decreases m - j,
        {
            if s[i + j] != pat[j] {
                same = false;
            }
            j = j + 1;
        }
        if same {
            proof {
                assert(s@.subrange(i as int, i + m) =~= pat@);
            }
            return Some(i);
        }
        proof {
            let k = choose|t: int| 0 <= t < m && s@[i + t] != pat@[t];
            assert(s@.subrange(i as int, i + m)[k] != pat@[k]);
        }
        i = i + 1;
    }
    None
}

fn skip_chars(s: &Vec<char>, k: usize) -> (r: Vec<char>)
    requires
        k <= s@.len(),
    ensures
        r@ == s@.skip(k as int),
{
    let mut r: Vec<char> = Vec::new();
    let mut i = k;
    while i < s.len()
        invariant
            k <= i <= s@.len(),
            r@ == s@.subrange(k as int, i as int),
        decreases s@.len() - i,
    {
        r.push(s[i]);
        proof {
            assert(r@ =~= s@.subrange(k as int, i + 1));
        }
        i = i + 1;
    }
    proof {
        assert(r@ =~= s@.skip(k as int));
    }
    r
}

fn take_chars(s: &Vec<char>, k: usize) -> (r: Vec<char>)
    requires
        k <= s@.len(),
    ensures
        r@ == s@.take(k as int),
{
    let mut r: Vec<char> = Vec::new();
    let mut i: usize = 0;
    while i < k
        invariant
            i <= k <= s@.len(),
            r@ == s@.take(i as int),
        decreases k - i,
    {
        r.push(s[i]);
        proof {
            assert(r@ =~= s@.take(i + 1));
        }
        i = i + 1;
    }
    r
}

fn word(w: &str) -> (r: Vec<char>)
    ensures
        r@ == w@,
{
    chars_of(w)
}

fn strip_all_exec(s: &Vec<char>, pat: &Vec<char>) -> (r: Vec<char>)
    ensures
        r@ == strip_all(s@, pat@),
    decreases s@.len(),
{
    let m = pat.len();
    if m > 0 && s.len() >= m {
        let head = take_chars(s, m);
        let mut same = true;
        let mut j: usize = 0;
        while j < m
            invariant
                j <= m,
                m == pat@.len(),
                head@.len() == m,
                same == forall|t: int| 0 <= t < j ==> head@[t] == pat@[t],
            decreases m - j,
        {
            if head[j] != pat[j] {
                same = false;
            }
            j = j + 1;
        }
        if same {
            proof {
                assert(head@ =~= pat@);
            }
            let rest = skip_chars(s, m);
            return strip_all_exec(&rest, pat);
        }
        proof {
            let k = choose|t: int| 0 <= t < m && head@[t] != pat@[t];
            assert(s@.take(m as int)[k] != pat@[k]);
        }
    }
    let mut r: Vec<char> = Vec::new();
    let mut i: usize = 0;
    while i < s.len()
        invariant
            i <= s@.len(),
            r@ == s@.take(i as int),
        decreases s@.len() - i,
    {
        r.push(s[i]);
        proof {
            assert(r@ =~= s@.take(i + 1));
        }
        i = i + 1;
    }
    proof {
        assert(r@ =~= s@);
    }
    r
}

/// The name and value of a `setoption` command's arguments; `None` without `name`.
pub fn parse_setoption(rest: &str) -> (r: Option<(String, String)>)
    ensures
        match setoption_spec(rest@) {
            None => r is None,
            Some((n, v)) => r matches Some((a, b)) && a@ == n && b@ == v,
        },
{
    let s = chars_of(rest);
    let name = word("name");
    proof {
        reveal_strlit("name");
        assert(name@ =~= name_word());
    }
    let k = match find_chars(&s, &name) {
        None => {
            return None;
        },
        Some(k) => k,
    };
    assert(name@.len() == 4);
    assert(k + 4 <= s.len());
    let tail = skip_chars(&s, k + 4);
    let after = trim_chars(&tail);
    let mut low: Vec<char> = Vec::new();
    let mut i: usize = 0;
    while i < after.len()
        invariant
            i <= after@.len(),
            low@ == after@.take(i as int).map_values(|c: char| lower_char(c)),
        decreases after@.len() - i,
    {
        low.push(to_lower(after[i]));
        proof {
            assert(low@ =~= after@.take(i + 1).map_values(|c: char| lower_char(c)));
        }
        i = i + 1;
    }
    proof {
        assert(after@.take(after@.len() as int) =~= after@);
    }
    let vw = word(" value ");
    proof {
        reveal_strlit(" value ");
        assert(vw@ =~= value_word());
    }
    match find_chars(&low, &vw) {
        Some(idx) => {
            let n = take_chars(&after, idx);
            let v = skip_chars(&after, idx);
            let n2 = trim_chars(&n);
            let v2 = strip_all_exec(&v, &vw);
            let v3 = trim_chars(&v2);
            Some((string_from_chars(&n2), string_from_chars(&v3)))
        },
        None => {
            let n2 = trim_chars(&after);
            let empty: Vec<char> = Vec::new();
            Some((string_from_chars(&n2), string_from_chars(&empty)))
        },
    }
}


/// What a line of the UCI loop asks for.
#[derive(Copy, Clone, Debug, PartialEq, Eq, Structural)]
pub enum CommandKind {
    Uci,
    IsReady,
    UciNewGame,
    SetOption,
    Position,
    PonderHit,
    Stop,
    Go,
    Quit,
    Unknown,
}

/// `p` begins `s`.
pub open spec fn has_prefix(s: Seq<char>, p: Seq<char>) -> bool {
    p.len() <= s.len() && s.take(p.len() as int) == p
}

/// The command of a trimmed line: the bare words in any ASCII case, `setoption `,
/// `position ` and `go` as exact prefixes, tried in that order.
pub open spec fn command_kind(c: Seq<char>) -> CommandKind {
    if eq_ignore_case(c, "uci"@) {
        CommandKind::Uci
    } else if eq_ignore_case(c, "isready"@) {
        CommandKind::IsReady
    } else if eq_ignore_case(c, "ucinewgame"@) {
        CommandKind::UciNewGame
    } else if has_prefix(c, "setoption "@) {
        CommandKind::SetOption
    } else if has_prefix(c, "position "@) {
        CommandKind::Position
    } else if eq_ignore_case(c, "ponderhit"@) {
        CommandKind::PonderHit
    } else if eq_ignore_case(c, "stop"@) {
        CommandKind::Stop
    } else if has_prefix(c, "go"@) {
        CommandKind::Go
    } else if eq_ignore_case(c, "quit"@) {
        CommandKind::Quit
    } else {
        CommandKind::Unknown
    }
}

/// What follows the prefix of a command that takes arguments; empty for the others.
pub open spec fn command_arg(c: Seq<char>) -> Seq<char> {
    match command_kind(c) {
        CommandKind::SetOption => c.skip("setoption "@.len() as int),
        CommandKind::Position => c.skip("position "@.len() as int),
        CommandKind::Go => c.skip("go"@.len() as int),
        _ => Seq::empty(),
    }
}

/// A command of the UCI loop and the text of its arguments.
pub struct UciCommand {
    pub kind: CommandKind,
    pub arg: String,
}

fn starts_with(s: &Vec<char>, p: &Vec<char>) -> (r: bool)
    ensures
        r == has_prefix(s@, p@),
{
    if p.len() > s.len() {
        return false;
    }
    let mut i: usize = 0;
    while i < p.len()
        invariant
            i <= p@.len() <= s@.len(),
            forall|k: int| 0 <= k < i ==> s@[k] == p@[k],
        decreases p@.len() - i,
    {
        if s[i] != p[i] {
            proof {
                assert(s@.take(p@.len() as int)[i as int] != p@[i as int]);
            }
            return false;
        }
        i = i + 1;
    }
    proof {
        assert(s@.take(p@.len() as int) =~= p@);
    }
    true
}

fn command(kind: CommandKind, c: &Vec<char>, skip: usize) -> (r: UciCommand)
    requires
        skip <= c@.len(),
    ensures
        r.kind == kind,
        r.arg@ == c@.skip(skip as int),
{
    let rest = skip_chars(c, skip);
    UciCommand { kind, arg: string_from_chars(&rest) }
}

/// Reads a line of the UCI loop: trimmed, then matched against the commands.
pub fn parse_command(line: &str) -> (r: UciCommand)
    ensures
        r.kind == command_kind(trim(line@)),
        r.arg@ == command_arg(trim(line@)),
{
    let raw = chars_of(line);
    let c = trim_chars(&raw);
    let n = c.len();
    if eq_ignore_ascii_case(&c, &word("uci")) {
        return command(CommandKind::Uci, &c, n);
    }
    if eq_ignore_ascii_case(&c, &word("isready")) {
        return command(CommandKind::IsReady, &c, n);
    }
    if eq_ignore_ascii_case(&c, &word("ucinewgame")) {
        return command(CommandKind::UciNewGame, &c, n);
    }
    let p = word("setoption ");
    if starts_with(&c, &p) {
        return command(CommandKind::SetOption, &c, p.len());
    }
    let p = word("position ");
    if starts_with(&c, &p) {
        return command(CommandKind::Position, &c, p.len());
    }
    if eq_ignore_ascii_case(&c, &word("ponderhit")) {
        return command(CommandKind::PonderHit, &c, n);
    }
    if eq_ignore_ascii_case(&c, &word("stop")) {
        return command(CommandKind::Stop, &c, n);
    }
    let p = word("go");
    if starts_with(&c, &p) {
        return command(CommandKind::Go, &c, p.len());
    }
    if eq_ignore_ascii_case(&c, &word("quit")) {
        return command(CommandKind::Quit, &c, n);
    }
    command(CommandKind::Unknown, &c, n)
}


/// Some token of `toks` equals `w` up to ASCII case.
pub open spec fn has_token(toks: Seq<Seq<char>>, w: Seq<char>) -> bool {
    exists|i: int| 0 <= i < toks.len() && eq_ignore_case(#[trigger] toks[i], w)
}

pub open spec fn or_zero(v: Option<i64>) -> i64 {
    match v {
        Some(x) => x,
        None => 0,
    }
}

/// The depth asked for: at least 1, 128 when none is given.
pub open spec fn go_depth(v: Option<i64>) -> usize {
    match v {
        Some(d) => (if d < 1 { 1 } else { d }) as usize,
        None => 128,
    }
}

/// The arguments of `go`.
#[derive(Copy, Clone)]
pub struct GoParams {
    pub ponder: bool,
    pub infinite: bool,
    pub depth: usize,
    pub wtime: i64,
    pub btime: i64,
    pub winc: i64,
    pub binc: i64,
    pub movestogo: i32,
    pub movetime: Option<i64>,
}

impl GoParams {
    /// The depth for helper threads: the requested depth, at most 128.
    pub fn helper_depth(&self) -> (r: usize)
        ensures
            r == (if self.depth < 128 { self.depth } else { 128 }),
    {
        if self.depth < 128 {
            self.depth
        } else {
            128
        }
    }
}

fn any_token(toks: &Vec<Vec<char>>, w: &Vec<char>) -> (r: bool)
    ensures
        r == has_token(views(toks@), w@),
{
    let mut i: usize = 0;
    while i < toks.len()
        invariant
            i <= toks@.len(),
            forall|k: int| 0 <= k < i ==> !eq_ignore_case(#[trigger] views(toks@)[k], w@),
        decreases toks@.len() - i,
    {
        if eq_ignore_ascii_case(&toks[i], w) {
            assert(views(toks@)[i as int] == toks@[i as int]@);
            return true;
        }
        assert(views(toks@)[i as int] == toks@[i as int]@);
        i = i + 1;
    }
    false
}

fn i64_or_zero(v: Option<i64>) -> (r: i64)
    ensures
        r == or_zero(v),
{
    match v {
        Some(x) => x,
        None => 0,
    }
}

/// Reads the arguments of `go`: the `ponder` and `infinite` words anywhere (any
/// ASCII case), and the numbers after `depth`, `wtime`, `btime`, `winc`, `binc`,
/// `movestogo` (cut to 32 bits) and `movetime`; a missing clock number is 0.
pub fn parse_go(rest: &str) -> (g: GoParams)
    ensures
        g.ponder == has_token(ws_tokens(rest@), "ponder"@),
        g.infinite == has_token(ws_tokens(rest@), "infinite"@),
        g.depth == go_depth(keyed_value(ws_tokens(rest@), "depth"@, 0)),
        g.wtime == or_zero(keyed_value(ws_tokens(rest@), "wtime"@, 0)),
        g.btime == or_zero(keyed_value(ws_tokens(rest@), "btime"@, 0)),
        g.winc == or_zero(keyed_value(ws_tokens(rest@), "winc"@, 0)),
        g.binc == or_zero(keyed_value(ws_tokens(rest@), "binc"@, 0)),
        g.movestogo == or_zero(keyed_value(ws_tokens(rest@), "movestogo"@, 0)) as i32,
        g.movetime == keyed_value(ws_tokens(rest@), "movetime"@, 0),
{
    let c = chars_of(rest);
    let toks = split_whitespace(&c);
    let ponder = any_token(&toks, &word("ponder"));
    let infinite = any_token(&toks, &word("infinite"));
    let depth: usize = match extract_i64(rest, "depth") {
        Some(d) => if d < 1 {
            1
        } else {
            d as usize
        },
        None => 128,
    };
    let wtime = i64_or_zero(extract_i64(rest, "wtime"));
    let btime = i64_or_zero(extract_i64(rest, "btime"));
    let winc = i64_or_zero(extract_i64(rest, "winc"));
    let binc = i64_or_zero(extract_i64(rest, "binc"));
    let movestogo = i64_or_zero(extract_i64(rest, "movestogo")) as i32;
    let movetime = extract_i64(rest, "movetime");
    GoParams { ponder, infinite, depth, wtime, btime, winc, binc, movestogo, movetime }
}

/// The clock of `tc` with the numbers of `go` written in (the overhead kept).
pub open spec fn clock_after_go(tc: TimeControl, g: GoParams) -> TimeControl {
    TimeControl {
        wtime: g.wtime,
        btime: g.btime,
        winc: g.winc,
        binc: g.binc,
        movestogo: g.movestogo,
        move_overhead_ms: tc.move_overhead_ms,
    }
}

/// The time a `go` may take, in milliseconds: a quarter of `u64::MAX` when pondering
/// or infinite, else the `movetime` (0 when negative), else the soft budget of the
/// side to move; the clock numbers of `go` are written into `tc` first.
pub fn time_to_use(g: &GoParams, tc: &mut TimeControl, turn: Color) -> (r: u64)
    ensures
        *final(tc) == clock_after_go(*old(tc), *g),
        r == (if g.ponder || g.infinite {
            u64::MAX / 4
        } else {
            match g.movetime {
                Some(mt) => if mt < 0 { 0 } else { mt as u64 },
                None => budgets(*final(tc), turn).0 as u64,
            }
        }),
{
    tc.wtime = g.wtime;
    tc.btime = g.btime;
    tc.winc = g.winc;
    tc.binc = g.binc;
    tc.movestogo = g.movestogo;
    if g.ponder || g.infinite {
        u64::MAX / 4
    } else {
        match g.movetime {
            Some(mt) => if mt < 0 {
                0
            } else {
                mt as u64
            },
            None => tc.allocation_ms(turn).0,
        }
    }
}

/// The options the engine offers: hash size in megabytes, threads, pondering.
#[derive(Copy, Clone)]
pub struct UciOptions {
    pub hash_mb: usize,
    pub threads: usize,
    pub ponder: bool,
}

/// The value of `Ponder` is on: `true`, `1` or `on` in any ASCII case.
pub open spec fn ponder_on(v: Seq<char>) -> bool {
    eq_ignore_case(v, "true"@) || eq_ignore_case(v, "1"@) || eq_ignore_case(v, "on"@)
}

/// The options after `setoption name value`, and whether the table must be rebuilt:
/// `Hash` takes a size from 1 to 4096 that differs from the current one (and asks
/// for a rebuild), `Threads` a count from 1 to 128, `Ponder` a switch; names are
/// matched in any ASCII case, and anything else changes nothing.
pub open spec fn options_after(o: UciOptions, name: Seq<char>, value: Seq<char>) -> (UciOptions, bool) {
    if eq_ignore_case(name, "Hash"@) {
        match u64_of(value) {
            Some(n) => if 1 <= n <= 4096 && n != o.hash_mb {
                (UciOptions { hash_mb: n as usize, ..o }, true)
            } else {
                (o, false)
            },
            None => (o, false),
        }
    } else if eq_ignore_case(name, "Threads"@) {
        match u64_of(value) {
            Some(n) => if 1 <= n <= 128 {
                (UciOptions { threads: n as usize, ..o }, false)
            } else {
                (o, false)
            },
            None => (o, false),
        }
    } else if eq_ignore_case(name, "Ponder"@) {
        (UciOptions { ponder: ponder_on(value), ..o }, false)
    } else {
        (o, false)
    }
}

impl UciOptions {
    /// Applies `setoption name <name> value <value>`; true when the hash size changed
    /// and the table must be made anew.
    pub fn set(&mut self, name: &str, value: &str) -> (rebuild: bool)
        ensures
            (*final(self), rebuild) == options_after(*old(self), name@, value@),
    {
        let n = chars_of(name);
        let v = chars_of(value);
        if eq_ignore_ascii_case(&n, &word("Hash")) {
            match parse_u64(&v) {
                Some(size) => {
                    if 1 <= size && size <= 4096 && size != self.hash_mb as u64 {
                        self.hash_mb = size as usize;
                        return true;
                    }
                    false
                },
                None => false,
            }
        } else if eq_ignore_ascii_case(&n, &word("Threads")) {
            match parse_u64(&v) {
                Some(count) => {
                    if 1 <= count && count <= 128 {
                        self.threads = count as usize;
                    }
                    false
                },
                None => false,
            }
        } else if eq_ignore_ascii_case(&n, &word("Ponder")) {
            let on = eq_ignore_ascii_case(&v, &word("true")) || eq_ignore_ascii_case(&v, &word("1"))
                || eq_ignore_ascii_case(&v, &word("on"));
            self.ponder = on;
            false
        } else {
            false
        }
    }
}


/// Where `position` starts from.
#[derive(Copy, Clone, Debug, PartialEq, Eq, Structural)]
pub enum PositionBase {
    Startpos,
    Fen,
    Keep,
}

/// The first index from `i` of a token `moves` (any ASCII case).
pub open spec fn moves_index(toks: Seq<Seq<char>>, i: int) -> Option<int>
    decreases toks.len() - i,
{
    if i < 0 || i >= toks.len() {
        None
    } else if eq_ignore_case(toks[i], "moves"@) {
        Some(i)
    } else {
        moves_index(toks, i + 1)
    }
}

/// The tokens joined with single spaces.
pub open spec fn join_space(toks: Seq<Seq<char>>) -> Seq<char>
    decreases toks.len(),
{
    if toks.len() == 0 {
        Seq::empty()
    } else if toks.len() == 1 {
        toks[0]
    } else {
        join_space(toks.drop_last()) + seq![' '] + toks.last()
    }
}

/// What `position` asks for, from its tokens: `startpos` (then the moves after an
/// exact `moves`), or `fen` with the FEN up to the first `moves` in any case and
/// the moves after it; anything else keeps the board and plays nothing.
pub open spec fn position_request(toks: Seq<Seq<char>>) -> (PositionBase, Seq<char>, Seq<Seq<char>>) {
    if toks.len() > 0 && toks[0] == "startpos"@ {
        (
            PositionBase::Startpos,
            Seq::empty(),
            if toks.len() > 1 && toks[1] == "moves"@ {
                toks.skip(2)
            } else {
                Seq::empty()
            },
        )
    } else if toks.len() > 0 && toks[0] == "fen"@ {
        match moves_index(toks, 0) {
            Some(k) => (PositionBase::Fen, join_space(toks.subrange(1, k)), toks.skip(k + 1)),
            None => (PositionBase::Fen, join_space(toks.skip(1)), Seq::empty()),
        }
    } else {
        (PositionBase::Keep, Seq::empty(), Seq::empty())
    }
}

/// The arguments of `position`: where to start, the FEN text, the moves to play.
pub struct PositionRequest {
    pub base: PositionBase,
    pub fen: String,
    pub moves: Vec<String>,
}

pub open spec fn string_views(v: Seq<String>) -> Seq<Seq<char>> {
    v.map_values(|s: String| s@)
}

fn find_moves(toks: &Vec<Vec<char>>) -> (r: Option<usize>)
    ensures
        match moves_index(views(toks@), 0) {
            Some(k) => r is Some,
            None => r is None,
        },
        r matches Some(k) ==> k < toks@.len() && eq_ignore_case(toks@[k as int]@, "moves"@)
            && moves_index(views(toks@), 0) == Some(k as int),
{
    let w = word("moves");
    let mut i: usize = 0;
    while i < toks.len()
        invariant
            i <= toks@.len(),
            w@ == "moves"@,
            moves_index(views(toks@), i as int) == moves_index(views(toks@), 0),
        decreases toks@.len() - i,
    {
        assert(views(toks@)[i as int] == toks@[i as int]@);
        if eq_ignore_ascii_case(&toks[i], &w) {
            return Some(i);
        }
        i = i + 1;
    }
    None
}

fn join_tokens(toks: &Vec<Vec<char>>, lo: usize, hi: usize) -> (r: Vec<char>)
    requires
        lo <= hi <= toks@.len(),
    ensures
        r@ == join_space(views(toks@).subrange(lo as int, hi as int)),
{
    let ghost t = views(toks@);
    let mut out: Vec<char> = Vec::new();
    let mut i = lo;
    proof {
        assert(t.subrange(lo as int, lo as int) =~= Seq::<Seq<char>>::empty());
    }
    while i < hi
        invariant
            lo <= i <= hi <= toks@.len(),
            t == views(toks@),
            out@ == join_space(t.subrange(lo as int, i as int)),
        decreases hi - i,
    {
        let ghost before = out@;
        if i > lo {
            out.push(' ');
        }
        let tok = &toks[i];
        let mut j: usize = 0;
        let ghost mid = out@;
        while j < tok.len()
            invariant
                j <= tok@.len(),
                out@ == mid + tok@.take(j as int),
            decreases tok@.len() - j,
        {
            out.push(tok[j]);
            proof {
                assert(out@ =~= mid + tok@.take(j + 1));
            }
            j = j + 1;
        }
        proof {
            assert(tok@.take(tok@.len() as int) =~= tok@);
            let s = t.subrange(lo as int, i + 1);
            assert(t[i as int] == tok@);
            assert(s.drop_last() =~= t.subrange(lo as int, i as int));
            assert(s.last() == tok@);
            if i > lo {
                assert(out@ =~= before + seq![' '] + tok@);
            } else {
                assert(s.len() == 1);
                assert(out@ =~= tok@);
            }
        }
        i = i + 1;
    }
    out
}

fn strings_from(toks: &Vec<Vec<char>>, lo: usize) -> (r: Vec<String>)
    requires
        lo <= toks@.len(),
    ensures
        string_views(r@) == views(toks@).skip(lo as int),
{
    let mut r: Vec<String> = Vec::new();
    let mut i = lo;
    while i < toks.len()
        invariant
            lo <= i <= toks@.len(),
            string_views(r@) == views(toks@).subrange(lo as int, i as int),
        decreases toks@.len() - i,
    {
        let s = string_from_chars(&toks[i]);
        let ghost r0 = r@;
        r.push(s);
        proof {
            assert(views(toks@)[i as int] == toks@[i as int]@);
            assert(r@ == r0.push(s));
            assert(string_views(r@) =~= string_views(r0).push(s@));
            assert(string_views(r@) =~= views(toks@).subrange(lo as int, i + 1));
        }
        i = i + 1;
    }
    proof {
        assert(views(toks@).subrange(lo as int, toks@.len() as int) =~= views(toks@).skip(lo as int));
    }
    r
}

/// Reads the arguments of `position`.
pub fn parse_position(rest: &str) -> (r: PositionRequest)
    ensures
        (r.base, r.fen@, string_views(r.moves@)) == position_request(ws_tokens(rest@)),
{
    let c = chars_of(rest);
    let toks = split_whitespace(&c);
    let ghost t = views(toks@);
    let empty: Vec<char> = Vec::new();
    proof {
        reveal_strlit("fen");
        reveal_strlit("moves");
    }
    if toks.len() > 0 && same_chars(&toks[0], &word("startpos")) {
        assert(t[0] == toks@[0]@);
        let moves = if toks.len() > 1 && same_chars(&toks[1], &word("moves")) {
            assert(t[1] == toks@[1]@);
            strings_from(&toks, 2)
        } else {
            proof {
                if toks@.len() > 1 {
                    assert(t[1] == toks@[1]@);
                }
                assert(string_views(Seq::<String>::empty()) =~= Seq::<Seq<char>>::empty());
            }
            Vec::new()
        };
        return PositionRequest { base: PositionBase::Startpos, fen: string_from_chars(&empty), moves };
    }
    proof {
        if toks@.len() > 0 {
            assert(t[0] == toks@[0]@);
        }
    }
    if toks.len() > 0 && same_chars(&toks[0], &word("fen")) {
        match find_moves(&toks) {
            Some(k) => {
                if k == 0 {
                    proof {
                        assert(toks@[0]@ == "fen"@);
                        assert(eq_ignore_case(toks@[0]@, "moves"@));
                        assert(toks@[0]@.len() == 3);
                    }
                    assert(false);
                    return PositionRequest { base: PositionBase::Keep, fen: string_from_chars(&empty), moves: Vec::new() };
                }
                let fen = join_tokens(&toks, 1, k);
                let moves = strings_from(&toks, k + 1);
                return PositionRequest { base: PositionBase::Fen, fen: string_from_chars(&fen), moves };
            },
            None => {
                let fen = join_tokens(&toks, 1, toks.len());
                proof {
                    assert(t.subrange(1, t.len() as int) =~= t.skip(1));
                    assert(string_views(Seq::<String>::empty()) =~= Seq::<Seq<char>>::empty());
                }
                return PositionRequest { base: PositionBase::Fen, fen: string_from_chars(&fen), moves: Vec::new() };
            },
        }
    }
    proof {
        assert(string_views(Seq::<String>::empty()) =~= Seq::<Seq<char>>::empty());
    }
    PositionRequest { base: PositionBase::Keep, fen: string_from_chars(&empty), moves: Vec::new() }
}


/// Reads a move in UCI notation and plays it when it names a legal move of `b`;
/// otherwise the board is left as it was (up to a stale hash, as `parse_uci_move`).
pub fn play_uci_move(b: &mut Board, s: &str) -> (r: Option<Move>)
    requires
        old(b).wf(),
        old(b).consistent(),
        old(b).halfmove_clock < i32::MAX,
        old(b).fullmove_number < i32::MAX,
    ensures
        final(b).wf(),
        final(b).consistent(),
        final(b).model == old(b).model,
        match uci_request(s.spec_bytes()) {
            None => r is None,
            Some((from, to, promo)) => match r {
                Some(m) => old(b).legal_move(m) && answers(m, from, to, promo),
                None => forall|m: Move| old(b).legal_move(m) ==> !answers(m, from, to, promo),
            },
        },
        r is None ==> restored_but_accumulator(*old(b), *final(b)),
        r matches Some(m) ==> exists|mid: Board, u: Undo| restored_but_accumulator(*old(b), mid) && made(mid, *final(b), m, u),
{
    let ghost b0 = *b;
    let found = parse_uci_move(b, s);
    match found {
        None => None,
        Some(m) => {
            let ghost mid = *b;
            proof {
                lemma_generated_is_pseudo_legal(b0, m);
                lemma_generated_is_sane(b0, m);
                lemma_same_setup_of(b0, mid);
                lemma_legal_same_setup(b0, mid, m);
                lemma_generated_is_pseudo_legal(mid, m);
                if m.double_push && mid.turn == Color::Black {
                    assert(m.from >= 8);
                }
            }
            let u = b.make_move(m);
            proof {
                lemma_make_keeps_consistent(mid, *b, m);
                assert(restored_but_accumulator(b0, mid));
                assert(made(mid, *b, m, u));
            }
            Some(m)
        },
    }
}

/// A board read from the start position, or a copy of `b` should that fail.
fn start_or_copy(b: &Board) -> (r: Board)
    requires
        b.wf(),
        b.consistent(),
    ensures
        r.wf(),
        r.consistent(),
        r.model == b.model,
        start_or_same(r, *b),
{
    match Board::from_fen(START_FEN) {
        Ok(x) => {
            let mut x = x;
            x.attach_model(b.model);
            proof {
                lemma_consistent_congruent(x, x);
            }
            x
        },
        Err(_) => {
            let x = b.copy();
            proof {
                lemma_consistent_congruent(x, *b);
            }
            x
        },
    }
}

/// `r` holds the start position, or (should it not read) the same position as `b`.
pub open spec fn start_or_same(r: Board, b: Board) -> bool {
    ||| (fen_spec(START_FEN.spec_bytes()) matches Some(d) && board_matches(r, d))
    ||| r.same_position(&b)
}

/// The board `position` starts from: the start position, or the FEN when it reads
/// as a consistent position (else the start position), or the current board.
pub open spec fn position_start(req: PositionRequest, r: Board, b: Board) -> bool {
    match req.base {
        PositionBase::Keep => r.same_position(&b),
        PositionBase::Startpos => start_or_same(r, b),
        PositionBase::Fen => match fen_spec(encode_utf8(req.fen@)) {
            Some(d) => if exists|x: Board| board_matches(x, d) && x.consistent() {
                board_matches(r, d)
            } else {
                start_or_same(r, b)
            },
            None => start_or_same(r, b),
        },
    }
}

/// The board that `position` starts from, keeping the network of `b`.
pub fn position_start_board(req: &PositionRequest, b: &Board) -> (r: Board)
    requires
        b.wf(),
        b.consistent(),
    ensures
        r.wf(),
        r.consistent(),
        r.model == b.model,
        position_start(*req, r, *b),
{
    match req.base {
        PositionBase::Keep => {
            let x = b.copy();
            proof {
                lemma_consistent_congruent(x, *b);
            }
            x
        },
        PositionBase::Startpos => start_or_copy(b),
        PositionBase::Fen => {
            match Board::from_fen(req.fen.as_str()) {
                Ok(x) => {
                    let mut x = x;
                    x.attach_model(b.model);
                    proof {
                        lemma_consistent_congruent(x, x);
                        let d = fen_spec(encode_utf8(req.fen@)).unwrap();
                        assert(board_matches(x, d));
                    }
                    x
                },
                Err(_) => start_or_copy(b),
            }
        },
    }
}

/// One move text played on `b0` leaves `b1`: when it names a legal move, that move
/// is made (from the board as the lookup leaves it); otherwise the board stays.
pub open spec fn played(b0: Board, text: Seq<char>, b1: Board) -> bool {
    match uci_request(encode_utf8(text)) {
        Some((from, to, promo)) if exists|m: Move| b0.legal_move(m) && answers(m, from, to, promo) => exists|
            m: Move,
            mid: Board,
            u: Undo,
        | b0.legal_move(m) && answers(m, from, to, promo) && restored_but_accumulator(b0, mid) && #[trigger] made(mid, b1, m, u),
        _ => restored_but_accumulator(b0, b1),
    }
}

/// The boards `boards` are those that playing the move texts `texts` in order
/// passes through: one more board than texts, each text played on the board before it.
pub open spec fn replay_chain(boards: Seq<Board>, texts: Seq<Seq<char>>) -> bool {
    &&& boards.len() == texts.len() + 1
    &&& forall|i: int| 0 <= i < texts.len() ==> #[trigger] played(boards[i], texts[i], boards[i + 1])
}

/// Carries out `position`: sets the board it starts from, then plays each listed
/// move that names a legal move, in order, and skips the others; it stops early
/// only when the move counters run out.
pub fn set_position(b: &mut Board, req: &PositionRequest)
    requires
        old(b).wf(),
        old(b).consistent(),
    ensures
        final(b).wf(),
        final(b).consistent(),
        final(b).model == old(b).model,
        exists|boards: Seq<Board>, k: int|
            0 <= k <= req.moves@.len() && position_start(*req, boards[0], *old(b)) && #[trigger] replay_chain(
                boards,
                string_views(req.moves@).take(k),
            ) && boards.last() == *final(b) && (k < req.moves@.len() ==> final(b).halfmove_clock >= i32::MAX
                - 1 || final(b).fullmove_number >= i32::MAX - 1),
{
    let start = position_start_board(req, b);
    *b = start;
    let ghost texts = string_views(req.moves@);
    let ghost mut boards: Seq<Board> = seq![start];
    let mut i: usize = 0;
    while i < req.moves.len()
        invariant_except_break
            i <= req.moves@.len(),
        invariant
            i <= req.moves@.len(),
            texts == string_views(req.moves@),
            b.wf(),
            b.consistent(),
            b.model == old(b).model,
            position_start(*req, boards[0], *old(b)),
            replay_chain(boards, texts.take(i as int)),
            boards.last() == *b,
        ensures
            i <= req.moves@.len(),
            i < req.moves@.len() ==> b.halfmove_clock >= i32::MAX - 1 || b.fullmove_number >= i32::MAX - 1,
        decreases req.moves@.len() - i,
    {
        if b.halfmove_clock >= i32::MAX - 1 || b.fullmove_number >= i32::MAX - 1 {
            break;
        }
        let ghost before = *b;
        let r = play_uci_move(b, req.moves[i].as_str());
        proof {
            let t = texts[i as int];
            assert(t == req.moves@[i as int]@);
            assert(played(before, t, *b)) by {
                match uci_request(encode_utf8(t)) {
                    Some((from, to, promo)) => {
                        if exists|m: Move| before.legal_move(m) && answers(m, from, to, promo) {
                            let m = r.unwrap();
                            let (mid, u) = choose|mid: Board, u: Undo| restored_but_accumulator(before, mid) && made(mid, *b, m, u);
                            assert(made(mid, *b, m, u));
                        }
                    },
                    None => {},
                }
            }
            let old_boards = boards;
            boards = boards.push(*b);
            let tk = texts.take(i + 1);
            assert forall|j: int| 0 <= j < tk.len() implies #[trigger] played(boards[j], tk[j], boards[j + 1]) by {
                if j < i {
                    assert(tk[j] == texts.take(i as int)[j]);
                    assert(played(old_boards[j], texts.take(i as int)[j], old_boards[j + 1]));
                } else {
                    assert(boards[j] == before);
                }
            }
        }
        i = i + 1;
    }
    proof {
        assert(replay_chain(boards, texts.take(i as int)));
    }
}


/// The best move that the table holds for the position of `b`, if it holds one.
/// Other threads write the table, so the entry is only known to carry the key.
pub fn table_move(b: &Board, tt: &SharedTransTable) -> (r: Option<Move>)
    ensures
        r matches Some(m) ==> sane_move(m) && m.from < 64 && m.to < 64,
        r is None || exists|e: crate::tt::TTEntry| e.key == b.zobrist && r == e.spec_best_move(),
{
    match tt.probe(b.zobrist) {
        Some(e) => {
            proof {
                lemma_decoded_is_sane(crate::tt::data_code(e.data));
            }
            e.best_move()
        },
        None => None,
    }
}

/// What the table's best move `best` for the position `a` gives to ponder on: the
/// move when a piece of the side to move stands on its origin, else nothing.
pub open spec fn ponder_pick(a: Board, best: Option<Move>) -> Option<Move> {
    match best {
        Some(p) => if p.from < 64 && a.piece_on[p.from as int].spec_color() == Some(a.turn) {
            Some(p)
        } else {
            None
        },
        None => None,
    }
}

/// The move to ponder on in `a` given the table's best move `best` there.
pub fn ponder_choice(a: &Board, best: Option<Move>) -> (r: Option<Move>)
    ensures
        r == ponder_pick(*a, best),
{
    match best {
        Some(p) => {
            if p.from < 64 && a.piece_on[p.from as usize].color() == Some(a.turn) {
                Some(p)
            } else {
                None
            }
        },
        None => None,
    }
}

/// The move to ponder on after `m`: the table's best move for the position after
/// `m`, when a piece of the side then to move stands on its origin; none when `m`
/// cannot be played on `b`.
pub fn ponder_move(b: &Board, tt: &SharedTransTable, m: Move) -> (r: Option<Move>)
    requires
        b.wf(),
        b.consistent(),
        b.halfmove_clock < i32::MAX,
        b.fullmove_number < i32::MAX,
    ensures
        r matches Some(p) ==> p.from < 64 && exists|c: Board, a: Board, u: Undo|
            #[trigger] made(c, a, m, u) && c.same_position(b) && a.piece_on[p.from as int].spec_color()
                == Some(a.turn),
        r is None || exists|c: Board, a: Board, u: Undo, e: crate::tt::TTEntry|
            #![trigger made(c, a, m, u), e.spec_best_move()]
            made(c, a, m, u) && c.same_position(b) && e.key == a.zobrist && r == ponder_pick(a, e.spec_best_move()),
        !(b.pseudo_legal(m) && (m.double_push && b.turn == Color::Black ==> m.from >= 8)) ==> r is None,
{
    let mut temp = b.copy();
    proof {
        lemma_consistent_congruent(temp, *b);
    }
    proof {
        crate::movepicker::lemma_same_setup_moves(temp, *b, m);
    }
    if !temp.is_pseudo_legal(m) {
        return None;
    }
    if m.double_push && temp.turn == Color::Black && m.from < 8 {
        return None;
    }
    let ghost t0 = temp;
    let u = temp.make_move(m);
    assert(made(t0, temp, m, u));
    let best = table_move(&temp, tt);
    let r = ponder_choice(&temp, best);
    proof {
        assert(t0.same_position(b));
        if r is Some {
            let e = choose|e: crate::tt::TTEntry| e.key == temp.zobrist && best == e.spec_best_move();
            assert(made(t0, temp, m, u) && t0.same_position(b) && e.key == temp.zobrist && r == ponder_pick(temp, e.spec_best_move()));
        }
    }
    r
}

} // verus!
