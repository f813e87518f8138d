//! The value-learning search strategy's own state: it plays by the same
//! bounded minimax as the search strategy but evaluates leaves with a
//! trained position-value approximator, collects the states of each game,
//! and maps them after the game to discounted terminal values for training.
//!
//! The approximator and the float-valued search around it live in the
//! surrounding program; everything the agent decides — encoding, schedules,
//! the discounted training targets, the shuffle and the buffer — is here, in
//! exact integer arithmetic (values in thousandths, the learning rate in
//! ten-millionths).

use vstd::prelude::*;
use crate::ai_q_player::occ_feature;
use crate::field::{BoardModel, Field};
use crate::minimax_player::op_of;
use crate::player::Player;
use crate::rng::draw_u32;

verus! {

/// The training value of a game the starting player won, in thousandths.
pub const VAL_WIN: i64 = 900;

/// The training value of a draw.
pub const VAL_DRAW: i64 = 0;

/// The training value of a game the starting player lost.
pub const VAL_LOSE: i64 = -900;

/// How many games pass between two training episodes.
pub const LEARN_FREQ: u32 = 10;

/// The discount factor, in thousandths.
pub const VAL_GAMMA_MILLI: i64 = 900;

/// The learning rate after `games` games, in ten-millionths: a linear decay
/// down to the floor.
pub open spec fn lr_value_spec(games: nat) -> int {
    if games >= 9000 {
        10000
    } else {
        100000 - 10 * games
    }
}

/// The learning rate decays monotonically with games played and never drops
/// below its floor.
pub proof fn lemma_value_lr_decays(g1: nat, g2: nat)
    requires
        g1 <= g2,
    ensures
        10000 <= lr_value_spec(g2) <= lr_value_spec(g1) <= 100000,
{
}

/// The discount after `j` plies, in thousandths.
pub open spec fn gamma9_pow(j: nat) -> int
    decreases j,
{
    if j == 0 {
        1000
    } else {
        gamma9_pow((j - 1) as nat) * (VAL_GAMMA_MILLI as int) / 1000
    }
}

/// The training value of the state `j` plies before the end of a game whose
/// terminal value for the starting player is `value` (in thousandths):
/// uncertainty grows toward the start of the game.
pub open spec fn value_target(j: nat, value: int) -> int {
    if value >= 0 {
        gamma9_pow(j) * value / 1000
    } else {
        -(gamma9_pow(j) * (-value) / 1000)
    }
}

/// The terminal value of a finished game for the starting player, in
/// thousandths: the win value, the loss value, or the draw value.
pub open spec fn outcome_value(startp: i32, state: i32) -> int {
    if state == startp {
        VAL_WIN as int
    } else if state == op_of(startp) {
        VAL_LOSE as int
    } else {
        VAL_DRAW as int
    }
}

/// Entry `base + j` of a training buffer holds the state recorded `j` plies
/// before the end of an `n`-ply game, paired with its discounted value.
pub open spec fn collected_entry(
    bufv: Seq<(Vec<i64>, Vec<i64>)>,
    pend: Seq<Vec<i64>>,
    base: int,
    n: int,
    value: int,
    j: int,
) -> bool {
    bufv[base + j].0 == pend[n - 1 - j] && bufv[base + j].1@ == seq![
        value_target(j as nat, value) as i64,
    ]
}

/// The occupancy features of the cells below `n`, from the starting player's
/// perspective.
pub open spec fn occ_feats(m: BoardModel, p: i32, n: int) -> Seq<i64>
    decreases n,
{
    if n <= 0 {
        Seq::empty()
    } else {
        occ_feats(m, p, n - 1).push(occ_feature(m, p, n - 1))
    }
}

/// The encoded view of a board for the value approximator: one occupancy
/// feature per cell.
pub open spec fn input_value_spec(m: BoardModel, p: i32) -> Seq<i64> {
    occ_feats(m, p, (m.w * m.h) as int)
}

/// The value agent's own state, without the approximator.
pub struct PlayerAIValue {
    initialized: bool,
    fixed: bool,
    pid: i32,
    startp: i32,
    games_played: u32,
    lr: i64,
    current_game: Vec<Vec<i64>>,
    games_buffer: Vec<(Vec<i64>, Vec<i64>)>,
}

impl PlayerAIValue {
    pub closed spec fn is_fixed(&self) -> bool {
        self.fixed
    }

    pub closed spec fn games(&self) -> u32 {
        self.games_played
    }

    pub closed spec fn lr_val(&self) -> i64 {
        self.lr
    }

    pub closed spec fn start_player(&self) -> i32 {
        self.startp
    }

    pub closed spec fn pending(&self) -> Seq<Vec<i64>> {
        self.current_game@
    }

    pub closed spec fn buffer(&self) -> Seq<(Vec<i64>, Vec<i64>)> {
        self.games_buffer@
    }

    pub fn new(fix: bool) -> (r: Box<PlayerAIValue>)
        ensures
            !r.is_init(),
            r.is_fixed() == fix,
            r.games() == 0,
            r.lr_val() == lr_value_spec(0),
            r.pending().len() == 0,
            r.buffer().len() == 0,
    {
        Box::new(
            PlayerAIValue {
                initialized: false,
                fixed: fix,
                pid: 0,
                startp: 0,
                games_played: 0,
                lr: 100000,
                current_game: Vec::new(),
                games_buffer: Vec::new(),
            },
        )
    }

    pub fn get_lr(&self) -> (r: i64)
        ensures
            r == lr_value_spec(self.games() as nat),
    {
        if self.games_played >= 9000 {
            10000
        } else {
            100000 - 10 * (self.games_played as i64)
        }
    }

    /// Restores the games-played counter of a persisted agent and recomputes
    /// the learning rate from it.
    pub fn resume(&mut self, games: u32)
        ensures
            final(self).games() == games,
            final(self).lr_val() == lr_value_spec(games as nat),
            final(self).is_init() == old(self).is_init(),
            final(self).pid() == old(self).pid(),
            final(self).is_fixed() == old(self).is_fixed(),
            final(self).start_player() == old(self).start_player(),
            final(self).pending() == old(self).pending(),
            final(self).buffer() == old(self).buffer(),
    {
        self.games_played = games;
        self.lr = self.get_lr();
    }

    /// The encoded view of the board from the starting player's perspective.
    pub fn field_to_input(field: &Field, p: i32) -> (r: Vec<i64>)
        requires
            field@.wf(),
            1 <= p <= 2,
        ensures
            r@ == input_value_spec(field@, p),
    {
        let ghost m = field@;
        let op = crate::minimax_player::other_of(p);
        let size = field.get_size();
        let mut input: Vec<i64> = Vec::new();
        let mut i: usize = 0;
        while i < size as usize
            invariant
                m == field@,
                m.wf(),
                1 <= p <= 2,
                op == op_of(p),
                size == m.w * m.h,
                i <= size,
                input@ == occ_feats(m, p, i as int),
            decreases size - i,
        {
            let cells = field.get_field();
            let v = cells[i];
            let f: i64 = if v == p {
                1
            } else if v == op {
                -1
            } else {
                0
            };
            input.push(f);
            proof {
                assert(f == occ_feature(m, p, i as int));
            }
            i = i + 1;
        }
        proof {
            assert(input@ =~= input_value_spec(m, p));
        }
        input
    }

    /// Remembers a game state for the post-game mapping to terminal values;
    /// a fixed agent keeps nothing.
    pub fn record_state(&mut self, state: Vec<i64>)
        ensures
            !old(self).is_fixed() ==> final(self).pending() == old(self).pending().push(state),
            old(self).is_fixed() ==> final(self).pending() == old(self).pending(),
            final(self).is_init() == old(self).is_init(),
            final(self).pid() == old(self).pid(),
            final(self).is_fixed() == old(self).is_fixed(),
            final(self).start_player() == old(self).start_player(),
            final(self).games() == old(self).games(),
            final(self).lr_val() == old(self).lr_val(),
            final(self).buffer() == old(self).buffer(),
    {
        if !self.fixed {
            self.current_game.push(state);
        }
    }

    /// The end-of-game collection: the remembered states leave the pending
    /// stack from the last move backward, each paired with the terminal value
    /// discounted by its distance from the end; the counters advance. Returns
    /// whether a training episode is due now.
    #[verifier::loop_isolation(false)]
    pub fn outcome_core(&mut self, state: i32) -> (learn_now: bool)
        ensures
            old(self).games() < u32::MAX ==> final(self).games() == old(self).games() + 1,
            final(self).lr_val() == lr_value_spec(final(self).games() as nat),
            final(self).is_init() == old(self).is_init(),
            final(self).pid() == old(self).pid(),
            final(self).is_fixed() == old(self).is_fixed(),
            final(self).start_player() == old(self).start_player(),
            learn_now == (!old(self).is_fixed() && final(self).games() % LEARN_FREQ == 0),
            old(self).is_fixed() ==> final(self).pending() == old(self).pending() && final(self).buffer() == old(self).buffer(),
            !old(self).is_fixed() ==> {
                let value = outcome_value(old(self).start_player(), state);
                let n = old(self).pending().len() as int;
                &&& final(self).pending().len() == 0
                &&& final(self).buffer().len() == old(self).buffer().len() + n
                &&& forall|k: int|
                    0 <= k < old(self).buffer().len() ==> final(self).buffer()[k] == old(self).buffer()[k]
                &&& forall|j: int|
                    0 <= j < n ==> #[trigger] collected_entry(
                        final(self).buffer(),
                        old(self).pending(),
                        old(self).buffer().len() as int,
                        n,
                        value,
                        j,
                    )
            },
    {
        self.games_played = if self.games_played < u32::MAX {
            self.games_played + 1
        } else {
            self.games_played
        };
        self.lr = self.get_lr();
        if self.fixed {
            return false;
        }
        let opst = crate::minimax_player::other_of(self.startp);
        let value: i64 = if state == self.startp {
            VAL_WIN
        } else if state == opst {
            VAL_LOSE
        } else {
            VAL_DRAW
        };
        proof {
            assert(value as int == outcome_value(self.startp, state));
        }
        let ghost pend0 = self.current_game@;
        let ghost buf0 = self.games_buffer@;
        let ghost gp0 = self.games_played;
        let ghost lr0 = self.lr;
        let n = self.current_game.len();
        let mut g: i64 = 1000;
        let mut j: usize = 0;
        while j < n
            invariant
                n == pend0.len(),
                j <= n,
                self.current_game@ == pend0.take((n - j) as int),
                0 <= g <= 1000,
                g == gamma9_pow(j as nat),
                value == VAL_WIN || value == VAL_DRAW || value == VAL_LOSE,
                value as int == outcome_value(old(self).startp, state),
                self.games_buffer@.len() == buf0.len() + j,
                forall|k: int| 0 <= k < buf0.len() ==> self.games_buffer@[k] == buf0[k],
                forall|j2: int|
                    0 <= j2 < j ==> #[trigger] collected_entry(
                        self.games_buffer@,
                        pend0,
                        buf0.len() as int,
                        n as int,
                        value as int,
                        j2,
                    ),
                self.initialized == old(self).initialized,
                self.fixed == old(self).fixed,
                self.pid == old(self).pid,
                self.startp == old(self).startp,
                self.games_played == gp0,
                self.lr == lr0,
            decreases n - j,
        {
            let st = self.current_game.pop();
            match st {
                Some(s) => {
                    let t: i64 = if value >= 0 {
                        g * value / 1000
                    } else {
                        -(g * (-value) / 1000)
                    };
                    let mut val: Vec<i64> = Vec::new();
                    val.push(t);
                    proof {
                        assert(val@ =~= seq![value_target(j as nat, value as int) as i64]);
                        assert(self.current_game@ =~= pend0.take((n - j - 1) as int));
                    }
                    let ghost gb_before = self.games_buffer@;
                    let ghost s_snap = s;
                    let ghost v_snap = val@;
                    let ghost pushed = (s, val);
                    self.games_buffer.push((s, val));
                    proof {
                        assert(s_snap == pend0[n - 1 - j]);
                        assert(self.games_buffer@ == gb_before.push(pushed));
                        assert forall|j2: int|
                            0 <= j2 < j + 1 implies #[trigger] collected_entry(
                            self.games_buffer@,
                            pend0,
                            buf0.len() as int,
                            n as int,
                            value as int,
                            j2,
                        ) by {
                            if j2 < j {
                                assert(collected_entry(
                                    gb_before,
                                    pend0,
                                    buf0.len() as int,
                                    n as int,
                                    value as int,
                                    j2,
                                ));
                                assert(gb_before.push(pushed)[buf0.len() + j2] == gb_before[
                                    buf0.len() + j2]);
                            } else {
                                assert(buf0.len() + j2 == gb_before.len());
                                assert(gb_before.push(pushed)[buf0.len() + j2] == pushed);
                                assert(pushed.0 == s_snap);
                                assert(pushed.1@ == v_snap);
                            }
                        };
                    }
                },
                None => {
                    proof {
                        assert(false);
                    }
                },
            }
            g = g * 900 / 1000;
            j = j + 1;
        }
        self.games_played % LEARN_FREQ == 0
    }

    /// A uniformly drawn reordering pass over the training buffer: as many
    /// single-element moves as the buffer holds entries. The buffer keeps
    /// exactly the same training pairs, as a multiset.
    pub fn shuffle_games(&mut self)
        ensures
            final(self).buffer().to_multiset() == old(self).buffer().to_multiset(),
            final(self).buffer().len() == old(self).buffer().len(),
            final(self).is_init() == old(self).is_init(),
            final(self).pid() == old(self).pid(),
            final(self).is_fixed() == old(self).is_fixed(),
            final(self).start_player() == old(self).start_player(),
            final(self).games() == old(self).games(),
            final(self).lr_val() == old(self).lr_val(),
            final(self).pending() == old(self).pending(),
    {
        broadcast use vstd::seq_lib::group_to_multiset_ensures;

        let len = self.games_buffer.len();
        if len == 0 {
            return;
        }
        let mut t: usize = 0;
        while t < len
            invariant
                self.games_buffer@.len() == len,
                len >= 1,
                t <= len,
                self.games_buffer@.to_multiset() == old(self).games_buffer@.to_multiset(),
                self.initialized == old(self).initialized,
                self.fixed == old(self).fixed,
                self.pid == old(self).pid,
                self.startp == old(self).startp,
                self.games_played == old(self).games_played,
                self.lr == old(self).lr,
                self.current_game@ == old(self).current_game@,
            decreases len - t,
        {
            broadcast use vstd::seq_lib::group_to_multiset_ensures;

            let ghost before = self.games_buffer@;
            let i = (draw_u32() as usize) % self.games_buffer.len();
            let item = self.games_buffer.remove(i);
            self.games_buffer.push(item);
            proof {
                assert(before.remove(i as int).to_multiset() == before.to_multiset().remove(
                    before[i as int],
                ));
                assert(self.games_buffer@.to_multiset() =~= before.to_multiset());
            }
            t = t + 1;
        }
    }

    /// Empties the training buffer after a training episode.
    pub fn flush_buffer(&mut self)
        ensures
            final(self).buffer().len() == 0,
            final(self).is_init() == old(self).is_init(),
            final(self).pid() == old(self).pid(),
            final(self).is_fixed() == old(self).is_fixed(),
            final(self).start_player() == old(self).start_player(),
            final(self).games() == old(self).games(),
            final(self).lr_val() == old(self).lr_val(),
            final(self).pending() == old(self).pending(),
    {
        self.games_buffer.clear();
    }
}

impl PlayerAIValue {
    pub fn get_games_played(&self) -> (r: u32)
        ensures
            r == self.games(),
    {
        self.games_played
    }

    pub fn pending_len(&self) -> (r: usize)
        ensures
            r == self.pending().len(),
    {
        self.current_game.len()
    }

    pub fn buffer_len(&self) -> (r: usize)
        ensures
            r == self.buffer().len(),
    {
        self.games_buffer.len()
    }

    pub fn get_buffer_entry(&self, i: usize) -> (r: &(Vec<i64>, Vec<i64>))
        requires
            i < self.buffer().len(),
        ensures
            *r == self.buffer()[i as int],
    {
        &self.games_buffer[i]
    }
}

impl Player for PlayerAIValue {
    closed spec fn is_init(&self) -> bool {
        self.initialized
    }

    closed spec fn pid(&self) -> i32 {
        self.pid
    }

    fn init(&mut self, field: &Field, p: i32) -> (r: bool)
        ensures
            r,
            final(self).is_init(),
            final(self).pid() == p,
            final(self).is_fixed() == old(self).is_fixed(),
            final(self).games() == old(self).games(),
            final(self).buffer() == old(self).buffer(),
            final(self).pending() == old(self).pending(),
    {
        self.pid = p;
        self.initialized = true;
        true
    }

    fn startp(&mut self, p: i32)
        ensures
            final(self).start_player() == p,
            final(self).is_init() == old(self).is_init(),
            final(self).pid() == old(self).pid(),
            final(self).is_fixed() == old(self).is_fixed(),
            final(self).games() == old(self).games(),
            final(self).lr_val() == old(self).lr_val(),
            final(self).pending() == old(self).pending(),
            final(self).buffer() == old(self).buffer(),
    {
        self.startp = p;
    }

    /// Acting runs the bounded minimax with the approximator's float-valued
    /// leaf evaluation, which only the surrounding program can compute; it
    /// searches over this library's board and records the states through
    /// `record_state`. Called inside the library, this strategy declines.
    fn play(&mut self, field: &mut Field) -> (r: bool)
        ensures
            !r,
            final(field)@ == old(field)@,
            *final(self) == *old(self),
    {
        false
    }

    fn outcome(&mut self, field: &mut Field, state: i32)
        ensures
            old(self).games() < u32::MAX ==> final(self).games() == old(self).games() + 1,
            final(self).lr_val() == lr_value_spec(final(self).games() as nat),
            final(self).is_init() == old(self).is_init(),
            final(self).pid() == old(self).pid(),
            final(self).is_fixed() == old(self).is_fixed(),
            final(self).start_player() == old(self).start_player(),
            old(self).is_fixed() ==> final(self).pending() == old(self).pending() && final(self).buffer() == old(self).buffer(),
            !old(self).is_fixed() ==> {
                let value = outcome_value(old(self).start_player(), state);
                let n = old(self).pending().len() as int;
                &&& final(self).pending().len() == 0
                &&& final(self).buffer().len() == old(self).buffer().len() + n
                &&& forall|k: int|
                    0 <= k < old(self).buffer().len() ==> final(self).buffer()[k] == old(self).buffer()[k]
                &&& forall|j: int|
                    0 <= j < n ==> #[trigger] collected_entry(
                        final(self).buffer(),
                        old(self).pending(),
                        old(self).buffer().len() as int,
                        n,
                        value,
                        j,
                    )
            },
    {
        let _ = self.outcome_core(state);
    }
}

} // verus!
