//! The offline Q-learning strategy: it plays greedily over the
//! approximator's outputs with decaying exploration, collects every move of
//! a game with a marker on the chosen column, and when the game is over
//! backfills the markers with discounted terminal values for one batch of
//! training.
//!
//! Values on the output range are carried in thousandths and the learning
//! rate in ten-millionths; the function approximator is an outside
//! collaborator run by the surrounding program, which hands its outputs in.

use vstd::prelude::*;
use crate::ai_q_player::{cell_feats, halved, occ_feature, reach_feature};
use crate::field::{BoardModel, Field};
use crate::minimax_player::op_of;
use crate::player::Player;
use crate::rng::draw_u32;

verus! {

/// Marks the chosen column of a stored move until the game's outcome fills
/// in its real value.
pub const OFF_MARK: i64 = -1000;

/// The training value recorded on the spot for a column that broke the rules.
pub const OFF_WRONG: i64 = 0;

/// The discount factor, in thousandths.
pub const OFF_GAMMA_MILLI: i64 = 990;

/// The learning rate after `games` games, in ten-millionths: halved every
/// ten thousand games down to the floor.
pub open spec fn lr_off_spec(games: nat) -> int {
    let v = halved(1000000, games / 10000);
    if v < 100000 {
        100000
    } else {
        v
    }
}

/// The exploration probability after `games` games, in thousandths: halved
/// every twenty thousand games, with no floor.
pub open spec fn exploration_off_spec(games: nat) -> int {
    halved(1000, games / 20000)
}

/// Both schedules decay monotonically with games played; the learning rate
/// stops at its floor and the exploration probability may reach zero.
pub proof fn lemma_off_schedules_decay(g1: nat, g2: nat)
    requires
        g1 <= g2,
    ensures
        100000 <= lr_off_spec(g2) <= lr_off_spec(g1) <= 1000000,
        0 <= exploration_off_spec(g2) <= exploration_off_spec(g1) <= 1000,
{
    crate::ai_q_player::lemma_halved_monotone(1000000, g1 / 10000, g2 / 10000);
    crate::ai_q_player::lemma_halved_monotone(1000, g1 / 20000, g2 / 20000);
}

/// The discount after `j` plies, in thousandths.
pub open spec fn gamma_pow(j: nat) -> int
    decreases j,
{
    if j == 0 {
        1000
    } else {
        gamma_pow((j - 1) as nat) * (OFF_GAMMA_MILLI as int) / 1000
    }
}

/// The value backfilled into a stored move `j` plies before the end of a
/// game with terminal reward `reward` (in thousandths of `[-1, 1]`),
/// squeezed into the approximator's output range `[0, 1]`.
pub open spec fn off_target(j: nat, reward: int) -> int {
    if reward >= 0 {
        (gamma_pow(j) * reward / 1000 + 1000) / 2
    } else {
        (-(gamma_pow(j) * (-reward) / 1000) + 1000) / 2
    }
}

/// The terminal reward of a finished game from this agent's seat, in
/// thousandths of `[-1, 1]`.
pub open spec fn off_reward(pid: i32, state: i32) -> int {
    if state == pid {
        1000
    } else if state == op_of(pid) {
        -1000
    } else {
        0
    }
}

/// Row `k` of the buffer after the backfill against the old buffer: the
/// states match, and the first marker of the stored outputs, if any, now
/// holds the terminal reward discounted by the move's distance from the end
/// of the game.
pub open spec fn backfilled_entry(
    newbuf: Seq<(Vec<i64>, Vec<i64>)>,
    oldbuf: Seq<(Vec<i64>, Vec<i64>)>,
    rew: int,
    k: int,
) -> bool {
    let n = oldbuf.len() as int;
    let q = oldbuf[k].1@;
    let fm = first_mark_from(q, 0, q.len() as int);
    &&& newbuf[k].0 == oldbuf[k].0
    &&& (fm == -1 ==> newbuf[k].1@ == q)
    &&& (fm != -1 ==> newbuf[k].1@ == q.update(fm, off_target((n - k) as nat, rew) as i64))
}

/// The signed tactical feature of column `c`: `1` when the mover wins there
/// at once, `-1` when the other player would, `0` otherwise.
pub open spec fn signed_win_feature(m: BoardModel, p: i32, c: int) -> i64 {
    if !m.can_play(p, c) {
        0i64
    } else {
        let st = m.play_result(p, c).state();
        if st == 0 || st == -1 {
            0i64
        } else if st == p {
            1i64
        } else {
            -1i64
        }
    }
}

/// The signed tactical features of the columns below `n`, in order.
pub open spec fn signed_col_feats(m: BoardModel, p: i32, n: int) -> Seq<i64>
    decreases n,
{
    if n <= 0 {
        Seq::empty()
    } else {
        signed_col_feats(m, p, n - 1).push(signed_win_feature(m, p, n - 1))
    }
}

/// The encoded view of a board for this agent: two features per cell and one
/// signed tactical feature per column.
pub open spec fn input_off_spec(m: BoardModel, p: i32) -> Seq<i64> {
    cell_feats(m, p, (m.w * m.h) as int) + signed_col_feats(m, p, m.w as int)
}

/// The index of the first marker among the first `n` entries, or `-1`.
pub open spec fn first_mark_from(q: Seq<i64>, i: int, n: int) -> int
    decreases n - i,
{
    if i < 0 || i >= n || i >= q.len() {
        -1
    } else if q[i] == OFF_MARK {
        i
    } else {
        first_mark_from(q, i + 1, n)
    }
}

/// One step of the agent: either the move was played (and, for a learning
/// agent, stored with a marker), or an illegal choice produced a correction
/// example to train on before trying again, or no move was possible at all.
pub enum OffStep {
    Played,
    Retrain(Vec<i64>, Vec<i64>),
    NoMove,
}

/// The offline Q agent's own state, without the approximator.
pub struct PlayerAIQOff {
    initialized: bool,
    fixed: bool,
    pid: i32,
    games_played: u32,
    lr: i64,
    exploration: i64,
    play_buffer: Vec<(Vec<i64>, Vec<i64>)>,
}

impl PlayerAIQOff {
    pub closed spec fn is_fixed(&self) -> bool {
        self.fixed
    }

    pub closed spec fn games(&self) -> u32 {
        self.games_played
    }

    pub closed spec fn lr_val(&self) -> i64 {
        self.lr
    }

    pub closed spec fn exploration_val(&self) -> i64 {
        self.exploration
    }

    pub closed spec fn buffer(&self) -> Seq<(Vec<i64>, Vec<i64>)> {
        self.play_buffer@
    }

    pub fn new(fix: bool) -> (r: Box<PlayerAIQOff>)
        ensures
            !r.is_init(),
            r.is_fixed() == fix,
            r.games() == 0,
            r.lr_val() == lr_off_spec(0),
            r.exploration_val() == exploration_off_spec(0),
            r.buffer().len() == 0,
    {
        Box::new(
            PlayerAIQOff {
                initialized: false,
                fixed: fix,
                pid: 0,
                games_played: 0,
                lr: 1000000,
                exploration: 1000,
                play_buffer: Vec::new(),
            },
        )
    }

    fn halved_exec(start: i64, k: u32) -> (r: i64)
        requires
            0 <= start,
        ensures
            r == halved(start as int, k as nat),
            0 <= r <= start,
    {
        let mut v = start;
        let mut i: u32 = 0;
        while i < k
            invariant
                0 <= v <= start,
                i <= k,
                v == halved(start as int, i as nat),
            decreases k - i,
        {
            v = v / 2;
            i = i + 1;
        }
        v
    }

    pub fn get_exploration(&self) -> (r: i64)
        ensures
            r == exploration_off_spec(self.games() as nat),
    {
        Self::halved_exec(1000, self.games_played / 20000)
    }

    pub fn get_lr(&self) -> (r: i64)
        ensures
            r == lr_off_spec(self.games() as nat),
    {
        let v = Self::halved_exec(1000000, self.games_played / 10000);
        if v < 100000 {
            100000
        } else {
            v
        }
    }

    /// Restores the games-played counter of a persisted agent and recomputes
    /// both schedules from it.
    pub fn resume(&mut self, games: u32)
        ensures
            final(self).games() == games,
            final(self).lr_val() == lr_off_spec(games as nat),
            final(self).exploration_val() == exploration_off_spec(games as nat),
            final(self).is_init() == old(self).is_init(),
            final(self).pid() == old(self).pid(),
            final(self).is_fixed() == old(self).is_fixed(),
            final(self).buffer() == old(self).buffer(),
    {
        self.games_played = games;
        self.lr = self.get_lr();
        self.exploration = self.get_exploration();
    }

    /// The encoded view of the board for the approximator. Probing the
    /// tactical features plays and undoes trial moves; the board comes back
    /// exactly as it was.
    pub fn field_to_input(field: &mut Field, p: i32) -> (r: Vec<i64>)
        requires
            old(field)@.wf(),
            1 <= p <= 2,
            2 * (old(field)@.w * old(field)@.h) + old(field)@.w <= usize::MAX,
        ensures
            final(field)@ == old(field)@,
            r@ == input_off_spec(old(field)@, p),
    {
        let ghost m = old(field)@;
        let op = crate::minimax_player::other_of(p);
        let w = field.get_w();
        let size = field.get_size();
        let mut input: Vec<i64> = Vec::new();
        proof {
            assert(m.w * m.h >= m.w) by (nonlinear_arith)
                requires
                    m.h >= 1,
                    m.w >= 0,
            ;
        }
        let mut i: usize = 0;
        while i < size as usize
            invariant
                field@ == m,
                m.wf(),
                1 <= p <= 2,
                op == op_of(p),
                w == m.w,
                size == m.w * m.h,
                2 * (m.w * m.h) + m.w <= usize::MAX,
                i <= size,
                m.w * m.h >= m.w,
                input@ == cell_feats(m, p, i as int),
                input@.len() == 2 * i,
            decreases size - i,
        {
            let cells = field.get_field();
            let v = cells[i];
            let f0: i64 = if v == p {
                1
            } else if v == op {
                -1
            } else {
                0
            };
            let f1: i64 = if v != 0 {
                0
            } else if (i as u32) < size - w {
                if cells[i + w as usize] != 0 {
                    1
                } else {
                    0
                }
            } else {
                1
            };
            input.push(f0);
            input.push(f1);
            proof {
                assert(f0 == occ_feature(m, p, i as int));
                assert(f1 == reach_feature(m, i as int));
            }
            i = i + 1;
        }
        let mut c: u32 = 0;
        while c < w
            invariant
                field@ == m,
                m.wf(),
                1 <= p <= 2,
                op == op_of(p),
                w == m.w,
                size == m.w * m.h,
                2 * (m.w * m.h) + m.w <= usize::MAX,
                c <= w,
                input@ == cell_feats(m, p, (m.w * m.h) as int) + signed_col_feats(m, p, c as int),
                input@.len() == 2 * (m.w * m.h) + c,
            decreases w - c,
        {
            let mut feat: i64 = 0;
            if field.play(p, c) {
                proof {
                    m.lemma_play_wf(p, c as int);
                }
                let st = field.get_state();
                if !(st == -1 || st == 0) {
                    if st == p {
                        feat = 1;
                    } else {
                        feat = -1;
                    }
                }
                field.undo();
                proof {
                    m.lemma_play_undo(p, c as int);
                }
            }
            proof {
                assert(feat == signed_win_feature(m, p, c as int));
            }
            input.push(feat);
            proof {
                assert(input@ =~= cell_feats(m, p, (m.w * m.h) as int) + signed_col_feats(
                    m,
                    p,
                    c as int + 1,
                ));
            }
            c = c + 1;
        }
        proof {
            assert(input@ =~= input_off_spec(m, p));
        }
        input
    }

    /// One acting step on the approximator's outputs for the current state:
    /// greedy with decaying exploration while learning, purely greedy when
    /// fixed. A legal choice is played — and stored under a marker while
    /// learning; an illegal choice while learning yields a correction example
    /// to train on before the next try; an illegal choice of a fixed agent
    /// falls back to a uniformly chosen playable column.
    pub fn step(&mut self, field: &mut Field, state: Vec<i64>, qvals: &[i64]) -> (r: OffStep)
        requires
            old(self).is_init(),
            old(field)@.wf(),
            1 <= qvals@.len() <= u32::MAX,
            qvals@.len() == old(field)@.w,
        ensures
            final(field)@.wf(),
            final(self).is_init() == old(self).is_init(),
            final(self).pid() == old(self).pid(),
            final(self).is_fixed() == old(self).is_fixed(),
            final(self).games() == old(self).games(),
            final(self).lr_val() == old(self).lr_val(),
            final(self).exploration_val() == old(self).exploration_val(),
            1 <= old(self).pid() <= 2 && (exists|c: int| old(field)@.valid_play(c)) ==> !(r
                matches OffStep::NoMove),
            r matches OffStep::NoMove ==> final(field)@ == old(field)@ && final(self).buffer()
                == old(self).buffer() && (!(1 <= old(self).pid() <= 2) || !(exists|c: int|
                old(field)@.valid_play(c))),
            r matches OffStep::Retrain(s2, q2) ==> final(field)@ == old(field)@ && final(self).buffer() == old(self).buffer() && !old(self).is_fixed() && s2@ == state@ && (
            exists|c0: int|
                0 <= c0 < old(field)@.w && !old(field)@.valid_play(c0) && q2@ == qvals@.update(
                    c0,
                    OFF_WRONG,
                )),
            old(self).is_fixed() && 1 <= old(self).pid() <= 2 && old(field)@.valid_play(
                crate::ai_q_player::argmax_in(qvals@, qvals@.len() as int),
            ) ==> (r matches OffStep::Played) && final(field)@ == old(field)@.play_result(
                old(self).pid(),
                crate::ai_q_player::argmax_in(qvals@, qvals@.len() as int),
            ),
            r matches OffStep::Played ==> 1 <= old(self).pid() <= 2 && exists|c: int|
                #![auto]
                old(field)@.valid_play(c) && final(field)@ == old(field)@.play_result(
                    old(self).pid(),
                    c,
                ) && (old(self).is_fixed() ==> final(self).buffer() == old(self).buffer()) && (!old(self).is_fixed() ==> final(self).buffer().len() == old(self).buffer().len() + 1
                    && final(self).buffer().last().0@ == state@ && final(self).buffer().last().1@
                    == qvals@.update(c, OFF_MARK) && final(self).buffer().drop_last() == old(self).buffer()),
    {
        if self.pid < 1 || self.pid > 2 {
            return OffStep::NoMove;
        }
        let ghost m = old(field)@;
        let w = field.get_w();
        let mut qv = vstd::slice::slice_to_vec(qvals);
        let mut x = crate::ai_q_player::PlayerAIQ::argmax(qvals);
        proof {
            crate::ai_q_player::lemma_argmax_props(qvals@, qvals@.len() as int);
        }
        if !self.fixed {
            let e = draw_u32() % 1000;
            if (e as i64) < self.exploration {
                x = draw_u32() % w;
            }
        }
        let res = field.play(self.pid, x);
        if res {
            if !self.fixed {
                qv[x as usize] = OFF_MARK;
                self.play_buffer.push((state, qv));
                proof {
                    assert(self.play_buffer@.drop_last() =~= old(self).play_buffer@);
                }
            }
            return OffStep::Played;
        }
        if !self.fixed {
            qv[x as usize] = OFF_WRONG;
            return OffStep::Retrain(state, qv);
        }
        let mut legal: Vec<u32> = Vec::new();
        let mut i: u32 = 0;
        while i < w
            invariant
                field@ == m,
                field@.wf(),
                w == m.w,
                i <= w,
                forall|j: int| 0 <= j < legal@.len() ==> m.valid_play(#[trigger] legal@[j] as int),
                forall|c: int| 0 <= c < i && m.valid_play(c) ==> legal@.len() > 0,
            decreases w - i,
        {
            if field.is_valid_play(i) {
                legal.push(i);
            }
            i = i + 1;
        }
        if legal.len() == 0 {
            proof {
                assert(forall|c: int| #[trigger] m.valid_play(c) ==> 0 <= c < w);
            }
            return OffStep::NoMove;
        }
        let pick = (draw_u32() as usize) % legal.len();
        let c = legal[pick];
        proof {
            assert(m.valid_play(legal@[pick as int] as int));
        }
        field.play(self.pid, c);
        OffStep::Played
    }

    /// The end-of-game backfill: each stored move's marker is replaced by the
    /// terminal reward discounted by its distance from the end, squeezed into
    /// the output range; then the counters and schedules advance. Training on
    /// the buffer happens outside, on the approximator.
    pub fn outcome_core(&mut self, state: i32)
        ensures
            final(self).is_init() == old(self).is_init(),
            final(self).pid() == old(self).pid(),
            final(self).is_fixed() == old(self).is_fixed(),
            old(self).games() < u32::MAX ==> final(self).games() == old(self).games() + 1,
            final(self).lr_val() == lr_off_spec(final(self).games() as nat),
            final(self).exploration_val() == exploration_off_spec(final(self).games() as nat),
            old(self).is_fixed() || !old(self).is_init() ==> final(self).buffer() == old(self).buffer(),
            !old(self).is_fixed() && old(self).is_init() ==> final(self).buffer().len() == old(self).buffer().len() && forall|k: int|
                0 <= k < old(self).buffer().len() ==> #[trigger] backfilled_entry(
                    final(self).buffer(),
                    old(self).buffer(),
                    off_reward(old(self).pid(), state),
                    k,
                ),
    {
        if self.initialized && !self.fixed {
            let otherp = crate::minimax_player::other_of(self.pid);
            let mut reward: i64 = 0;
            if state == self.pid {
                reward = 1000;
            } else if state == otherp {
                reward = -1000;
            }
            let len = self.play_buffer.len();
            let ghost buf0 = self.play_buffer@;
            let mut k: usize = 0;
            while k < len
                invariant
                    len == buf0.len(),
                    k <= len,
                    self.play_buffer@.len() == len,
                    reward == 1000 || reward == 0 || reward == -1000,
                    reward as int == off_reward(old(self).pid, state),
                    forall|k2: int| k <= k2 < len ==> self.play_buffer@[k2] == buf0[k2],
                    forall|k2: int|
                        0 <= k2 < k ==> #[trigger] backfilled_entry(
                            self.play_buffer@,
                            buf0,
                            reward as int,
                            k2,
                        ),
                    self.initialized == old(self).initialized,
                    self.fixed == old(self).fixed,
                    self.pid == old(self).pid,
                    self.games_played == old(self).games_played,
                    self.lr == old(self).lr,
                    self.exploration == old(self).exploration,
                decreases len - k,
            {
                let t = Self::discounted_target((len - k) as u64, reward);
                let ghost pb_before = self.play_buffer@;
                Self::backfill_row(&mut self.play_buffer, k, t);
                proof {
                    assert forall|k2: int|
                        0 <= k2 < k + 1 implies #[trigger] backfilled_entry(
                        self.play_buffer@,
                        buf0,
                        reward as int,
                        k2,
                    ) by {
                        if k2 < k {
                            assert(backfilled_entry(pb_before, buf0, reward as int, k2));
                            assert(self.play_buffer@[k2] == pb_before[k2]);
                        }
                    };
                }
                k = k + 1;
            }
        }
        if self.games_played < u32::MAX {
            self.games_played = self.games_played + 1;
        }
        self.lr = self.get_lr();
        self.exploration = self.get_exploration();
    }

    /// The discounted, range-squeezed terminal value `j` plies from the end.
    fn discounted_target(j: u64, reward: i64) -> (r: i64)
        requires
            reward == 1000 || reward == 0 || reward == -1000,
        ensures
            r as int == off_target(j as nat, reward as int),
    {
        let mut g: i64 = 1000;
        let mut i: u64 = 0;
        while i < j
            invariant
                0 <= g <= 1000,
                i <= j,
                g == gamma_pow(i as nat),
            decreases j - i,
        {
            g = g * 990 / 1000;
            i = i + 1;
        }
        if reward >= 0 {
            (g * reward / 1000 + 1000) / 2
        } else {
            (-(g * (-reward) / 1000) + 1000) / 2
        }
    }

    /// Replaces the first marker of row `k` with the given value.
    fn backfill_row(buf: &mut Vec<(Vec<i64>, Vec<i64>)>, k: usize, t: i64)
        requires
            k < old(buf)@.len(),
        ensures
            final(buf)@.len() == old(buf)@.len(),
            forall|k2: int| 0 <= k2 < old(buf)@.len() && k2 != k ==> final(buf)@[k2] == old(
                buf,
            )@[k2],
            final(buf)@[k as int].0 == old(buf)@[k as int].0,
            ({
                let q = old(buf)@[k as int].1@;
                let fm = first_mark_from(q, 0, q.len() as int);
                if fm == -1 {
                    final(buf)@[k as int].1@ == q
                } else {
                    final(buf)@[k as int].1@ == q.update(fm, t)
                }
            }),
    {
        let ghost q = buf@[k as int].1@;
        let n = buf[k].1.len();
        let mut i: usize = 0;
        while i < n
            invariant
                k < buf@.len(),
                buf@ == old(buf)@,
                n == q.len(),
                q == buf@[k as int].1@,
                i <= n,
                first_mark_from(q, 0, n as int) == first_mark_from(q, i as int, n as int),
                forall|j: int| 0 <= j < i ==> q[j] != OFF_MARK,
            decreases n - i,
        {
            let v = buf[k].1[i];
            if v == OFF_MARK {
                proof {
                    assert(first_mark_from(q, i as int, n as int) == i);
                }
                let row = &mut buf[k];
                row.1[i] = t;
                return;
            }
            i = i + 1;
        }
    }
}

impl PlayerAIQOff {
    pub fn get_games_played(&self) -> (r: u32)
        ensures
            r == self.games(),
    {
        self.games_played
    }

    pub fn buffer_len(&self) -> (r: usize)
        ensures
            r == self.buffer().len(),
    {
        self.play_buffer.len()
    }

    pub fn get_buffer_entry(&self, i: usize) -> (r: &(Vec<i64>, Vec<i64>))
        requires
            i < self.buffer().len(),
        ensures
            *r == self.buffer()[i as int],
    {
        &self.play_buffer[i]
    }
}

impl Player for PlayerAIQOff {
    closed spec fn is_init(&self) -> bool {
        self.initialized
    }

    closed spec fn pid(&self) -> i32 {
        self.pid
    }

    fn init(&mut self, field: &Field, p: i32) -> (r: bool)
        ensures
            r,
            final(self).is_init(),
            final(self).pid() == p,
            final(self).is_fixed() == old(self).is_fixed(),
            final(self).games() == old(self).games(),
            final(self).buffer() == old(self).buffer(),
    {
        self.pid = p;
        self.initialized = true;
        true
    }

    fn startp(&mut self, p: i32)
        ensures
            *final(self) == *old(self),
    {
    }

    /// Acting needs the approximator's outputs, which only the surrounding
    /// program can run; it encodes the state with `field_to_input`, runs the
    /// network, and steps the agent with `step`. Called inside the library,
    /// this strategy declines.
    fn play(&mut self, field: &mut Field) -> (r: bool)
        ensures
            !r,
            final(field)@ == old(field)@,
            *final(self) == *old(self),
    {
        false
    }

    fn outcome(&mut self, field: &mut Field, state: i32)
        ensures
            final(self).is_init() == old(self).is_init(),
            final(self).pid() == old(self).pid(),
            final(self).is_fixed() == old(self).is_fixed(),
            old(self).games() < u32::MAX ==> final(self).games() == old(self).games() + 1,
            final(self).lr_val() == lr_off_spec(final(self).games() as nat),
            final(self).exploration_val() == exploration_off_spec(final(self).games() as nat),
            old(self).is_fixed() || !old(self).is_init() ==> final(self).buffer() == old(self).buffer(),
            !old(self).is_fixed() && old(self).is_init() ==> final(self).buffer().len() == old(self).buffer().len() && forall|k: int|
                0 <= k < old(self).buffer().len() ==> #[trigger] backfilled_entry(
                    final(self).buffer(),
                    old(self).buffer(),
                    off_reward(old(self).pid(), state),
                    k,
                ),
    {
        self.outcome_core(state);
    }
}

} // verus!