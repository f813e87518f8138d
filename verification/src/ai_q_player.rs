//! The online double-Q learning strategy: feature encoding, epsilon-greedy
//! action choice, the action-masked regression target, an experience buffer
//! with strict first-in-first-out eviction, and the decaying schedules.
//!
//! Values on the approximator's sigmoid output range `[0, 1]` are carried in
//! thousandths, and the learning rate in ten-millionths, so every decision is
//! exact integer arithmetic. The function approximator itself is an outside
//! collaborator: the surrounding program runs it and hands its outputs in;
//! every decision taken on them is made — and verified — here.

use vstd::prelude::*;
use crate::field::{BoardModel, Field};
use crate::minimax_player::op_of;
use crate::player::Player;
use crate::rng::draw_u32;

verus! {

/// Reward for a won game, in thousandths of the output range.
pub const REW_WIN: i64 = 1000;

/// Reward for a lost game.
pub const REW_LOSE: i64 = 0;

/// Reward for an ordinary ply, and for a draw: the midpoint.
pub const REW_NORMAL: i64 = 500;

/// Training signal recorded for a column that broke the rules.
pub const REW_WRONG: i64 = 100;

/// Marks that no move is pending a learning step.
pub const REW_FLAG: i64 = -1000000;

/// The discount factor, in thousandths.
pub const GAMMA_MILLI: i64 = 990;

/// Capacity of the experience replay buffer.
pub const EXP_REP_SIZE: usize = 20000;

/// How many replayed experiences accompany each training step.
pub const EXP_REP_BATCH: u32 = 19;

/// `start` halved `k` times.
pub open spec fn halved(start: int, k: nat) -> int
    decreases k,
{
    if k == 0 {
        start
    } else {
        halved(start, (k - 1) as nat) / 2
    }
}

/// The exploration probability after `games` games, in thousandths: half of
/// the starting rate for every twenty thousand games, but never below the
/// floor.
pub open spec fn exploration_spec(games: nat) -> int {
    let v = halved(500, games / 20000);
    if v < 50 {
        50
    } else {
        v
    }
}

/// The learning rate after `games` games, in ten-millionths: a linear decay
/// down to the floor.
pub open spec fn lr_spec(games: nat) -> int {
    if games >= 99000 {
        1000
    } else {
        100000 - games
    }
}

/// Halving never increases a nonnegative value.
pub proof fn lemma_halved_monotone(start: int, k1: nat, k2: nat)
    requires
        0 <= start,
        k1 <= k2,
    ensures
        0 <= halved(start, k2) <= halved(start, k1) <= start,
    decreases k2,
{
    if k2 > 0 {
        if k1 == k2 {
            lemma_halved_monotone(start, (k1 - 1) as nat, (k2 - 1) as nat);
        } else {
            lemma_halved_monotone(start, k1, (k2 - 1) as nat);
        }
    }
}

/// The exploration probability decays monotonically with games played and
/// never drops below its floor.
pub proof fn lemma_exploration_decays(g1: nat, g2: nat)
    requires
        g1 <= g2,
    ensures
        50 <= exploration_spec(g2) <= exploration_spec(g1) <= 500,
{
    lemma_halved_monotone(500, g1 / 20000, g2 / 20000);
}

/// The learning rate decays monotonically with games played and never drops
/// below its floor.
pub proof fn lemma_lr_decays(g1: nat, g2: nat)
    requires
        g1 <= g2,
    ensures
        1000 <= lr_spec(g2) <= lr_spec(g1) <= 100000,
{
}

/// The double-Q regression target: the convex blend of the immediate reward
/// with the discounted best next action value, renormalized into the output
/// range. In thousandths this is exactly `(1000 r + 990 m) / 1990`.
pub open spec fn q_target_spec(reward: int, max_next: int) -> int {
    (1000 * reward + (GAMMA_MILLI as int) * max_next) / (1000 + GAMMA_MILLI as int)
}

/// The first index holding the maximum of the first `n` entries.
pub open spec fn argmax_in(s: Seq<i64>, n: int) -> int
    decreases n,
{
    if n <= 1 {
        0
    } else {
        let r = argmax_in(s, n - 1);
        if s[n - 1] > s[r] {
            n - 1
        } else {
            r
        }
    }
}

/// The chosen index is in range, holds the maximum, and no earlier entry
/// reaches it.
pub proof fn lemma_argmax_props(s: Seq<i64>, n: int)
    requires
        1 <= n <= s.len(),
    ensures
        0 <= argmax_in(s, n) < n,
        forall|i: int| 0 <= i < n ==> #[trigger] s[i] <= s[argmax_in(s, n)],
        forall|i: int| 0 <= i < argmax_in(s, n) ==> #[trigger] s[i] < s[argmax_in(s, n)],
    decreases n,
{
    if n > 1 {
        lemma_argmax_props(s, n - 1);
    }
}

/// The terminal reward of a finished game from this agent's seat: the win
/// reward, the loss reward, or — on a draw — the reward already pending.
pub open spec fn terminal_reward(pid: i32, pending: i64, state: i32) -> i64 {
    if state == pid {
        REW_WIN
    } else if state == op_of(pid) {
        REW_LOSE
    } else {
        pending
    }
}

/// The occupancy feature of cell `i`: own stone `1`, opponent stone `-1`,
/// empty `0`.
pub open spec fn occ_feature(m: BoardModel, p: i32, i: int) -> i64 {
    if m.cells[i] == p {
        1i64
    } else if m.cells[i] == op_of(p) {
        -1i64
    } else {
        0i64
    }
}

/// The reachability feature of cell `i`: for an empty cell, whether one move
/// could fill it — the cell under it holds a stone or it sits on the floor.
pub open spec fn reach_feature(m: BoardModel, i: int) -> i64 {
    if m.cells[i] != 0 {
        0i64
    } else if i < m.w * m.h - m.w {
        if m.cells[i + m.w] != 0 {
            1i64
        } else {
            0i64
        }
    } else {
        1i64
    }
}

/// The tactical feature of column `c`: whether dropping a stone there would
/// end the game at once for either side.
pub open spec fn win_feature(m: BoardModel, p: i32, c: int) -> i64 {
    if !m.can_play(p, c) {
        0i64
    } else if m.play_result(p, c).state() != 0 && m.play_result(p, c).state() != -1 {
        1i64
    } else if m.play_result(op_of(p), c).state() != 0 && m.play_result(op_of(p), c).state() != -1 {
        1i64
    } else {
        0i64
    }
}

/// The first `2n` entries of the encoding: occupancy and reachability of the
/// cells below index `n`, in order.
pub open spec fn cell_feats(m: BoardModel, p: i32, n: int) -> Seq<i64>
    decreases n,
{
    if n <= 0 {
        Seq::empty()
    } else {
        cell_feats(m, p, n - 1).push(occ_feature(m, p, n - 1)).push(reach_feature(m, n - 1))
    }
}

/// The tactical features of the columns below `n`, in order.
pub open spec fn col_feats(m: BoardModel, p: i32, n: int) -> Seq<i64>
    decreases n,
{
    if n <= 0 {
        Seq::empty()
    } else {
        col_feats(m, p, n - 1).push(win_feature(m, p, n - 1))
    }
}

/// The whole encoded view of a board: two features per cell, one per column,
/// and the starting-player feature.
pub open spec fn input_spec(m: BoardModel, p: i32, sp: i64) -> Seq<i64> {
    cell_feats(m, p, (m.w * m.h) as int) + col_feats(m, p, m.w as int) + seq![sp]
}

proof fn lemma_cell_feats_index(m: BoardModel, p: i32, n: int)
    requires
        0 <= n,
    ensures
        cell_feats(m, p, n).len() == 2 * n,
        forall|k: int|
            0 <= k < n ==> cell_feats(m, p, n)[2 * k] == #[trigger] occ_feature(m, p, k)
                && cell_feats(m, p, n)[2 * k + 1] == reach_feature(m, k),
    decreases n,
{
    if n > 0 {
        lemma_cell_feats_index(m, p, n - 1);
        let s0 = cell_feats(m, p, n - 1);
        let a = occ_feature(m, p, n - 1);
        let b = reach_feature(m, n - 1);
        let t = s0.push(a);
        let u = t.push(b);
        assert(cell_feats(m, p, n) == u);
        assert forall|k: int|
            0 <= k < n implies u[2 * k] == occ_feature(m, p, k) && u[2 * k + 1] == reach_feature(
            m,
            k,
        ) by {
            if k < n - 1 {
                vstd::seq::axiom_seq_push_index_different(t, b, 2 * k);
                vstd::seq::axiom_seq_push_index_different(s0, a, 2 * k);
                vstd::seq::axiom_seq_push_index_different(t, b, 2 * k + 1);
                vstd::seq::axiom_seq_push_index_different(s0, a, 2 * k + 1);
            } else {
                assert(2 * k == s0.len());
                vstd::seq::axiom_seq_push_index_same(s0, a, 2 * k);
                vstd::seq::axiom_seq_push_index_different(t, b, 2 * k);
                vstd::seq::axiom_seq_push_index_same(t, b, 2 * k + 1);
            }
        };
    }
}

proof fn lemma_col_feats_index(m: BoardModel, p: i32, n: int)
    requires
        0 <= n,
    ensures
        col_feats(m, p, n).len() == n,
        forall|c: int| 0 <= c < n ==> col_feats(m, p, n)[c] == #[trigger] win_feature(m, p, c),
    decreases n,
{
    if n > 0 {
        lemma_col_feats_index(m, p, n - 1);
    }
}

/// Where each feature of the encoding sits: cell features pairwise from the
/// front, then one tactical feature per column, then the starting player.
pub proof fn lemma_input_spec_index(m: BoardModel, p: i32, sp: i64)
    ensures
        input_spec(m, p, sp).len() == 2 * (m.w * m.h) + m.w + 1,
        forall|k: int|
            0 <= k < m.w * m.h ==> input_spec(m, p, sp)[2 * k] == #[trigger] occ_feature(m, p, k)
                && input_spec(m, p, sp)[2 * k + 1] == reach_feature(m, k),
        forall|c: int|
            0 <= c < m.w ==> input_spec(m, p, sp)[2 * (m.w * m.h) + c] == #[trigger] win_feature(
                m,
                p,
                c,
            ),
        input_spec(m, p, sp)[2 * (m.w * m.h) + m.w] == sp,
{
    lemma_cell_feats_index(m, p, (m.w * m.h) as int);
    lemma_col_feats_index(m, p, m.w as int);
    let a = cell_feats(m, p, (m.w * m.h) as int);
    let b = col_feats(m, p, m.w as int);
    let ab = a + b;
    let s = ab + seq![sp];
    assert(input_spec(m, p, sp) == s);
    assert forall|k: int|
        0 <= k < m.w * m.h implies s[2 * k] == occ_feature(m, p, k) && s[2 * k + 1]
        == reach_feature(m, k) by {
        vstd::seq::axiom_seq_add_index1(ab, seq![sp], 2 * k);
        vstd::seq::axiom_seq_add_index1(a, b, 2 * k);
        vstd::seq::axiom_seq_add_index1(ab, seq![sp], 2 * k + 1);
        vstd::seq::axiom_seq_add_index1(a, b, 2 * k + 1);
    };
    assert forall|c: int|
        0 <= c < m.w implies s[2 * (m.w * m.h) + c] == win_feature(m, p, c) by {
        vstd::seq::axiom_seq_add_index1(ab, seq![sp], 2 * (m.w * m.h) + c);
        vstd::seq::axiom_seq_add_index2(a, b, 2 * (m.w * m.h) + c);
    };
    vstd::seq::axiom_seq_add_index2(ab, seq![sp], 2 * (m.w * m.h) + m.w);
    assert(s[2 * (m.w * m.h) + m.w] == seq![sp][0]);
}

/// One stored transition: encoded state, chosen action, reward, encoded next
/// state.
pub struct Experience {
    pub state: Vec<i64>,
    pub action: usize,
    pub reward: i64,
    pub next_state: Vec<i64>,
}

/// The double-Q agent's own state: everything but the two approximators,
/// which the surrounding program owns and runs.
pub struct PlayerAIQ {
    initialized: bool,
    fixed: bool,
    pid: i32,
    games_played: u32,
    lr: i64,
    exploration: i64,
    explore: bool,
    startp: i64,
    exp_buffer: Vec<Experience>,
    memstate: Vec<i64>,
    memqval: Vec<i64>,
    memreward: i64,
    memplay: u32,
}

impl PlayerAIQ {
    pub closed spec fn is_fixed(&self) -> bool {
        self.fixed
    }

    pub closed spec fn explores(&self) -> bool {
        self.explore
    }

    pub closed spec fn games(&self) -> u32 {
        self.games_played
    }

    pub closed spec fn lr_val(&self) -> i64 {
        self.lr
    }

    pub closed spec fn exploration_val(&self) -> i64 {
        self.exploration
    }

    pub closed spec fn start_feature(&self) -> i64 {
        self.startp
    }

    pub closed spec fn buffer(&self) -> Seq<Experience> {
        self.exp_buffer@
    }

    pub closed spec fn mem_state(&self) -> Seq<i64> {
        self.memstate@
    }

    pub closed spec fn mem_qval(&self) -> Seq<i64> {
        self.memqval@
    }

    pub closed spec fn mem_reward(&self) -> i64 {
        self.memreward
    }

    pub closed spec fn mem_play(&self) -> u32 {
        self.memplay
    }

    pub fn new(fix: bool, exp: bool) -> (r: Box<PlayerAIQ>)
        ensures
            !r.is_init(),
            r.is_fixed() == fix,
            r.explores() == exp,
            r.games() == 0,
            r.lr_val() == lr_spec(0),
            r.exploration_val() == exploration_spec(0),
            r.buffer() == Seq::<Experience>::empty(),
            r.mem_reward() == REW_FLAG,
    {
        let b = Box::new(
            PlayerAIQ {
                initialized: false,
                fixed: fix,
                pid: 0,
                games_played: 0,
                lr: 100000,
                exploration: 500,
                explore: exp,
                startp: 0,
                exp_buffer: Vec::new(),
                memstate: Vec::new(),
                memqval: Vec::new(),
                memreward: REW_FLAG,
                memplay: 0,
            },
        );
        proof {
            assert(b.exp_buffer@ =~= Seq::<Experience>::empty());
        }
        b
    }

    /// `start` halved `k` times, never leaving `[0, start]`.
    fn halved_exec(start: i64, k: u32) -> (r: i64)
        requires
            0 <= start,
        ensures
            r == halved(start as int, k as nat),
            0 <= r <= start,
    {
        let mut v = start;
        let mut i: u32 = 0;
        while i < k
            invariant
                0 <= v <= start,
                i <= k,
                v == halved(start as int, i as nat),
            decreases k - i,
        {
            v = v / 2;
            i = i + 1;
        }
        v
    }

    pub fn get_exploration(&self) -> (r: i64)
        ensures
            r == exploration_spec(self.games() as nat),
    {
        let k = self.games_played / 20000;
        let v = Self::halved_exec(500, k);
        if v < 50 {
            50
        } else {
            v
        }
    }

    pub fn get_lr(&self) -> (r: i64)
        ensures
            r == lr_spec(self.games() as nat),
    {
        if self.games_played >= 99000 {
            1000
        } else {
            100000 - (self.games_played as i64)
        }
    }

    /// The first index of the greatest entry.
    pub fn argmax(slice: &[i64]) -> (r: u32)
        requires
            1 <= slice@.len() <= u32::MAX,
        ensures
            r == argmax_in(slice@, slice@.len() as int),
            r < slice@.len(),
    {
        let n = slice.len();
        let mut x: usize = 0;
        let mut max = slice[0];
        let mut i: usize = 1;
        while i < n
            invariant
                n == slice@.len(),
                1 <= n <= u32::MAX,
                x < i <= n,
                max == slice@[x as int],
                x as int == argmax_in(slice@, i as int),
            decreases n - i,
        {
            if max < slice[i] {
                x = i;
                max = slice[i];
            }
            i = i + 1;
        }
        x as u32
    }

    /// The exact double-Q regression target.
    pub fn q_target(reward: i64, max_next: i64) -> (r: i64)
        requires
            0 <= reward <= 1000000,
            0 <= max_next <= 1000000,
        ensures
            r == q_target_spec(reward as int, max_next as int),
    {
        (1000 * reward + 990 * max_next) / 1990
    }

    /// The training target recomputed for a replayed transition: a terminal
    /// reward is taken literally, anything else is blended with the target
    /// network's best next action value.
    pub fn replay_target(reward: i64, max_next: i64) -> (r: i64)
        requires
            0 <= reward <= 1000000,
            0 <= max_next <= 1000000,
        ensures
            reward == REW_LOSE || reward == REW_WIN ==> r == reward,
            reward != REW_LOSE && reward != REW_WIN ==> r == q_target_spec(
                reward as int,
                max_next as int,
            ),
    {
        if reward == REW_LOSE || reward == REW_WIN {
            reward
        } else {
            Self::q_target(reward, max_next)
        }
    }
}

impl PlayerAIQ {
    /// The encoded view of the board for the approximator. Probing the
    /// tactical features plays and undoes trial moves; the board comes back
    /// exactly as it was.
    pub fn field_to_input(field: &mut Field, p: i32, startp: i64) -> (r: Vec<i64>)
        requires
            old(field)@.wf(),
            1 <= p <= 2,
            2 * (old(field)@.w * old(field)@.h) + old(field)@.w + 1 <= usize::MAX,
        ensures
            final(field)@ == old(field)@,
            r@ == input_spec(old(field)@, p, startp),
    {
        let ghost m = old(field)@;
        let op = crate::minimax_player::other_of(p);
        let w = field.get_w();
        let size = field.get_size();
        let mut input: Vec<i64> = Vec::new();
        proof {
            assert(m.w * m.h >= m.w) by (nonlinear_arith)
                requires
                    m.h >= 1,
                    m.w >= 0,
            ;
            lemma_cell_feats_index(m, p, (m.w * m.h) as int);
            lemma_col_feats_index(m, p, m.w as int);
        }
        let mut i: usize = 0;
        while i < size as usize
            invariant
                field@ == m,
                m.wf(),
                1 <= p <= 2,
                op == op_of(p),
                w == m.w,
                size == m.w * m.h,
                2 * (m.w * m.h) + m.w + 1 <= usize::MAX,
                i <= size,
                m.w * m.h >= m.w,
                cell_feats(m, p, i as int).len() == 2 * i,
                input@ == cell_feats(m, p, i as int),
            decreases size - i,
        {
            let cells = field.get_field();
            let v = cells[i];
            let f0: i64 = if v == p {
                1
            } else if v == op {
                -1
            } else {
                0
            };
            let f1: i64 = if v != 0 {
                0
            } else if (i as u32) < size - w {
                if cells[i + w as usize] != 0 {
                    1
                } else {
                    0
                }
            } else {
                1
            };
            input.push(f0);
            input.push(f1);
            proof {
                assert(f0 == occ_feature(m, p, i as int));
                assert(f1 == reach_feature(m, i as int));
                lemma_cell_feats_index(m, p, i + 1);
            }
            i = i + 1;
        }
        let mut c: u32 = 0;
        while c < w
            invariant
                field@ == m,
                m.wf(),
                1 <= p <= 2,
                op == op_of(p),
                w == m.w,
                size == m.w * m.h,
                2 * (m.w * m.h) + m.w + 1 <= usize::MAX,
                c <= w,
                input@ == cell_feats(m, p, (m.w * m.h) as int) + col_feats(m, p, c as int),
            decreases w - c,
        {
            let mut feat: i64 = 0;
            if field.play(p, c) {
                proof {
                    m.lemma_play_wf(p, c as int);
                }
                let st = field.get_state();
                if st == -1 || st == 0 {
                    field.undo();
                    proof {
                        m.lemma_play_undo(p, c as int);
                        m.lemma_play_wf(op, c as int);
                    }
                    field.play(op, c);
                    let st2 = field.get_state();
                    if !(st2 == -1 || st2 == 0) {
                        feat = 1;
                    }
                    field.undo();
                    proof {
                        m.lemma_play_undo(op, c as int);
                    }
                } else {
                    feat = 1;
                    field.undo();
                    proof {
                        m.lemma_play_undo(p, c as int);
                    }
                }
            }
            proof {
                assert(feat == win_feature(m, p, c as int));
            }
            input.push(feat);
            proof {
                assert(input@ =~= cell_feats(m, p, (m.w * m.h) as int) + col_feats(
                    m,
                    p,
                    c as int + 1,
                ));
            }
            c = c + 1;
        }
        input.push(startp);
        proof {
            assert(input@ =~= input_spec(m, p, startp));
        }
        input
    }

    /// Rebinds the agent to the given player id with its fresh learned state
    /// untouched; a persisted state, when one exists, is restored afterwards
    /// through `resume` and `restore_experience`.
    pub fn init_core(&mut self, p: i32) -> (r: bool)
        ensures
            r,
            final(self).is_init(),
            final(self).pid() == p,
            final(self).is_fixed() == old(self).is_fixed(),
            final(self).explores() == old(self).explores(),
            final(self).games() == old(self).games(),
            final(self).buffer() == old(self).buffer(),
            final(self).mem_reward() == old(self).mem_reward(),
            final(self).lr_val() == old(self).lr_val(),
            final(self).exploration_val() == old(self).exploration_val(),
            final(self).start_feature() == old(self).start_feature(),
            final(self).mem_state() == old(self).mem_state(),
            final(self).mem_qval() == old(self).mem_qval(),
            final(self).mem_play() == old(self).mem_play(),
    {
        self.pid = p;
        self.initialized = true;
        true
    }

    /// Restores the games-played counter of a persisted agent and recomputes
    /// both schedules from it, so a reloaded agent behaves exactly like the
    /// one that was saved.
    pub fn resume(&mut self, games: u32)
        ensures
            final(self).games() == games,
            final(self).lr_val() == lr_spec(games as nat),
            final(self).exploration_val() == exploration_spec(games as nat),
            final(self).is_init() == old(self).is_init(),
            final(self).pid() == old(self).pid(),
            final(self).is_fixed() == old(self).is_fixed(),
            final(self).explores() == old(self).explores(),
            final(self).buffer() == old(self).buffer(),
            final(self).mem_reward() == old(self).mem_reward(),
            final(self).start_feature() == old(self).start_feature(),
            final(self).mem_state() == old(self).mem_state(),
            final(self).mem_qval() == old(self).mem_qval(),
            final(self).mem_play() == old(self).mem_play(),
    {
        self.games_played = games;
        self.lr = self.get_lr();
        self.exploration = self.get_exploration();
    }

    /// Replaces the replay buffer with restored contents.
    pub fn restore_experience(&mut self, buf: Vec<Experience>)
        requires
            buf@.len() <= EXP_REP_SIZE,
        ensures
            final(self).buffer() == buf@,
            final(self).is_init() == old(self).is_init(),
            final(self).pid() == old(self).pid(),
            final(self).games() == old(self).games(),
            final(self).mem_reward() == old(self).mem_reward(),
            final(self).is_fixed() == old(self).is_fixed(),
            final(self).explores() == old(self).explores(),
            final(self).lr_val() == old(self).lr_val(),
            final(self).exploration_val() == old(self).exploration_val(),
            final(self).start_feature() == old(self).start_feature(),
            final(self).mem_state() == old(self).mem_state(),
            final(self).mem_qval() == old(self).mem_qval(),
            final(self).mem_play() == old(self).mem_play(),
    {
        self.exp_buffer = buf;
    }

    /// The learning step before the next move: the pending action's entry of
    /// the remembered outputs is regressed toward the double-Q target built
    /// from the target network's outputs on the next state.
    pub fn learn_update(&mut self, next_q: &[i64])
        requires
            1 <= next_q@.len() <= u32::MAX,
            forall|i: int| 0 <= i < next_q@.len() ==> 0 <= #[trigger] next_q@[i] <= 1000000,
            0 <= old(self).mem_reward() <= 1000000,
            old(self).mem_play() < old(self).mem_qval().len(),
        ensures
            final(self).mem_qval() == old(self).mem_qval().update(
                old(self).mem_play() as int,
                q_target_spec(
                    old(self).mem_reward() as int,
                    next_q@[argmax_in(next_q@, next_q@.len() as int)] as int,
                ) as i64,
            ),
            final(self).mem_play() == old(self).mem_play(),
            final(self).mem_reward() == old(self).mem_reward(),
            final(self).mem_state() == old(self).mem_state(),
            final(self).buffer() == old(self).buffer(),
            final(self).games() == old(self).games(),
            final(self).is_init() == old(self).is_init(),
            final(self).pid() == old(self).pid(),
            final(self).is_fixed() == old(self).is_fixed(),
            final(self).explores() == old(self).explores(),
            final(self).start_feature() == old(self).start_feature(),
    {
        let mx_i = Self::argmax(next_q);
        let mx = next_q[mx_i as usize];
        let t = Self::q_target(self.memreward, mx);
        let idx = self.memplay as usize;
        self.memqval[idx] = t;
    }

    /// Appends a transition to the replay buffer; at capacity the oldest
    /// entry leaves first — eviction is strictly first in, first out.
    pub fn push_experience(&mut self, e: Experience)
        requires
            old(self).buffer().len() <= EXP_REP_SIZE,
        ensures
            old(self).buffer().len() < EXP_REP_SIZE ==> final(self).buffer() == old(self).buffer().push(e),
            old(self).buffer().len() == EXP_REP_SIZE ==> final(self).buffer() == old(self).buffer().drop_first().push(e),
            final(self).buffer().len() <= EXP_REP_SIZE,
            final(self).mem_reward() == old(self).mem_reward(),
            final(self).games() == old(self).games(),
            final(self).is_init() == old(self).is_init(),
            final(self).pid() == old(self).pid(),
            final(self).is_fixed() == old(self).is_fixed(),
            final(self).explores() == old(self).explores(),
            final(self).lr_val() == old(self).lr_val(),
            final(self).exploration_val() == old(self).exploration_val(),
            final(self).start_feature() == old(self).start_feature(),
            final(self).mem_state() == old(self).mem_state(),
            final(self).mem_qval() == old(self).mem_qval(),
            final(self).mem_play() == old(self).mem_play(),
    {
        if self.exp_buffer.len() >= EXP_REP_SIZE {
            self.exp_buffer.remove(0);
            proof {
                assert(self.exp_buffer@ =~= old(self).buffer().drop_first());
            }
        }
        self.exp_buffer.push(e);
    }
}

impl PlayerAIQ {
    /// One acting step: remember the approximator's outputs, choose the
    /// greatest-rated column — or, for a learning agent with exploration on,
    /// draw a uniform column with the exploration probability; a fixed agent
    /// never draws noise — and drop the stone. An illegal first choice
    /// records the rule-violation signal on that column's entry and falls
    /// back to a uniformly chosen playable column. Succeeds exactly when the
    /// agent is bound to a real player id and some column is playable.
    pub fn choose_and_play(&mut self, field: &mut Field, state: Vec<i64>, qvals: &[i64]) -> (r:
        bool)
        requires
            old(self).is_init(),
            old(field)@.wf(),
            1 <= qvals@.len() <= u32::MAX,
            qvals@.len() == old(field)@.w,
        ensures
            final(field)@.wf(),
            !r ==> final(field)@ == old(field)@,
            r <==> (1 <= old(self).pid() <= 2 && exists|c: int| old(field)@.valid_play(c)),
            r ==> exists|c: int|
                old(field)@.valid_play(c) && final(field)@ == old(field)@.play_result(
                    old(self).pid(),
                    c,
                ) && final(self).mem_play() == c,
            r ==> exists|c0: int|
                #![auto]
                0 <= c0 < qvals@.len() && (c0 == argmax_in(qvals@, qvals@.len() as int) || (!old(self).is_fixed() && old(self).explores())) && (old(field)@.valid_play(c0) ==> final(field)@ == old(field)@.play_result(old(self).pid(), c0) && final(self).mem_play() == c0
                    && final(self).mem_qval() == qvals@) && (!old(field)@.valid_play(c0) ==> final(self).mem_qval() == qvals@.update(c0, REW_WRONG)),
            r && (old(self).is_fixed() || !old(self).explores()) && old(field)@.valid_play(
                argmax_in(qvals@, qvals@.len() as int),
            ) ==> final(self).mem_play() == argmax_in(qvals@, qvals@.len() as int) && final(field)@ == old(field)@.play_result(
                old(self).pid(),
                argmax_in(qvals@, qvals@.len() as int),
            ) && final(self).mem_qval() == qvals@,
            r ==> final(self).mem_reward() == REW_NORMAL,
            r ==> final(self).mem_state() == state@,
            r ==> final(self).mem_qval().len() == qvals@.len() && final(self).mem_play()
                < qvals@.len(),
            final(self).is_init() == old(self).is_init(),
            final(self).pid() == old(self).pid(),
            final(self).games() == old(self).games(),
            final(self).buffer() == old(self).buffer(),
            final(self).is_fixed() == old(self).is_fixed(),
            final(self).explores() == old(self).explores(),
            final(self).start_feature() == old(self).start_feature(),
            final(self).lr_val() == old(self).lr_val(),
            final(self).exploration_val() == old(self).exploration_val(),
    {
        if self.pid < 1 || self.pid > 2 {
            return false;
        }
        let ghost m = old(field)@;
        let w = field.get_w();
        self.memqval = vstd::slice::slice_to_vec(qvals);
        self.memplay = PlayerAIQ::argmax(qvals);
        if !self.fixed && self.explore {
            let e_draw = draw_u32() % 1000;
            if (e_draw as i64) < self.exploration {
                self.memplay = draw_u32() % w;
            }
        }
        self.memreward = REW_NORMAL;
        let res = field.play(self.pid, self.memplay);
        if !res {
            let c0 = self.memplay as usize;
            self.memqval[c0] = REW_WRONG;
            let mut legal: Vec<u32> = Vec::new();
            let mut x: u32 = 0;
            while x < w
                invariant
                    field@ == m,
                    field@.wf(),
                    w == m.w,
                    x <= w,
                    forall|j: int|
                        0 <= j < legal@.len() ==> m.valid_play(#[trigger] legal@[j] as int),
                    forall|c: int| 0 <= c < x && m.valid_play(c) ==> legal@.len() > 0,
                decreases w - x,
            {
                if field.is_valid_play(x) {
                    legal.push(x);
                }
                x = x + 1;
            }
            if legal.len() == 0 {
                proof {
                    assert(forall|c: int| #[trigger] m.valid_play(c) ==> 0 <= c < w);
                }
                return false;
            }
            let pick = (draw_u32() as usize) % legal.len();
            let c = legal[pick];
            proof {
                assert(m.valid_play(legal@[pick as int] as int));
            }
            self.memplay = c;
            field.play(self.pid, c);
        }
        self.memstate = state;
        true
    }
}

impl PlayerAIQ {
    pub fn get_games_played(&self) -> (r: u32)
        ensures
            r == self.games(),
    {
        self.games_played
    }

    pub fn get_memqval(&self) -> (r: &Vec<i64>)
        ensures
            r@ == self.mem_qval(),
    {
        &self.memqval
    }

    pub fn get_memstate(&self) -> (r: &Vec<i64>)
        ensures
            r@ == self.mem_state(),
    {
        &self.memstate
    }

    pub fn get_memplay(&self) -> (r: u32)
        ensures
            r == self.mem_play(),
    {
        self.memplay
    }

    pub fn get_memreward(&self) -> (r: i64)
        ensures
            r == self.mem_reward(),
    {
        self.memreward
    }

    pub fn buffer_len(&self) -> (r: usize)
        ensures
            r == self.buffer().len(),
    {
        self.exp_buffer.len()
    }

    pub fn get_experience(&self, i: usize) -> (r: &Experience)
        requires
            i < self.buffer().len(),
        ensures
            *r == self.buffer()[i as int],
    {
        &self.exp_buffer[i]
    }
}

impl Player for PlayerAIQ {
    closed spec fn is_init(&self) -> bool {
        self.initialized
    }

    closed spec fn pid(&self) -> i32 {
        self.pid
    }

    fn init(&mut self, field: &Field, p: i32) -> (r: bool)
        ensures
            r,
            final(self).is_init(),
            final(self).pid() == p,
            final(self).is_fixed() == old(self).is_fixed(),
            final(self).explores() == old(self).explores(),
            final(self).games() == old(self).games(),
            final(self).buffer() == old(self).buffer(),
            final(self).mem_reward() == old(self).mem_reward(),
            final(self).lr_val() == old(self).lr_val(),
            final(self).exploration_val() == old(self).exploration_val(),
            final(self).start_feature() == old(self).start_feature(),
            final(self).mem_state() == old(self).mem_state(),
            final(self).mem_qval() == old(self).mem_qval(),
            final(self).mem_play() == old(self).mem_play(),
    {
        self.init_core(p)
    }

    /// Remembers who opens the game: `1` when this agent does, `-1` when the
    /// opponent does.
    fn startp(&mut self, p: i32)
        ensures
            final(self).start_feature() == (if p == old(self).pid() {
                1i64
            } else {
                -1i64
            }),
            final(self).is_init() == old(self).is_init(),
            final(self).pid() == old(self).pid(),
            final(self).is_fixed() == old(self).is_fixed(),
            final(self).explores() == old(self).explores(),
            final(self).mem_reward() == old(self).mem_reward(),
            final(self).buffer() == old(self).buffer(),
            final(self).games() == old(self).games(),
    {
        if p == self.pid {
            self.startp = 1;
        } else {
            self.startp = -1;
        }
    }

    /// Acting needs the approximator's outputs, which only the surrounding
    /// program can run; it encodes the state with `field_to_input`, runs the
    /// network, and steps the agent with `choose_and_play`. Called inside the
    /// library, this strategy declines.
    fn play(&mut self, field: &mut Field) -> (r: bool)
        ensures
            !r,
            final(field)@ == old(field)@,
            *final(self) == *old(self),
    {
        false
    }

    /// The terminal bookkeeping of a finished game, when a move of a
    /// learning agent is pending: the terminal reward replaces the pending
    /// action's target outright — no bootstrap blending — a decisive game's
    /// terminal transition is kept for replay with an empty next state, the
    /// pending flag is cleared, and the counters and schedules advance.
    /// Training on the stored pair and target-network synchronization happen
    /// outside, on the approximators; a fixed agent only advances the
    /// counters.
    fn outcome(&mut self, field: &mut Field, state: i32)
        ensures
            old(self).games() < u32::MAX ==> final(self).games() == old(self).games() + 1,
            old(self).games() == u32::MAX ==> final(self).games() == u32::MAX,
            final(self).lr_val() == lr_spec(final(self).games() as nat),
            final(self).exploration_val() == exploration_spec(final(self).games() as nat),
            final(self).mem_reward() == REW_FLAG,
            final(self).is_init() == old(self).is_init(),
            final(self).pid() == old(self).pid(),
            final(self).is_fixed() == old(self).is_fixed(),
            final(self).explores() == old(self).explores(),
            final(self).start_feature() == old(self).start_feature(),
            final(self).mem_state() == old(self).mem_state(),
            final(self).mem_play() == old(self).mem_play(),
            ({
                let pending = !old(self).is_fixed() && old(self).mem_reward() != REW_FLAG && old(self).mem_play() < old(self).mem_qval().len();
                let rew = terminal_reward(old(self).pid(), old(self).mem_reward(), state);
                &&& (pending ==> final(self).mem_qval() == old(self).mem_qval().update(
                    old(self).mem_play() as int,
                    rew,
                ))
                &&& (!pending ==> final(self).mem_qval() == old(self).mem_qval())
                &&& (pending && rew != REW_NORMAL && old(self).buffer().len() <= EXP_REP_SIZE
                    ==> {
                    &&& final(self).buffer().len() >= 1
                    &&& final(self).buffer().last().state@ == old(self).mem_state()
                    &&& final(self).buffer().last().action == old(self).mem_play() as usize
                    &&& final(self).buffer().last().reward == rew
                    &&& final(self).buffer().last().next_state@ == Seq::<i64>::empty()
                    &&& (old(self).buffer().len() < EXP_REP_SIZE ==> final(self).buffer().drop_last() == old(self).buffer())
                    &&& (old(self).buffer().len() == EXP_REP_SIZE ==> final(self).buffer().drop_last() == old(self).buffer().drop_first())
                    &&& final(self).buffer().len() <= EXP_REP_SIZE
                })
                &&& (pending && (rew == REW_NORMAL || old(self).buffer().len() > EXP_REP_SIZE)
                    ==> final(self).buffer() == old(self).buffer())
                &&& (!pending ==> final(self).buffer() == old(self).buffer())
            }),
    {
        if !self.fixed && self.memreward != REW_FLAG && (self.memplay as usize)
            < self.memqval.len() {
            let op = crate::minimax_player::other_of(self.pid);
            if state == self.pid {
                self.memreward = REW_WIN;
            } else if state == op {
                self.memreward = REW_LOSE;
            }
            proof {
                assert(self.memreward == terminal_reward(
                    old(self).pid(),
                    old(self).mem_reward(),
                    state,
                ));
            }
            let idx = self.memplay as usize;
            let rw = self.memreward;
            self.memqval[idx] = rw;
            if self.memreward != REW_NORMAL && self.exp_buffer.len() <= EXP_REP_SIZE {
                let st = vstd::slice::slice_to_vec(self.memstate.as_slice());
                let e = Experience {
                    state: st,
                    action: self.memplay as usize,
                    reward: self.memreward,
                    next_state: Vec::new(),
                };
                proof {
                    assert(e.next_state@ =~= Seq::<i64>::empty());
                }
                self.push_experience(e);
            }
        }
        if self.games_played < u32::MAX {
            self.games_played = self.games_played + 1;
        }
        self.lr = self.get_lr();
        self.exploration = self.get_exploration();
        self.memreward = REW_FLAG;
    }
}

} // verus!
