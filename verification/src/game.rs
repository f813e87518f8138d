//! The match controller: it binds two strategies to the two player ids,
//! alternates them against the board until the game ends, dispatches the
//! outcome to both, and aggregates win, draw and loss tallies over repeated
//! games with a switching starting player.

use vstd::prelude::*;
use crate::ai_q_player::PlayerAIQ;
use crate::ai_qoff_player::PlayerAIQOff;
use crate::ai_value_player::PlayerAIValue;
use crate::field::{apply_plays, lemma_plays_snoc, plays_ok, BoardModel, Field};
use crate::io_player::PlayerIO;
use crate::minimax_player::{lemma_running_has_playable, op_of, PlayerMinimax};
use crate::player::Player;
use crate::random_player::PlayerRandom;

verus! {

/// The selectable strategy kinds.
#[derive(Debug, Clone, Copy, PartialEq, Eq, Structural)]
pub enum PlayerType {
    Nobody,
    IO,
    Random,
    AIQ,
    AIQFixed,
    AIQPlay,
    Minimax,
    AIQOff,
    AIQOffFixed,
    AIValue,
}

/// One bound strategy of any kind.
enum AnyPlayer {
    IOP(Box<PlayerIO>),
    Rand(Box<PlayerRandom>),
    Mini(Box<PlayerMinimax>),
    Q(Box<PlayerAIQ>),
    QOff(Box<PlayerAIQOff>),
    Value(Box<PlayerAIValue>),
}

/// The kind a bound strategy was built from.
spec fn slot_kind(s: Option<AnyPlayer>) -> PlayerType {
    match s {
        Option::None => PlayerType::Nobody,
        Option::Some(pl) => match pl {
            AnyPlayer::IOP(_) => PlayerType::IO,
            AnyPlayer::Rand(_) => PlayerType::Random,
            AnyPlayer::Mini(_) => PlayerType::Minimax,
            AnyPlayer::Q(q) => if !q.is_fixed() {
                PlayerType::AIQ
            } else if q.explores() {
                PlayerType::AIQFixed
            } else {
                PlayerType::AIQPlay
            },
            AnyPlayer::QOff(q) => if q.is_fixed() {
                PlayerType::AIQOffFixed
            } else {
                PlayerType::AIQOff
            },
            AnyPlayer::Value(_) => PlayerType::AIValue,
        },
    }
}

/// An empty slot, or a strategy initialized for the given player id.
spec fn slot_ok(s: Option<AnyPlayer>, id: i32) -> bool {
    match s {
        Option::None => true,
        Option::Some(pl) => match pl {
            AnyPlayer::IOP(p) => p.is_init() && p.pid() == id,
            AnyPlayer::Rand(p) => p.is_init() && p.pid() == id,
            AnyPlayer::Mini(p) => p.is_init() && p.pid() == id,
            AnyPlayer::Q(p) => p.is_init() && p.pid() == id,
            AnyPlayer::QOff(p) => p.is_init() && p.pid() == id,
            AnyPlayer::Value(p) => p.is_init() && p.pid() == id,
        },
    }
}

/// The kinds whose whole playing loop lives inside this library: the console
/// strategy waits on the console, and the learning strategies on their
/// approximators, so their matches are driven by the surrounding program.
pub open spec fn drivable_kind(k: PlayerType) -> bool {
    k == PlayerType::Random || k == PlayerType::Minimax
}

/// How many games of a log ended in the given state.
pub open spec fn count_state(log: Seq<i32>, v: i32) -> nat
    decreases log.len(),
{
    if log.len() == 0 {
        0
    } else {
        count_state(log.drop_last(), v) + if log.last() == v {
            1nat
        } else {
            0nat
        }
    }
}

/// Stepping a counter across a multiple of `d` raises its quotient by one;
/// any other step keeps it.
proof fn lemma_div_step(i: int, d: int)
    requires
        1 <= d,
        1 <= i,
    ensures
        i % d == 0 ==> i / d == (i - 1) / d + 1,
        i % d != 0 ==> i / d == (i - 1) / d,
{
    vstd::arithmetic::div_mod::lemma_fundamental_div_mod(i, d);
    vstd::arithmetic::div_mod::lemma_mod_bound(i, d);
    let q = i / d;
    let r = i % d;
    if r == 0 {
        assert((q - 1) * d + (d - 1) == i - 1) by (nonlinear_arith)
            requires
                i == d * q + r,
                r == 0,
        ;
        vstd::arithmetic::div_mod::lemma_fundamental_div_mod_converse(i - 1, d, q - 1, d - 1);
    } else {
        assert(q * d + (r - 1) == i - 1) by (nonlinear_arith)
            requires
                i == d * q + r,
        ;
        vstd::arithmetic::div_mod::lemma_fundamental_div_mod_converse(i - 1, d, q, r - 1);
    }
}

/// The match controller.
pub struct Game {
    field: Field,
    p1: Option<AnyPlayer>,
    p2: Option<AnyPlayer>,
    startp: u32,
    p1_wins: u32,
    draws: u32,
    p2_wins: u32,
    games_log: Ghost<Seq<i32>>,
}

impl Game {
    pub closed spec fn board(self) -> BoardModel {
        self.field@
    }

    pub closed spec fn p1_kind(self) -> PlayerType {
        slot_kind(self.p1)
    }

    pub closed spec fn p2_kind(self) -> PlayerType {
        slot_kind(self.p2)
    }

    pub closed spec fn start_player(self) -> u32 {
        self.startp
    }

    /// The accumulated (player 1 wins, draws, player 2 wins) of the last run.
    pub closed spec fn results(self) -> (u32, u32, u32) {
        (self.p1_wins, self.draws, self.p2_wins)
    }

    /// The terminal states of the games of the last run, in play order.
    pub closed spec fn game_log(self) -> Seq<i32> {
        self.games_log@
    }

    pub closed spec fn ready(self) -> bool {
        self.p1 is Some && self.p2 is Some
    }

    /// Both strategies can be driven to a finished game inside the library.
    pub open spec fn drivable(self) -> bool {
        drivable_kind(self.p1_kind()) && drivable_kind(self.p2_kind())
    }

    pub closed spec fn wf(self) -> bool {
        &&& self.field@.wf()
        &&& slot_ok(self.p1, 1)
        &&& slot_ok(self.p2, 2)
        &&& 1 <= self.startp <= 2
    }

    pub fn new() -> (r: Game)
        ensures
            r.wf(),
            r.board() == BoardModel::empty(7, 6),
            r.p1_kind() == PlayerType::Nobody,
            r.p2_kind() == PlayerType::Nobody,
            r.start_player() == 1,
            r.results() == (0u32, 0u32, 0u32),
            !r.ready(),
    {
        Game {
            field: Field::new(7, 6),
            p1: None,
            p2: None,
            startp: 1,
            p1_wins: 0,
            draws: 0,
            p2_wins: 0,
            games_log: Ghost(Seq::empty()),
        }
    }

    fn map_player(p: PlayerType) -> (r: Option<AnyPlayer>)
        ensures
            slot_kind(r) == p,
            r is Some ==> !(p == PlayerType::Nobody),
            p == PlayerType::Nobody ==> r is None,
    {
        match p {
            PlayerType::Nobody => None,
            PlayerType::IO => Some(AnyPlayer::IOP(PlayerIO::new())),
            PlayerType::Random => Some(AnyPlayer::Rand(PlayerRandom::new())),
            PlayerType::AIQ => Some(AnyPlayer::Q(PlayerAIQ::new(false, true))),
            PlayerType::AIQFixed => Some(AnyPlayer::Q(PlayerAIQ::new(true, true))),
            PlayerType::AIQPlay => Some(AnyPlayer::Q(PlayerAIQ::new(true, false))),
            PlayerType::Minimax => Some(AnyPlayer::Mini(PlayerMinimax::new())),
            PlayerType::AIQOff => Some(AnyPlayer::QOff(PlayerAIQOff::new(false))),
            PlayerType::AIQOffFixed => Some(AnyPlayer::QOff(PlayerAIQOff::new(true))),
            PlayerType::AIValue => Some(AnyPlayer::Value(PlayerAIValue::new(false))),
        }
    }

    /// Binds the freshly built strategy to its player id.
    fn init_slot(s: &mut AnyPlayer, field: &Field, id: i32) -> (r: bool)
        requires
            field@.wf(),
        ensures
            r,
            slot_ok(Some(*final(s)), id),
            slot_kind(Some(*final(s))) == slot_kind(Some(*old(s))),
    {
        match s {
            AnyPlayer::IOP(p) => p.init(field, id),
            AnyPlayer::Rand(p) => p.init(field, id),
            AnyPlayer::Mini(p) => p.init(field, id),
            AnyPlayer::Q(p) => p.init(field, id),
            AnyPlayer::QOff(p) => p.init(field, id),
            AnyPlayer::Value(p) => p.init(field, id),
        }
    }

    /// Chooses the strategy playing as player 1; every selectable kind
    /// initializes successfully.
    pub fn set_player1(&mut self, p: PlayerType) -> (r: bool)
        requires
            old(self).wf(),
        ensures
            final(self).wf(),
            r,
            final(self).p1_kind() == p,
            final(self).p2_kind() == old(self).p2_kind(),
            final(self).board() == old(self).board(),
            final(self).start_player() == old(self).start_player(),
            final(self).results() == old(self).results(),
            final(self).game_log() == old(self).game_log(),
    {
        self.p1 = Self::map_player(p);
        match &mut self.p1 {
            None => true,
            Some(s) => Self::init_slot(s, &self.field, 1),
        }
    }

    /// Chooses the strategy playing as player 2; every selectable kind
    /// initializes successfully.
    pub fn set_player2(&mut self, p: PlayerType) -> (r: bool)
        requires
            old(self).wf(),
        ensures
            final(self).wf(),
            r,
            final(self).p2_kind() == p,
            final(self).p1_kind() == old(self).p1_kind(),
            final(self).board() == old(self).board(),
            final(self).start_player() == old(self).start_player(),
            final(self).results() == old(self).results(),
            final(self).game_log() == old(self).game_log(),
    {
        self.p2 = Self::map_player(p);
        match &mut self.p2 {
            None => true,
            Some(s) => Self::init_slot(s, &self.field, 2),
        }
    }

    /// Chooses which player opens the games; only `1` and `2` are accepted.
    pub fn set_start_player(&mut self, p: u32) -> (r: bool)
        ensures
            r == (1 <= p <= 2),
            r ==> final(self).start_player() == p,
            !r ==> *final(self) == *old(self),
            old(self).wf() ==> final(self).wf(),
            final(self).p1_kind() == old(self).p1_kind(),
            final(self).p2_kind() == old(self).p2_kind(),
            final(self).board() == old(self).board(),
            final(self).results() == old(self).results(),
            final(self).game_log() == old(self).game_log(),
    {
        if p < 1 || p > 2 {
            return false;
        }
        self.startp = p;
        true
    }

    /// Both player slots are bound.
    pub fn is_ready(&self) -> (r: bool)
        ensures
            r == self.ready(),
    {
        self.p1.is_some() && self.p2.is_some()
    }

    fn slot_startp(s: &mut AnyPlayer, p: i32)
        ensures
            slot_ok(Some(*final(s)), 1) == slot_ok(Some(*old(s)), 1),
            slot_ok(Some(*final(s)), 2) == slot_ok(Some(*old(s)), 2),
            slot_kind(Some(*final(s))) == slot_kind(Some(*old(s))),
    {
        match s {
            AnyPlayer::IOP(q) => q.startp(p),
            AnyPlayer::Rand(q) => q.startp(p),
            AnyPlayer::Mini(q) => q.startp(p),
            AnyPlayer::Q(q) => q.startp(p),
            AnyPlayer::QOff(q) => q.startp(p),
            AnyPlayer::Value(q) => q.startp(p),
        }
    }

    /// One move of a drivable strategy: succeeds whenever a column is
    /// playable, and then grows the move stack by one.
    fn slot_play(s: &mut AnyPlayer, field: &mut Field, ghost_id: Ghost<i32>) -> (r: bool)
        requires
            old(field)@.wf(),
            slot_ok(Some(*old(s)), ghost_id@),
            1 <= ghost_id@ <= 2,
            drivable_kind(slot_kind(Some(*old(s)))),
        ensures
            final(field)@.wf(),
            final(field)@.w == old(field)@.w,
            final(field)@.h == old(field)@.h,
            *final(s) == *old(s),
            r == exists|c: int| old(field)@.valid_play(c),
            r ==> final(field)@.turns.len() == old(field)@.turns.len() + 1,
            r ==> exists|c: int|
                old(field)@.valid_play(c) && final(field)@ == old(field)@.play_result(
                    ghost_id@,
                    c,
                ),
            !r ==> final(field)@ == old(field)@,
    {
        let ghost m0 = old(field)@;
        match s {
            AnyPlayer::Rand(q) => {
                let ghost pid0 = q.pid();
                proof {
                    assert(pid0 == ghost_id@);
                }
                let ok = q.play(field);
                proof {
                    if ok {
                        let c = choose|c: int|
                            m0.valid_play(c) && field@ == m0.play_result(pid0, c);
                        assert(m0.valid_play(c));
                        assert(field@ == m0.play_result(ghost_id@, c));
                    }
                }
                ok
            },
            AnyPlayer::Mini(q) => {
                let ghost pid0 = q.pid();
                let ghost d0 = q.depth();
                proof {
                    assert(pid0 == ghost_id@);
                }
                let ok = q.play(field);
                proof {
                    if ok {
                        let c = crate::minimax_player::best_root_col(m0, pid0, d0 as int);
                        assert(field@ == m0.play_result(ghost_id@, c));
                        crate::minimax_player::lemma_best_root_col_props(
                            m0,
                            pid0,
                            d0 as int,
                            m0.w as int,
                        );
                        let c0 = choose|c0: int| m0.valid_play(c0);
                        assert(0 <= c0 < m0.w);
                        assert(c != -1);
                        assert(m0.valid_play(c));
                    }
                }
                ok
            },
            _ => false,
        }
    }

    fn slot_outcome(s: &mut AnyPlayer, field: &mut Field, state: i32, ghost_id: Ghost<i32>)
        requires
            old(field)@.wf(),
            slot_ok(Some(*old(s)), ghost_id@),
        ensures
            final(field)@ == old(field)@,
            slot_ok(Some(*final(s)), ghost_id@),
            slot_kind(Some(*final(s))) == slot_kind(Some(*old(s))),
    {
        match s {
            AnyPlayer::IOP(q) => q.outcome(field, state),
            AnyPlayer::Rand(q) => q.outcome(field, state),
            AnyPlayer::Mini(q) => q.outcome(field, state),
            AnyPlayer::Q(q) => q.outcome(field, state),
            AnyPlayer::QOff(q) => q.outcome(field, state),
            AnyPlayer::Value(q) => q.outcome(field, state),
        }
    }

    /// One full game: the board is reset, the two strategies alternate from
    /// the configured starting player until the game ends, and both get the
    /// outcome. On success the final board is exactly what some sequence of
    /// legal moves produces on the empty board, the configured starter
    /// moving first and the players strictly alternating. Succeeds exactly
    /// when both slots are bound to strategies the library can drive by
    /// itself; a match that cannot start reports failure and changes
    /// nothing.
    pub fn play(&mut self) -> (r: bool)
        requires
            old(self).wf(),
        ensures
            final(self).wf(),
            r == (old(self).ready() && old(self).drivable()),
            !r ==> *final(self) == *old(self),
            r ==> final(self).board().state() != 0,
            r ==> final(self).board().w == old(self).board().w && final(self).board().h == old(self).board().h,
            r ==> exists|moves: Seq<(i32, int)>|
                #![auto]
                plays_ok(BoardModel::empty(old(self).board().w, old(self).board().h), moves)
                    && final(self).board() == apply_plays(
                    BoardModel::empty(old(self).board().w, old(self).board().h),
                    moves,
                ) && (forall|k: int|
                    0 <= k < moves.len() ==> (#[trigger] moves[k]).0 == (if k % 2 == 0 {
                        old(self).start_player() as i32
                    } else {
                        op_of(old(self).start_player() as i32)
                    })),
            final(self).p1_kind() == old(self).p1_kind(),
            final(self).p2_kind() == old(self).p2_kind(),
            final(self).start_player() == old(self).start_player(),
            final(self).results() == old(self).results(),
            final(self).game_log() == old(self).game_log(),
    {
        if !self.is_ready() {
            return false;
        }
        let drivable1 = match &self.p1 {
            Some(AnyPlayer::Rand(_)) => true,
            Some(AnyPlayer::Mini(_)) => true,
            _ => false,
        };
        let drivable2 = match &self.p2 {
            Some(AnyPlayer::Rand(_)) => true,
            Some(AnyPlayer::Mini(_)) => true,
            _ => false,
        };
        if !drivable1 || !drivable2 {
            return false;
        }
        self.field.reset();
        let sp = self.startp as i32;
        match &mut self.p1 {
            Some(s) => Self::slot_startp(s, sp),
            None => (),
        }
        match &mut self.p2 {
            Some(s) => Self::slot_startp(s, sp),
            None => (),
        }
        let mut turn1: bool = self.startp == 1;
        let mut state: i32 = self.field.get_state();
        let ghost e0 = BoardModel::empty(old(self).field@.w, old(self).field@.h);
        let ghost first = old(self).startp as i32;
        let ghost mut trace: Seq<(i32, int)> = Seq::empty();
        while state == 0
            invariant
                self.field@.wf(),
                self.field@.w == old(self).field@.w,
                self.field@.h == old(self).field@.h,
                e0 == BoardModel::empty(old(self).field@.w, old(self).field@.h),
                first == old(self).startp as i32,
                plays_ok(e0, trace),
                self.field@ == apply_plays(e0, trace),
                forall|k: int|
                    0 <= k < trace.len() ==> (#[trigger] trace[k]).0 == (if k % 2 == 0 {
                        first
                    } else {
                        op_of(first)
                    }),
                (if turn1 {
                    1i32
                } else {
                    2i32
                }) == (if trace.len() % 2 == 0 {
                    first
                } else {
                    op_of(first)
                }),
                self.games_log == old(self).games_log,
                slot_ok(self.p1, 1),
                slot_ok(self.p2, 2),
                self.p1 is Some,
                self.p2 is Some,
                drivable_kind(slot_kind(self.p1)),
                drivable_kind(slot_kind(self.p2)),
                slot_kind(self.p1) == old(self).p1_kind(),
                slot_kind(self.p2) == old(self).p2_kind(),
                self.startp == old(self).startp,
                self.p1_wins == old(self).p1_wins,
                self.draws == old(self).draws,
                self.p2_wins == old(self).p2_wins,
                state == self.field@.state(),
            decreases self.field@.w * self.field@.h - self.field@.turns.len(),
        {
            proof {
                self.field@.lemma_state_characterization();
                lemma_running_has_playable(self.field@);
                crate::field::lemma_count_nonzero_le_len(self.field@.cells);
            }
            let ghost pre = self.field@;
            let ghost mover: i32 = if turn1 {
                1
            } else {
                2
            };
            if turn1 {
                match &mut self.p1 {
                    Some(s) => {
                        Self::slot_play(s, &mut self.field, Ghost(1));
                    },
                    None => (),
                }
            } else {
                match &mut self.p2 {
                    Some(s) => {
                        Self::slot_play(s, &mut self.field, Ghost(2));
                    },
                    None => (),
                }
            }
            proof {
                let c = choose|c: int| pre.valid_play(c) && self.field@ == pre.play_result(
                    mover,
                    c,
                );
                assert(pre.can_play(mover, c));
                lemma_plays_snoc(e0, trace, (mover, c));
                trace = trace.push((mover, c));
            }
            turn1 = !turn1;
            state = self.field.get_state();
        }
        proof {
            assert(plays_ok(e0, trace) && self.field@ == apply_plays(e0, trace));
        }
        let st = state;
        match &mut self.p1 {
            Some(s) => Self::slot_outcome(s, &mut self.field, st, Ghost(1)),
            None => (),
        }
        match &mut self.p2 {
            Some(s) => Self::slot_outcome(s, &mut self.field, st, Ghost(2)),
            None => (),
        }
        true
    }

    /// Repeated games with aggregated tallies: `num` games, flipping which
    /// player starts every `every` games, each game's outcome dispatched to
    /// both strategies exactly once. On success the run's log records one
    /// terminal state per game, the tallies are exactly the log's counts of
    /// wins, draws and losses — so they sum to `num` — the board shows the
    /// last game's terminal state, and the starting player ends flipped once
    /// for every positive multiple of `every` below `num`. A rejected count
    /// changes nothing.
    pub fn play_many(&mut self, num: u32, every: u32) -> (r: bool)
        requires
            old(self).wf(),
            every >= 1,
        ensures
            final(self).wf(),
            r == (num >= 1 && old(self).ready() && old(self).drivable()),
            num < 1 ==> *final(self) == *old(self),
            r ==> final(self).game_log().len() == num,
            r ==> forall|g: int|
                0 <= g < num ==> (#[trigger] final(self).game_log()[g]) == -1 || final(self).game_log()[g] == 1 || final(self).game_log()[g] == 2,
            r ==> final(self).results().0 == count_state(final(self).game_log(), 1) && final(self).results().1 == count_state(final(self).game_log(), -1i32) && final(self).results().2
                == count_state(final(self).game_log(), 2),
            r ==> final(self).results().0 + final(self).results().1 + final(self).results().2
                == num,
            r ==> final(self).board().state() == final(self).game_log().last() && final(self).board().state() != 0,
            r ==> final(self).start_player() as int == (if ((num - 1) as int / every as int) % 2
                == 0 {
                old(self).start_player() as int
            } else {
                3 - old(self).start_player() as int
            }),
            final(self).p1_kind() == old(self).p1_kind(),
            final(self).p2_kind() == old(self).p2_kind(),
    {
        if num < 1 {
            return false;
        }
        self.p1_wins = 0;
        self.draws = 0;
        self.p2_wins = 0;
        self.games_log = Ghost(Seq::empty());
        let ghost sp0 = old(self).startp as int;
        let ghost mut flips: int = 0;
        let mut i: u32 = 0;
        while i < num
            invariant
                self.wf(),
                num >= 1,
                every >= 1,
                i <= num,
                self.ready() == old(self).ready(),
                self.p1_kind() == old(self).p1_kind(),
                self.p2_kind() == old(self).p2_kind(),
                sp0 == old(self).startp as int,
                1 <= sp0 <= 2,
                self.games_log@.len() == i,
                forall|g: int|
                    0 <= g < i ==> (#[trigger] self.games_log@[g]) == -1 || self.games_log@[g]
                        == 1 || self.games_log@[g] == 2,
                self.p1_wins == count_state(self.games_log@, 1),
                self.draws == count_state(self.games_log@, -1i32),
                self.p2_wins == count_state(self.games_log@, 2),
                self.p1_wins + self.draws + self.p2_wins == i,
                i > 0 ==> (old(self).ready() && old(self).drivable()),
                i > 0 ==> self.field@.state() == self.games_log@.last() && self.field@.state()
                    != 0,
                flips == (if i == 0 {
                    0int
                } else {
                    (i - 1) as int / every as int
                }),
                self.startp as int == (if flips % 2 == 0 {
                    sp0
                } else {
                    3 - sp0
                }),
            decreases num - i,
        {
            if i > 0 && i % every == 0 {
                self.startp = if self.startp == 1 {
                    2
                } else {
                    1
                };
                proof {
                    flips = flips + 1;
                }
            }
            proof {
                if i > 0 {
                    lemma_div_step(i as int, every as int);
                }
            }
            let ok = self.play();
            if !ok {
                return false;
            }
            let st = self.field.get_state();
            proof {
                self.field@.lemma_state_characterization();
            }
            let ghost log_before = self.games_log@;
            proof {
                self.games_log@ = self.games_log@.push(st);
                assert(self.games_log@.drop_last() =~= log_before);
            }
            if st == -1 {
                self.draws = self.draws + 1;
            } else if st == 1 {
                self.p1_wins = self.p1_wins + 1;
            } else if st == 2 {
                self.p2_wins = self.p2_wins + 1;
            } else {
                proof {
                    assert(false);
                }
            }
            i = i + 1;
        }
        proof {
            if num >= 1 {
                lemma_div_step(num as int, every as int);
            }
        }
        true
    }

    /// The player configured to open the next game.
    pub fn get_start_player(&self) -> (r: u32)
        ensures
            r == self.start_player(),
    {
        self.startp
    }

    /// The tallies of the last `play_many` run: player 1 wins, draws,
    /// player 2 wins.
    pub fn get_results(&self) -> (r: (u32, u32, u32))
        ensures
            r == self.results(),
    {
        (self.p1_wins, self.draws, self.p2_wins)
    }

    /// A borrow of the board, for rendering and for driving console or
    /// approximator-backed matches from outside.
    pub fn get_field(&mut self) -> (r: &mut Field)
        ensures
            (*r)@ == old(self).board(),
            final(self).board() == (*final(r))@,
            final(self).p1_kind() == old(self).p1_kind(),
            final(self).p2_kind() == old(self).p2_kind(),
            final(self).start_player() == old(self).start_player(),
            final(self).results() == old(self).results(),
    {
        &mut self.field
    }
}

/// The strategy kind a command-line name selects.
pub open spec fn player_for_name(s: Seq<char>) -> Option<PlayerType> {
    if s == "io"@ {
        Some(PlayerType::IO)
    } else if s == "random"@ {
        Some(PlayerType::Random)
    } else if s == "minimax"@ {
        Some(PlayerType::Minimax)
    } else if s == "aiq"@ {
        Some(PlayerType::AIQ)
    } else if s == "aiqfixed"@ {
        Some(PlayerType::AIQFixed)
    } else if s == "aiqplay"@ {
        Some(PlayerType::AIQPlay)
    } else if s == "aiqoff"@ {
        Some(PlayerType::AIQOff)
    } else if s == "aiqofffixed"@ {
        Some(PlayerType::AIQOffFixed)
    } else if s == "aivalue"@ {
        Some(PlayerType::AIValue)
    } else {
        None
    }
}

/// Character-for-character equality of two strings.
fn str_matches(s: &str, t: &str) -> (r: bool)
    ensures
        r == (s@ == t@),
{
    let n = s.unicode_len();
    let m = t.unicode_len();
    if n != m {
        return false;
    }
    let mut i: usize = 0;
    while i < n
        invariant
            n == s@.len(),
            n == t@.len(),
            i <= n,
            forall|j: int| 0 <= j < i ==> s@[j] == t@[j],
        decreases n - i,
    {
        if s.get_char(i) != t.get_char(i) {
            return false;
        }
        i = i + 1;
    }
    proof {
        assert(s@ =~= t@);
    }
    true
}

/// Maps a command-line name to the strategy kind it selects.
pub fn string_to_player(s: &str) -> (r: Option<PlayerType>)
    ensures
        r == player_for_name(s@),
{
    if str_matches(s, "io") {
        Some(PlayerType::IO)
    } else if str_matches(s, "random") {
        Some(PlayerType::Random)
    } else if str_matches(s, "minimax") {
        Some(PlayerType::Minimax)
    } else if str_matches(s, "aiq") {
        Some(PlayerType::AIQ)
    } else if str_matches(s, "aiqfixed") {
        Some(PlayerType::AIQFixed)
    } else if str_matches(s, "aiqplay") {
        Some(PlayerType::AIQPlay)
    } else if str_matches(s, "aiqoff") {
        Some(PlayerType::AIQOff)
    } else if str_matches(s, "aiqofffixed") {
        Some(PlayerType::AIQOffFixed)
    } else if str_matches(s, "aivalue") {
        Some(PlayerType::AIValue)
    } else {
        None
    }
}

} // verus!
