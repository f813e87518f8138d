//! The search strategy: bounded-depth minimax over independent root branches,
//! with a positional heuristic at the leaves and terminal values that shrink
//! with depth, so that faster wins and slower losses are preferred.

use vstd::prelude::*;
use crate::field::{BoardModel, Field};
use crate::player::Player;

verus! {

/// The default search depth, counted in plies including the root move.
pub const DEEPNESS: u32 = 5;

/// The value of a won game at the root, before the depth rebate.
pub const WIN_VAL: i64 = 10000;

/// The fold seeds for the minimizing and maximizing plies; any reachable
/// position value lies strictly between them.
pub const NEG_INF: i64 = -0x1_0000_0000_0000;

pub const POS_INF: i64 = 0x1_0000_0000_0000;

pub open spec fn op_of(p: i32) -> i32 {
    if p == 1 {
        2
    } else {
        1
    }
}

pub fn other_of(p: i32) -> (r: i32)
    ensures
        r == op_of(p),
{
    if p == 1 {
        2
    } else {
        1
    }
}

/// `1` for the perspective player's stone, `-1` for the opponent's, `0` for
/// an empty or out-of-range cell.
pub open spec fn side_sign(m: BoardModel, p: i32, x: int, y: int) -> int {
    if m.cell(x, y) == p {
        1
    } else if m.cell(x, y) == op_of(p) {
        -1
    } else {
        0
    }
}

/// Open-ended two-in-a-row formations anchored at `(x, y)`: a neighbouring
/// stone of the same owner in one of the four directions whose extension is
/// not a third stone.
pub open spec fn pair_raw(m: BoardModel, x: int, y: int) -> int {
    let v = m.cell(x, y);
    (if m.cell(x + 1, y) == v && m.cell(x + 2, y) != v {
        1int
    } else {
        0int
    }) + (if m.cell(x + 1, y + 1) == v && m.cell(x + 2, y + 2) != v {
        1int
    } else {
        0int
    }) + (if m.cell(x, y + 1) == v && m.cell(x, y + 2) != v {
        1int
    } else {
        0int
    }) + (if m.cell(x - 1, y + 1) == v && m.cell(x - 2, y + 2) != v {
        1int
    } else {
        0int
    })
}

/// Three-in-a-row formations anchored at `(x, y)`.
pub open spec fn triple_raw(m: BoardModel, x: int, y: int) -> int {
    let v = m.cell(x, y);
    (if m.cell(x + 1, y) == v && m.cell(x + 2, y) == v {
        1int
    } else {
        0int
    }) + (if m.cell(x + 1, y + 1) == v && m.cell(x + 2, y + 2) == v {
        1int
    } else {
        0int
    }) + (if m.cell(x, y + 1) == v && m.cell(x, y + 2) == v {
        1int
    } else {
        0int
    }) + (if m.cell(x - 1, y + 1) == v && m.cell(x - 2, y + 2) == v {
        1int
    } else {
        0int
    })
}

/// Empty cells neighbouring `(x, y)` on its own row, the row above and the
/// row below: a mobility proxy.
pub open spec fn free_raw(m: BoardModel, x: int, y: int) -> int {
    let w = m.w as int;
    let h = m.h as int;
    (if y >= 1 && x >= 1 && m.cell(x - 1, y - 1) == 0 {
        1int
    } else {
        0int
    }) + (if y >= 1 && m.cell(x, y - 1) == 0 {
        1int
    } else {
        0int
    }) + (if y >= 1 && x < w - 1 && m.cell(x + 1, y - 1) == 0 {
        1int
    } else {
        0int
    }) + (if x >= 1 && m.cell(x - 1, y) == 0 {
        1int
    } else {
        0int
    }) + (if x < w - 1 && m.cell(x + 1, y) == 0 {
        1int
    } else {
        0int
    }) + (if y < h - 1 && x >= 1 && m.cell(x - 1, y + 1) == 0 {
        1int
    } else {
        0int
    }) + (if y < h - 1 && x < w - 1 && m.cell(x + 1, y + 1) == 0 {
        1int
    } else {
        0int
    })
}

pub open spec fn pair_count_at(m: BoardModel, p: i32, x: int, y: int) -> int {
    side_sign(m, p, x, y) * pair_raw(m, x, y)
}

pub open spec fn triple_count_at(m: BoardModel, p: i32, x: int, y: int) -> int {
    side_sign(m, p, x, y) * triple_raw(m, x, y)
}

pub open spec fn free_count_at(m: BoardModel, p: i32, x: int, y: int) -> int {
    side_sign(m, p, x, y) * free_raw(m, x, y)
}

/// What the stone at `(x, y)` contributes to the evaluation: mobility plus
/// weighted row formations — three-in-a-rows count far more than pairs.
pub open spec fn contrib_at(m: BoardModel, p: i32, x: int, y: int) -> int {
    free_count_at(m, p, x, y) + 2 * pair_count_at(m, p, x, y) + 5 * triple_count_at(m, p, x, y)
}

/// The contributions summed over all anchors before row `y`, plus those of
/// row `y` at columns below `x`, in row-major order.
pub open spec fn contrib_sum(m: BoardModel, p: i32, y: int, x: int) -> int
    decreases y, x,
{
    if y < 0 || x < 0 {
        0
    } else if x == 0 {
        if y == 0 {
            0
        } else {
            contrib_sum(m, p, y - 1, m.w as int)
        }
    } else {
        contrib_sum(m, p, y, x - 1) + contrib_at(m, p, x - 1, y)
    }
}

/// The positional evaluation of a running game, positive when it favours `p`.
pub open spec fn heur_eval(m: BoardModel, p: i32) -> int {
    contrib_sum(m, p, m.h - 1, m.w as int)
}

/// The leaf evaluation: exact terminal values rebated by depth, and the
/// positional evaluation while the game runs.
pub open spec fn heur_spec(m: BoardModel, p: i32, deep: int) -> int {
    let st = m.state();
    if st == -1 {
        0
    } else if st == p {
        WIN_VAL - deep
    } else if st == op_of(p) {
        -(WIN_VAL as int) + deep
    } else {
        heur_eval(m, p)
    }
}

/// One stone contributes at most 7 mobility cells plus 4 formations in each
/// weighted class.
pub proof fn lemma_contrib_at_bound(m: BoardModel, p: i32, x: int, y: int)
    ensures
        -35 <= contrib_at(m, p, x, y) <= 35,
{
    let s = side_sign(m, p, x, y);
    lemma_mul_sign(s, pair_raw(m, x, y));
    lemma_mul_sign(s, triple_raw(m, x, y));
    lemma_mul_sign(s, free_raw(m, x, y));
}

pub proof fn lemma_contrib_sum_bound(m: BoardModel, p: i32, y: int, x: int)
    requires
        0 <= x <= m.w,
        0 <= y,
    ensures
        -35 * (y * m.w + x) <= contrib_sum(m, p, y, x) <= 35 * (y * m.w + x),
    decreases y, x,
{
    if x == 0 {
        if y > 0 {
            lemma_contrib_sum_bound(m, p, y - 1, m.w as int);
            assert((y - 1) * m.w + m.w == y * m.w) by (nonlinear_arith);
        }
    } else {
        lemma_contrib_sum_bound(m, p, y, x - 1);
        lemma_contrib_at_bound(m, p, x - 1, y);
    }
}

/// The whole evaluation of a position is bounded by 35 per cell.
pub proof fn lemma_heur_eval_bound(m: BoardModel, p: i32)
    requires
        m.wf(),
    ensures
        -35 * (m.w * m.h) <= heur_eval(m, p) <= 35 * (m.w * m.h),
{
    lemma_contrib_sum_bound(m, p, m.h - 1, m.w as int);
    assert((m.h - 1) * m.w + m.w == m.w * m.h) by (nonlinear_arith);
}

/// Multiplying by a sign selects the value, its negation, or zero.
proof fn lemma_mul_sign(s: int, a: int)
    requires
        s == -1 || s == 0 || s == 1,
    ensures
        s == 1 ==> s * a == a,
        s == -1 ==> s * a == -a,
        s == 0 ==> s * a == 0,
{
    assert(1 * a == a) by (nonlinear_arith);
    assert((-1) * a == -a) by (nonlinear_arith);
    assert(0 * a == 0) by (nonlinear_arith);
}

/// The open-ended pair and triple formations anchored at the stone `(x, y)`.
#[verifier::spinoff_prover]
fn formation_counts(field: &Field, x: u32, y: u32) -> (r: (i64, i64))
    requires
        field@.wf(),
        x < field@.w,
        y < field@.h,
        field@.cell(x as int, y as int) != 0,
    ensures
        r.0 as int == pair_raw(field@, x as int, y as int),
        r.1 as int == triple_raw(field@, x as int, y as int),
        0 <= r.0 <= 4,
        0 <= r.1 <= 4,
{
    let v = field.get_val(x, y);
    let a1 = field.get_val(x + 1, y) == v;
    let b1 = field.get_val(x + 2, y) == v;
    let a2 = field.get_val(x + 1, y + 1) == v;
    let b2 = field.get_val(x + 2, y + 2) == v;
    let a3 = field.get_val(x, y + 1) == v;
    let b3 = field.get_val(x, y + 2) == v;
    let a4 = x >= 1 && field.get_val(x - 1, y + 1) == v;
    let b4 = x >= 2 && field.get_val(x - 2, y + 2) == v;
    proof {
        assert(a4 == (field@.cell(x as int - 1, y as int + 1) == v));
        assert(b4 == (field@.cell(x as int - 2, y as int + 2) == v));
    }
    let pairs: i64 = (if a1 && !b1 {
        1i64
    } else {
        0i64
    }) + (if a2 && !b2 {
        1i64
    } else {
        0i64
    }) + (if a3 && !b3 {
        1i64
    } else {
        0i64
    }) + (if a4 && !b4 {
        1i64
    } else {
        0i64
    });
    let triples: i64 = (if a1 && b1 {
        1i64
    } else {
        0i64
    }) + (if a2 && b2 {
        1i64
    } else {
        0i64
    }) + (if a3 && b3 {
        1i64
    } else {
        0i64
    }) + (if a4 && b4 {
        1i64
    } else {
        0i64
    });
    (pairs, triples)
}

/// The empty cells neighbouring the stone `(x, y)`.
#[verifier::spinoff_prover]
fn mobility_count(field: &Field, x: u32, y: u32) -> (r: i64)
    requires
        field@.wf(),
        x < field@.w,
        y < field@.h,
    ensures
        r as int == free_raw(field@, x as int, y as int),
        0 <= r <= 7,
{
    let w = field.get_w();
    let h = field.get_h();
    (if y >= 1 && x >= 1 && field.get_val(x - 1, y - 1) == 0 {
        1i64
    } else {
        0i64
    }) + (if y >= 1 && field.get_val(x, y - 1) == 0 {
        1i64
    } else {
        0i64
    }) + (if y >= 1 && x + 1 < w && field.get_val(x + 1, y - 1) == 0 {
        1i64
    } else {
        0i64
    }) + (if x >= 1 && field.get_val(x - 1, y) == 0 {
        1i64
    } else {
        0i64
    }) + (if x + 1 < w && field.get_val(x + 1, y) == 0 {
        1i64
    } else {
        0i64
    }) + (if y + 1 < h && x >= 1 && field.get_val(x - 1, y + 1) == 0 {
        1i64
    } else {
        0i64
    }) + (if y + 1 < h && x + 1 < w && field.get_val(x + 1, y + 1) == 0 {
        1i64
    } else {
        0i64
    })
}

/// The stone at `(x, y)` scored as the evaluation counts it.
fn anchor_score(field: &Field, p: i32, x: u32, y: u32) -> (r: i64)
    requires
        field@.wf(),
        1 <= p <= 2,
        x < field@.w,
        y < field@.h,
    ensures
        r as int == contrib_at(field@, p, x as int, y as int),
        -35 <= r <= 35,
{
    let ghost m = field@;
    let ghost xi = x as int;
    let ghost yi = y as int;
    let v = field.get_val(x, y);
    if v == 0 {
        proof {
            lemma_mul_sign(side_sign(m, p, xi, yi), pair_raw(m, xi, yi));
            lemma_mul_sign(side_sign(m, p, xi, yi), triple_raw(m, xi, yi));
            lemma_mul_sign(side_sign(m, p, xi, yi), free_raw(m, xi, yi));
        }
        return 0;
    }
    let sgn: i64 = if v == p {
        1
    } else {
        -1
    };
    let (pairs, triples) = formation_counts(field, x, y);
    let frees = mobility_count(field, x, y);
    proof {
        crate::field::lemma_rowmajor_index(m.w as int, m.h as int, xi, yi);
        assert(0 <= m.cell(xi, yi) <= 2);
        let s = side_sign(m, p, xi, yi);
        lemma_mul_sign(s, pair_raw(m, xi, yi));
        lemma_mul_sign(s, triple_raw(m, xi, yi));
        lemma_mul_sign(s, free_raw(m, xi, yi));
        if v == p {
            assert(s == 1);
        } else {
            assert(s == -1);
        }
    }
    sgn * (frees + 2 * pairs + 5 * triples)
}

/// The leaf evaluation of a position from player `p`'s perspective.
pub fn heur(field: &Field, p: i32, deep: u32) -> (r: i64)
    requires
        field@.wf(),
        1 <= p <= 2,
    ensures
        r as int == heur_spec(field@, p, deep as int),
{
    let op = other_of(p);
    let state = field.get_state();
    if state == -1 {
        return 0;
    }
    if state == p {
        return WIN_VAL - (deep as i64);
    }
    if state == op {
        return -WIN_VAL + (deep as i64);
    }
    let ghost m = field@;
    let w = field.get_w();
    let h = field.get_h();
    let mut acc: i64 = 0;
    let mut y: u32 = 0;
    while y < h
        invariant
            m == field@,
            m.wf(),
            1 <= p <= 2,
            w == m.w,
            h == m.h,
            y <= h,
            acc as int == contrib_sum(m, p, y as int, 0),
        decreases h - y,
    {
        let mut x: u32 = 0;
        while x < w
            invariant
                m == field@,
                m.wf(),
                1 <= p <= 2,
                w == m.w,
                h == m.h,
                y < h,
                x <= w,
                acc as int == contrib_sum(m, p, y as int, x as int),
            decreases w - x,
        {
            let score = anchor_score(field, p, x, y);
            proof {
                lemma_contrib_sum_bound(m, p, y as int, x as int);
                crate::field::lemma_rowmajor_index(m.w as int, m.h as int, x as int, y as int);
                assert(y * m.w + x < m.w * m.h);
            }
            acc = acc + score;
            x = x + 1;
        }
        y = y + 1;
        proof {
            assert(contrib_sum(m, p, y as int, 0) == contrib_sum(m, p, y - 1, m.w as int));
        }
    }
    proof {
        assert(contrib_sum(m, p, h as int, 0) == contrib_sum(m, p, h - 1, m.w as int));
        assert(acc as int == heur_eval(m, p));
    }
    acc
}

/// The minimax value of a position with `p` to move. `deep` counts plies from
/// the root: the root player's own move is ply 1, so recursion starts at 2.
/// Even `deep` minimizes, odd `deep` maximizes, which fixes the leaf
/// perspective at the root player through depth parity; `limit` bounds the
/// explored plies, and past it the leaf evaluation decides.
pub open spec fn minimax_spec(m: BoardModel, p: i32, deep: int, limit: int) -> int
    decreases
            (if deep <= limit {
                limit + 1 - deep
            } else {
                0
            }),
            m.w + 1,
{
    if deep > limit {
        heur_spec(
            m,
            if deep % 2 == 0 {
                op_of(p)
            } else {
                p
            },
            deep,
        )
    } else {
        let st = m.state();
        if st == -1 {
            0
        } else if st == p {
            if deep % 2 == 0 {
                -(WIN_VAL as int) + deep
            } else {
                WIN_VAL - deep
            }
        } else if st == op_of(p) {
            if deep % 2 == 0 {
                WIN_VAL - deep
            } else {
                -(WIN_VAL as int) + deep
            }
        } else {
            children_fold(m, p, deep, limit, m.w as int)
        }
    }
}

/// The best child value over the playable columns below `n`: the minimum on
/// minimizing plies and the maximum on maximizing plies, seeded so that any
/// real child value replaces the seed.
pub open spec fn children_fold(m: BoardModel, p: i32, deep: int, limit: int, n: int) -> int
    decreases
            (if deep <= limit {
                limit + 1 - deep
            } else {
                0
            }),
            n,
{
    if deep > limit || n <= 0 {
        if deep % 2 == 0 {
            POS_INF as int
        } else {
            NEG_INF as int
        }
    } else {
        let rest = children_fold(m, p, deep, limit, n - 1);
        if m.valid_play(n - 1) {
            let v = minimax_spec(m.play_result(p, n - 1), op_of(p), deep + 1, limit);
            if (deep % 2 == 0 && v < rest) || (deep % 2 != 0 && v > rest) {
                v
            } else {
                rest
            }
        } else {
            rest
        }
    }
}

/// The bounded-depth minimax evaluation of the current position, computed by
/// playing and undoing on the board itself; the board comes back untouched.
pub fn minimax(field: &mut Field, p: i32, deep: u32, limit: u32) -> (r: i64)
    requires
        old(field)@.wf(),
        1 <= p <= 2,
        2 <= deep,
        deep <= limit + 1,
        limit <= 0xFFFF_0000,
    ensures
        final(field)@ == old(field)@,
        r as int == minimax_spec(old(field)@, p, deep as int, limit as int),
    decreases limit + 1 - deep,
{
    let ghost m = old(field)@;
    let op = other_of(p);
    if deep > limit {
        let hp = if deep % 2 == 0 {
            op
        } else {
            p
        };
        return heur(field, hp, deep);
    }
    let state = field.get_state();
    if state == -1 {
        return 0;
    }
    if state == p {
        return if deep % 2 == 0 {
            -WIN_VAL + deep as i64
        } else {
            WIN_VAL - deep as i64
        };
    }
    if state == op {
        return if deep % 2 == 0 {
            WIN_VAL - deep as i64
        } else {
            -WIN_VAL + deep as i64
        };
    }
    let maximizing = deep % 2 == 1;
    let mut best: i64 = if maximizing {
        NEG_INF
    } else {
        POS_INF
    };
    let w = field.get_w();
    let mut i: u32 = 0;
    while i < w
        invariant
            field@ == m,
            m == old(field)@,
            m.wf(),
            1 <= p <= 2,
            op == op_of(p),
            2 <= deep <= limit,
            limit <= 0xFFFF_0000,
            maximizing == (deep % 2 == 1),
            w == m.w,
            i <= w,
            best as int == children_fold(m, p, deep as int, limit as int, i as int),
        decreases w - i,
    {
        if field.is_valid_play(i) {
            proof {
                m.lemma_play_wf(p, i as int);
            }
            field.play(p, i);
            let v = minimax(field, op, deep + 1, limit);
            field.undo();
            proof {
                m.lemma_play_undo(p, i as int);
            }
            if (!maximizing && v < best) || (maximizing && v > best) {
                best = v;
            }
        }
        i = i + 1;
    }
    best
}

/// The search value of playing column `c` from the current position.
pub open spec fn root_value(m: BoardModel, p: i32, c: int, limit: int) -> int {
    minimax_spec(m.play_result(p, c), op_of(p), 2, limit)
}

/// The engine's choice among the columns below `n`: the playable column with
/// the greatest search value, ties broken toward the lowest index; `-1` when
/// none of them is playable.
pub open spec fn best_root_col_upto(m: BoardModel, p: i32, limit: int, n: int) -> int
    decreases n,
{
    if n <= 0 {
        -1
    } else {
        let rest = best_root_col_upto(m, p, limit, n - 1);
        if !m.valid_play(n - 1) {
            rest
        } else if rest == -1 {
            n - 1
        } else if root_value(m, p, n - 1, limit) > root_value(m, p, rest, limit) {
            n - 1
        } else {
            rest
        }
    }
}

pub open spec fn best_root_col(m: BoardModel, p: i32, limit: int) -> int {
    best_root_col_upto(m, p, limit, m.w as int)
}

/// The chosen column is playable and carries the greatest search value; a
/// choice of `-1` means no column was playable at all.
pub proof fn lemma_best_root_col_props(m: BoardModel, p: i32, limit: int, n: int)
    requires
        0 <= n,
    ensures
        best_root_col_upto(m, p, limit, n) == -1 ==> (forall|c: int|
            0 <= c < n ==> !m.valid_play(c)),
        best_root_col_upto(m, p, limit, n) != -1 ==> {
            let b = best_root_col_upto(m, p, limit, n);
            &&& 0 <= b < n
            &&& m.valid_play(b)
            &&& forall|c: int|
                0 <= c < n && m.valid_play(c) ==> root_value(m, p, c, limit) <= root_value(
                    m,
                    p,
                    b,
                    limit,
                )
        },
    decreases n,
{
    if n > 0 {
        lemma_best_root_col_props(m, p, limit, n - 1);
    }
}

/// The search strategy: evaluates every playable root column to the
/// configured depth and plays the best one.
pub struct PlayerMinimax {
    initialized: bool,
    pid: i32,
    deepness: u32,
}

impl PlayerMinimax {
    #[verifier::type_invariant]
    spec fn inv(self) -> bool {
        1 <= self.deepness <= 100000
    }

    pub closed spec fn depth(&self) -> u32 {
        self.deepness
    }

    pub fn new() -> (r: Box<PlayerMinimax>)
        ensures
            !r.is_init(),
            r.depth() == DEEPNESS,
    {
        Box::new(PlayerMinimax { initialized: false, pid: 0, deepness: DEEPNESS })
    }

    /// A searcher with a chosen ply limit in place of the default.
    pub fn with_depth(d: u32) -> (r: Box<PlayerMinimax>)
        requires
            1 <= d <= 100000,
        ensures
            !r.is_init(),
            r.depth() == d,
    {
        Box::new(PlayerMinimax { initialized: false, pid: 0, deepness: d })
    }
}

impl Player for PlayerMinimax {
    closed spec fn is_init(&self) -> bool {
        self.initialized
    }

    closed spec fn pid(&self) -> i32 {
        self.pid
    }

    fn init(&mut self, field: &Field, p: i32) -> (r: bool)
        ensures
            r,
            final(self).is_init(),
            final(self).pid() == p,
            final(self).depth() == old(self).depth(),
    {
        proof {
            use_type_invariant(&*self);
        }
        self.initialized = true;
        self.pid = p;
        true
    }

    fn startp(&mut self, p: i32)
        ensures
            *final(self) == *old(self),
    {
    }

    /// One move into the column the bounded search ranks best. Succeeds
    /// exactly when the agent is bound to a real player id and some column is
    /// playable; the move is then pinned to `best_root_col`.
    fn play(&mut self, field: &mut Field) -> (r: bool)
        ensures
            *final(self) == *old(self),
            r <==> (old(self).is_init() && 1 <= old(self).pid() <= 2 && exists|c: int|
                old(field)@.valid_play(c)),
            r ==> final(field)@ == old(field)@.play_result(
                old(self).pid(),
                best_root_col(old(field)@, old(self).pid(), old(self).depth() as int),
            ),
    {
        proof {
            use_type_invariant(&*self);
        }
        if !self.initialized {
            return false;
        }
        if self.pid < 1 || self.pid > 2 {
            return false;
        }
        let p = self.pid;
        let op = other_of(p);
        let limit = self.deepness;
        let ghost m = old(field)@;
        let w = field.get_w();
        let mut bestcol: i64 = -1;
        let mut bestval: i64 = 0;
        let mut i: u32 = 0;
        while i < w
            invariant
                field@ == m,
                m == old(field)@,
                m.wf(),
                1 <= p <= 2,
                op == op_of(p),
                1 <= limit <= 100000,
                w == m.w,
                i <= w,
                bestcol as int == best_root_col_upto(m, p, limit as int, i as int),
                bestcol != -1 ==> bestval as int == root_value(m, p, bestcol as int, limit as int),
                bestcol == -1 || 0 <= bestcol < i,
            decreases w - i,
        {
            if field.is_valid_play(i) {
                proof {
                    m.lemma_play_wf(p, i as int);
                }
                field.play(p, i);
                let v = minimax(field, op, 2, limit);
                field.undo();
                proof {
                    m.lemma_play_undo(p, i as int);
                }
                if bestcol == -1 || v > bestval {
                    bestcol = i as i64;
                    bestval = v;
                }
            }
            i = i + 1;
        }
        proof {
            lemma_best_root_col_props(m, p, limit as int, w as int);
        }
        if bestcol < 0 {
            return false;
        }
        let c = bestcol as u32;
        field.play(p, c)
    }

    fn outcome(&mut self, field: &mut Field, state: i32)
        ensures
            *final(self) == *old(self),
    {
    }
}

/// While the game runs some column is playable: the board is not full, and by
/// gravity an empty cell keeps the top cell of its column empty.
pub proof fn lemma_running_has_playable(m: BoardModel)
    requires
        m.wf(),
        !m.full(),
    ensures
        exists|c: int| m.valid_play(c),
{
    assert(exists|i: int| 0 <= i < m.cells.len() && m.cells[i] == 0);
    let i = choose|i: int| 0 <= i < m.cells.len() && m.cells[i] == 0;
    let x = i % (m.w as int);
    let y = i / (m.w as int);
    assert(m.w >= 1) by (nonlinear_arith)
        requires
            0 <= i,
            i < m.w * m.h,
    ;
    assert(0 <= x < m.w && 0 <= y && y * (m.w as int) + x == i) by (nonlinear_arith)
        requires
            m.w >= 1,
            0 <= i,
            x == i % (m.w as int),
            y == i / (m.w as int),
    ;
    assert(y < m.h) by (nonlinear_arith)
        requires
            y * (m.w as int) + x == i,
            i < m.w * m.h,
            0 <= x,
            0 <= y,
            m.w >= 1,
    ;
    assert(m.cell(x, y) == 0);
    if m.cell(x, 0) != 0 {
        m.lemma_column_filled_below(x, 0, y);
    }
    assert(m.valid_play(x));
}

/// Every reachable search value lies between the loss and the win score of
/// its depth: terminal scores shrink with depth, and on a board small enough
/// the leaf evaluation never reaches them.
pub proof fn lemma_minimax_bound(m: BoardModel, p: i32, deep: int, limit: int)
    requires
        m.wf(),
        1 <= p <= 2,
        2 <= deep <= limit + 1,
        1 <= limit,
        35 * (m.w * m.h) + limit + 2 <= WIN_VAL,
    ensures
        -(WIN_VAL as int) + deep <= minimax_spec(m, p, deep, limit) <= WIN_VAL - deep,
    decreases
            (if deep <= limit {
                limit + 1 - deep
            } else {
                0
            }),
            m.w + 1,
{
    m.lemma_state_characterization();
    let st = m.state();
    if deep > limit {
        let hp = if deep % 2 == 0 {
            op_of(p)
        } else {
            p
        };
        if st != -1 && st != hp && st != op_of(hp) {
            lemma_heur_eval_bound(m, hp);
        }
    } else {
        if st != -1 && st != p && st != op_of(p) {
            lemma_running_has_playable(m);
            let c0 = choose|c: int| m.valid_play(c);
            assert(0 <= c0 < m.w && m.valid_play(c0));
            lemma_children_fold_bound(m, p, deep, limit, m.w as int);
        }
    }
}

/// The fold over the playable columns stays within the child bounds as soon
/// as one column is playable, and keeps its seed otherwise.
proof fn lemma_children_fold_bound(m: BoardModel, p: i32, deep: int, limit: int, n: int)
    requires
        m.wf(),
        1 <= p <= 2,
        2 <= deep <= limit,
        1 <= limit,
        35 * (m.w * m.h) + limit + 2 <= WIN_VAL,
        0 <= n <= m.w,
    ensures
        (exists|c: int| 0 <= c < n && m.valid_play(c)) ==> -(WIN_VAL as int) + deep + 1
            <= children_fold(m, p, deep, limit, n) <= WIN_VAL - deep - 1,
        (forall|c: int| 0 <= c < n ==> !m.valid_play(c)) ==> children_fold(m, p, deep, limit, n)
            == (if deep % 2 == 0 {
            POS_INF as int
        } else {
            NEG_INF as int
        }),
    decreases
            (if deep <= limit {
                limit + 1 - deep
            } else {
                0
            }),
            n,
{
    if n > 0 {
        lemma_children_fold_bound(m, p, deep, limit, n - 1);
        if m.valid_play(n - 1) {
            m.lemma_play_wf(p, n - 1);
            lemma_minimax_bound(m.play_result(p, n - 1), op_of(p), deep + 1, limit);
            assert(exists|c: int| 0 <= c < n && m.valid_play(c));
        } else {
            assert((exists|c: int| 0 <= c < n && m.valid_play(c)) ==> (exists|c: int|
                0 <= c < n - 1 && m.valid_play(c)));
        }
    }
}

/// A root move that wins the game on the spot scores exactly the full win
/// value rebated by its single ply of depth.
proof fn lemma_root_value_win(m: BoardModel, p: i32, c: int, limit: int)
    requires
        m.wf(),
        1 <= p <= 2,
        1 <= limit,
        m.valid_play(c),
        m.play_result(p, c).state() == p,
    ensures
        root_value(m, p, c, limit) == WIN_VAL - 2,
{
    assert(op_of(op_of(p)) == p);
}

/// A root move that does not win on the spot scores strictly less than the
/// immediate win: at best a deeper win, a draw, or a bounded leaf value.
proof fn lemma_root_value_nonwin(m: BoardModel, p: i32, c: int, limit: int)
    requires
        m.wf(),
        1 <= p <= 2,
        1 <= limit,
        35 * (m.w * m.h) + limit + 2 <= WIN_VAL,
        m.state() == 0,
        m.valid_play(c),
        m.play_result(p, c).state() != p,
    ensures
        root_value(m, p, c, limit) <= WIN_VAL - 3,
{
    let op = op_of(p);
    let child = m.play_result(p, c);
    m.lemma_play_wf(p, c);
    m.lemma_state_characterization();
    child.lemma_state_characterization();
    let st = child.state();
    // the move drops a stone of p's own colour, so it cannot hand op a win
    if st == op {
        assert(child.has_win(op));
        let (wx, wy) = choose|x: int, y: int| child.win_at(op, x, y);
        assert(op != p);
        assert(m.win_at(op, wx, wy));
        assert(m.has_win(op));
        assert(false);
    }
    if st == -1 {
    } else {
        assert(st == 0);
        if limit == 1 {
            assert(root_value(m, p, c, limit) == heur_spec(child, p, 2));
            lemma_heur_eval_bound(child, p);
        } else {
            lemma_running_has_playable(child);
            let c0 = choose|c2: int| child.valid_play(c2);
            assert(0 <= c0 < child.w && child.valid_play(c0));
            lemma_children_fold_bound(child, op, 2, limit, child.w as int);
        }
    }
}

/// At any depth limit, when the player to move holds an immediately winning
/// column, the search plays a move that wins on the spot: the terminal value
/// dominates every heuristic leaf. The size bound keeps the positional
/// evaluation of very large boards below the terminal scores.
pub proof fn lemma_winning_move_selected(m: BoardModel, p: i32, limit: int, c: int)
    requires
        m.wf(),
        1 <= p <= 2,
        1 <= limit,
        35 * (m.w * m.h) + limit + 2 <= WIN_VAL,
        m.state() == 0,
        m.valid_play(c),
        m.play_result(p, c).state() == p,
    ensures
        ({
            let b = best_root_col(m, p, limit);
            &&& m.valid_play(b)
            &&& m.play_result(p, b).state() == p
        }),
{
    lemma_best_root_col_props(m, p, limit, m.w as int);
    lemma_root_value_win(m, p, c, limit);
    let b = best_root_col(m, p, limit);
    assert(0 <= c < m.w);
    assert(b != -1);
    assert(m.valid_play(b));
    assert(root_value(m, p, b, limit) >= WIN_VAL - 2);
    if m.play_result(p, b).state() != p {
        lemma_root_value_nonwin(m, p, b, limit);
        assert(false);
    }
}

/// On a minimizing ply the fold never exceeds any single branch's value.
proof fn lemma_children_fold_le_member(
    m: BoardModel,
    p: i32,
    deep: int,
    limit: int,
    n: int,
    c: int,
)
    requires
        deep % 2 == 0,
        deep <= limit,
        m.valid_play(c),
        0 <= c < n,
    ensures
        children_fold(m, p, deep, limit, n) <= minimax_spec(
            m.play_result(p, c),
            op_of(p),
            deep + 1,
            limit,
        ),
    decreases n,
{
    if c < n - 1 {
        lemma_children_fold_le_member(m, p, deep, limit, n - 1, c);
    }
}

/// On a minimizing ply the fold stays above any bound that every branch and
/// the seed respect.
proof fn lemma_children_fold_lb(m: BoardModel, p: i32, deep: int, limit: int, n: int, lb: int)
    requires
        deep % 2 == 0,
        deep <= limit,
        lb <= POS_INF,
        forall|c: int|
            0 <= c < n && m.valid_play(c) ==> lb <= minimax_spec(
                #[trigger] m.play_result(p, c),
                op_of(p),
                deep + 1,
                limit,
            ),
    ensures
        lb <= children_fold(m, p, deep, limit, n),
    decreases n,
{
    if n > 0 {
        lemma_children_fold_lb(m, p, deep, limit, n - 1, lb);
    }
}

/// The blocking branch's lower bound: when the block neither ends the game
/// against the mover nor hands the opponent an immediate win, no reply costs
/// more than a loss two further plies out.
#[verifier::spinoff_prover]
proof fn lemma_block_branch_lb(m: BoardModel, p: i32, limit: int, cb: int)
    requires
        m.wf(),
        1 <= p <= 2,
        2 <= limit,
        35 * (m.w * m.h) + limit + 2 <= WIN_VAL,
        m.state() == 0,
        m.valid_play(cb),
        m.play_result(p, cb).state() != p,
        forall|c: int|
            m.play_result(p, cb).valid_play(c) ==> (#[trigger] m.play_result(p, cb).play_result(
                op_of(p),
                c,
            )).state() != op_of(p),
    ensures
        root_value(m, p, cb, limit) >= -(WIN_VAL as int) + 4,
{
    let op = op_of(p);
    let child_b = m.play_result(p, cb);
    m.lemma_state_characterization();
    m.lemma_play_wf(p, cb);
    child_b.lemma_state_characterization();
    if child_b.state() == op {
        assert forall|x: int, y: int| child_b.cell(x, y) == op implies m.cell(x, y) == op by {};
        child_b.lemma_win_monotone(m, op);
        assert(false);
    }
    if child_b.state() != -1 {
        assert(child_b.state() == 0);
        assert forall|c2: int|
            0 <= c2 < child_b.w && child_b.valid_play(c2) implies -(WIN_VAL as int) + 4
            <= minimax_spec(#[trigger] child_b.play_result(op, c2), op_of(op), 3, limit) by {
            child_b.lemma_play_wf(op, c2);
            let gc = child_b.play_result(op, c2);
            gc.lemma_state_characterization();
            assert(gc.state() != op);
            if gc.state() == p {
                assert forall|x: int, y: int| gc.cell(x, y) == p implies child_b.cell(x, y)
                    == p by {};
                gc.lemma_win_monotone(child_b, p);
                assert(false);
            }
            if gc.state() != -1 {
                assert(gc.state() == 0);
                if 3 > limit {
                    lemma_heur_eval_bound(gc, p);
                } else {
                    lemma_running_has_playable(gc);
                    let c0 = choose|c0: int| gc.valid_play(c0);
                    assert(0 <= c0 < gc.w);
                    lemma_children_fold_bound(gc, p, 3, limit, gc.w as int);
                }
            }
        };
        lemma_children_fold_lb(child_b, op, 2, limit, child_b.w as int, -(WIN_VAL as int) + 4);
    }
}

/// A move elsewhere leaves the opponent's winning column open: the game
/// still runs, the column still accepts a stone, and the opponent's reply
/// there still wins.
#[verifier::rlimit(100)]
#[verifier::spinoff_prover]
proof fn lemma_threat_persists(m: BoardModel, p: i32, cb: int, c: int)
    requires
        m.wf(),
        1 <= p <= 2,
        m.state() == 0,
        m.valid_play(cb),
        m.play_result(op_of(p), cb).state() == op_of(p),
        m.valid_play(c),
        c != cb,
        m.play_result(p, c).state() != p,
    ensures
        m.play_result(p, c).wf(),
        m.play_result(p, c).state() == 0,
        m.play_result(p, c).valid_play(cb),
        m.play_result(p, c).play_result(op_of(p), cb).state() == op_of(p),
        m.play_result(p, c).play_result(op_of(p), cb).wf(),
        m.play_result(p, c).w == m.w,
{
    let op = op_of(p);
    m.lemma_state_characterization();
    m.lemma_play_wf(p, c);
    let child = m.play_result(p, c);
    child.lemma_state_characterization();
    if child.state() == op {
        assert forall|x: int, y: int| child.cell(x, y) == op implies m.cell(x, y) == op by {};
        child.lemma_win_monotone(m, op);
        assert(false);
    }
    assert(child.cell(cb, 0) == m.cell(cb, 0));
    assert(child.valid_play(cb));
    crate::field::lemma_rowmajor_index(child.w as int, child.h as int, cb, 0);
    assert(!child.full());
    assert(child.state() == 0);
    // the threatened column lands in the same row as before the move
    assert forall|y2: int| #[trigger] child.cell(cb, y2) == m.cell(cb, y2) by {};
    child.lemma_landing_same_column(m, cb, child.h - 1);
    m.lemma_play_wf(op, cb);
    child.lemma_play_wf(op, cb);
    let mb = m.play_result(op, cb);
    let gb = child.play_result(op, cb);
    mb.lemma_state_characterization();
    gb.lemma_state_characterization();
    assert(mb.has_win(op));
    m.lemma_landing_exists(c);
    assert(m.cell(c, m.landing_row(c)) == 0);
    assert forall|x: int, y: int| mb.cell(x, y) == op implies gb.cell(x, y) == op by {
        if x == cb && y == m.landing_row(cb) {
            assert(gb.cell(x, y) == op);
        } else {
            assert(m.cell(x, y) == op);
            assert(child.cell(x, y) == op);
        }
    };
    mb.lemma_win_monotone(gb, op);
    if gb.has_win(p) {
        assert forall|x: int, y: int| gb.cell(x, y) == p implies child.cell(x, y) == p by {};
        gb.lemma_win_monotone(child, p);
        assert(false);
    }
    assert(gb.state() == op);
}

/// Any branch that leaves the opponent's winning column open scores the
/// opponent's win one ply deep: the reply in that column still wins there.
#[verifier::spinoff_prover]
proof fn lemma_nonblock_branch_ub(m: BoardModel, p: i32, limit: int, cb: int, c: int)
    requires
        m.wf(),
        1 <= p <= 2,
        2 <= limit,
        m.state() == 0,
        m.valid_play(cb),
        m.play_result(op_of(p), cb).state() == op_of(p),
        m.valid_play(c),
        c != cb,
        m.play_result(p, c).state() != p,
    ensures
        root_value(m, p, c, limit) <= -(WIN_VAL as int) + 3,
{
    let op = op_of(p);
    lemma_threat_persists(m, p, cb, c);
    let child = m.play_result(p, c);
    let gb = child.play_result(op, cb);
    assert(minimax_spec(gb, p, 3, limit) == -(WIN_VAL as int) + 3);
    lemma_children_fold_le_member(child, op, 2, limit, child.w as int, cb);
    assert(op_of(op) == p);
}

/// At any depth limit that sees the opponent's reply, when the player to
/// move has no immediately winning column of its own, the opponent threatens
/// to win at once in some column, and taking that column hands the opponent
/// no immediate win on top of it, the search blocks that column: every other
/// branch runs into the opponent's win one ply later and scores strictly
/// below the block. The size bound keeps the positional evaluation of very
/// large boards below the terminal scores.
pub proof fn lemma_blocking_move_selected(m: BoardModel, p: i32, limit: int, cb: int)
    requires
        m.wf(),
        1 <= p <= 2,
        2 <= limit,
        35 * (m.w * m.h) + limit + 2 <= WIN_VAL,
        m.state() == 0,
        forall|c: int| m.valid_play(c) ==> (#[trigger] m.play_result(p, c)).state() != p,
        m.valid_play(cb),
        m.play_result(op_of(p), cb).state() == op_of(p),
        forall|c: int|
            m.play_result(p, cb).valid_play(c) ==> (#[trigger] m.play_result(p, cb).play_result(
                op_of(p),
                c,
            )).state() != op_of(p),
    ensures
        best_root_col(m, p, limit) == cb,
{
    lemma_block_branch_lb(m, p, limit, cb);
    assert forall|c: int| m.valid_play(c) && c != cb implies root_value(m, p, c, limit) <= -(
    WIN_VAL as int) + 3 by {
        lemma_nonblock_branch_ub(m, p, limit, cb, c);
    };
    lemma_best_root_col_props(m, p, limit, m.w as int);
    let b = best_root_col(m, p, limit);
    assert(0 <= cb < m.w);
    assert(b != -1);
    assert(m.valid_play(b));
    assert(root_value(m, p, b, limit) >= root_value(m, p, cb, limit));
    if b != cb {
        assert(root_value(m, p, b, limit) <= -(WIN_VAL as int) + 3);
        assert(false);
    }
}

} // verus!
