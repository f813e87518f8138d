//! The board: a `w` by `h` grid of cells filled bottom-up by gravity,
//! together with the stack of placements that produced it.
//!
//! Row `0` is the top row and row `h - 1` the bottom row; a stone dropped
//! into column `x` comes to rest in the lowest empty cell of that column.
//! Cell values are `0` (empty), `1` and `2` (the two players).

use vstd::prelude::*;

verus! {

/// The mathematical model of a board: the geometry, the flat cell grid in
/// row-major order, and the stack of `(column, row)` placements in play order.
#[verifier::ext_equal]
pub ghost struct BoardModel {
    pub w: u32,
    pub h: u32,
    pub cells: Seq<i32>,
    pub turns: Seq<(u32, u32)>,
}

/// How many cells of `s` hold a stone.
pub open spec fn count_nonzero(s: Seq<i32>) -> nat
    decreases s.len(),
{
    if s.len() == 0 {
        0
    } else {
        count_nonzero(s.drop_last()) + if s.last() != 0 {
            1nat
        } else {
            0nat
        }
    }
}

impl BoardModel {
    pub open spec fn in_bounds(self, x: int, y: int) -> bool {
        0 <= x < self.w && 0 <= y < self.h
    }

    /// The cell at column `x`, row `y`; positions outside the grid read as empty.
    pub open spec fn cell(self, x: int, y: int) -> i32 {
        if self.in_bounds(x, y) {
            self.cells[y * self.w + x]
        } else {
            0
        }
    }

    pub open spec fn turn_in_bounds(self, k: int) -> bool {
        self.turns[k].0 < self.w && self.turns[k].1 < self.h
    }

    /// The board invariant: the grid has the right size and only holds the
    /// three cell values, every stone rests on the stone below it (gravity),
    /// the move stack records exactly the occupied cells, and within one
    /// column later placements lie strictly above earlier ones.
    pub open spec fn wf(self) -> bool {
        &&& self.cells.len() == self.w * self.h
        &&& self.h >= 1
        &&& self.w * self.h <= u32::MAX
        &&& self.w <= u32::MAX - 3
        &&& self.h <= u32::MAX - 3
        &&& forall|i: int|
            0 <= i < self.cells.len() ==> 0 <= #[trigger] self.cells[i] <= 2
        &&& forall|k: int| 0 <= k < self.turns.len() ==> self.turn_in_bounds(k)
        &&& count_nonzero(self.cells) == self.turns.len()
        &&& forall|x: int, y: int|
            self.in_bounds(x, y) && y < self.h - 1 && #[trigger] self.cell(x, y) != 0
                ==> self.cell(x, y + 1) != 0
        &&& forall|x: int, y: int|
            self.in_bounds(x, y)
                ==> ((#[trigger] self.cell(x, y)) != 0 <==> self.turns.contains(
                (x as u32, y as u32),
            ))
        &&& forall|i: int, j: int|
            0 <= i < j < self.turns.len() && (#[trigger] self.turns[i]).0
                == (#[trigger] self.turns[j]).0 ==> self.turns[i].1 > self.turns[j].1
    }

    /// The empty board of the given geometry.
    pub open spec fn empty(w: u32, h: u32) -> BoardModel {
        BoardModel { w, h, cells: Seq::new((w * h) as nat, |i: int| 0i32), turns: Seq::empty() }
    }

    /// A column accepts a stone exactly when its top cell is empty.
    pub open spec fn valid_play(self, x: int) -> bool {
        0 <= x < self.w && self.cell(x, 0) == 0
    }

    /// `play(p, x)` succeeds exactly on these inputs.
    pub open spec fn can_play(self, p: i32, x: int) -> bool {
        self.valid_play(x) && 1 <= p <= 2
    }

    /// The row a stone dropped into column `x` would land in, scanning from
    /// row `y` upward; `-1` when every cell of the column up to `y` is taken.
    pub open spec fn landing_from(self, x: int, y: int) -> int
        decreases y + 1,
    {
        if y < 0 {
            -1
        } else if self.cell(x, y) == 0 {
            y
        } else {
            self.landing_from(x, y - 1)
        }
    }

    pub open spec fn landing_row(self, x: int) -> int {
        self.landing_from(x, self.h - 1)
    }

    /// The board after a successful `play(p, x)`.
    pub open spec fn play_result(self, p: i32, x: int) -> BoardModel {
        let y = self.landing_row(x);
        BoardModel {
            w: self.w,
            h: self.h,
            cells: self.cells.update(y * self.w + x, p),
            turns: self.turns.push((x as u32, y as u32)),
        }
    }

    /// The board after `undo`: the most recent placement is cleared and popped.
    pub open spec fn undo_result(self) -> BoardModel {
        if self.turns.len() == 0 {
            self
        } else {
            let x = self.turns.last().0 as int;
            let y = self.turns.last().1 as int;
            BoardModel {
                w: self.w,
                h: self.h,
                cells: self.cells.update(y * self.w + x, 0),
                turns: self.turns.drop_last(),
            }
        }
    }

    /// Every cell holds a stone.
    pub open spec fn full(self) -> bool {
        forall|i: int| 0 <= i < self.cells.len() ==> (#[trigger] self.cells[i]) != 0
    }

    /// Four cells of value `p` in a row, starting at `(x, y)` and stepping by
    /// `(dx, dy)`. For `p != 0` all four cells necessarily lie on the grid.
    pub open spec fn four_in_dir(self, p: i32, x: int, y: int, dx: int, dy: int) -> bool {
        &&& self.cell(x, y) == p
        &&& self.cell(x + dx, y + dy) == p
        &&& self.cell(x + 2 * dx, y + 2 * dy) == p
        &&& self.cell(x + 3 * dx, y + 3 * dy) == p
    }

    /// A line of four anchored at `(x, y)` in one of the four orientations:
    /// rightward, downward, down-right, or down-left.
    pub open spec fn win_at(self, p: i32, x: int, y: int) -> bool {
        ||| self.four_in_dir(p, x, y, 1, 0)
        ||| self.four_in_dir(p, x, y, 1, 1)
        ||| self.four_in_dir(p, x, y, 0, 1)
        ||| self.four_in_dir(p, x, y, -1, 1)
    }

    /// Player `p` has four in a row somewhere. Every line of four has an
    /// anchor in one of the four orientations above: a horizontal, vertical
    /// or down-right line is anchored at its top-left end, a down-left line
    /// at its top-right end.
    pub open spec fn has_win(self, p: i32) -> bool {
        exists|x: int, y: int| self.win_at(p, x, y)
    }

    /// The cell at `(x, y)` is a stone anchoring a line of four of its owner.
    pub open spec fn anchor_wins(self, x: int, y: int) -> bool {
        self.cell(x, y) != 0 && self.win_at(self.cell(x, y), x, y)
    }

    /// The owner of the first winning anchor at or after `(x, y)` in
    /// row-major scan order, or `0` when there is none.
    pub open spec fn scan_winner_at(self, x: int, y: int) -> i32
        decreases self.h - y, self.w - x + 1,
    {
        if y < 0 || x < 0 || y >= self.h {
            0
        } else if x >= self.w {
            self.scan_winner_at(0, y + 1)
        } else if self.anchor_wins(x, y) {
            self.cell(x, y)
        } else {
            self.scan_winner_at(x + 1, y)
        }
    }

    /// The game state: `0` while running, `-1` on a draw, and the owner of
    /// the first winning anchor in scan order when somebody has won.
    pub open spec fn state(self) -> i32 {
        if self.scan_winner_at(0, 0) != 0 {
            self.scan_winner_at(0, 0)
        } else if self.full() {
            -1i32
        } else {
            0
        }
    }
}

/// The board: a flat cell grid plus the stack of placements that filled it.
pub struct Field {
    field: Vec<i32>,
    w: u32,
    h: u32,
    turns: Vec<(u32, u32)>,
}

impl View for Field {
    type V = BoardModel;

    closed spec fn view(&self) -> BoardModel {
        BoardModel { w: self.w, h: self.h, cells: self.field@, turns: self.turns@ }
    }
}

impl Field {
    pub fn new(width: u32, height: u32) -> (r: Field)
        requires
            width * height <= u32::MAX,
            width <= u32::MAX - 3,
            1 <= height <= u32::MAX - 3,
        ensures
            r@ == BoardModel::empty(width, height),
            r@.wf(),
    {
        let size: usize = (width * height) as usize;
        let f = Field { field: vec![0i32; size], w: width, h: height, turns: Vec::new() };
        proof {
            let m = f@;
            lemma_count_nonzero_all_zero(m.cells);
            assert forall|x: int, y: int| m.in_bounds(x, y) implies #[trigger] m.cell(x, y)
                == 0 by {
                lemma_rowmajor_index(m.w as int, m.h as int, x, y);
            };
            assert(m.cells =~= BoardModel::empty(width, height).cells);
            assert(m =~= BoardModel::empty(width, height));
        }
        f
    }

    pub fn get_w(&self) -> (r: u32)
        ensures
            r == self@.w,
    {
        self.w
    }

    pub fn get_h(&self) -> (r: u32)
        ensures
            r == self@.h,
    {
        self.h
    }

    pub fn get_size(&self) -> (r: u32)
        requires
            self@.wf(),
        ensures
            r == self@.w * self@.h,
    {
        self.w * self.h
    }

    pub fn get_field(&self) -> (r: &Vec<i32>)
        ensures
            r@ == self@.cells,
    {
        &self.field
    }

    pub fn get_turns(&self) -> (r: &Vec<(u32, u32)>)
        ensures
            r@ == self@.turns,
    {
        &self.turns
    }

    pub fn get_val(&self, x: u32, y: u32) -> (r: i32)
        requires
            self@.wf(),
        ensures
            r == self@.cell(x as int, y as int),
    {
        if x < self.w && y < self.h {
            proof {
                lemma_rowmajor_index(self.w as int, self.h as int, x as int, y as int);
            }
            self.field[(y * self.w + x) as usize]
        } else {
            0
        }
    }

    fn set_val(&mut self, x: u32, y: u32, val: i32)
        requires
            old(self)@.cells.len() == old(self)@.w * old(self)@.h,
            old(self)@.w * old(self)@.h <= u32::MAX,
        ensures
            x < old(self)@.w && y < old(self)@.h ==> final(self)@ == (BoardModel {
                cells: old(self)@.cells.update(y as int * old(self)@.w + x as int, val),
                ..old(self)@
            }),
            !(x < old(self)@.w && y < old(self)@.h) ==> final(self)@ == old(self)@,
    {
        if x < self.w && y < self.h {
            proof {
                lemma_rowmajor_index(self.w as int, self.h as int, x as int, y as int);
            }
            let i = (y * self.w + x) as usize;
            self.field[i] = val;
        }
    }

    pub fn reset(&mut self)
        requires
            old(self)@.wf(),
        ensures
            final(self)@ == BoardModel::empty(old(self)@.w, old(self)@.h),
            final(self)@.wf(),
    {
        let ghost m = old(self)@;
        let n = self.field.len();
        let mut i: usize = 0;
        while i < n
            invariant
                self@.w == m.w,
                self@.h == m.h,
                m.wf(),
                i <= n,
                self@.cells.len() == n,
                self@.turns == m.turns,
                forall|j: int| 0 <= j < i ==> #[trigger] self@.cells[j] == 0,
            decreases n - i,
        {
            self.field[i] = 0;
            i = i + 1;
        }
        self.turns.clear();
        proof {
            let m2 = self@;
            lemma_count_nonzero_all_zero(m2.cells);
            assert forall|x: int, y: int| m2.in_bounds(x, y) implies #[trigger] m2.cell(x, y)
                == 0 by {
                lemma_rowmajor_index(m2.w as int, m2.h as int, x, y);
            };
            assert(m2.cells =~= BoardModel::empty(m.w, m.h).cells);
            assert(m2 =~= BoardModel::empty(m.w, m.h));
        }
    }

    pub fn play(&mut self, player: i32, x: u32) -> (r: bool)
        requires
            old(self)@.wf(),
        ensures
            final(self)@.wf(),
            r == old(self)@.can_play(player, x as int),
            r ==> final(self)@ == old(self)@.play_result(player, x as int),
            !r ==> final(self)@ == old(self)@,
    {
        if x >= self.w || player < 1 || player > 2 || !self.is_valid_play(x) {
            return false;
        }
        let ghost m = self@;
        let mut y = self.h;
        while y > 0
            invariant
                self@ == m,
                m == old(self)@,
                m.wf(),
                m.can_play(player, x as int),
                x < m.w,
                y <= m.h,
                forall|y2: int| y <= y2 < m.h ==> m.cell(x as int, y2) != 0,
            decreases y,
        {
            y = y - 1;
            if self.get_val(x, y) == 0 {
                proof {
                    m.lemma_landing_pin(x as int, y as int);
                    m.lemma_play_wf(player, x as int);
                }
                self.set_val(x, y, player);
                self.turns.push((x, y));
                proof {
                    assert(self@ =~= m.play_result(player, x as int));
                }
                return true;
            }
        }
        proof {
            assert(m.cell(x as int, 0) != 0);
        }
        false
    }

    pub fn undo(&mut self) -> (r: bool)
        requires
            old(self)@.wf(),
        ensures
            final(self)@.wf(),
            r == (old(self)@.turns.len() > 0),
            final(self)@ == old(self)@.undo_result(),
    {
        let ghost m = self@;
        match self.turns.pop() {
            Some((x, y)) => {
                proof {
                    m.lemma_undo_wf();
                    assert(m.turn_in_bounds(m.turns.len() - 1));
                }
                self.set_val(x, y, 0);
                proof {
                    assert(self@ =~= m.undo_result());
                }
                true
            },
            None => false,
        }
    }

    pub fn is_full(&self) -> (r: bool)
        requires
            self@.wf(),
        ensures
            r == self@.full(),
    {
        proof {
            lemma_count_nonzero_le_len(self@.cells);
        }
        self.turns.len() == self.field.len()
    }

    pub fn is_valid_play(&self, x: u32) -> (r: bool)
        requires
            self@.wf(),
        ensures
            r == self@.valid_play(x as int),
    {
        x < self.w && self.get_val(x, 0) == 0
    }

    /// The game state: `0` while running, `-1` on a draw, `1` or `2` when
    /// that player holds four in a row.
    pub fn get_state(&self) -> (r: i32)
        requires
            self@.wf(),
        ensures
            r == self@.state(),
    {
        let ghost m = self@;
        let mut y: u32 = 0;
        while y < self.h
            invariant
                m == self@,
                m.wf(),
                y <= m.h,
                m.scan_winner_at(0, 0) == m.scan_winner_at(0, y as int),
            decreases m.h - y,
        {
            let mut x: u32 = 0;
            while x < self.w
                invariant
                    m == self@,
                    m.wf(),
                    y < m.h,
                    x <= m.w,
                    m.scan_winner_at(0, 0) == m.scan_winner_at(x as int, y as int),
                decreases m.w - x,
            {
                let v = self.get_val(x, y);
                if v != 0 {
                    let win = (v == self.get_val(x + 1, y) && v == self.get_val(x + 2, y) && v
                        == self.get_val(x + 3, y)) || (v == self.get_val(x + 1, y + 1) && v
                        == self.get_val(x + 2, y + 2) && v == self.get_val(x + 3, y + 3)) || (v
                        == self.get_val(x, y + 1) && v == self.get_val(x, y + 2) && v
                        == self.get_val(x, y + 3)) || (x >= 3 && v == self.get_val(x - 1, y + 1)
                        && v == self.get_val(x - 2, y + 2) && v == self.get_val(x - 3, y + 3));
                    if win {
                        proof {
                            assert(m.anchor_wins(x as int, y as int));
                            assert(m.scan_winner_at(x as int, y as int) == v);
                        }
                        return v;
                    }
                    proof {
                        if m.four_in_dir(v, x as int, y as int, -1, 1) {
                            assert(m.cell(x - 3, y + 3) == v);
                            assert(x >= 3);
                        }
                        assert(!m.anchor_wins(x as int, y as int));
                    }
                } else {
                    proof {
                        assert(!m.anchor_wins(x as int, y as int));
                    }
                }
                x = x + 1;
            }
            y = y + 1;
        }
        if self.is_full() {
            return -1;
        }
        0
    }
}

/// Row-major indexing stays inside a `w` by `h` grid.
pub proof fn lemma_rowmajor_index(w: int, h: int, x: int, y: int)
    requires
        0 <= x < w,
        0 <= y < h,
    ensures
        0 <= y * w + x < w * h,
{
    assert(y * w + x < w * h) by (nonlinear_arith)
        requires
            0 <= x < w,
            0 <= y < h,
    ;
    assert(0 <= y * w) by (nonlinear_arith)
        requires
            0 <= y,
            0 <= w,
    ;
}

/// A sequence of zeros holds no stone.
pub proof fn lemma_count_nonzero_all_zero(s: Seq<i32>)
    requires
        forall|i: int| 0 <= i < s.len() ==> s[i] == 0,
    ensures
        count_nonzero(s) == 0,
    decreases s.len(),
{
    if s.len() > 0 {
        lemma_count_nonzero_all_zero(s.drop_last());
    }
}

/// Row-major indexing is injective on the grid.
pub proof fn lemma_rowmajor_injective(w: int, x1: int, y1: int, x2: int, y2: int)
    requires
        0 <= x1 < w,
        0 <= x2 < w,
        0 <= y1,
        0 <= y2,
        y1 * w + x1 == y2 * w + x2,
    ensures
        x1 == x2 && y1 == y2,
{
    assert(x1 == x2 && y1 == y2) by (nonlinear_arith)
        requires
            0 <= x1 < w,
            0 <= x2 < w,
            0 <= y1,
            0 <= y2,
            y1 * w + x1 == y2 * w + x2,
    ;
}

/// The stone count never exceeds the cell count, with equality exactly on a
/// full grid.
pub proof fn lemma_count_nonzero_le_len(s: Seq<i32>)
    ensures
        count_nonzero(s) <= s.len(),
        count_nonzero(s) == s.len() <==> (forall|i: int|
            0 <= i < s.len() ==> (#[trigger] s[i]) != 0),
    decreases s.len(),
{
    if s.len() > 0 {
        lemma_count_nonzero_le_len(s.drop_last());
        assert(forall|i: int| 0 <= i < s.len() - 1 ==> s.drop_last()[i] == #[trigger] s[i]);
        if count_nonzero(s) == s.len() {
            assert(s.last() != 0);
            assert(forall|i: int|
                0 <= i < s.len() - 1 ==> (#[trigger] s[i]) == s.drop_last()[i] && s.drop_last()[i]
                    != 0);
        }
    }
}

/// Overwriting one cell changes the stone count by the difference of the two
/// occupancies.
pub proof fn lemma_count_nonzero_update(s: Seq<i32>, i: int, v: i32)
    requires
        0 <= i < s.len(),
    ensures
        count_nonzero(s.update(i, v)) == count_nonzero(s) - (if s[i] != 0 {
            1int
        } else {
            0
        }) + (if v != 0 {
            1int
        } else {
            0
        }),
    decreases s.len(),
{
    let u = s.update(i, v);
    if i == s.len() - 1 {
        assert(u.drop_last() =~= s.drop_last());
    } else {
        assert(u.drop_last() =~= s.drop_last().update(i, v));
        lemma_count_nonzero_update(s.drop_last(), i, v);
    }
}

/// A pushed element is in the sequence; nothing else changes membership.
pub proof fn lemma_push_contains<T>(s: Seq<T>, e: T, t: T)
    ensures
        s.push(e).contains(t) <==> (s.contains(t) || t == e),
{
    if s.contains(t) {
        let i = choose|i: int| 0 <= i < s.len() && s[i] == t;
        assert(s.push(e)[i] == t);
    }
    if t == e {
        assert(s.push(e)[s.len() as int] == t);
    }
    if s.push(e).contains(t) {
        let i = choose|i: int| 0 <= i < s.push(e).len() && s.push(e)[i] == t;
        if i < s.len() {
            assert(s[i] == t);
        }
    }
}

/// Membership in a sequence without its last element.
pub proof fn lemma_drop_last_contains<T>(s: Seq<T>, t: T)
    requires
        s.len() > 0,
    ensures
        s.drop_last().contains(t) <==> (exists|i: int| 0 <= i < s.len() - 1 && s[i] == t),
{
    if s.drop_last().contains(t) {
        let i = choose|i: int| 0 <= i < s.len() - 1 && s.drop_last()[i] == t;
        assert(s[i] == t);
    }
    if exists|i: int| 0 <= i < s.len() - 1 && s[i] == t {
        let i = choose|i: int| 0 <= i < s.len() - 1 && s[i] == t;
        assert(s.drop_last()[i] == t);
    }
}

impl BoardModel {
    /// Gravity, iterated: every cell below a stone — at a larger row index —
    /// holds a stone too.
    pub proof fn lemma_column_filled_below(self, x: int, y1: int, y2: int)
        requires
            self.wf(),
            0 <= y1 <= y2 < self.h,
            self.cell(x, y1) != 0,
        ensures
            self.cell(x, y2) != 0,
        decreases y2 - y1,
    {
        if y1 < y2 {
            assert(self.cell(x, y1 + 1) != 0);
            self.lemma_column_filled_below(x, y1 + 1, y2);
        }
    }

    /// Boards that agree on a column's cells agree on where a stone dropped
    /// there lands.
    pub proof fn lemma_landing_same_column(self, other: BoardModel, x: int, y: int)
        requires
            forall|y2: int| #[trigger] self.cell(x, y2) == other.cell(x, y2),
        ensures
            self.landing_from(x, y) == other.landing_from(x, y),
        decreases y + 1,
    {
        if y >= 0 && self.cell(x, y) != 0 {
            self.lemma_landing_same_column(other, x, y - 1);
        }
    }

    /// A player's four-in-a-row survives any board change that keeps that
    /// player's stones in place.
    pub proof fn lemma_win_monotone(self, other: BoardModel, q: i32)
        requires
            self.has_win(q),
            forall|x: int, y: int| #[trigger] self.cell(x, y) == q ==> other.cell(x, y) == q,
        ensures
            other.has_win(q),
    {
        let (wx, wy) = choose|x: int, y: int| self.win_at(q, x, y);
        assert(other.win_at(q, wx, wy));
    }

    /// `landing_from` finds the lowest empty cell of the column at or above
    /// row `y`, and reports `-1` exactly when there is none.
    pub proof fn lemma_landing_from(self, x: int, y: int)
        requires
            y < self.h,
        ensures
            self.landing_from(x, y) >= -1,
            self.landing_from(x, y) >= 0 ==> self.landing_from(x, y) <= y,
            self.landing_from(x, y) == -1 ==> (forall|y2: int|
                0 <= y2 <= y ==> self.cell(x, y2) != 0),
            self.landing_from(x, y) >= 0 ==> {
                let l = self.landing_from(x, y);
                &&& 0 <= l <= y
                &&& self.cell(x, l) == 0
                &&& forall|y2: int| l < y2 <= y ==> self.cell(x, y2) != 0
            },
        decreases y + 1,
    {
        if y >= 0 && self.cell(x, y) != 0 {
            self.lemma_landing_from(x, y - 1);
        }
    }

    /// The landing row is pinned by emptiness at it and stones strictly below.
    pub proof fn lemma_landing_pin(self, x: int, ly: int)
        requires
            0 <= ly < self.h,
            self.cell(x, ly) == 0,
            forall|y2: int| ly < y2 < self.h ==> self.cell(x, y2) != 0,
        ensures
            self.landing_row(x) == ly,
    {
        self.lemma_landing_from_pin(x, (self.h - 1) as int, ly);
    }

    proof fn lemma_landing_from_pin(self, x: int, y: int, ly: int)
        requires
            0 <= ly <= y < self.h,
            self.cell(x, ly) == 0,
            forall|y2: int| ly < y2 <= y ==> self.cell(x, y2) != 0,
        ensures
            self.landing_from(x, y) == ly,
        decreases y,
    {
        if y > ly {
            self.lemma_landing_from_pin(x, y - 1, ly);
        }
    }

    /// On a well-formed board a playable column has a landing row: the lowest
    /// empty cell, with stones filling everything below it.
    pub proof fn lemma_landing_exists(self, x: int)
        requires
            self.wf(),
            self.valid_play(x),
        ensures
            0 <= self.landing_row(x) < self.h,
            self.cell(x, self.landing_row(x)) == 0,
            forall|y2: int| self.landing_row(x) < y2 < self.h ==> self.cell(x, y2) != 0,
    {
        let y = self.h - 1;
        self.lemma_landing_from(x, y);
        assert(self.landing_row(x) == self.landing_from(x, y));
        if self.landing_from(x, y) == -1 {
            assert(self.cell(x, 0) != 0);
        } else {
            let l = self.landing_from(x, y);
            assert(0 <= l <= y);
            assert(self.cell(x, l) == 0);
            assert(forall|y2: int| l < y2 <= y ==> self.cell(x, y2) != 0);
        }
    }

    /// A successful play keeps the board well formed: it drops one stone into
    /// the landing row of its column and records the placement.
    pub proof fn lemma_play_wf(self, p: i32, x: int)
        requires
            self.wf(),
            self.can_play(p, x),
        ensures
            self.play_result(p, x).wf(),
            self.play_result(p, x).turns.len() == self.turns.len() + 1,
            self.play_result(p, x).w == self.w,
            self.play_result(p, x).h == self.h,
            forall|x2: int, y2: int|
                #[trigger] self.play_result(p, x).cell(x2, y2) == if x2 == x && y2
                    == self.landing_row(x) {
                    p
                } else {
                    self.cell(x2, y2)
                },
    {
        self.lemma_landing_exists(x);
        let l = self.landing_row(x);
        let idx = l * self.w + x;
        let m2 = self.play_result(p, x);
        lemma_rowmajor_index(self.w as int, self.h as int, x, l);
        lemma_count_nonzero_update(self.cells, idx, p);

        // each position reads as before, except the landing cell
        assert forall|x2: int, y2: int| #[trigger] m2.cell(x2, y2) == (if x2 == x && y2 == l {
            p
        } else {
            self.cell(x2, y2)
        }) by {
            if m2.in_bounds(x2, y2) {
                lemma_rowmajor_index(self.w as int, self.h as int, x2, y2);
                if y2 * self.w + x2 == idx {
                    lemma_rowmajor_injective(self.w as int, x2, y2, x, l);
                }
            }
        };

        // the occupied cells are exactly the recorded placements
        assert forall|x2: int, y2: int| m2.in_bounds(x2, y2) implies ((#[trigger] m2.cell(x2, y2))
            != 0 <==> m2.turns.contains((x2 as u32, y2 as u32))) by {
            lemma_push_contains(self.turns, (x as u32, l as u32), (x2 as u32, y2 as u32));
        };

        // gravity still holds with the new stone resting on the pile
        assert forall|x2: int, y2: int|
            m2.in_bounds(x2, y2) && y2 < m2.h - 1 && #[trigger] m2.cell(x2, y2)
                != 0 implies m2.cell(x2, y2 + 1) != 0 by {};

        // later placements in one column lie strictly above earlier ones
        assert forall|i: int, j: int|
            0 <= i < j < m2.turns.len() && (#[trigger] m2.turns[i]).0 == (
            #[trigger] m2.turns[j]).0 implies m2.turns[i].1 > m2.turns[j].1 by {
            if j == self.turns.len() {
                let yi = self.turns[i].1 as int;
                assert(m2.turns[i] == self.turns[i]);
                assert(m2.turns[j] == (x as u32, l as u32));
                assert(self.turns[i].0 == x as u32);
                assert(self.turn_in_bounds(i));
                assert(self.turns[i] == (x as u32, yi as u32));
                assert(self.turns.contains((x as u32, yi as u32)));
                assert(self.cell(x, yi) != 0);
                if yi <= l {
                    self.lemma_column_filled_below(x, yi, l);
                }
            }
        };

        assert forall|k: int| 0 <= k < m2.turns.len() implies m2.turn_in_bounds(k) by {
            if k < self.turns.len() {
                assert(self.turn_in_bounds(k));
            }
        };
    }

    /// Undoing on a non-empty stack keeps the board well formed: the most
    /// recent placement is the top stone of its column, and clearing it
    /// removes exactly that stone.
    pub proof fn lemma_undo_wf(self)
        requires
            self.wf(),
            self.turns.len() > 0,
        ensures
            self.undo_result().wf(),
            self.undo_result().turns.len() == self.turns.len() - 1,
            self.undo_result().w == self.w,
            self.undo_result().h == self.h,
            forall|x2: int, y2: int|
                #[trigger] self.undo_result().cell(x2, y2) == if x2 == self.turns.last().0 as int
                    && y2 == self.turns.last().1 as int {
                    0
                } else {
                    self.cell(x2, y2)
                },
    {
        let x = self.turns.last().0 as int;
        let y = self.turns.last().1 as int;
        let idx = y * self.w + x;
        let m2 = self.undo_result();
        assert(self.turn_in_bounds(self.turns.len() - 1));
        assert(self.turns.contains(self.turns.last()));
        assert(self.cell(x, y) != 0);
        lemma_rowmajor_index(self.w as int, self.h as int, x, y);
        lemma_count_nonzero_update(self.cells, idx, 0);

        assert forall|x2: int, y2: int| #[trigger] m2.cell(x2, y2) == (if x2 == x && y2 == y {
            0i32
        } else {
            self.cell(x2, y2)
        }) by {
            if m2.in_bounds(x2, y2) {
                lemma_rowmajor_index(self.w as int, self.h as int, x2, y2);
                if y2 * self.w + x2 == idx {
                    lemma_rowmajor_injective(self.w as int, x2, y2, x, y);
                }
            }
        };

        // the removed stone was the top of its column: no stone sits above it
        assert forall|y2: int| 0 <= y2 < y implies self.cell(x, y2) == 0 by {
            if self.cell(x, y2) != 0 {
                assert(self.turns.contains((x as u32, y2 as u32)));
                let k = choose|k: int|
                    0 <= k < self.turns.len() && self.turns[k] == (x as u32, y2 as u32);
                assert(k < self.turns.len() - 1);
            }
        };

        assert forall|x2: int, y2: int|
            m2.in_bounds(x2, y2) && y2 < m2.h - 1 && #[trigger] m2.cell(x2, y2)
                != 0 implies m2.cell(x2, y2 + 1) != 0 by {
            assert(self.cell(x2, y2) != 0);
            assert(self.cell(x2, y2 + 1) != 0);
            if x2 == x && y2 + 1 == y {
                assert(self.cell(x, y2) == 0);
            }
        };

        // the popped placement occurs nowhere earlier in the stack
        assert forall|k: int| 0 <= k < self.turns.len() - 1 implies self.turns[k] != (x as u32,
        y as u32) by {
            if self.turns[k] == (x as u32, y as u32) {
                assert(self.turns[k].1 > self.turns.last().1);
            }
        };

        assert forall|x2: int, y2: int| m2.in_bounds(x2, y2) implies ((#[trigger] m2.cell(x2, y2))
            != 0 <==> m2.turns.contains((x2 as u32, y2 as u32))) by {
            lemma_drop_last_contains(self.turns, (x2 as u32, y2 as u32));
            if x2 == x && y2 == y {
            } else {
                if self.cell(x2, y2) != 0 {
                    let k = choose|k: int|
                        0 <= k < self.turns.len() && self.turns[k] == (x2 as u32, y2 as u32);
                    assert(k < self.turns.len() - 1);
                }
            }
        };

        assert forall|k: int| 0 <= k < m2.turns.len() implies m2.turn_in_bounds(k) by {
            assert(self.turn_in_bounds(k));
        };
    }

    /// Anything the scan has passed without returning holds no winning anchor.
    proof fn lemma_scan_none(self, x: int, y: int)
        requires
            0 <= x,
            0 <= y,
            self.scan_winner_at(x, y) == 0,
        ensures
            forall|x2: int, y2: int|
                self.in_bounds(x2, y2) && (y2 > y || (y2 == y && x2 >= x)) ==> !(
                #[trigger] self.anchor_wins(x2, y2)),
        decreases self.h - y, self.w - x + 1,
    {
        if y >= self.h {
        } else if x >= self.w {
            self.lemma_scan_none(0, y + 1);
        } else {
            self.lemma_scan_none(x + 1, y);
        }
    }

    /// A nonzero scan result names a player who holds four in a row.
    proof fn lemma_scan_result(self, x: int, y: int)
        requires
            self.wf(),
            0 <= x,
            0 <= y,
            self.scan_winner_at(x, y) != 0,
        ensures
            1 <= self.scan_winner_at(x, y) <= 2,
            self.has_win(self.scan_winner_at(x, y)),
        decreases self.h - y, self.w - x + 1,
    {
        if y >= self.h {
        } else if x >= self.w {
            self.lemma_scan_result(0, y + 1);
        } else if self.anchor_wins(x, y) {
            lemma_rowmajor_index(self.w as int, self.h as int, x, y);
        } else {
            self.lemma_scan_result(x + 1, y);
        }
    }

    /// The game state against the win and fullness predicates: running exactly
    /// while nobody holds four in a row and an empty cell remains; a draw
    /// exactly when nobody holds four in a row on a full grid; a player's
    /// number exactly when somebody holds four in a row — and when only one
    /// player does, the state names that player.
    pub proof fn lemma_state_characterization(self)
        requires
            self.wf(),
        ensures
            self.state() == -1 || self.state() == 0 || self.state() == 1 || self.state() == 2,
            self.state() == 0 <==> (!self.has_win(1) && !self.has_win(2) && !self.full()),
            self.state() == -1 <==> (!self.has_win(1) && !self.has_win(2) && self.full()),
            (self.state() == 1 || self.state() == 2) <==> (self.has_win(1) || self.has_win(2)),
            self.state() == 1 ==> self.has_win(1),
            self.state() == 2 ==> self.has_win(2),
            self.has_win(1) && !self.has_win(2) ==> self.state() == 1,
            self.has_win(2) && !self.has_win(1) ==> self.state() == 2,
    {
        let s0 = self.scan_winner_at(0, 0);
        if s0 == 0 {
            self.lemma_scan_none(0, 0);
            assert forall|p: i32| 1 <= p <= 2 implies !self.has_win(p) by {
                if self.has_win(p) {
                    let (x, y) = choose|x: int, y: int| self.win_at(p, x, y);
                    assert(self.cell(x, y) == p);
                    assert(self.in_bounds(x, y));
                    assert(self.anchor_wins(x, y));
                }
            };
            assert(!self.has_win(1));
            assert(!self.has_win(2));
        } else {
            self.lemma_scan_result(0, 0);
        }
    }

    /// `play` accepts a move exactly when `is_valid_play` accepts its column
    /// and the player id is real; and a column is acceptable exactly when it
    /// still has an empty cell — a full column is never played.
    pub proof fn lemma_play_acceptance(self, p: i32, x: int)
        requires
            self.wf(),
        ensures
            self.can_play(p, x) <==> (self.valid_play(x) && 1 <= p <= 2),
            self.valid_play(x) <==> (0 <= x < self.w && exists|y: int|
                0 <= y < self.h && self.cell(x, y) == 0),
    {
        if self.valid_play(x) {
            assert(0 <= 0 < self.h && self.cell(x, 0) == 0);
        }
        if 0 <= x < self.w && exists|y: int| 0 <= y < self.h && self.cell(x, y) == 0 {
            let y0 = choose|y: int| 0 <= y < self.h && self.cell(x, y) == 0;
            if self.cell(x, 0) != 0 {
                self.lemma_column_filled_below(x, 0, y0);
            }
        }
    }

    /// Undo is the exact inverse of play: one placement made and then taken
    /// back returns the very board it started from.
    pub proof fn lemma_play_undo(self, p: i32, x: int)
        requires
            self.wf(),
            self.can_play(p, x),
        ensures
            self.play_result(p, x).undo_result() == self,
    {
        self.lemma_landing_exists(x);
        let l = self.landing_row(x);
        let idx = l * self.w + x;
        lemma_rowmajor_index(self.w as int, self.h as int, x, l);
        let m2 = self.play_result(p, x);
        assert(m2.turns.last() == (x as u32, l as u32));
        assert(m2.turns.drop_last() =~= self.turns);
        assert(m2.cells.update(idx, 0) =~= self.cells);
        assert(m2.undo_result() =~= self);
    }
}

/// Each listed move, taken in order, is legal on the board it meets.
pub open spec fn plays_ok(m: BoardModel, moves: Seq<(i32, int)>) -> bool
    decreases moves.len(),
{
    moves.len() == 0 || (m.can_play(moves[0].0, moves[0].1) && plays_ok(
        m.play_result(moves[0].0, moves[0].1),
        moves.drop_first(),
    ))
}

/// The board after the listed moves, applied in order.
pub open spec fn apply_plays(m: BoardModel, moves: Seq<(i32, int)>) -> BoardModel
    decreases moves.len(),
{
    if moves.len() == 0 {
        m
    } else {
        apply_plays(m.play_result(moves[0].0, moves[0].1), moves.drop_first())
    }
}

/// The board after `n` undos.
pub open spec fn apply_undos(m: BoardModel, n: nat) -> BoardModel
    decreases n,
{
    if n == 0 {
        m
    } else {
        apply_undos(m.undo_result(), (n - 1) as nat)
    }
}

/// Appending one more move that is legal on the board the earlier moves
/// produce keeps the whole list applicable, and applies as one more play.
pub proof fn lemma_plays_snoc(m: BoardModel, moves: Seq<(i32, int)>, mv: (i32, int))
    requires
        plays_ok(m, moves),
        apply_plays(m, moves).can_play(mv.0, mv.1),
    ensures
        plays_ok(m, moves.push(mv)),
        apply_plays(m, moves.push(mv)) == apply_plays(m, moves).play_result(mv.0, mv.1),
    decreases moves.len(),
{
    reveal_with_fuel(plays_ok, 2);
    reveal_with_fuel(apply_plays, 2);
    if moves.len() == 0 {
        assert(moves.push(mv)[0] == mv);
        assert(moves.push(mv).drop_first() =~= Seq::<(i32, int)>::empty());
    } else {
        assert(moves.push(mv)[0] == moves[0]);
        assert(moves.push(mv).drop_first() =~= moves.drop_first().push(mv));
        lemma_plays_snoc(m.play_result(moves[0].0, moves[0].1), moves.drop_first(), mv);
    }
}

proof fn lemma_apply_undos_snoc(m: BoardModel, n: nat)
    ensures
        apply_undos(m, n + 1) == apply_undos(m, n).undo_result(),
    decreases n,
{
    reveal_with_fuel(apply_undos, 2);
    if n > 0 {
        lemma_apply_undos_snoc(m.undo_result(), (n - 1) as nat);
    }
}

/// The full round trip: any sequence of legal plays, undone as many times,
/// returns the identical board — the same grid and the same move stack.
pub proof fn lemma_plays_then_undos_round_trip(m: BoardModel, moves: Seq<(i32, int)>)
    requires
        m.wf(),
        plays_ok(m, moves),
    ensures
        apply_plays(m, moves).wf(),
        apply_undos(apply_plays(m, moves), moves.len()) == m,
    decreases moves.len(),
{
    if moves.len() > 0 {
        let m1 = m.play_result(moves[0].0, moves[0].1);
        m.lemma_play_wf(moves[0].0, moves[0].1);
        lemma_plays_then_undos_round_trip(m1, moves.drop_first());
        lemma_apply_undos_snoc(apply_plays(m1, moves.drop_first()), moves.drop_first().len());
        m.lemma_play_undo(moves[0].0, moves[0].1);
    }
}

impl Clone for Field {
    /// A full independent snapshot: the copy models the very same board.
    fn clone(&self) -> (r: Field)
        ensures
            r@ == self@,
    {
        let mut turns2: Vec<(u32, u32)> = Vec::new();
        let mut i: usize = 0;
        while i < self.turns.len()
            invariant
                i <= self.turns.len(),
                turns2@ == self.turns@.take(i as int),
            decreases self.turns.len() - i,
        {
            turns2.push(self.turns[i]);
            proof {
                assert(turns2@ =~= self.turns@.take(i + 1));
            }
            i = i + 1;
        }
        let f = Field { field: self.field.clone(), w: self.w, h: self.h, turns: turns2 };
        proof {
            assert(f@.cells =~= self@.cells);
            assert(f@.turns =~= self@.turns);
            assert(f@ =~= self@);
        }
        f
    }
}

} // verus!
