//! A strategy that drops its stone into a column chosen uniformly at random
//! among the columns that still accept one.

use vstd::prelude::*;
use crate::field::Field;
use crate::player::Player;
use crate::rng::draw_u32;

verus! {

pub struct PlayerRandom {
    initialized: bool,
    pid: i32,
}

impl PlayerRandom {
    pub fn new() -> (r: Box<PlayerRandom>)
        ensures
            !r.is_init(),
    {
        Box::new(PlayerRandom { initialized: false, pid: 0 })
    }
}

impl Player for PlayerRandom {
    closed spec fn is_init(&self) -> bool {
        self.initialized
    }

    closed spec fn pid(&self) -> i32 {
        self.pid
    }

    fn init(&mut self, field: &Field, p: i32) -> (r: bool)
        ensures
            r,
            final(self).is_init(),
            final(self).pid() == p,
    {
        self.initialized = true;
        self.pid = p;
        true
    }

    fn startp(&mut self, p: i32)
        ensures
            *final(self) == *old(self),
    {
    }

    /// One move into a uniformly chosen playable column. Succeeds exactly when
    /// the agent is bound to a real player id and some column is playable.
    fn play(&mut self, field: &mut Field) -> (r: bool)
        ensures
            *final(self) == *old(self),
            r <==> (old(self).is_init() && 1 <= old(self).pid() <= 2 && exists|c: int|
                old(field)@.valid_play(c)),
            r ==> exists|c: int|
                old(field)@.valid_play(c) && final(field)@ == old(field)@.play_result(
                    old(self).pid(),
                    c,
                ),
    {
        if !self.initialized {
            return false;
        }
        let w = field.get_w();
        let mut legal: Vec<u32> = Vec::new();
        let mut x: u32 = 0;
        while x < w
            invariant
                field@ == old(field)@,
                field@.wf(),
                w == field@.w,
                x <= w,
                forall|j: int|
                    0 <= j < legal@.len() ==> field@.valid_play(#[trigger] legal@[j] as int),
                forall|c: int| 0 <= c < x && field@.valid_play(c) ==> legal@.len() > 0,
            decreases w - x,
        {
            if field.is_valid_play(x) {
                legal.push(x);
            }
            x = x + 1;
        }
        if legal.len() == 0 {
            proof {
                assert(forall|c: int| #[trigger] field@.valid_play(c) ==> 0 <= c < w);
            }
            return false;
        }
        let pick = (draw_u32() as usize) % legal.len();
        let c = legal[pick];
        proof {
            assert(field@.valid_play(legal@[pick as int] as int));
        }
        field.play(self.pid, c)
    }

    fn outcome(&mut self, field: &mut Field, state: i32)
        ensures
            *final(self) == *old(self),
    {
    }
}

/// With exactly one playable column left, every column a successful move can
/// land in is that column: the random strategy is forced to take it.
pub proof fn lemma_single_column_forced(m: crate::field::BoardModel, c0: int, c: int)
    requires
        m.valid_play(c0),
        forall|c2: int| c2 != c0 ==> !m.valid_play(c2),
        m.valid_play(c),
    ensures
        c == c0,
{
}

} // verus!
