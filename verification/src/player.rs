//! The strategy interface that every agent variant implements.

use vstd::prelude::*;
use crate::field::Field;

verus! {

/// A strategy bound to one player id for the length of a match.
///
/// `init` binds the agent to a board geometry and a player id and may reject;
/// `startp` tells the agent who opens the game; `play` applies exactly one
/// move to the board or returns `false` without touching it; `outcome` is the
/// post-game hook and never changes the board.
pub trait Player {
    spec fn is_init(&self) -> bool;

    spec fn pid(&self) -> i32;

    fn init(&mut self, field: &Field, p: i32) -> (r: bool)
        requires
            field@.wf(),
        ensures
            r ==> final(self).is_init() && final(self).pid() == p,
    ;

    fn startp(&mut self, p: i32)
        ensures
            final(self).is_init() == old(self).is_init(),
            final(self).pid() == old(self).pid(),
    ;

    fn play(&mut self, field: &mut Field) -> (r: bool)
        requires
            old(field)@.wf(),
        ensures
            final(field)@.wf(),
            final(field)@.w == old(field)@.w,
            final(field)@.h == old(field)@.h,
            !r ==> final(field)@ == old(field)@,
            r ==> final(field)@.turns.len() == old(field)@.turns.len() + 1,
    ;

    fn outcome(&mut self, field: &mut Field, state: i32)
        requires
            old(field)@.wf(),
        ensures
            final(field)@ == old(field)@,
    ;
}

} // verus!
