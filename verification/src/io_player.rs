//! The console strategy. Prompting and reading belong to the surrounding
//! program; inside the library this strategy never moves on its own.

use vstd::prelude::*;
use crate::field::Field;
use crate::player::Player;

verus! {

pub struct PlayerIO {
    initialized: bool,
    pid: i32,
}

impl PlayerIO {
    pub fn new() -> (r: Box<PlayerIO>)
        ensures
            !r.is_init(),
    {
        Box::new(PlayerIO { initialized: false, pid: 0 })
    }
}

impl Player for PlayerIO {
    closed spec fn is_init(&self) -> bool {
        self.initialized
    }

    closed spec fn pid(&self) -> i32 {
        self.pid
    }

    fn init(&mut self, field: &Field, p: i32) -> (r: bool)
        ensures
            r,
            final(self).is_init(),
            final(self).pid() == p,
    {
        self.initialized = true;
        self.pid = p;
        true
    }

    fn startp(&mut self, p: i32)
        ensures
            *final(self) == *old(self),
    {
    }

    /// The column comes from the console, which only the surrounding program
    /// can read; it validates the input with `is_valid_play` and plays it on
    /// the board directly. Called inside the library, this strategy declines.
    fn play(&mut self, field: &mut Field) -> (r: bool)
        ensures
            !r,
            final(field)@ == old(field)@,
            *final(self) == *old(self),
    {
        false
    }

    fn outcome(&mut self, field: &mut Field, state: i32)
        ensures
            *final(self) == *old(self),
    {
    }
}

} // verus!
