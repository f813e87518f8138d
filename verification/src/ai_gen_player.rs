//! A reserved strategy slot: it rejects initialization and never moves.

use vstd::prelude::*;
use crate::field::Field;
use crate::player::Player;

verus! {

pub struct PlayerAIGen {
    initialized: bool,
    pid: i32,
}

impl PlayerAIGen {
    pub fn new() -> (r: Box<PlayerAIGen>)
        ensures
            !r.is_init(),
    {
        Box::new(PlayerAIGen { initialized: false, pid: 0 })
    }
}

impl Player for PlayerAIGen {
    closed spec fn is_init(&self) -> bool {
        self.initialized
    }

    closed spec fn pid(&self) -> i32 {
        self.pid
    }

    fn init(&mut self, field: &Field, p: i32) -> (r: bool)
        ensures
            !r,
    {
        self.initialized = true;
        self.pid = p;
        false
    }

    fn startp(&mut self, p: i32)
        ensures
            *final(self) == *old(self),
    {
    }

    fn play(&mut self, field: &mut Field) -> (r: bool)
        ensures
            !r,
            final(field)@ == old(field)@,
    {
        if !self.initialized {
            return false;
        }
        false
    }

    fn outcome(&mut self, field: &mut Field, state: i32)
        ensures
            *final(self) == *old(self),
    {
    }
}

} // verus!
