//! The move builder: whether a committed move sends only half of the army.
use crate::consts::{CAPITAL, CAPITAL_CAUTION, PLAIN};
use crate::board::Guard;
use crate::bot::{Bot, Movement, Pos};
use vstd::prelude::*;

verus! {

impl Bot {
    /// Whether a move from `f` into `c` should send half of the army.
    pub open spec fn split(&self, f: Pos, c: Pos) -> bool {
        ||| {
            &&& self.cell(c).kind != PLAIN
            &&& self.cell(c).kind != CAPITAL
            &&& !self.owns(c)
            &&& (self.army(f) - 1) / 2 > self.army(c)
            &&& self.hostile_at(f, c, Guard::Strongholds, -1)
        }
        ||| {
            &&& self.cell(c).kind == CAPITAL
            &&& self.army(f) > CAPITAL_CAUTION
            &&& self.hostile_at(f, c, Guard::Valuable, -1)
        }
    }

    /// The move from `from` into `to`, with the force-split flag set when
    /// strongholds or a guarded capital make holding back half worthwhile.
    pub fn move_to(&self, from: Pos, to: Pos) -> (r: Movement)
        requires
            self.wf(),
            self.on_board(from),
            self.on_board(to),
        ensures
            r == (from, to, if self.split(from, to) { 1u8 } else { 0u8 }),
            self.cell(to).kind == PLAIN ==> r.2 == 0,
    {
        let from_land = self.land(from);
        let to_land = self.land(to);
        let mut half_tag: u8 = 0;
        if to_land.kind != PLAIN && to_land.kind != CAPITAL && to_land.color != self.my_color
            && from_land.amount >= 1 && (from_land.amount - 1) / 2 > to_land.amount {
            if self.hostile_near(from, to, Guard::Strongholds, -1) {
                half_tag = 1;
            }
        }
        if to_land.kind == CAPITAL && from_land.amount > CAPITAL_CAUTION && half_tag == 0 {
            if self.hostile_near(from, to, Guard::Valuable, -1) {
                half_tag = 1;
            }
        }
        (from, to, half_tag)
    }
}

} // verus!
