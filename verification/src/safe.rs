//! The dial safe puzzle: a dial with one hundred positions is turned left
//! or right by a list of amounts; the answers count how often it comes to
//! rest on zero and how often it passes zero while turning.

use vstd::prelude::*;

verus! {

use crate::parsing::{all_digits, digits_val, chars_of, parse_u32};

/// Number of positions on the dial.
pub const MAX_POSITION: u32 = 100;

/// One instruction: turn left or right by `number` positions.
#[derive(Clone, Copy)]
pub struct Turn {
    pub left: bool,
    pub number: u32,
}

/// The dial, by its current position.
pub struct Safe {
    pub position: u32,
}

/// A turn instruction the parser accepts: empty, or a direction letter
/// followed by a number that fits the dial's word.
pub open spec fn wf_turn_str(s: Seq<char>) -> bool {
    s.len() == 0 || (s.len() >= 2 && all_digits(s.skip(1)) && digits_val(s.skip(1)) <= u32::MAX)
}

impl Turn {
    /// Reads a turn such as `L68`: `L` turns left, anything else right.
    /// An empty string is a right turn by zero. Fails exactly on
    /// instructions whose tail is not a number in range.
    pub fn from_str(s: &str) -> (r: Option<Turn>)
        ensures
            r is Some <==> wf_turn_str(s@),
            r is Some ==> r->Some_0.left == (s@.len() > 0 && s@[0] == 'L'),
            r is Some ==> r->Some_0.number == if s@.len() == 0 {
                0nat
            } else {
                digits_val(s@.skip(1))
            },
    {
        let cs = chars_of(s);
        if cs.len() == 0 {
            return Some(Turn { left: false, number: 0 });
        }
        let left = cs[0] == 'L';
        let mut tail: Vec<char> = Vec::new();
        let mut i: usize = 1;
        while i < cs.len()
            invariant
                1 <= i <= cs@.len(),
                cs@ == s@,
                tail@ =~= s@.skip(1).take(i - 1),
            decreases cs@.len() - i,
        {
            tail.push(cs[i]);
            proof {
                assert(tail@ =~= s@.skip(1).take(i as int));
            }
            i = i + 1;
        }
        proof {
            assert(tail@ =~= s@.skip(1));
        }
        match parse_u32(&tail) {
            None => None,
            Some(number) => Some(Turn { left, number }),
        }
    }
}

/// The dial position after one turn.
pub open spec fn turn_new_pos(pos: u32, t: Turn) -> u32 {
    if t.left {
        if pos <= t.number {
            (((100 - (t.number - pos) % 100) % 100) as u32)
        } else {
            ((pos - t.number) as u32)
        }
    } else {
        (((pos + t.number) % 100) as u32)
    }
}

/// How often the dial passes or reaches zero during one turn.
pub open spec fn turn_zeros(pos: u32, t: Turn) -> int {
    if t.left {
        if pos <= t.number {
            (t.number - pos) / 100 + 1 - (if pos == 0 {
                1int
            } else {
                0int
            })
        } else {
            0
        }
    } else {
        (pos + t.number) / 100
    }
}

/// The dial position after a whole list of turns.
pub open spec fn pos_after(pos: u32, ts: Seq<Turn>) -> u32
    decreases ts.len(),
{
    if ts.len() == 0 {
        pos
    } else {
        turn_new_pos(pos_after(pos, ts.drop_last()), ts.last())
    }
}

/// Total zero passes over a whole list of turns.
pub open spec fn zeros_passed(pos: u32, ts: Seq<Turn>) -> int
    decreases ts.len(),
{
    if ts.len() == 0 {
        0
    } else {
        zeros_passed(pos, ts.drop_last()) + turn_zeros(pos_after(pos, ts.drop_last()), ts.last())
    }
}

/// How many turns leave the dial resting on zero.
pub open spec fn zeros_rested(pos: u32, ts: Seq<Turn>) -> int
    decreases ts.len(),
{
    if ts.len() == 0 {
        0
    } else {
        zeros_rested(pos, ts.drop_last()) + (if pos_after(pos, ts) == 0 {
            1int
        } else {
            0int
        })
    }
}

impl Safe {
    /// Turns the dial once and reports how often zero went by.
    pub fn turn(&mut self, turn: Turn) -> (r: u32)
        requires
            old(self).position < 100,
        ensures
            final(self).position == turn_new_pos(old(self).position, turn),
            final(self).position < 100,
            r == turn_zeros(old(self).position, turn),
    {
        if turn.left {
            if self.position <= turn.number {
                let mut res = (turn.number - self.position) / MAX_POSITION + 1;
                if self.position == 0 {
                    res = res - 1;
                }
                self.position = MAX_POSITION - (turn.number - self.position) % MAX_POSITION;
                self.position = self.position % MAX_POSITION;
                res
            } else {
                self.position = self.position - turn.number;
                0
            }
        } else {
            let sum = self.position as u64 + turn.number as u64;
            self.position = (sum % 100) as u32;
            ((sum / 100) as u32)
        }
    }

    /// The dial rests on zero.
    pub fn is_null(&self) -> (r: bool)
        ensures
            r == (self.position == 0),
    {
        self.position == 0
    }

    /// Applies every turn in order; returns how many turns ended on zero
    /// and how often zero went by in all.
    pub fn apply_turns(&mut self, turns: Vec<Turn>) -> (r: (u32, u32))
        requires
            old(self).position < 100,
            zeros_passed(old(self).position, turns@) <= u32::MAX,
            turns@.len() <= u32::MAX,
        ensures
            final(self).position == pos_after(old(self).position, turns@),
            r.0 == zeros_rested(old(self).position, turns@),
            r.1 == zeros_passed(old(self).position, turns@),
    {
        let ghost start = self.position;
        let ghost ts = turns@;
        let mut nb_zeros_p2: u32 = 0;
        let mut nb_zeros_p1: u32 = 0;
        let mut i: usize = 0;
        while i < turns.len()
            invariant
                i <= ts.len(),
                turns@ == ts,
                start < 100,
                zeros_passed(start, ts) <= u32::MAX,
                ts.len() <= u32::MAX,
                self.position == pos_after(start, ts.take(i as int)),
                self.position < 100,
                nb_zeros_p2 == zeros_passed(start, ts.take(i as int)),
                nb_zeros_p1 == zeros_rested(start, ts.take(i as int)),
            decreases ts.len() - i,
        {
            proof {
                assert(ts.take(i + 1).drop_last() =~= ts.take(i as int));
                assert(ts.take(i + 1).last() == ts[i as int]);
                lemma_zeros_passed_prefix_le(start, ts, (i + 1) as int);
                lemma_zeros_rested_bounds(start, ts.take(i + 1));
            }
            let z = self.turn(turns[i]);
            nb_zeros_p2 = nb_zeros_p2 + z;
            if self.is_null() {
                nb_zeros_p1 = nb_zeros_p1 + 1;
            }
            i = i + 1;
        }
        proof {
            assert(ts.take(ts.len() as int) =~= ts);
        }
        (nb_zeros_p1, nb_zeros_p2)
    }
}

/// Each turn passes zero a non-negative number of times, so prefixes pass
/// it no more often than the whole list.
pub proof fn lemma_zeros_passed_prefix_le(pos: u32, ts: Seq<Turn>, i: int)
    requires
        0 <= i <= ts.len(),
    ensures
        0 <= zeros_passed(pos, ts.take(i)),
        zeros_passed(pos, ts.take(i)) <= zeros_passed(pos, ts),
    decreases ts.len() - i,
{
    if i == 0 {
        assert(ts.take(0) =~= Seq::<Turn>::empty());
        lemma_zeros_passed_nonneg(pos, ts);
    } else {
        lemma_zeros_passed_nonneg(pos, ts.take(i));
        if i < ts.len() {
            lemma_zeros_passed_prefix_le(pos, ts, i + 1);
            assert(ts.take(i + 1).drop_last() =~= ts.take(i));
        } else {
            assert(ts.take(i) =~= ts);
        }
    }
}

proof fn lemma_zeros_passed_nonneg(pos: u32, ts: Seq<Turn>)
    ensures
        0 <= zeros_passed(pos, ts),
    decreases ts.len(),
{
    if ts.len() > 0 {
        lemma_zeros_passed_nonneg(pos, ts.drop_last());
    }
}

/// At most one rest on zero per turn.
pub proof fn lemma_zeros_rested_bounds(pos: u32, ts: Seq<Turn>)
    ensures
        0 <= zeros_rested(pos, ts) <= ts.len(),
    decreases ts.len(),
{
    if ts.len() > 0 {
        lemma_zeros_rested_bounds(pos, ts.drop_last());
    }
}

} // verus!
