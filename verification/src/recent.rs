//! The two newest offsets as the match finders keep them within a block.

use crate::block::RepView;
use vstd::prelude::*;

verus! {

/// What `rep` says of the decoder's two newest offsets is true; zero says
/// nothing.
pub open spec fn in_sync(rep: Seq<u32>, v: RepView) -> bool {
    &&& rep.len() == 3
    &&& rep[0] != 0 ==> rep[0] == v.r0
    &&& rep[1] != 0 ==> rep[1] == v.r1
    &&& rep[0] == 0 ==> rep[1] == 0
}

/// The two newest offsets. One that reaches too far back for this block is
/// set to zero and kept aside, to be restored at its end.
#[derive(Clone, Copy)]
pub struct Recent {
    pub first: u32,
    pub second: u32,
    pub saved_first: u32,
    pub saved_second: u32,
}

/// The second newest offset, where it has been set to zero: the first one that
/// was kept aside once a match has moved it down, or the second.
pub open spec fn hidden_second(r: Recent) -> u32 {
    if r.saved_first != 0 && r.first != 0 {
        r.saved_first
    } else {
        r.saved_second
    }
}

impl Recent {
    /// The newest offset, or zero where it is not known.
    pub open spec fn known_first(self) -> u32 {
        if self.first != 0 {
            self.first
        } else {
            self.saved_first
        }
    }

    /// The second newest offset, or zero where it is not known.
    pub open spec fn known_second(self) -> u32 {
        if self.second != 0 {
            self.second
        } else {
            hidden_second(self)
        }
    }

    /// What is known here of the decoder's two newest offsets is true.
    pub open spec fn tracks(self, rep: RepView) -> bool {
        &&& self.known_first() != 0 ==> rep.r0 == self.known_first()
        &&& self.known_second() != 0 ==> rep.r1 == self.known_second()
        &&& self.known_first() == 0 ==> self.known_second() == 0
    }

    /// The two newest offsets of `rep`, with those above `max` (from `max` on,
    /// if `strict`) set aside.
    pub open spec fn spec_start(rep: Seq<u32>, max: int, strict: bool) -> Recent {
        let drop_a = rep[0] > max || (strict && rep[0] == max);
        let drop_b = rep[1] > max || (strict && rep[1] == max);
        Recent {
            first: if drop_a {
                0
            } else {
                rep[0]
            },
            second: if drop_b {
                0
            } else {
                rep[1]
            },
            saved_first: if drop_a {
                rep[0]
            } else {
                0
            },
            saved_second: if drop_b {
                rep[1]
            } else {
                0
            },
        }
    }

    /// Starts a block from `rep`, setting aside the offsets above `max` (from
    /// `max` on, if `strict`).
    pub fn start(rep: &[u32; 3], max: usize, strict: bool) -> (r: Self)
        requires
            rep@[0] == 0 ==> rep@[1] == 0,
        ensures
            r == Self::spec_start(rep@, max as int, strict),
            forall|v: RepView| in_sync(rep@, v) ==> #[trigger] r.tracks(v),
            r.first <= max,
            r.second <= max,
    {
        let a: u32 = rep[0];
        let b: u32 = rep[1];
        let drop_a: bool = a as usize > max || (strict && a as usize == max);
        let drop_b: bool = b as usize > max || (strict && b as usize == max);
        Recent {
            first: if drop_a {
                0
            } else {
                a
            },
            second: if drop_b {
                0
            } else {
                b
            },
            saved_first: if drop_a {
                a
            } else {
                0
            },
            saved_second: if drop_b {
                b
            } else {
                0
            },
        }
    }

    /// Both offsets, whatever they reach.
    pub fn all(rep: &[u32; 3]) -> (r: Self)
        requires
            rep@[0] == 0 ==> rep@[1] == 0,
        ensures
            r == (Recent { first: rep@[0], second: rep@[1], saved_first: 0, saved_second: 0 }),
            forall|v: RepView| in_sync(rep@, v) ==> #[trigger] r.tracks(v),
    {
        Recent { first: rep[0], second: rep[1], saved_first: 0, saved_second: 0 }
    }

    pub open spec fn pushed(self, offset: u32) -> Recent {
        Recent { first: offset, second: self.first, ..self }
    }

    pub open spec fn swapped(self) -> Recent {
        Recent { first: self.second, second: self.first, ..self }
    }

    /// The recent offsets for the next block, when `rep` were those of this.
    pub open spec fn finished(self, rep: Seq<u32>) -> Seq<u32> {
        seq![self.known_first(), self.known_second(), rep[2]]
    }

    /// A match with a new offset.
    pub fn push(&mut self, offset: u32)
        ensures
            *final(self) == old(self).pushed(offset),
    {
        self.second = self.first;
        self.first = offset;
    }

    /// A match with the second newest offset.
    pub fn swap(&mut self)
        ensures
            *final(self) == old(self).swapped(),
    {
        let t: u32 = self.first;
        self.first = self.second;
        self.second = t;
    }

    /// The offsets for the next block.
    pub fn finish(&self, rep: &mut [u32; 3])
        ensures
            final(rep)@[0] == self.known_first(),
            final(rep)@[1] == self.known_second(),
            final(rep)@[2] == old(rep)@[2],
            final(rep)@ == self.finished(old(rep)@),
    {
        let a: u32 = if self.first != 0 {
            self.first
        } else {
            self.saved_first
        };
        let b: u32 = if self.second != 0 {
            self.second
        } else if self.saved_first != 0 && self.first != 0 {
            self.saved_first
        } else {
            self.saved_second
        };
        let c: u32 = rep[2];
        let next: [u32; 3] = [a, b, c];
        assert(next@ =~= self.finished(rep@));
        *rep = next;
    }
}

} // verus!
