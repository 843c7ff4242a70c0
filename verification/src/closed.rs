//! The face-down cards backing the seven tableau columns.
//!
//! Column `c` starts with `c` hidden cards (column 0 has none); counts only
//! ever decrease as cards are revealed. Column `c`'s backing cards live at
//! fixed deck indices given by a triangular offset table, most recently
//! dealt first.

use vstd::prelude::*;

use crate::card::Card;
use crate::deck::Deck;

verus! {

#[derive(Clone, Copy, PartialEq, Eq, Hash, Debug)]
pub struct ClosedState {
    /// Hidden-card count per column; `counts[c] <= c`.
    pub counts: [u8; 7],
}

impl ClosedState {
    pub open spec fn wf(self) -> bool {
        forall|c: int| 0 <= c < 7 ==> #[trigger] self.counts@[c] <= c
    }

    pub open spec fn spec_n_closed(self, column: int) -> int {
        self.counts@[column] as int
    }

    /// The triangular offset table: how many backing cards the columns
    /// above a given reveal depth hold together.
    pub open spec fn tri_offset(k: int) -> int {
        if k == 0 {
            0
        } else if k == 1 {
            6
        } else if k == 2 {
            11
        } else if k == 3 {
            15
        } else if k == 4 {
            18
        } else {
            20
        }
    }

    /// The deck index revealed from `column` when `k + 1` hidden cards
    /// remain there.
    pub open spec fn spec_reveal_index(column: int, k: int) -> int {
        51 - ClosedState::tri_offset(k) - column
    }

    /// The initial deal: column `c` hides `c` cards.
    pub fn new() -> (s: ClosedState)
        ensures
            s.wf(),
            forall|c: int| 0 <= c < 7 ==> s.spec_n_closed(c) == c,
    {
        ClosedState { counts: [0, 1, 2, 3, 4, 5, 6] }
    }

    pub fn n_closed(&self, column: usize) -> (r: usize)
        requires
            column < 7,
        ensures
            r == self.spec_n_closed(column as int),
    {
        self.counts[column] as usize
    }

    /// Reveals the column's most recently dealt hidden card, decrementing
    /// its count; fails if the column hides nothing.
    pub fn open(&mut self, column: usize, deck: &Deck) -> (r: Result<Card, ()>)
        requires
            old(self).wf(),
            column < 7,
        ensures
            final(self).wf(),
            r is Ok <==> old(self).spec_n_closed(column as int) > 0,
            r is Err ==> *final(self) == *old(self),
            r is Ok ==> final(self).counts@ == old(self).counts@.update(
                column as int,
                (old(self).spec_n_closed(column as int) - 1) as u8,
            ),
            r matches Ok(c) ==> c == deck.cards@[ClosedState::spec_reveal_index(
                column as int,
                old(self).spec_n_closed(column as int) - 1,
            )],
            r is Ok ==> 24 < ClosedState::spec_reveal_index(
                column as int,
                old(self).spec_n_closed(column as int) - 1,
            ) < 52,
    {
        let n = self.counts[column];
        if n == 0 {
            return Err(());
        }
        let k = (n - 1) as usize;
        self.counts[column] = n - 1;
        let off: usize = match k {
            0 => 0,
            1 => 6,
            2 => 11,
            3 => 15,
            4 => 18,
            _ => 20,
        };
        let index = 51 - off - column;
        proof {
            assert(self.counts@ =~= old(self).counts@.update(
                column as int,
                (old(self).spec_n_closed(column as int) - 1) as u8,
            ));
        }
        Ok(deck.cards[index])
    }

    /// The counts packed in mixed radix (column `c` has radix `c + 1`),
    /// with two auxiliary bits on top.
    pub open spec fn spec_packed(self) -> int {
        self.counts@[1] + 2 * (self.counts@[2] + 3 * (self.counts@[3] + 4 * (self.counts@[4] + 5
            * (self.counts@[5] + 6 * (self.counts@[6] as int)))))
    }

    pub open spec fn spec_to_bits(self, two_extra_bits: int) -> int {
        self.spec_packed() + 5040 * two_extra_bits
    }

    pub fn to_bits(&self, two_extra_bits: u8) -> (bits: u16)
        requires
            self.wf(),
            two_extra_bits < 4,
        ensures
            bits == self.spec_to_bits(two_extra_bits as int),
            bits < 20160,
    {
        let p = self.counts[1] as u16 + 2 * (self.counts[2] as u16 + 3 * (self.counts[3] as u16
            + 4 * (self.counts[4] as u16 + 5 * (self.counts[5] as u16 + 6 * (
        self.counts[6] as u16)))));
        p + 5040 * two_extra_bits as u16
    }

    /// Rebuilds the counts from their packed form, returning the auxiliary
    /// bits alongside.
    pub fn from_bits(bits: u16) -> (r: (ClosedState, u8))
        ensures
            r.0.wf(),
            r.0.counts@[0] == 0,
            r.0.counts@[1] == bits as int % 5040 % 2,
            r.0.counts@[2] == bits as int % 5040 / 2 % 3,
            r.0.counts@[3] == bits as int % 5040 / 2 / 3 % 4,
            r.0.counts@[4] == bits as int % 5040 / 2 / 3 / 4 % 5,
            r.0.counts@[5] == bits as int % 5040 / 2 / 3 / 4 / 5 % 6,
            r.0.counts@[6] == bits as int % 5040 / 2 / 3 / 4 / 5 / 6 % 7,
            r.1 == bits as int / 5040,
    {
        let extra = (bits / 5040) as u8;
        let p = bits % 5040;
        let n1 = (p % 2) as u8;
        let p2 = p / 2;
        let n2 = (p2 % 3) as u8;
        let p3 = p2 / 3;
        let n3 = (p3 % 4) as u8;
        let p4 = p3 / 4;
        let n4 = (p4 % 5) as u8;
        let p5 = p4 / 5;
        let n5 = (p5 % 6) as u8;
        let p6 = p5 / 6;
        let n6 = (p6 % 7) as u8;
        let s = ClosedState { counts: [0, n1, n2, n3, n4, n5, n6] };
        (s, extra)
    }
}

/// Packing the counts with auxiliary bits and unpacking them restores both
/// exactly.
pub proof fn lemma_closed_bits_round_trip(s: ClosedState, aux: int)
    requires
        s.wf(),
        0 <= aux < 4,
    ensures
        0 <= s.spec_to_bits(aux) < 20160,
        s.spec_to_bits(aux) % 5040 == s.spec_packed(),
        s.spec_to_bits(aux) / 5040 == aux,
        s.spec_packed() % 2 == s.counts@[1],
        s.spec_packed() / 2 % 3 == s.counts@[2],
        s.spec_packed() / 2 / 3 % 4 == s.counts@[3],
        s.spec_packed() / 2 / 3 / 4 % 5 == s.counts@[4],
        s.spec_packed() / 2 / 3 / 4 / 5 % 6 == s.counts@[5],
        s.spec_packed() / 2 / 3 / 4 / 5 / 6 % 7 == s.counts@[6],
{
    let n1 = s.counts@[1] as int;
    let n2 = s.counts@[2] as int;
    let n3 = s.counts@[3] as int;
    let n4 = s.counts@[4] as int;
    let n5 = s.counts@[5] as int;
    let n6 = s.counts@[6] as int;
    let r6 = n6;
    let r5 = n5 + 6 * r6;
    let r4 = n4 + 5 * r5;
    let r3 = n3 + 4 * r4;
    let r2 = n2 + 3 * r3;
    let p = n1 + 2 * r2;
    crate::codec::lemma_pack_unpack(n1, r2, 2);
    crate::codec::lemma_pack_unpack(n2, r3, 3);
    crate::codec::lemma_pack_unpack(n3, r4, 4);
    crate::codec::lemma_pack_unpack(n4, r5, 5);
    crate::codec::lemma_pack_unpack(n5, r6, 6);
    crate::codec::lemma_pack_unpack(n6, 0, 7);
    crate::codec::lemma_pack_unpack(p, aux, 5040);
}

} // verus!
