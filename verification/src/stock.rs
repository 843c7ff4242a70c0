//! The stock: the face-down draw pile and its revealed waste portion.
//!
//! The stock owns the first 24 deck positions. Per position it tracks
//! whether the card is still here (not yet played away), and a single
//! cursor marks how far the waste has advanced: when the cursor is `c > 0`,
//! the one playable card is the deck card at index `24 - c`.

use vstd::prelude::*;

use crate::card::Card;
use crate::deck::Deck;

verus! {

#[derive(Clone, Copy, PartialEq, Eq, Hash, Debug)]
pub struct Stock {
    /// 0 when no card is open; otherwise the open card is deck index
    /// `24 - cursor`.
    pub cursor: u8,
    /// `present[j]` iff deck card `j` has not been played away yet.
    pub present: [bool; 24],
}

impl Stock {
    /// How many entries of `s[0..k]` are set.
    pub open spec fn count_present(s: Seq<bool>, k: int) -> int
        decreases k,
    {
        if k <= 0 {
            0
        } else {
            Stock::count_present(s, k - 1) + if s[k - 1] {
                1int
            } else {
                0int
            }
        }
    }

    /// The largest set index below `k`, or -1 if none.
    pub open spec fn max_present_below(s: Seq<bool>, k: int) -> int
        decreases k,
    {
        if k <= 0 {
            -1
        } else if s[k - 1] {
            k - 1
        } else {
            Stock::max_present_below(s, k - 1)
        }
    }

    /// The smallest set index above `k` and below 24, or 24 if none.
    pub open spec fn min_present_above(s: Seq<bool>, k: int) -> int
        decreases 24 - k,
    {
        if k >= 23 {
            24
        } else if s[k + 1] {
            k + 1
        } else {
            Stock::min_present_above(s, k + 1)
        }
    }

    pub open spec fn wf(self) -> bool {
        &&& self.cursor <= 24
        &&& (self.cursor > 0 ==> self.present@[24 - self.cursor])
    }

    /// Cards remaining in stock plus waste.
    pub open spec fn spec_n_cards(self) -> int {
        Stock::count_present(self.present@, 24)
    }

    /// Cards not yet advanced into view.
    pub open spec fn spec_n_closed_cards(self) -> int {
        Stock::count_present(self.present@, 24 - self.cursor)
    }

    pub open spec fn spec_top_open(self, deck: Deck) -> Option<Card> {
        if self.cursor == 0 {
            None
        } else {
            Some(deck.cards@[24 - self.cursor])
        }
    }

    /// Whether a further card can be advanced into view.
    pub open spec fn spec_can_open(self) -> bool {
        Stock::max_present_below(self.present@, 24 - self.cursor) >= 0
    }

    /// The stock after one successful advance.
    pub open spec fn spec_opened(self) -> Stock {
        Stock {
            cursor: (24 - Stock::max_present_below(self.present@, 24 - self.cursor)) as u8,
            present: self.present,
        }
    }

    /// The stock after up to `n` further advances, stopping quietly when no
    /// card is left to reveal.
    pub open spec fn spec_advance_rest(self, n: nat) -> Stock
        decreases n,
    {
        if n == 0 || !self.spec_can_open() {
            self
        } else {
            self.spec_opened().spec_advance_rest((n - 1) as nat)
        }
    }

    /// The stock after `advance(n)`: up to `n` cards are revealed; if none
    /// at all can be revealed the cursor wraps back to the start.
    pub open spec fn spec_advance(self, n: nat) -> Stock {
        if n == 0 {
            self
        } else if self.spec_can_open() {
            self.spec_opened().spec_advance_rest((n - 1) as nat)
        } else {
            Stock { cursor: 0, present: self.present }
        }
    }

    /// A full stock of 24 face-down cards, none yet revealed.
    pub fn new() -> (s: Stock)
        ensures
            s.wf(),
            s.cursor == 0,
            forall|j: int| 0 <= j < 24 ==> s.present@[j],
            s.spec_n_cards() == 24,
            s.spec_n_closed_cards() == 24,
    {
        let s = Stock { cursor: 0, present: [true; 24] };
        proof {
            lemma_count_full(s.present@, 24);
        }
        s
    }

    pub fn n_cards(&self) -> (r: usize)
        ensures
            r == self.spec_n_cards(),
    {
        let mut c: usize = 0;
        let mut i: usize = 0;
        while i < 24
            invariant
                i <= 24,
                c == Stock::count_present(self.present@, i as int),
                c <= i,
            decreases 24 - i,
        {
            if self.present[i] {
                c += 1;
            }
            i += 1;
        }
        c
    }

    pub fn is_empty(&self) -> (r: bool)
        ensures
            r == (self.spec_n_cards() == 0),
    {
        self.n_cards() == 0
    }

    pub fn n_closed_cards(&self) -> (r: usize)
        requires
            self.wf(),
        ensures
            r == self.spec_n_closed_cards(),
    {
        let bound = 24 - self.cursor as usize;
        let mut c: usize = 0;
        let mut i: usize = 0;
        while i < bound
            invariant
                i <= bound <= 24,
                c == Stock::count_present(self.present@, i as int),
                c <= i,
            decreases bound - i,
        {
            if self.present[i] {
                c += 1;
            }
            i += 1;
        }
        c
    }

    /// The single currently playable card, if any.
    pub fn top_open_card(&self, deck: &Deck) -> (r: Option<Card>)
        requires
            self.wf(),
        ensures
            r == self.spec_top_open(*deck),
    {
        if self.cursor == 0 {
            None
        } else {
            Some(deck.cards[24 - self.cursor as usize])
        }
    }

    /// Advances the cursor to the next still-present card below it.
    fn open(&mut self) -> (r: Result<(), ()>)
        requires
            old(self).wf(),
        ensures
            final(self).wf(),
            final(self).present == old(self).present,
            r is Ok <==> old(self).spec_can_open(),
            r is Err ==> *final(self) == *old(self),
            r is Ok ==> *final(self) == old(self).spec_opened(),
    {
        let bound = 24 - self.cursor as usize;
        let mut j = bound;
        while j > 0
            invariant
                j <= bound <= 24,
                bound == 24 - old(self).cursor,
                *self == *old(self),
                old(self).wf(),
                Stock::max_present_below(self.present@, bound as int) == Stock::max_present_below(
                    self.present@,
                    j as int,
                ),
            decreases j,
        {
            if self.present[j - 1] {
                self.cursor = (25 - j) as u8;
                return Ok(());
            }
            j -= 1;
        }
        Err(())
    }

    /// Reveals up to `n` more cards into the waste; if none can be revealed
    /// at all, wraps the cursor back to the start (the redeal). Never
    /// changes which cards are present.
    pub fn next(&mut self, n: usize)
        requires
            old(self).wf(),
        ensures
            final(self).wf(),
            *final(self) == old(self).spec_advance(n as nat),
            final(self).present == old(self).present,
            final(self).spec_n_cards() == old(self).spec_n_cards(),
    {
        proof {
            lemma_advance_present(*old(self), n as nat);
        }
        if n == 0 {
            return;
        }
        if self.open().is_err() {
            self.cursor = 0;
            return;
        }
        let ghost st1 = *self;
        let mut i: usize = 1;
        while i < n
            invariant
                1 <= i <= n,
                self.wf(),
                self.present == old(self).present,
                self.spec_advance_rest((n - i) as nat) == st1.spec_advance_rest((n - 1) as nat),
                st1.spec_advance_rest((n - 1) as nat) == old(self).spec_advance(n as nat),
            decreases n - i,
        {
            if self.open().is_err() {
                return;
            }
            i += 1;
        }
    }

    /// Removes the current top open card; fails when no card is open.
    /// A successful take removes exactly one card.
    pub fn take(&mut self) -> (r: Result<(), ()>)
        requires
            old(self).wf(),
        ensures
            final(self).wf(),
            r is Ok <==> old(self).cursor > 0,
            r is Err ==> *final(self) == *old(self),
            r is Ok ==> final(self).present@ == old(self).present@.update(
                24 - old(self).cursor,
                false,
            ),
            r is Ok ==> final(self).spec_n_cards() == old(self).spec_n_cards() - 1,
            r is Ok ==> final(self).cursor == ({
                let m = Stock::min_present_above(final(self).present@, 24 - old(self).cursor);
                if m == 24 {
                    0int
                } else {
                    24 - m
                }
            }),
    {
        if self.cursor == 0 {
            return Err(());
        }
        let j0 = 24 - self.cursor as usize;
        self.present[j0] = false;
        proof {
            lemma_count_clear(old(self).present@, 24, j0 as int);
            assert(self.present@ =~= old(self).present@.update(j0 as int, false));
        }
        let mut j = j0 + 1;
        while j < 24
            invariant
                j0 + 1 <= j <= 24,
                j0 == 24 - old(self).cursor,
                0 < old(self).cursor <= 24,
                self.present@ == old(self).present@.update(j0 as int, false),
                Stock::count_present(self.present@, 24) == old(self).spec_n_cards() - 1,
                Stock::min_present_above(self.present@, j0 as int) == Stock::min_present_above(
                    self.present@,
                    j - 1,
                ),
                self.cursor == old(self).cursor,
            decreases 24 - j,
        {
            if self.present[j] {
                self.cursor = (24 - j) as u8;
                return Ok(());
            }
            j += 1;
        }
        self.cursor = 0;
        Ok(())
    }
}

/// A sequence of all-set entries counts its whole length.
pub proof fn lemma_count_full(s: Seq<bool>, k: int)
    requires
        0 <= k,
        forall|j: int| 0 <= j < k ==> s[j],
    ensures
        Stock::count_present(s, k) == k,
    decreases k,
{
    if k > 0 {
        lemma_count_full(s, k - 1);
    }
}

/// Clearing one set entry lowers the count of any prefix containing it by
/// exactly one.
pub proof fn lemma_count_clear(s: Seq<bool>, k: int, j: int)
    requires
        0 <= j < k <= s.len(),
        s[j],
    ensures
        Stock::count_present(s.update(j, false), k) == Stock::count_present(s, k) - 1,
    decreases k,
{
    if j == k - 1 {
        lemma_count_same(s.update(j, false), s, k - 1);
    } else {
        lemma_count_clear(s, k - 1, j);
    }
}

/// The count only looks at the prefix: sequences equal below `k` count the
/// same.
pub proof fn lemma_count_same(s1: Seq<bool>, s2: Seq<bool>, k: int)
    requires
        0 <= k,
        forall|j: int| 0 <= j < k ==> s1[j] == s2[j],
    ensures
        Stock::count_present(s1, k) == Stock::count_present(s2, k),
    decreases k,
{
    if k > 0 {
        lemma_count_same(s1, s2, k - 1);
    }
}

/// Advancing never changes which cards are present.
pub proof fn lemma_advance_rest_present(st: Stock, n: nat)
    ensures
        st.spec_advance_rest(n).present == st.present,
    decreases n,
{
    if n > 0 && st.spec_can_open() {
        lemma_advance_rest_present(st.spec_opened(), (n - 1) as nat);
    }
}

/// Advancing never changes which cards are present.
pub proof fn lemma_advance_present(st: Stock, n: nat)
    ensures
        st.spec_advance(n).present == st.present,
{
    if n > 0 && st.spec_can_open() {
        lemma_advance_rest_present(st.spec_opened(), (n - 1) as nat);
    }
}

} // verus!
