//! The rule engine: validating and applying player actions.
//!
//! A `Game` couples one mutable `GameState` with the immutable deck it was
//! dealt from. `action` either applies a legal action or fails without
//! touching anything, and it preserves the state's well-formedness — in
//! particular the conservation invariant that makes the packed encoding
//! reversible.

use vstd::prelude::*;

use vstd::seq_lib::{
    lemma_seq_concat_contains_all_elements,
    lemma_seq_contains_after_push,
    lemma_seq_take_contains,
};

use crate::card::Card;
use crate::closed::ClosedState;
use crate::deck::Deck;
use crate::gamestate::GameState;
use crate::stack::Stack;

verus! {

broadcast use vstd::array::group_array_axioms;

/// One player move, validated and applied by [`Game::action`].
#[derive(Clone, Copy, PartialEq, Eq, Structural, Hash, Debug)]
pub enum Action {
    /// Advance the stock by three cards (redealing when exhausted).
    NextStock,
    /// Play the open stock card onto the foundation.
    StockToFoundation,
    /// Play the open stock card onto the given column.
    StockToStack(u8),
    /// Play the given column's top card onto the foundation.
    StackToFoundation(u8),
    /// Move the `n` top cards from one column onto another.
    StackToStack { from: u8, to: u8, n: u8 },
}

impl Action {
    /// Column indices in range and at least one card moved.
    pub open spec fn wf(self) -> bool {
        match self {
            Action::NextStock => true,
            Action::StockToFoundation => true,
            Action::StockToStack(c) => c < 7,
            Action::StackToFoundation(c) => c < 7,
            Action::StackToStack { from, to, n } => from < 7 && to < 7 && n >= 1,
        }
    }
}

#[derive(Clone, Copy, Debug)]
pub struct Game {
    pub deck: Deck,
    pub state: GameState,
}

/// Whether an action is accepted in the given state.
pub open spec fn spec_legal(state: GameState, deck: Deck, action: Action) -> bool {
    match action {
        Action::NextStock => state.stock.spec_n_cards() != 0,
        Action::StockToFoundation => state.stock.cursor > 0 && state.foundation.spec_can_add(
            deck.cards@[24 - state.stock.cursor],
        ),
        Action::StockToStack(c) => state.stock.cursor > 0 && state.stacks@[
            c as int
        ].spec_can_add(deck.cards@[24 - state.stock.cursor]),
        Action::StackToFoundation(c) => state.stacks@[c as int].spec_len() > 0
            && state.foundation.spec_can_add(
            state.stacks@[c as int].spec_card_at(state.stacks@[c as int].spec_len() - 1),
        ),
        Action::StackToStack { from, to, n } => {
            let src = state.stacks@[from as int];
            from != to && n <= src.spec_len() && state.stacks@[to as int].spec_can_add(
                src.spec_card_at(src.spec_len() - n),
            )
        },
    }
}

/// Where the waste cursor lands after the open card at old cursor `c` is
/// taken: on the nearest remaining waste card above it, or back at the
/// start when the waste is exhausted.
pub open spec fn spec_cursor_after_take(present: Seq<bool>, c: int) -> int {
    let m = crate::stock::Stock::min_present_above(present, 24 - c);
    if m == 24 {
        0
    } else {
        24 - m
    }
}

/// How a column and the face-down counts change when cards are removed from
/// the column's top: the column keeps `remaining`, except that an emptied
/// column with face-down cards left gets its next backing card revealed.
pub open spec fn spec_reveal_step(
    pre: GameState,
    post: GameState,
    deck: Deck,
    c: int,
    remaining: Seq<Card>,
) -> bool {
    if remaining.len() == 0 && pre.closed.spec_n_closed(c) > 0 {
        &&& post.stacks@[c].spec_cards() == seq![
            deck.cards@[ClosedState::spec_reveal_index(c, pre.closed.spec_n_closed(c) - 1)],
        ]
        &&& post.closed.counts@ == pre.closed.counts@.update(
            c,
            (pre.closed.spec_n_closed(c) - 1) as u8,
        )
    } else {
        &&& post.stacks@[c].spec_cards() == remaining
        &&& post.closed == pre.closed
    }
}

/// What a successful action does to the state.
pub open spec fn spec_step(pre: GameState, post: GameState, deck: Deck, action: Action) -> bool {
    match action {
        Action::NextStock => {
            &&& post.stock == pre.stock.spec_advance(3)
            &&& post.closed == pre.closed
            &&& post.stacks == pre.stacks
            &&& post.foundation == pre.foundation
        },
        Action::StockToFoundation => {
            let card = deck.cards@[24 - pre.stock.cursor];
            &&& post.stock.present@ == pre.stock.present@.update(24 - pre.stock.cursor, false)
            &&& post.stock.cursor == spec_cursor_after_take(post.stock.present@, pre.stock.cursor as int)
            &&& post.stock.spec_n_cards() == pre.stock.spec_n_cards() - 1
            &&& post.closed == pre.closed
            &&& post.stacks == pre.stacks
            &&& post.foundation.spec_n_cards(card.suit) == pre.foundation.spec_n_cards(card.suit)
                + 1
            &&& forall|s: crate::suit::Suit|
                s != card.suit ==> post.foundation.spec_n_cards(s) == pre.foundation.spec_n_cards(
                    s,
                )
        },
        Action::StockToStack(c) => {
            let card = deck.cards@[24 - pre.stock.cursor];
            &&& post.stock.present@ == pre.stock.present@.update(24 - pre.stock.cursor, false)
            &&& post.stock.cursor == spec_cursor_after_take(post.stock.present@, pre.stock.cursor as int)
            &&& post.stock.spec_n_cards() == pre.stock.spec_n_cards() - 1
            &&& post.closed == pre.closed
            &&& post.foundation == pre.foundation
            &&& post.stacks@[c as int].spec_cards() == pre.stacks@[c as int].spec_cards().push(
                card,
            )
            &&& forall|k: int| 0 <= k < 7 && k != c ==> post.stacks@[k] == pre.stacks@[k]
        },
        Action::StackToFoundation(c) => {
            let src = pre.stacks@[c as int];
            let card = src.spec_card_at(src.spec_len() - 1);
            &&& post.stock == pre.stock
            &&& post.foundation.spec_n_cards(card.suit) == pre.foundation.spec_n_cards(card.suit)
                + 1
            &&& forall|s: crate::suit::Suit|
                s != card.suit ==> post.foundation.spec_n_cards(s) == pre.foundation.spec_n_cards(
                    s,
                )
            &&& spec_reveal_step(pre, post, deck, c as int, src.spec_cards().drop_last())
            &&& forall|k: int| 0 <= k < 7 && k != c ==> post.stacks@[k] == pre.stacks@[k]
        },
        Action::StackToStack { from, to, n } => {
            let src = pre.stacks@[from as int];
            let moved = src.spec_cards().subrange(src.spec_len() - n, src.spec_len());
            &&& post.stock == pre.stock
            &&& post.foundation == pre.foundation
            &&& post.stacks@[to as int].spec_cards() == pre.stacks@[to as int].spec_cards()
                + moved
            &&& spec_reveal_step(
                pre,
                post,
                deck,
                from as int,
                src.spec_cards().take(src.spec_len() - n),
            )
            &&& forall|k: int|
                0 <= k < 7 && k != from && k != to ==> post.stacks@[k] == pre.stacks@[k]
        },
    }
}

impl Game {
    pub open spec fn wf(self) -> bool {
        self.state.wf(self.deck)
    }

    /// A fresh game over the given deck, at the canonical initial deal.
    pub fn new(deck: &Deck) -> (g: Game)
        requires
            deck.wf(),
        ensures
            g.wf(),
            g.deck == *deck,
            forall|su: crate::suit::Suit| g.state.foundation.spec_n_cards(su) == 0,
            g.state.stock.cursor == 0,
            forall|j: int| 0 <= j < 24 ==> g.state.stock.present@[j],
            forall|c: int| 0 <= c < 7 ==> g.state.closed.spec_n_closed(c) == c,
            g.state.stacks@[0].spec_cards() =~= seq![deck.cards@[51]],
            g.state.stacks@[1].spec_cards() =~= seq![deck.cards@[44]],
            g.state.stacks@[2].spec_cards() =~= seq![deck.cards@[38]],
            g.state.stacks@[3].spec_cards() =~= seq![deck.cards@[33]],
            g.state.stacks@[4].spec_cards() =~= seq![deck.cards@[29]],
            g.state.stacks@[5].spec_cards() =~= seq![deck.cards@[26]],
            g.state.stacks@[6].spec_cards() =~= seq![deck.cards@[24]],
    {
        Game { deck: *deck, state: GameState::new(deck) }
    }

    /// Validates and applies one action. On failure nothing changes; on
    /// success the state steps as [`spec_step`] describes, and either way
    /// the state stays well-formed over its deck.
    pub fn action(&mut self, action: Action) -> (r: Result<(), ()>)
        requires
            old(self).wf(),
            action.wf(),
        ensures
            final(self).wf(),
            final(self).deck == old(self).deck,
            r is Ok <==> spec_legal(old(self).state, old(self).deck, action),
            r is Err ==> *final(self) == *old(self),
            r is Ok ==> spec_step(old(self).state, final(self).state, old(self).deck, action),
    {
        match action {
            Action::NextStock => self.do_next_stock(),
            Action::StockToFoundation => self.do_stock_to_foundation(),
            Action::StockToStack(c) => self.do_stock_to_stack(c),
            Action::StackToFoundation(c) => self.do_stack_to_foundation(c),
            Action::StackToStack { from, to, n } => self.do_stack_to_stack(from, to, n),
        }
    }

    fn do_next_stock(&mut self) -> (r: Result<(), ()>)
        requires
            old(self).wf(),
        ensures
            final(self).wf(),
            final(self).deck == old(self).deck,
            r is Ok <==> spec_legal(old(self).state, old(self).deck, Action::NextStock),
            r is Err ==> *final(self) == *old(self),
            r is Ok ==> spec_step(
                old(self).state,
                final(self).state,
                old(self).deck,
                Action::NextStock,
            ),
    {
        if self.state.stock.is_empty() {
            Err(())
        } else {
            self.state.stock.next(3);
            proof {
                let pre = old(self).state;
                let post = self.state;
                assert forall|j: int| 0 <= j < 24 implies (post.stock.present@[j] <==> (
                !post.foundation.spec_contains(self.deck.cards@[j]) && !post.spec_in_stacks(
                    self.deck.cards@[j],
                ))) by {
                    lemma_in_stacks_same(pre, post, self.deck.cards@[j]);
                }
            }
            Ok(())
        }
    }

    fn do_stock_to_foundation(&mut self) -> (r: Result<(), ()>)
        requires
            old(self).wf(),
        ensures
            final(self).wf(),
            final(self).deck == old(self).deck,
            r is Ok <==> spec_legal(old(self).state, old(self).deck, Action::StockToFoundation),
            r is Err ==> *final(self) == *old(self),
            r is Ok ==> spec_step(
                old(self).state,
                final(self).state,
                old(self).deck,
                Action::StockToFoundation,
            ),
    {
        let card = match self.state.stock.top_open_card(&self.deck) {
            None => {
                return Err(());
            },
            Some(c) => c,
        };
        if self.state.foundation.add(card).is_err() {
            proof {
                assert(*self == *old(self));
            }
            return Err(());
        }
        let taken = self.state.stock.take();
        proof {
            assert(taken is Ok);
            let pre = old(self).state;
            let post = self.state;
            let j0 = 24 - pre.stock.cursor as int;
            assert forall|j: int| 0 <= j < 24 implies (post.stock.present@[j] <==> (
            !post.foundation.spec_contains(self.deck.cards@[j]) && !post.spec_in_stacks(
                self.deck.cards@[j],
            ))) by {
                let x = self.deck.cards@[j];
                lemma_in_stacks_same(pre, post, x);
                if j != j0 {
                    assert(x != self.deck.cards@[j0]);
                }
            }
        }
        Ok(())
    }

    fn do_stock_to_stack(&mut self, c: u8) -> (r: Result<(), ()>)
        requires
            old(self).wf(),
            c < 7,
        ensures
            final(self).wf(),
            final(self).deck == old(self).deck,
            r is Ok <==> spec_legal(old(self).state, old(self).deck, Action::StockToStack(c)),
            r is Err ==> *final(self) == *old(self),
            r is Ok ==> spec_step(
                old(self).state,
                final(self).state,
                old(self).deck,
                Action::StockToStack(c),
            ),
    {
        let ci = c as usize;
        let card = match self.state.stock.top_open_card(&self.deck) {
            None => {
                return Err(());
            },
            Some(cd) => cd,
        };
        let mut st = self.state.stacks[ci];
        if st.add(card).is_err() {
            return Err(());
        }
        self.state.stacks[ci] = st;
        let taken = self.state.stock.take();
        proof {
            assert(taken is Ok);
            let pre = old(self).state;
            let post = self.state;
            let j0 = 24 - pre.stock.cursor as int;
            assert forall|j: int| 0 <= j < 24 implies (post.stock.present@[j] <==> (
            !post.foundation.spec_contains(self.deck.cards@[j]) && !post.spec_in_stacks(
                self.deck.cards@[j],
            ))) by {
                let x = self.deck.cards@[j];
                lemma_in_stacks_split(pre, ci as int, x);
                lemma_in_stacks_split(post, ci as int, x);
                lemma_in_other_same(pre, post, ci as int, x);
                crate::stack::lemma_has_is_contains(pre.stacks@[ci as int], x);
                crate::stack::lemma_has_is_contains(post.stacks@[ci as int], x);
                lemma_seq_contains_after_push(pre.stacks@[ci as int].spec_cards(), card, x);
                if j != j0 {
                    assert(x != self.deck.cards@[j0]);
                }
            }
        }
        Ok(())
    }

    fn do_stack_to_foundation(&mut self, c: u8) -> (r: Result<(), ()>)
        requires
            old(self).wf(),
            c < 7,
        ensures
            final(self).wf(),
            final(self).deck == old(self).deck,
            r is Ok <==> spec_legal(old(self).state, old(self).deck, Action::StackToFoundation(c)),
            r is Err ==> *final(self) == *old(self),
            r is Ok ==> spec_step(
                old(self).state,
                final(self).state,
                old(self).deck,
                Action::StackToFoundation(c),
            ),
    {
        let ci = c as usize;
        let mut st = self.state.stacks[ci];
        let card = match st.last() {
            None => {
                return Err(());
            },
            Some(cd) => cd,
        };
        if self.state.foundation.add(card).is_err() {
            proof {
                assert(*self == *old(self));
            }
            return Err(());
        }
        let taken = st.take();
        proof {
            assert(taken is Ok);
        }
        let ghost remaining = old(self).state.stacks@[ci as int].spec_cards().drop_last();
        if st.len() == 0 {
            match self.state.closed.open(ci, &self.deck) {
                Ok(revealed) => {
                    st = Stack::single(revealed);
                },
                Err(_) => {},
            }
        }
        self.state.stacks[ci] = st;
        proof {
            let pre = old(self).state;
            let post = self.state;
            let col = ci as int;
            if remaining.len() == 0 && pre.closed.spec_n_closed(col) > 0 {
                assert(post.stacks@[col].spec_cards() =~= seq![
                    self.deck.cards@[ClosedState::spec_reveal_index(
                        col,
                        pre.closed.spec_n_closed(col) - 1,
                    )],
                ]);
            } else {
                assert(post.stacks@[col].spec_cards() =~= remaining);
            }
            assert(spec_reveal_step(pre, post, self.deck, col, remaining));
            lemma_column_removal_membership(pre, post, self.deck, col);
            assert forall|k: int| 0 <= k < 7 implies (#[trigger] post.stacks@[k]).wf() by {}
        }
        Ok(())
    }

    fn do_stack_to_stack(&mut self, from: u8, to: u8, n: u8) -> (r: Result<(), ()>)
        requires
            old(self).wf(),
            from < 7,
            to < 7,
            n >= 1,
        ensures
            final(self).wf(),
            final(self).deck == old(self).deck,
            r is Ok <==> spec_legal(
                old(self).state,
                old(self).deck,
                Action::StackToStack { from, to, n },
            ),
            r is Err ==> *final(self) == *old(self),
            r is Ok ==> spec_step(
                old(self).state,
                final(self).state,
                old(self).deck,
                Action::StackToStack { from, to, n },
            ),
    {
        if from == to {
            return Err(());
        }
        let fi = from as usize;
        let ti = to as usize;
        let n = n as usize;
        let mut src = self.state.stacks[fi];
        let mut dst = self.state.stacks[ti];
        if n > src.len() {
            return Err(());
        }
        let offset = src.len() - n;
        let ghost src0 = src;
        let ghost dst0 = dst;
        let card = match src.get(offset) {
            Some(cd) => cd,
            None => {
                proof {
                    assert(false);
                }
                return Err(());
            },
        };
        if dst.add(card).is_err() {
            return Err(());
        }
        proof {
            assert(dst.spec_cards() =~= dst0.spec_cards() + src0.spec_cards().subrange(
                offset as int,
                offset as int + 1,
            ));
        }
        let mut i: usize = 1;
        while i < n
            invariant
                1 <= i <= n,
                n <= src0.spec_len(),
                offset == src0.spec_len() - n,
                src == src0,
                src0.wf(),
                dst.wf(),
                dst.spec_cards() =~= dst0.spec_cards() + src0.spec_cards().subrange(
                    offset as int,
                    offset + i,
                ),
            decreases n - i,
        {
            let next_card = match src.get(offset + i) {
                Some(cd) => cd,
                None => {
                    proof {
                        assert(false);
                    }
                    return Err(());
                },
            };
            proof {
                assert(dst.spec_cards().len() == dst.spec_len());
                assert(src0.spec_cards().subrange(offset as int, offset + i).len() == i);
                assert(dst.spec_cards().len() == dst0.spec_cards().len() + i);
                assert(dst.spec_len() == dst0.spec_len() + i);
                assert(dst.spec_card_at(dst.spec_len() - 1) == dst.spec_cards()[dst.spec_len()
                    - 1]);
                assert(dst.spec_cards()[dst.spec_len() - 1] == src0.spec_cards()[offset + i
                    - 1]);
                assert(src0.spec_cards()[offset + i - 1] == src0.spec_card_at(
                    offset + i - 1,
                ));
                lemma_consecutive_addable(src0, offset as int + i as int, dst);
            }
            let added = dst.add(next_card);
            proof {
                assert(added is Ok);
                assert(dst.spec_cards() =~= dst0.spec_cards() + src0.spec_cards().subrange(
                    offset as int,
                    offset + i + 1,
                ));
            }
            i += 1;
        }
        proof {
            assert(src.spec_cards() =~= src0.spec_cards().take(src0.spec_len()));
        }
        let mut i: usize = 0;
        while i < n
            invariant
                i <= n,
                n <= src0.spec_len(),
                src.wf(),
                src.spec_len() == src0.spec_len() - i,
                src.spec_cards() =~= src0.spec_cards().take(src0.spec_len() - i),
            decreases n - i,
        {
            let taken = src.take();
            proof {
                assert(taken is Ok);
                assert(src.spec_cards() =~= src0.spec_cards().take(src0.spec_len() - i - 1));
            }
            i += 1;
        }
        let ghost remaining = src0.spec_cards().take(offset as int);
        if src.len() == 0 {
            match self.state.closed.open(fi, &self.deck) {
                Ok(revealed) => {
                    src = Stack::single(revealed);
                },
                Err(_) => {},
            }
        }
        self.state.stacks[fi] = src;
        self.state.stacks[ti] = dst;
        proof {
            let pre = old(self).state;
            let post = self.state;
            let fc = fi as int;
            let tc = ti as int;
            let moved = src0.spec_cards().subrange(offset as int, src0.spec_len());
            assert(post.stacks@[tc].spec_cards() =~= pre.stacks@[tc].spec_cards() + moved);
            if remaining.len() == 0 && pre.closed.spec_n_closed(fc) > 0 {
                assert(post.stacks@[fc].spec_cards() =~= seq![
                    self.deck.cards@[ClosedState::spec_reveal_index(
                        fc,
                        pre.closed.spec_n_closed(fc) - 1,
                    )],
                ]);
            } else {
                assert(post.stacks@[fc].spec_cards() =~= remaining);
            }
            assert(spec_reveal_step(pre, post, self.deck, fc, remaining));
            lemma_two_column_membership(pre, post, self.deck, fc, tc, n as int);
            assert forall|k: int| 0 <= k < 7 implies (#[trigger] post.stacks@[k]).wf() by {}
        }
        Ok(())
    }

    /// Every syntactically eligible action, in the engine's fixed priority
    /// order: foundation from stock, stock onto a column, column onto the
    /// foundation, drawing, and finally whole-run moves between columns.
    pub fn for_all_possible_actions(&self) -> (r: Vec<Action>)
        requires
            self.state.piles_wf(),
        ensures
            r@ == spec_possible_actions(self.state),
    {
        let mut v: Vec<Action> = Vec::new();
        v.push(Action::StockToFoundation);
        let mut c: u8 = 0;
        while c < 7
            invariant
                c <= 7,
                v@ =~= spec_head_actions().take(1 + c as int),
            decreases 7 - c,
        {
            v.push(Action::StockToStack(c));
            proof {
                assert(v@ =~= spec_head_actions().take(2 + c as int));
            }
            c += 1;
        }
        let mut c: u8 = 0;
        while c < 7
            invariant
                c <= 7,
                v@ =~= spec_head_actions().take(8 + c as int),
            decreases 7 - c,
        {
            v.push(Action::StackToFoundation(c));
            proof {
                assert(v@ =~= spec_head_actions().take(9 + c as int));
            }
            c += 1;
        }
        v.push(Action::NextStock);
        proof {
            assert(v@ =~= spec_head_actions());
        }
        let mut k: usize = 0;
        while k < 49
            invariant
                k <= 49,
                self.state.piles_wf(),
                v@ =~= spec_head_actions() + spec_s2s_upto(self.state, k as int),
            decreases 49 - k,
        {
            let from = k / 7;
            let to = k % 7;
            proof {
                crate::codec::lemma_pack_unpack(k as int % 7, k as int / 7, 7);
                vstd::arithmetic::div_mod::lemma_fundamental_div_mod(k as int, 7);
            }
            if from != to {
                let n = self.state.stacks[from].len();
                let m = self.state.stacks[to].len();
                if !(m == 0 && self.state.closed.n_closed(from) == 0) && n > 0 {
                    v.push(
                        Action::StackToStack { from: from as u8, to: to as u8, n: n as u8 },
                    );
                }
            }
            proof {
                assert(v@ =~= spec_head_actions() + spec_s2s_upto(self.state, k as int + 1));
            }
            k += 1;
        }
        proof {
            assert(v@ =~= spec_possible_actions(self.state));
        }
        v
    }
}

/// The head of the candidate list: every action that does not move cards
/// between columns, in priority order.
pub open spec fn spec_head_actions() -> Seq<Action> {
    seq![
        Action::StockToFoundation,
        Action::StockToStack(0),
        Action::StockToStack(1),
        Action::StockToStack(2),
        Action::StockToStack(3),
        Action::StockToStack(4),
        Action::StockToStack(5),
        Action::StockToStack(6),
        Action::StackToFoundation(0),
        Action::StackToFoundation(1),
        Action::StackToFoundation(2),
        Action::StackToFoundation(3),
        Action::StackToFoundation(4),
        Action::StackToFoundation(5),
        Action::StackToFoundation(6),
        Action::NextStock,
    ]
}

/// The whole-run move from one column to another, when it is worth trying:
/// the source is nonempty, and the move does not shuffle a run onto an
/// empty column while the source still hides cards.
pub open spec fn spec_s2s_candidate(s: GameState, from: int, to: int) -> Seq<Action> {
    let n = s.stacks@[from].spec_len();
    let m = s.stacks@[to].spec_len();
    if from != to && n > 0 && !(m == 0 && s.closed.spec_n_closed(from) == 0) {
        seq![Action::StackToStack { from: from as u8, to: to as u8, n: n as u8 }]
    } else {
        Seq::empty()
    }
}

/// The column-to-column candidates among the first `k` (source-major)
/// ordered pairs.
pub open spec fn spec_s2s_upto(s: GameState, k: int) -> Seq<Action>
    decreases k,
{
    if k <= 0 {
        Seq::empty()
    } else {
        spec_s2s_upto(s, k - 1) + spec_s2s_candidate(s, (k - 1) / 7, (k - 1) % 7)
    }
}

/// The full candidate list in priority order.
pub open spec fn spec_possible_actions(s: GameState) -> Seq<Action> {
    spec_head_actions() + spec_s2s_upto(s, 49)
}

/// Whether the position is winnable within `fuel` moves: the foundation is
/// already complete, or some action the rule engine accepts leads to a
/// well-formed position winnable with one move less.
pub open spec fn spec_wins(s: GameState, deck: Deck, fuel: nat) -> bool
    decreases fuel,
{
    s.foundation.spec_is_complete() || (fuel > 0 && exists|a: Action, s2: GameState|
        a.wf() && spec_legal(s, deck, a) && s2.wf(deck) && spec_step(s, s2, deck, a)
            && spec_wins(s2, deck, (fuel - 1) as nat))
}

/// Whether the position is winnable within `fuel` moves using only moves
/// the engine enumerates — the solver's own move set, which tries
/// whole-run column moves but no partial runs.
pub open spec fn spec_wins_enumerated(s: GameState, deck: Deck, fuel: nat) -> bool
    decreases fuel,
{
    s.foundation.spec_is_complete() || (fuel > 0 && exists|i: int, s2: GameState|
        0 <= i < spec_possible_actions(s).len() && spec_legal(
            s,
            deck,
            spec_possible_actions(s)[i],
        ) && s2.wf(deck) && spec_step(s, s2, deck, spec_possible_actions(s)[i])
            && spec_wins_enumerated(s2, deck, (fuel - 1) as nat))
}

/// A win through the enumerated moves is a win: the solver's move set is a
/// subset of the legal moves.
pub proof fn lemma_enumerated_wins_are_wins(s: GameState, deck: Deck, fuel: nat)
    requires
        s.piles_wf(),
        spec_wins_enumerated(s, deck, fuel),
    ensures
        spec_wins(s, deck, fuel),
    decreases fuel,
{
    if !s.foundation.spec_is_complete() {
        let (i, s2) = choose|i: int, s2: GameState|
            0 <= i < spec_possible_actions(s).len() && spec_legal(
                s,
                deck,
                spec_possible_actions(s)[i],
            ) && s2.wf(deck) && spec_step(s, s2, deck, spec_possible_actions(s)[i])
                && spec_wins_enumerated(s2, deck, (fuel - 1) as nat);
        lemma_possible_actions_wf(s, i);
        lemma_enumerated_wins_are_wins(s2, deck, (fuel - 1) as nat);
    }
}

/// A removal step determines the changed column and the face-down counts.
proof fn lemma_reveal_deterministic(
    pre: GameState,
    s1: GameState,
    s2: GameState,
    deck: Deck,
    c: int,
    rem: Seq<Card>,
)
    requires
        0 <= c < 7,
        s1.piles_wf(),
        s2.piles_wf(),
        spec_reveal_step(pre, s1, deck, c, rem),
        spec_reveal_step(pre, s2, deck, c, rem),
    ensures
        s1.stacks@[c] == s2.stacks@[c],
        s1.closed == s2.closed,
{
    crate::stack::lemma_cards_determine_stack(s1.stacks@[c], s2.stacks@[c]);
    if rem.len() == 0 && pre.closed.spec_n_closed(c) > 0 {
        assert(s1.closed.counts =~= s2.closed.counts);
    }
}

/// The rule engine is deterministic: a step instance pins the successor
/// state completely, so two well-formed states reached from one position by
/// the same action are equal.
pub proof fn lemma_step_deterministic(
    pre: GameState,
    s1: GameState,
    s2: GameState,
    deck: Deck,
    a: Action,
)
    requires
        a.wf(),
        s1.piles_wf(),
        s2.piles_wf(),
        spec_step(pre, s1, deck, a),
        spec_step(pre, s2, deck, a),
    ensures
        s1 == s2,
{
    match a {
        Action::NextStock => {
            assert(s1 == s2);
        },
        Action::StockToFoundation => {
            let card = deck.cards@[24 - pre.stock.cursor];
            assert(s1.stock.present =~= s2.stock.present);
            assert(s1.stock == s2.stock);
            assert forall|su: crate::suit::Suit|
                s1.foundation.spec_n_cards(su) == s2.foundation.spec_n_cards(su) by {
                if su != card.suit {
                }
            }
            crate::foundation::lemma_counts_determine_foundation(s1.foundation, s2.foundation);
            assert(s1 == s2);
        },
        Action::StockToStack(c) => {
            assert(s1.stock.present =~= s2.stock.present);
            assert(s1.stock == s2.stock);
            crate::stack::lemma_cards_determine_stack(
                s1.stacks@[c as int],
                s2.stacks@[c as int],
            );
            assert(s1.stacks =~= s2.stacks);
            assert(s1 == s2);
        },
        Action::StackToFoundation(c) => {
            let src = pre.stacks@[c as int];
            let card = src.spec_card_at(src.spec_len() - 1);
            assert forall|su: crate::suit::Suit|
                s1.foundation.spec_n_cards(su) == s2.foundation.spec_n_cards(su) by {
                if su != card.suit {
                }
            }
            crate::foundation::lemma_counts_determine_foundation(s1.foundation, s2.foundation);
            lemma_reveal_deterministic(
                pre,
                s1,
                s2,
                deck,
                c as int,
                src.spec_cards().drop_last(),
            );
            assert(s1.stacks =~= s2.stacks);
            assert(s1 == s2);
        },
        Action::StackToStack { from, to, n } => {
            let src = pre.stacks@[from as int];
            crate::stack::lemma_cards_determine_stack(
                s1.stacks@[to as int],
                s2.stacks@[to as int],
            );
            lemma_reveal_deterministic(
                pre,
                s1,
                s2,
                deck,
                from as int,
                src.spec_cards().take(src.spec_len() - n),
            );
            assert(s1.stacks =~= s2.stacks);
            assert(s1 == s2);
        },
    }
}

/// A card found in some column other than `c`.
pub open spec fn in_other_stacks(s: GameState, c: int, x: Card) -> bool {
    exists|k: int| 0 <= k < 7 && k != c && (#[trigger] s.stacks@[k]).spec_has(x)
}

/// Membership in the columns splits into column `c` and the rest.
proof fn lemma_in_stacks_split(s: GameState, c: int, x: Card)
    requires
        0 <= c < 7,
    ensures
        s.spec_in_stacks(x) == (s.stacks@[c].spec_has(x) || in_other_stacks(s, c, x)),
{
    if s.spec_in_stacks(x) {
        let k = choose|k: int| 0 <= k < 7 && (#[trigger] s.stacks@[k]).spec_has(x);
        if k != c {
            assert(in_other_stacks(s, c, x));
        }
    }
    if in_other_stacks(s, c, x) {
        let k = choose|k: int| 0 <= k < 7 && k != c && (#[trigger] s.stacks@[k]).spec_has(x);
        assert(s.spec_in_stacks(x));
    }
    if s.stacks@[c].spec_has(x) {
        assert(s.spec_in_stacks(x));
    }
}

/// States with equal columns agree on column membership.
proof fn lemma_in_stacks_same(s1: GameState, s2: GameState, x: Card)
    requires
        s1.stacks == s2.stacks,
    ensures
        s1.spec_in_stacks(x) == s2.spec_in_stacks(x),
{
    if s1.spec_in_stacks(x) {
        let k = choose|k: int| 0 <= k < 7 && (#[trigger] s1.stacks@[k]).spec_has(x);
        assert(s2.stacks@[k].spec_has(x));
    }
    if s2.spec_in_stacks(x) {
        let k = choose|k: int| 0 <= k < 7 && (#[trigger] s2.stacks@[k]).spec_has(x);
        assert(s1.stacks@[k].spec_has(x));
    }
}

/// States that agree on all columns but `c` agree on membership outside `c`.
proof fn lemma_in_other_same(s1: GameState, s2: GameState, c: int, x: Card)
    requires
        forall|k: int| 0 <= k < 7 && k != c ==> s1.stacks@[k] == s2.stacks@[k],
    ensures
        in_other_stacks(s1, c, x) == in_other_stacks(s2, c, x),
{
    if in_other_stacks(s1, c, x) {
        let k = choose|k: int| 0 <= k < 7 && k != c && (#[trigger] s1.stacks@[k]).spec_has(x);
        assert(s2.stacks@[k].spec_has(x));
    }
    if in_other_stacks(s2, c, x) {
        let k = choose|k: int| 0 <= k < 7 && k != c && (#[trigger] s2.stacks@[k]).spec_has(x);
        assert(s1.stacks@[k].spec_has(x));
    }
}

/// Removing a column's top card to the foundation (and perhaps revealing a
/// backing card) keeps the stock membership invariant: for the first 24
/// deck cards, being in the stock still matches being nowhere else.
proof fn lemma_column_removal_membership(pre: GameState, post: GameState, deck: Deck, c: int)
    requires
        0 <= c < 7,
        pre.wf(deck),
        post.stock == pre.stock,
        pre.stacks@[c].spec_len() > 0,
        forall|x: Card|
            #[trigger] post.foundation.spec_contains(x) == (pre.foundation.spec_contains(x) || x
                == pre.stacks@[c].spec_card_at(pre.stacks@[c].spec_len() - 1)),
        spec_reveal_step(pre, post, deck, c, pre.stacks@[c].spec_cards().drop_last()),
        forall|k: int| 0 <= k < 7 && k != c ==> post.stacks@[k] == pre.stacks@[k],
    ensures
        post.stock_matches(deck),
{
    let src = pre.stacks@[c];
    let len = src.spec_len();
    let removed = src.spec_card_at(len - 1);
    let remaining = src.spec_cards().drop_last();
    assert forall|j: int| 0 <= j < 24 implies (post.stock.present@[j] <==> (
    !post.foundation.spec_contains(deck.cards@[j]) && !post.spec_in_stacks(
        deck.cards@[j],
    ))) by {
        let x = deck.cards@[j];
        lemma_in_stacks_split(pre, c, x);
        lemma_in_stacks_split(post, c, x);
        lemma_in_other_same(pre, post, c, x);
        crate::stack::lemma_has_is_contains(src, x);
        crate::stack::lemma_has_is_contains(post.stacks@[c], x);
        lemma_seq_take_contains(src.spec_cards(), len - 1, x);
        if remaining.len() == 0 && pre.closed.spec_n_closed(c) > 0 {
            let idx = ClosedState::spec_reveal_index(c, pre.closed.spec_n_closed(c) - 1);
            assert(24 < idx < 52);
            assert(x != deck.cards@[idx]);
            assert(post.stacks@[c].spec_cards() =~= seq![deck.cards@[idx]]);
            if post.stacks@[c].spec_cards().contains(x) {
                assert(x == deck.cards@[idx]);
            }
        }
        if x == removed {
            assert(src.spec_has(removed));
            assert(pre.spec_in_stacks(x));
        } else {
            if src.spec_cards().contains(x) {
                let i = choose|i: int| 0 <= i < len && src.spec_cards()[i] == x;
                assert(i != len - 1);
                assert(remaining[i] == x);
                assert(remaining.contains(x));
            }
        }
    }
}

/// Moving a run between two columns (and perhaps revealing a backing card
/// on the emptied source) keeps the stock membership invariant.
proof fn lemma_two_column_membership(
    pre: GameState,
    post: GameState,
    deck: Deck,
    from: int,
    to: int,
    nmoved: int,
)
    requires
        0 <= from < 7,
        0 <= to < 7,
        from != to,
        pre.wf(deck),
        post.stock == pre.stock,
        post.foundation == pre.foundation,
        1 <= nmoved <= pre.stacks@[from].spec_len(),
        post.stacks@[to].spec_cards() == pre.stacks@[to].spec_cards() + pre.stacks@[
            from
        ].spec_cards().subrange(
            pre.stacks@[from].spec_len() - nmoved,
            pre.stacks@[from].spec_len(),
        ),
        spec_reveal_step(
            pre,
            post,
            deck,
            from,
            pre.stacks@[from].spec_cards().take(pre.stacks@[from].spec_len() - nmoved),
        ),
        forall|k: int| 0 <= k < 7 && k != from && k != to ==> post.stacks@[k] == pre.stacks@[k],
    ensures
        post.stock_matches(deck),
{
    let src = pre.stacks@[from];
    let len = src.spec_len();
    let offset = len - nmoved;
    let remaining = src.spec_cards().take(offset);
    let moved = src.spec_cards().subrange(offset, len);
    assert forall|j: int| 0 <= j < 24 implies (post.stock.present@[j] <==> (
    !post.foundation.spec_contains(deck.cards@[j]) && !post.spec_in_stacks(
        deck.cards@[j],
    ))) by {
        let x = deck.cards@[j];
        crate::stack::lemma_has_is_contains(src, x);
        crate::stack::lemma_has_is_contains(post.stacks@[from], x);
        crate::stack::lemma_has_is_contains(pre.stacks@[to], x);
        crate::stack::lemma_has_is_contains(post.stacks@[to], x);
        lemma_seq_concat_contains_all_elements(pre.stacks@[to].spec_cards(), moved, x);
        lemma_seq_take_contains(src.spec_cards(), offset, x);
        if remaining.len() == 0 && pre.closed.spec_n_closed(from) > 0 {
            let idx = ClosedState::spec_reveal_index(from, pre.closed.spec_n_closed(from) - 1);
            assert(24 < idx < 52);
            assert(x != deck.cards@[idx]);
            assert(post.stacks@[from].spec_cards() =~= seq![deck.cards@[idx]]);
            if post.stacks@[from].spec_cards().contains(x) {
                assert(x == deck.cards@[idx]);
            }
        }
        // Membership across the two changed columns is preserved.
        assert(pre.spec_in_stacks(x) == post.spec_in_stacks(x)) by {
            if pre.spec_in_stacks(x) {
                let k = choose|k: int| 0 <= k < 7 && (#[trigger] pre.stacks@[k]).spec_has(x);
                if k == from {
                    let i = choose|i: int| 0 <= i < len && src.spec_cards()[i] == x;
                    if i < offset {
                        assert(remaining[i] == x);
                        assert(remaining.contains(x));
                        assert(post.stacks@[from].spec_has(x));
                    } else {
                        assert(moved[i - offset] == x);
                        assert(moved.contains(x));
                        assert(post.stacks@[to].spec_has(x));
                    }
                    assert(post.spec_in_stacks(x));
                } else if k == to {
                    assert(post.stacks@[to].spec_cards().contains(x));
                    assert(post.spec_in_stacks(x));
                } else {
                    assert(post.stacks@[k].spec_has(x));
                    assert(post.spec_in_stacks(x));
                }
            }
            if post.spec_in_stacks(x) {
                let k = choose|k: int| 0 <= k < 7 && (#[trigger] post.stacks@[k]).spec_has(x);
                if k == from {
                    assert(remaining.contains(x));
                    assert(src.spec_cards().contains(x));
                    assert(pre.spec_in_stacks(x));
                } else if k == to {
                    if moved.contains(x) {
                        let i = choose|i: int| 0 <= i < moved.len() && moved[i] == x;
                        assert(src.spec_cards()[offset + i] == x);
                        assert(src.spec_cards().contains(x));
                        assert(pre.spec_in_stacks(x));
                    } else {
                        assert(pre.stacks@[to].spec_has(x));
                        assert(pre.spec_in_stacks(x));
                    }
                } else {
                    assert(pre.stacks@[k].spec_has(x));
                    assert(pre.spec_in_stacks(x));
                }
            }
        }
    }
}

/// Within one well-formed run the next position up is always addable: its
/// rank is one lower and its color the opposite of the card below it.
proof fn lemma_consecutive_addable(src: Stack, i: int, dst: Stack)
    requires
        src.wf(),
        dst.wf(),
        0 < i < src.spec_len(),
        dst.spec_len() > 0,
        dst.spec_card_at(dst.spec_len() - 1) == src.spec_card_at(i - 1),
    ensures
        dst.spec_can_add(src.spec_card_at(i)),
{
    crate::rank::lemma_rank_num_range(src.base->Some_0.rank);
    assert(src.spec_card_at(i).rank.spec_num() == src.base->Some_0.rank.spec_num() - i);
    assert(src.spec_card_at(i - 1).rank.spec_num() == src.base->Some_0.rank.spec_num() - (i
        - 1));
    crate::stack::lemma_suit_reassemble(src.spec_card_at(i).suit);
}

/// Every candidate the engine enumerates is a well-formed action.
pub proof fn lemma_possible_actions_wf(s: GameState, i: int)
    requires
        s.piles_wf(),
        0 <= i < spec_possible_actions(s).len(),
    ensures
        spec_possible_actions(s)[i].wf(),
{
    let head = spec_head_actions();
    if i < head.len() {
        assert(spec_possible_actions(s)[i] == head[i]);
    } else {
        lemma_s2s_upto_wf(s, 49, i - head.len());
    }
}

/// Every column-to-column candidate is well-formed.
proof fn lemma_s2s_upto_wf(s: GameState, k: int, i: int)
    requires
        s.piles_wf(),
        0 <= k <= 49,
        0 <= i < spec_s2s_upto(s, k).len(),
    ensures
        spec_s2s_upto(s, k)[i].wf(),
    decreases k,
{
    let prev = spec_s2s_upto(s, k - 1);
    if i < prev.len() {
        lemma_s2s_upto_wf(s, k - 1, i);
        assert(spec_s2s_upto(s, k)[i] == prev[i]);
    } else {
        let from = (k - 1) / 7;
        let to = (k - 1) % 7;
        assert(0 <= from < 7 && 0 <= to < 7);
    }
}

} // verus!
