//! The aggregate game state and its canonical fixed-width encoding.
//!
//! The encoding packs the whole state into two machine words, used as the
//! solver's hash key. The stock's per-card membership is *not* stored: it
//! is reconstructed from the deck by checking, for each of the first 24
//! cards, whether it sits on the foundation or in a tableau column. For any
//! well-formed state this reconstruction is exact, so the encoding is
//! injective and decodes back to the very state it came from.

use vstd::prelude::*;

use crate::card::Card;
use crate::closed::ClosedState;
use crate::deck::Deck;
use crate::foundation::Foundation;
use crate::stack::Stack;
use crate::stock::Stock;

verus! {

broadcast use vstd::array::group_array_axioms;

#[derive(Clone, Copy, PartialEq, Eq, Hash, Debug)]
pub struct GameState {
    pub stock: Stock,
    pub closed: ClosedState,
    pub stacks: [Stack; 7],
    pub foundation: Foundation,
}

/// The two-word packed key derived from a [`GameState`].
#[derive(Clone, Copy, PartialEq, Eq, PartialOrd, Ord, Hash, Debug)]
pub struct EncodedGameState(pub u64, pub u128);

impl GameState {
    /// Every pile is internally well-formed.
    pub open spec fn piles_wf(self) -> bool {
        &&& self.stock.wf()
        &&& self.closed.wf()
        &&& self.foundation.wf()
        &&& forall|k: int| 0 <= k < 7 ==> (#[trigger] self.stacks@[k]).wf()
    }

    /// Whether the card lies in some tableau column's face-up run.
    pub open spec fn spec_in_stacks(self, card: Card) -> bool {
        exists|k: int| 0 <= k < 7 && (#[trigger] self.stacks@[k]).spec_has(card)
    }

    /// The conservation invariant behind the encoding: one of the first 24
    /// deck cards is still in the stock exactly when it is neither on the
    /// foundation nor in any tableau column.
    pub open spec fn stock_matches(self, deck: Deck) -> bool {
        forall|j: int|
            0 <= j < 24 ==> ((#[trigger] self.stock.present@[j]) <==> (
            !self.foundation.spec_contains(deck.cards@[j]) && !self.spec_in_stacks(
                deck.cards@[j],
            )))
    }

    /// A reachable game state over its deck: valid deck, well-formed piles,
    /// and the stock membership determined by the other piles.
    pub open spec fn wf(self, deck: Deck) -> bool {
        &&& deck.wf()
        &&& self.piles_wf()
        &&& self.stock_matches(deck)
    }

    /// The canonical initial deal: a full stock over the first 24 deck
    /// cards, the triangular face-down columns, one base card per column,
    /// and an empty foundation.
    pub fn new(deck: &Deck) -> (s: GameState)
        requires
            deck.wf(),
        ensures
            s.wf(*deck),
            s.stock.cursor == 0,
            forall|j: int| 0 <= j < 24 ==> s.stock.present@[j],
            forall|c: int| 0 <= c < 7 ==> s.closed.spec_n_closed(c) == c,
            forall|su: crate::suit::Suit| s.foundation.spec_n_cards(su) == 0,
            s.stacks@[0].spec_cards() =~= seq![deck.cards@[51]],
            s.stacks@[1].spec_cards() =~= seq![deck.cards@[44]],
            s.stacks@[2].spec_cards() =~= seq![deck.cards@[38]],
            s.stacks@[3].spec_cards() =~= seq![deck.cards@[33]],
            s.stacks@[4].spec_cards() =~= seq![deck.cards@[29]],
            s.stacks@[5].spec_cards() =~= seq![deck.cards@[26]],
            s.stacks@[6].spec_cards() =~= seq![deck.cards@[24]],
    {
        let stacks = [
            Stack::single(deck.cards[51]),
            Stack::single(deck.cards[44]),
            Stack::single(deck.cards[38]),
            Stack::single(deck.cards[33]),
            Stack::single(deck.cards[29]),
            Stack::single(deck.cards[26]),
            Stack::single(deck.cards[24]),
        ];
        let s = GameState {
            stock: Stock::new(),
            closed: ClosedState::new(),
            stacks,
            foundation: Foundation::new(),
        };
        proof {
            assert forall|j: int| 0 <= j < 24 implies (s.stock.present@[j] <==> (
            !s.foundation.spec_contains(deck.cards@[j]) && !s.spec_in_stacks(
                deck.cards@[j],
            ))) by {
                crate::rank::lemma_rank_num_range(deck.cards@[j].rank);
                assert(!s.foundation.spec_contains(deck.cards@[j]));
                assert forall|k: int| 0 <= k < 7 implies !s.stacks@[k].spec_has(
                    deck.cards@[j],
                ) by {
                    let b = s.stacks@[k].spec_cards()[0];
                    assert(s.stacks@[k].n == 1);
                }
            }
        }
        s
    }

    /// The byte of column `i`'s base card in the packed key.
    pub open spec fn spec_stack_byte(self, i: int) -> int {
        Card::spec_option_to_bits(self.stacks@[i].base, 0)
    }

    /// The key's tail word: the stock cursor with the foundation counts
    /// above it.
    pub open spec fn spec_tail_a(self) -> int {
        self.stock.cursor + 32 * self.foundation.spec_to_bits()
    }

    /// The first key word from digit `i` on: base-card bytes in base 64,
    /// then the tail.
    pub open spec fn spec_a_from(self, i: int) -> int
        decreases 7 - i,
    {
        if i >= 7 {
            self.spec_tail_a()
        } else {
            self.spec_stack_byte(i) + 64 * self.spec_a_from(i + 1)
        }
    }

    pub open spec fn spec_encode_a(self) -> int {
        self.spec_a_from(0)
    }

    /// The second key word from digit `i` on: the columns' packed run words
    /// in base 65536, then the packed face-down counts.
    pub open spec fn spec_b_from(self, i: int) -> int
        decreases 7 - i,
    {
        if i >= 7 {
            self.closed.spec_packed()
        } else {
            self.stacks@[i].spec_next() + 65536 * self.spec_b_from(i + 1)
        }
    }

    pub open spec fn spec_encode_b(self) -> int {
        self.spec_b_from(0)
    }

    /// Packs the state into its two-word key.
    pub fn encode(&self) -> (r: EncodedGameState)
        requires
            self.piles_wf(),
        ensures
            r.0 == self.spec_encode_a(),
            r.1 == self.spec_encode_b(),
    {
        let f = self.foundation.to_bits();
        let (x0, y0) = self.stacks[0].to_bits(0);
        let (x1, y1) = self.stacks[1].to_bits(0);
        let (x2, y2) = self.stacks[2].to_bits(0);
        let (x3, y3) = self.stacks[3].to_bits(0);
        let (x4, y4) = self.stacks[4].to_bits(0);
        let (x5, y5) = self.stacks[5].to_bits(0);
        let (x6, y6) = self.stacks[6].to_bits(0);
        proof {
            assert forall|i: int| 0 <= i < 7 implies 0 <= #[trigger] self.spec_stack_byte(i)
                <= 61 by {
                lemma_stack_byte_range(*self, i);
            }
        }
        let t: u64 = self.stock.cursor as u64 + 32 * f as u64;
        let a6: u64 = x6 as u64 + 64 * t;
        let a5: u64 = x5 as u64 + 64 * a6;
        let a4: u64 = x4 as u64 + 64 * a5;
        let a3: u64 = x3 as u64 + 64 * a4;
        let a2: u64 = x2 as u64 + 64 * a3;
        let a1: u64 = x1 as u64 + 64 * a2;
        let a0: u64 = x0 as u64 + 64 * a1;
        proof {
            assert(t == self.spec_a_from(7));
            assert(a6 == self.spec_a_from(6));
            assert(a5 == self.spec_a_from(5));
            assert(a4 == self.spec_a_from(4));
            assert(a3 == self.spec_a_from(3));
            assert(a2 == self.spec_a_from(2));
            assert(a1 == self.spec_a_from(1));
            assert(a0 == self.spec_a_from(0));
        }
        let cb = self.closed.to_bits(0);
        let b6: u128 = y6 as u128 + 65536 * cb as u128;
        let b5: u128 = y5 as u128 + 65536 * b6;
        let b4: u128 = y4 as u128 + 65536 * b5;
        let b3: u128 = y3 as u128 + 65536 * b4;
        let b2: u128 = y2 as u128 + 65536 * b3;
        let b1: u128 = y1 as u128 + 65536 * b2;
        let b0: u128 = y0 as u128 + 65536 * b1;
        proof {
            assert(cb == self.spec_b_from(7));
            assert(b6 == self.spec_b_from(6));
            assert(b5 == self.spec_b_from(5));
            assert(b4 == self.spec_b_from(4));
            assert(b3 == self.spec_b_from(3));
            assert(b2 == self.spec_b_from(2));
            assert(b1 == self.spec_b_from(1));
            assert(b0 == self.spec_b_from(0));
        }
        EncodedGameState(a0, b0)
    }

    /// Unpacks a key back into the state it encodes, given the deck it was
    /// dealt from. The stock membership is reconstructed by scanning the
    /// deck's first 24 cards for ones held by no other pile.
    #[verifier::rlimit(100)]
    pub fn decode(bits: EncodedGameState, deck: &Deck) -> (s: GameState)
        requires
            exists|s0: GameState|
                s0.wf(*deck) && s0.spec_encode_a() == bits.0 && s0.spec_encode_b() == bits.1,
        ensures
            s.wf(*deck),
            s.spec_encode_a() == bits.0,
            s.spec_encode_b() == bits.1,
            forall|s0: GameState|
                s0.wf(*deck) && s0.spec_encode_a() == bits.0 && s0.spec_encode_b() == bits.1
                    ==> s == s0,
    {
        let ghost s0 = choose|s0: GameState|
            s0.wf(*deck) && s0.spec_encode_a() == bits.0 && s0.spec_encode_b() == bits.1;
        let mut a: u64 = bits.0;
        let mut b: u128 = bits.1;
        let mut stacks: [Stack; 7] = [Stack::new(); 7];
        let mut i: usize = 0;
        while i < 7
            invariant
                i <= 7,
                s0.piles_wf(),
                a == s0.spec_a_from(i as int),
                b == s0.spec_b_from(i as int),
                forall|k: int| 0 <= k < i ==> stacks@[k] == s0.stacks@[k],
            decreases 7 - i,
        {
            proof {
                lemma_a_unpack(s0, i as int);
                lemma_b_unpack(s0, i as int);
                lemma_stack_fields_from_bits(s0.stacks@[i as int]);
            }
            let x = (a % 64) as u8;
            let y = (b % 65536) as u16;
            let (st, _aux) = Stack::from_bits((x, y));
            proof {
                lemma_stack_rebuilt(s0.stacks@[i as int], st);
            }
            stacks[i] = st;
            a = a / 64;
            b = b / 65536;
            i += 1;
        }
        proof {
            lemma_tail_unpack(s0);
            crate::foundation::lemma_foundation_bits_round_trip(s0.foundation);
            crate::closed::lemma_closed_bits_round_trip(s0.closed, 0);
            crate::codec::lemma_pack_unpack(s0.closed.spec_packed(), 0, 65536);
        }
        let cursor = (a % 32) as u8;
        let fb = ((a / 32) % 65536) as u16;
        let foundation = Foundation::from_bits(fb);
        let cb = (b % 65536) as u16;
        let (closed, _caux) = ClosedState::from_bits(cb);
        proof {
            assert(foundation == s0.foundation);
            assert(closed.counts =~= s0.closed.counts);
            assert(closed == s0.closed);
        }
        let mut present: [bool; 24] = [false; 24];
        let mut j: usize = 0;
        while j < 24
            invariant
                j <= 24,
                s0.wf(*deck),
                forall|k: int| 0 <= k < 7 ==> stacks@[k] == s0.stacks@[k],
                foundation == s0.foundation,
                forall|k: int| 0 <= k < j ==> present@[k] == s0.stock.present@[k],
            decreases 24 - j,
        {
            let card = deck.cards[j];
            let mut hit = foundation.contains(card);
            let mut k: usize = 0;
            while k < 7
                invariant
                    k <= 7,
                    s0.piles_wf(),
                    forall|m: int| 0 <= m < 7 ==> stacks@[m] == s0.stacks@[m],
                    foundation == s0.foundation,
                    hit == (s0.foundation.spec_contains(card) || exists|m: int|
                        0 <= m < k && (#[trigger] s0.stacks@[m]).spec_has(card)),
                decreases 7 - k,
            {
                if stacks[k].contains(card) {
                    hit = true;
                }
                k += 1;
            }
            present[j] = !hit;
            j += 1;
        }
        let stock = Stock { cursor, present };
        let s = GameState { stock, closed, stacks, foundation };
        proof {
            assert(stock.present =~= s0.stock.present);
            assert(stock == s0.stock);
            assert(s.stacks =~= s0.stacks);
            assert(s.stacks == s0.stacks);
            assert(s == s0);
            assert forall|s1: GameState|
                s1.wf(*deck) && s1.spec_encode_a() == bits.0 && s1.spec_encode_b()
                    == bits.1 implies s == s1 by {
                lemma_encode_injective(s0, s1, *deck);
            }
        }
        s
    }
}

impl EncodedGameState {
    /// Reads the foundation counts straight out of a packed key, without
    /// the deck.
    pub fn get_foundation(&self) -> (f: Foundation)
        ensures
            f == Foundation::spec_from_bits(
                self.0 as int / 64 / 64 / 64 / 64 / 64 / 64 / 64 / 32 % 65536,
            ),
    {
        let t = self.0 / 64 / 64 / 64 / 64 / 64 / 64 / 64;
        let fb = ((t / 32) % 65536) as u16;
        Foundation::from_bits(fb)
    }
}

/// The state key actually produced by `GameState::encode`.
pub open spec fn spec_key(s: GameState) -> EncodedGameState {
    EncodedGameState(s.spec_encode_a() as u64, s.spec_encode_b() as u128)
}

/// The packed words of a well-formed state fit their machine words.
pub proof fn lemma_encode_bounds(s: GameState)
    requires
        s.piles_wf(),
    ensures
        0 <= s.spec_encode_a() < 0x1_0000_0000_0000_0000,
        0 <= s.spec_encode_b() < 0x1_0000_0000_0000_0000_0000_0000_0000_0000,
{
    assert forall|i: int| 0 <= i < 7 implies 0 <= #[trigger] s.spec_stack_byte(i) <= 61 by {
        lemma_stack_byte_range(s, i);
    }
    assert forall|i: int| 0 <= i < 7 implies 0 <= (#[trigger] s.stacks@[i]).spec_next()
        < 65536 by {
        crate::stack::lemma_next_unpack(s.stacks@[i]);
    }
    assert(s.foundation.spec_to_bits() <= 56797);
    assert(0 <= s.spec_a_from(7) <= 1817528);
    assert(0 <= s.spec_a_from(6) <= 116321853);
    assert(0 <= s.spec_a_from(5) <= 7444598653);
    assert(0 <= s.spec_a_from(4) <= 476454313853);
    assert(0 <= s.spec_a_from(3) <= 30493076086653);
    assert(0 <= s.spec_a_from(2) <= 1951556869545853);
    assert(0 <= s.spec_a_from(1) <= 124899639650934653);
    assert(0 <= s.spec_a_from(0) <= 7993576937659817853);
    assert(0 <= s.closed.spec_packed() <= 5039);
    assert(0 <= s.spec_b_from(7) <= 5039);
    assert(0 <= s.spec_b_from(6) <= 330301439);
    assert(0 <= s.spec_b_from(5) <= 21647438643199);
    assert(0 <= s.spec_b_from(4) <= 1418701982763515903);
    assert(0 <= s.spec_b_from(3) <= 92976207173990818250751);
    assert(0 <= s.spec_b_from(2) <= 6093696715434440993180352511);
    assert(0 <= s.spec_b_from(1) <= 399356515902707452065314856304639);
    assert(0 <= s.spec_b_from(0) <= 26172228466263855415272706854833094655);
}

/// The two-word key is injective on well-formed states over one deck: equal
/// keys mean equal states.
pub proof fn lemma_key_injective(s1: GameState, s2: GameState, deck: Deck)
    requires
        s1.wf(deck),
        s2.wf(deck),
        spec_key(s1) == spec_key(s2),
    ensures
        s1 == s2,
{
    lemma_encode_bounds(s1);
    lemma_encode_bounds(s2);
    assert(s1.spec_encode_a() == s2.spec_encode_a());
    assert(s1.spec_encode_b() == s2.spec_encode_b());
    lemma_encode_injective(s1, s2, deck);
}

/// A column's base-card byte fits in six bits.
pub proof fn lemma_stack_byte_range(s: GameState, i: int)
    requires
        0 <= i < 7,
    ensures
        0 <= s.spec_stack_byte(i) <= 61,
{
    if let Some(c) = s.stacks@[i].base {
        crate::card::lemma_byte_round_trip(c);
    }
}

/// Every suffix of the first key word is non-negative.
pub proof fn lemma_a_nonneg(s: GameState, i: int)
    requires
        s.piles_wf(),
        0 <= i <= 7,
    ensures
        0 <= s.spec_a_from(i),
    decreases 7 - i,
{
    if i < 7 {
        lemma_stack_byte_range(s, i);
        lemma_a_nonneg(s, i + 1);
    }
}

/// Splitting the first key word at digit `i` recovers that base-card byte
/// and the rest.
pub proof fn lemma_a_unpack(s: GameState, i: int)
    requires
        s.piles_wf(),
        0 <= i < 7,
    ensures
        s.spec_a_from(i) % 64 == s.spec_stack_byte(i),
        s.spec_a_from(i) / 64 == s.spec_a_from(i + 1),
{
    lemma_stack_byte_range(s, i);
    lemma_a_nonneg(s, i + 1);
    crate::codec::lemma_pack_unpack(s.spec_stack_byte(i), s.spec_a_from(i + 1), 64);
}

/// Splitting the tail word recovers the stock cursor and the foundation
/// counts.
pub proof fn lemma_tail_unpack(s: GameState)
    requires
        s.piles_wf(),
    ensures
        s.spec_tail_a() % 32 == s.stock.cursor,
        s.spec_tail_a() / 32 == s.foundation.spec_to_bits(),
        0 <= s.foundation.spec_to_bits() < 65536,
{
    crate::codec::lemma_pack_unpack(
        s.stock.cursor as int,
        s.foundation.spec_to_bits(),
        32,
    );
}

/// Every suffix of the second key word is non-negative, and its packed
/// face-down tail is small.
pub proof fn lemma_b_nonneg(s: GameState, i: int)
    requires
        s.piles_wf(),
        0 <= i <= 7,
    ensures
        0 <= s.spec_b_from(i),
    decreases 7 - i,
{
    if i < 7 {
        crate::stack::lemma_next_unpack(s.stacks@[i]);
        lemma_b_nonneg(s, i + 1);
    }
}

/// Splitting the second key word at digit `i` recovers that column's packed
/// run word and the rest.
pub proof fn lemma_b_unpack(s: GameState, i: int)
    requires
        s.piles_wf(),
        0 <= i < 7,
    ensures
        s.spec_b_from(i) % 65536 == s.stacks@[i].spec_next(),
        s.spec_b_from(i) / 65536 == s.spec_b_from(i + 1),
{
    crate::stack::lemma_next_unpack(s.stacks@[i]);
    lemma_b_nonneg(s, i + 1);
    crate::codec::lemma_pack_unpack(s.stacks@[i].spec_next(), s.spec_b_from(i + 1), 65536);
}

/// What `Stack::from_bits` needs of a well-formed column's packed form.
pub proof fn lemma_stack_fields_from_bits(st: Stack)
    requires
        st.wf(),
    ensures
        Card::valid_option_bits(Card::spec_option_to_bits(st.base, 0)),
        0 <= Card::spec_option_to_bits(st.base, 0) <= 61,
        0 <= st.spec_next() < 65536,
{
    if let Some(c) = st.base {
        crate::card::lemma_byte_round_trip(c);
    }
    crate::stack::lemma_next_unpack(st);
}

/// A column rebuilt from the packed form of a well-formed column is that
/// very column again.
pub proof fn lemma_stack_rebuilt(orig: Stack, rebuilt: Stack)
    requires
        orig.wf(),
        rebuilt.base == (if Card::spec_option_to_bits(orig.base, 0) % 64 == 0 {
            Option::<Card>::None
        } else {
            Option::Some(Card::spec_card_of_byte(Card::spec_option_to_bits(orig.base, 0) % 64))
        }),
        rebuilt.n == orig.spec_next() % 16,
        rebuilt.vbits@[0] == false,
        forall|i: int|
            1 <= i < 13 ==> rebuilt.vbits@[i] == (orig.spec_next() / 16 / vstd::arithmetic::power2::pow2(
                (i - 1) as nat,
            ) as int % 2 == 1),
    ensures
        rebuilt == orig,
{
    crate::stack::lemma_next_unpack(orig);
    if let Some(c) = orig.base {
        crate::card::lemma_byte_round_trip(c);
    }
    assert(rebuilt.base == orig.base);
    assert(rebuilt.n == orig.n);
    assert(rebuilt.vbits =~= orig.vbits);
    assert(rebuilt.vbits == orig.vbits);
}

/// The encoding is injective on well-formed states over one deck: equal
/// keys mean equal states. Together with `GameState::decode`'s contract
/// this is the round-trip law: decoding a state's key over its deck gives
/// back exactly that state.
pub proof fn lemma_encode_injective(s1: GameState, s2: GameState, deck: Deck)
    requires
        s1.wf(deck),
        s2.wf(deck),
        s1.spec_encode_a() == s2.spec_encode_a(),
        s1.spec_encode_b() == s2.spec_encode_b(),
    ensures
        s1 == s2,
{
    lemma_words_equal(s1, s2, 0);
    lemma_tail_unpack(s1);
    lemma_tail_unpack(s2);
    assert(s1.stock.cursor == s2.stock.cursor);
    crate::foundation::lemma_foundation_bits_round_trip(s1.foundation);
    crate::foundation::lemma_foundation_bits_round_trip(s2.foundation);
    assert(s1.foundation == s2.foundation);
    crate::closed::lemma_closed_bits_round_trip(s1.closed, 0);
    crate::closed::lemma_closed_bits_round_trip(s2.closed, 0);
    assert(s1.closed.counts =~= s2.closed.counts);
    assert(s1.closed == s2.closed);
    assert forall|k: int| 0 <= k < 7 implies s1.stacks@[k] == s2.stacks@[k] by {
        lemma_stack_fields_from_bits(s1.stacks@[k]);
        lemma_stack_fields_from_bits(s2.stacks@[k]);
        crate::stack::lemma_next_unpack(s1.stacks@[k]);
        crate::stack::lemma_next_unpack(s2.stacks@[k]);
        if let Some(c) = s1.stacks@[k].base {
            crate::card::lemma_byte_round_trip(c);
        }
        if let Some(c) = s2.stacks@[k].base {
            crate::card::lemma_byte_round_trip(c);
        }
        assert(s1.spec_stack_byte(k) == s2.spec_stack_byte(k));
        assert(s1.stacks@[k].spec_next() == s2.stacks@[k].spec_next());
        if s1.stacks@[k].base is Some && s2.stacks@[k].base is Some {
            crate::card::lemma_option_bits_injective(
                s1.stacks@[k].base,
                0,
                s2.stacks@[k].base,
                0,
            );
        }
        assert(s1.stacks@[k].base == s2.stacks@[k].base);
        assert(s1.stacks@[k].n == s2.stacks@[k].n);
        assert(s1.stacks@[k].vbits =~= s2.stacks@[k].vbits);
        assert(s1.stacks@[k].vbits == s2.stacks@[k].vbits);
    }
    assert(s1.stacks =~= s2.stacks);
    assert(s1.stacks == s2.stacks);
    assert(s1.stock.present =~= s2.stock.present);
    assert(s1.stock == s2.stock);
}

/// Equal key suffixes pin every digit: equal words give equal base-card
/// bytes, run words, tails and face-down counts.
proof fn lemma_words_equal(s1: GameState, s2: GameState, i: int)
    requires
        s1.piles_wf(),
        s2.piles_wf(),
        0 <= i <= 7,
        s1.spec_a_from(i) == s2.spec_a_from(i),
        s1.spec_b_from(i) == s2.spec_b_from(i),
    ensures
        s1.spec_tail_a() == s2.spec_tail_a(),
        s1.closed.spec_packed() == s2.closed.spec_packed(),
        forall|k: int|
            i <= k < 7 ==> #[trigger] s1.spec_stack_byte(k) == s2.spec_stack_byte(k),
        forall|k: int|
            i <= k < 7 ==> (#[trigger] s1.stacks@[k].spec_next()) == s2.stacks@[k].spec_next(),
    decreases 7 - i,
{
    if i < 7 {
        lemma_a_unpack(s1, i);
        lemma_a_unpack(s2, i);
        lemma_b_unpack(s1, i);
        lemma_b_unpack(s2, i);
        lemma_words_equal(s1, s2, i + 1);
    }
}

} // verus!
