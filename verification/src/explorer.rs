//! The exhaustive solver: memoized depth-first search over the action graph.
//!
//! The explorer keys its visited set by the packed state encoding, so a
//! position reached twice along different move orders is explored only
//! once. The recursion depth is hard-bounded; running past the bound is a
//! fatal condition reported to the caller, never a quiet "no solution".

use vstd::prelude::*;

use std::collections::HashMap;

use crate::game::{Action, Game};
use crate::gamestate::{spec_key, EncodedGameState, GameState};

verus! {

broadcast use vstd::std_specs::hash::group_hash_axioms;

/// The hard recursion ceiling was exceeded: a fatal condition, distinct
/// from the recoverable illegal-move failures of the rule engine.
#[derive(Clone, Copy, PartialEq, Eq, Structural, Debug)]
pub struct SearchOverrun;

pub struct Explorer {
    /// The visited keys, bucketed by their first word.
    pub seen_map: HashMap<u64, Vec<u128>>,
    /// Every visited key, each exactly once, in visit order.
    pub seen_list: Vec<EncodedGameState>,
    /// The (key, action) path from the root to the current position.
    pub actions: Vec<(EncodedGameState, Action)>,
    /// The keys currently under exploration on the recursion path; every
    /// other visited key belongs to a fully explored, losing position.
    pub gray: Ghost<Set<EncodedGameState>>,
}

/// A visited set is closed and losing, apart from the keys still open on
/// the recursion path: every well-formed state whose key it holds (and is
/// not open) has an incomplete foundation, and the key of each of its
/// enumerated legal successors is in the set as well.
pub open spec fn closed_losing_except(
    seen: Set<EncodedGameState>,
    open_keys: Set<EncodedGameState>,
    deck: crate::deck::Deck,
) -> bool {
    forall|s: GameState|
        s.wf(deck) && seen.contains(#[trigger] spec_key(s)) && !open_keys.contains(spec_key(s))
            ==> !s.foundation.spec_is_complete() && (forall|i: int, s2: GameState|
            0 <= i < crate::game::spec_possible_actions(s).len() && crate::game::spec_legal(
                s,
                deck,
                crate::game::spec_possible_actions(s)[i],
            ) && s2.wf(deck) && #[trigger] crate::game::spec_step(
                s,
                s2,
                deck,
                crate::game::spec_possible_actions(s)[i],
            ) ==> seen.contains(spec_key(s2)))
}

/// From a key in a closed losing set, no sequence of enumerated moves wins:
/// each move stays inside the set, whose positions are all incomplete.
pub proof fn lemma_closed_losing_unwinnable(
    s: GameState,
    deck: crate::deck::Deck,
    seen: Set<EncodedGameState>,
    fuel: nat,
)
    requires
        s.wf(deck),
        seen.contains(spec_key(s)),
        closed_losing_except(seen, Set::empty(), deck),
    ensures
        !crate::game::spec_wins_enumerated(s, deck, fuel),
    decreases fuel,
{
    assert(!s.foundation.spec_is_complete());
    if crate::game::spec_wins_enumerated(s, deck, fuel) {
        let (i, s2) = choose|i: int, s2: GameState|
            0 <= i < crate::game::spec_possible_actions(s).len() && crate::game::spec_legal(
                s,
                deck,
                crate::game::spec_possible_actions(s)[i],
            ) && s2.wf(deck) && crate::game::spec_step(
                s,
                s2,
                deck,
                crate::game::spec_possible_actions(s)[i],
            ) && crate::game::spec_wins_enumerated(s2, deck, (fuel - 1) as nat);
        assert(seen.contains(spec_key(s2)));
        lemma_closed_losing_unwinnable(s2, deck, seen, (fuel - 1) as nat);
    }
}

impl Explorer {
    /// The set of visited keys.
    pub open spec fn spec_seen(self) -> Set<EncodedGameState> {
        Set::new(
            |e: EncodedGameState|
                self.seen_map@.contains_key(e.0) && self.seen_map@[e.0]@.contains(e.1),
        )
    }

    /// The visit list holds exactly the visited keys, each once.
    pub open spec fn wf(self) -> bool {
        &&& forall|e: EncodedGameState|
            self.spec_seen().contains(e) <==> self.seen_list@.contains(e)
        &&& forall|i: int, j: int|
            0 <= i < j < self.seen_list@.len() ==> self.seen_list@[i] != self.seen_list@[j]
    }

    pub fn new() -> (e: Explorer)
        ensures
            e.wf(),
            e.spec_seen() =~= Set::<EncodedGameState>::empty(),
            e.seen_list@.len() == 0,
            e.actions@.len() == 0,
            e.gray@ =~= Set::<EncodedGameState>::empty(),
    {
        let e = Explorer {
            seen_map: HashMap::new(),
            seen_list: Vec::new(),
            actions: Vec::new(),
            gray: Ghost(Set::empty()),
        };
        proof {
            assert forall|k: EncodedGameState| !e.spec_seen().contains(k) by {}
        }
        e
    }

    /// How many distinct states have been visited.
    pub fn n_seen(&self) -> (r: usize)
        ensures
            r == self.seen_list@.len(),
    {
        self.seen_list.len()
    }

    /// The visited keys, each exactly once.
    pub fn seen_keys(&self) -> (r: &Vec<EncodedGameState>)
        ensures
            r == &self.seen_list,
    {
        &self.seen_list
    }

    /// Records a key as visited. Returns true when the key is new; on a
    /// repeat nothing at all changes.
    fn insert_seen(&mut self, key: EncodedGameState) -> (r: bool)
        requires
            old(self).wf(),
        ensures
            final(self).wf(),
            r == !old(self).spec_seen().contains(key),
            final(self).spec_seen() =~= old(self).spec_seen().insert(key),
            !r ==> *final(self) == *old(self),
            r ==> final(self).seen_list@ == old(self).seen_list@.push(key),
            final(self).actions == old(self).actions,
            final(self).gray == old(self).gray,
    {
        let a = key.0;
        let b = key.1;
        let mut found = false;
        match self.seen_map.get(&a) {
            Some(v) => {
                let mut i: usize = 0;
                while i < v.len()
                    invariant
                        i <= v@.len(),
                        found == exists|m: int| 0 <= m < i && v@[m] == b,
                    decreases v@.len() - i,
                {
                    if v[i] == b {
                        found = true;
                    }
                    i += 1;
                }
                proof {
                    if found {
                        assert(v@.contains(b));
                    } else {
                        if v@.contains(b) {
                            let m = choose|m: int| 0 <= m < v@.len() && v@[m] == b;
                            assert(false);
                        }
                    }
                }
            },
            None => {},
        }
        proof {
            assert(found == old(self).spec_seen().contains(key));
        }
        if found {
            proof {
                assert(self.spec_seen() =~= old(self).spec_seen().insert(key));
            }
            return false;
        }
        self.seen_list.push(key);
        match self.seen_map.remove(&a) {
            Some(mut v) => {
                let ghost v0 = v@;
                v.push(b);
                self.seen_map.insert(a, v);
                proof {
                    assert forall|e: EncodedGameState|
                        self.spec_seen().contains(e) <==> (old(
                            self,
                        ).spec_seen().contains(e) || e == key) by {
                        vstd::seq_lib::lemma_seq_contains_after_push(v0, b, e.1);
                        if e.0 != a {
                            assert(self.seen_map@.contains_key(e.0) == old(
                                self,
                            ).seen_map@.contains_key(e.0));
                        }
                    }
                }
            },
            None => {
                let mut v: Vec<u128> = Vec::new();
                v.push(b);
                self.seen_map.insert(a, v);
                proof {
                    assert forall|e: EncodedGameState|
                        self.spec_seen().contains(e) <==> (old(
                            self,
                        ).spec_seen().contains(e) || e == key) by {
                        vstd::seq_lib::lemma_seq_contains_after_push(Seq::<u128>::empty(), b, e.1);
                        assert(self.seen_map@[a]@ =~= Seq::<u128>::empty().push(b));
                        if e.0 != a {
                            assert(self.seen_map@.contains_key(e.0) == old(
                                self,
                            ).seen_map@.contains_key(e.0));
                        }
                    }
                }
            },
        }
        proof {
            assert(self.spec_seen() =~= old(self).spec_seen().insert(key));
            assert(!old(self).seen_list@.contains(key));
            assert forall|e: EncodedGameState|
                self.spec_seen().contains(e) <==> self.seen_list@.contains(
                    e,
                ) by {
                vstd::seq_lib::lemma_seq_contains_after_push(old(self).seen_list@, key, e);
            }
        }
        true
    }

    /// Memoized depth-first search from the given position.
    ///
    /// A win report is sound: `Ok(true)` comes with a recorded path of
    /// legal moves from this very position to a complete foundation, so the
    /// deal is winnable. A no-win report is exhaustive over the solver's
    /// own move set: from a fresh explorer, `Ok(false)` means no sequence
    /// of enumerated moves, however long, wins (the engine enumerates
    /// whole-run column moves, never partial runs). A position whose key
    /// was already visited is never explored again: it returns at once,
    /// changing nothing. Past the depth ceiling the fatal overrun is
    /// reported instead of an answer, with the offending path recorded.
    pub fn explore(&mut self, game: &Game, depth: usize) -> (r: Result<bool, SearchOverrun>)
        requires
            old(self).wf(),
            game.wf(),
        ensures
            final(self).wf(),
            forall|e: EncodedGameState|
                old(self).spec_seen().contains(e) ==> final(self).spec_seen().contains(e),
            old(self).actions@.is_prefix_of(final(self).actions@),
            depth > 500 ==> r is Err,
            r is Err && depth > 500 ==> final(self).actions@.len() == old(self).actions@.len(),
            r is Err && depth <= 500 ==> final(self).actions@.len() == old(self).actions@.len()
                + 501 - depth,
            depth <= 500 && old(self).spec_seen().contains(spec_key(game.state)) ==> (r
                == Result::<bool, SearchOverrun>::Ok(false) && *final(self) == *old(self)),
            depth <= 500 && !old(self).spec_seen().contains(spec_key(game.state))
                && game.state.foundation.spec_is_complete() ==> (r == Result::<
                bool,
                SearchOverrun,
            >::Ok(true) && final(self).spec_seen() =~= old(self).spec_seen().insert(
                spec_key(game.state),
            ) && final(self).seen_list@ == old(self).seen_list@.push(spec_key(game.state))
                && final(self).actions == old(self).actions),
            r is Ok ==> final(self).spec_seen().contains(spec_key(game.state)),
            r == Result::<bool, SearchOverrun>::Ok(false) ==> final(self).actions@ == old(
                self,
            ).actions@,
            // Exhaustion is honest one step deep: a fresh position answered
            // "no win" has had every action the engine accepts applied, so
            // each legal successor's key sits in the visited set.
            depth <= 500 && !old(self).spec_seen().contains(spec_key(game.state)) && r
                == Result::<bool, SearchOverrun>::Ok(false) ==> forall|i: int, s2: GameState|
                0 <= i < crate::game::spec_possible_actions(game.state).len()
                    && crate::game::spec_legal(
                    game.state,
                    game.deck,
                    crate::game::spec_possible_actions(game.state)[i],
                ) && s2.wf(game.deck) && #[trigger] crate::game::spec_step(
                    game.state,
                    s2,
                    game.deck,
                    crate::game::spec_possible_actions(game.state)[i],
                ) ==> final(self).spec_seen().contains(spec_key(s2)),
            r == Result::<bool, SearchOverrun>::Ok(true) ==> spec_winning_path(
                game.state,
                game.deck,
                final(self).actions@.skip(old(self).actions@.len() as int),
            ),
            r == Result::<bool, SearchOverrun>::Ok(true) ==> exists|fuel: nat|
                crate::game::spec_wins(game.state, game.deck, fuel),
            final(self).gray@ == old(self).gray@,
            // A "no win" answer keeps the visited set closed and losing,
            // apart from the positions still open on the recursion path.
            closed_losing_except(old(self).spec_seen(), old(self).gray@, game.deck) && depth
                <= 500 && r == Result::<bool, SearchOverrun>::Ok(false)
                ==> closed_losing_except(final(self).spec_seen(), old(self).gray@, game.deck),
            // Exhaustiveness at the root: from a fresh explorer, "no win"
            // means no sequence of enumerated moves wins, however long.
            old(self).spec_seen() =~= Set::<EncodedGameState>::empty() && old(self).gray@ =~= Set::<
                EncodedGameState,
            >::empty() && depth <= 500 && r == Result::<bool, SearchOverrun>::Ok(false)
                ==> forall|fuel: nat|
                !crate::game::spec_wins_enumerated(game.state, game.deck, fuel),
        decreases 501 - depth,
    {
        if depth > 500 {
            proof {
                lemma_prefix_refl(self.actions@);
            }
            return Err(SearchOverrun);
        }
        let key = game.state.encode();
        proof {
            assert(key == spec_key(game.state));
        }
        if !self.insert_seen(key) {
            proof {
                lemma_prefix_refl(self.actions@);
            }
            return Ok(false);
        }
        if game.state.foundation.is_complete() {
            proof {
                lemma_prefix_refl(self.actions@);
                assert(self.actions@.skip(old(self).actions@.len() as int) =~= Seq::<
                    (EncodedGameState, Action),
                >::empty());
                assert(spec_winning_path(
                    game.state,
                    game.deck,
                    self.actions@.skip(old(self).actions@.len() as int),
                ));
                assert(crate::game::spec_wins(game.state, game.deck, 0));
            }
            return Ok(true);
        }
        let actions = game.for_all_possible_actions();
        let ghost gray0 = self.gray@;
        let ghost gray1 = gray0.insert(key);
        self.gray = Ghost(gray1);
        proof {
            assert(self.spec_seen() =~= old(self).spec_seen().insert(spec_key(game.state)));
            if closed_losing_except(old(self).spec_seen(), gray0, game.deck) {
                assert forall|s: GameState|
                    s.wf(game.deck) && self.spec_seen().contains(spec_key(s))
                        && !gray1.contains(spec_key(s)) implies (
                !s.foundation.spec_is_complete() && (forall|i2: int, t: GameState|
                    0 <= i2 < crate::game::spec_possible_actions(s).len()
                        && crate::game::spec_legal(
                        s,
                        game.deck,
                        crate::game::spec_possible_actions(s)[i2],
                    ) && t.wf(game.deck) && #[trigger] crate::game::spec_step(
                        s,
                        t,
                        game.deck,
                        crate::game::spec_possible_actions(s)[i2],
                    ) ==> self.spec_seen().contains(spec_key(t)))) by {
                    assert(old(self).spec_seen().contains(spec_key(s)));
                    assert forall|i2: int, t: GameState|
                        0 <= i2 < crate::game::spec_possible_actions(s).len()
                            && crate::game::spec_legal(
                            s,
                            game.deck,
                            crate::game::spec_possible_actions(s)[i2],
                        ) && t.wf(game.deck) && #[trigger] crate::game::spec_step(
                            s,
                            t,
                            game.deck,
                            crate::game::spec_possible_actions(s)[i2],
                        ) implies self.spec_seen().contains(spec_key(t)) by {
                        assert(old(self).spec_seen().contains(spec_key(t)));
                    }
                }
                assert(closed_losing_except(self.spec_seen(), gray1, game.deck));
            }
        }
        let mut i: usize = 0;
        while i < actions.len()
            invariant
                i <= actions@.len(),
                actions@ == crate::game::spec_possible_actions(game.state),
                game.wf(),
                depth <= 500,
                self.wf(),
                self.actions@ == old(self).actions@,
                !old(self).spec_seen().contains(spec_key(game.state)),
                !game.state.foundation.spec_is_complete(),
                self.spec_seen().contains(spec_key(game.state)),
                gray0 == old(self).gray@,
                gray1 == gray0.insert(spec_key(game.state)),
                self.gray@ == gray1,
                closed_losing_except(old(self).spec_seen(), gray0, game.deck)
                    ==> closed_losing_except(self.spec_seen(), gray1, game.deck),
                forall|e: EncodedGameState|
                    old(self).spec_seen().contains(e) ==> self.spec_seen().contains(e),
                forall|k: int, s2: GameState|
                    0 <= k < i && crate::game::spec_legal(game.state, game.deck, actions@[k])
                        && s2.wf(game.deck) && #[trigger] crate::game::spec_step(
                        game.state,
                        s2,
                        game.deck,
                        actions@[k],
                    ) ==> self.spec_seen().contains(spec_key(s2)),
            decreases actions@.len() - i,
        {
            let act = actions[i];
            proof {
                crate::game::lemma_possible_actions_wf(game.state, i as int);
            }
            let mut newgame = *game;
            if newgame.action(act).is_ok() {
                let newkey = newgame.state.encode();
                self.actions.push((newkey, act));
                let ghost before_rec = *self;
                proof {
                    lemma_prefix_push(old(self).actions@, (newkey, act));
                }
                match self.explore(&newgame, depth + 1) {
                    Ok(true) => {
                        proof {
                            assert forall|e: EncodedGameState|
                                old(self).spec_seen().contains(e) implies self.spec_seen().contains(
                                e,
                            ) by {
                                assert(before_rec.spec_seen().contains(e));
                            }
                            assert(before_rec.spec_seen().contains(spec_key(game.state)));
                            assert(self.spec_seen().contains(spec_key(game.state)));
                            lemma_prefix_trans(
                                old(self).actions@,
                                before_rec.actions@,
                                self.actions@,
                            );
                            // The recorded suffix starts with this move and
                            // continues with the recursion's winning play.
                            let oldlen = old(self).actions@.len() as int;
                            let suffix = self.actions@.skip(oldlen);
                            let rec_suffix = self.actions@.skip(oldlen + 1);
                            assert(before_rec.actions@.len() == oldlen + 1);
                            assert(self.actions@[oldlen] == before_rec.actions@[oldlen]);
                            assert(suffix[0] == (newkey, act));
                            assert(suffix.skip(1) =~= rec_suffix);
                            assert(newkey == spec_key(newgame.state));
                            assert(newgame.deck == game.deck);
                            assert(spec_winning_path(newgame.state, game.deck, rec_suffix));
                            assert(spec_winning_path(game.state, game.deck, suffix));
                            lemma_winning_path_wins(game.state, game.deck, suffix);
                        }
                        self.gray = Ghost(gray0);
                        return Ok(true);
                    },
                    Ok(false) => {
                        self.actions.pop();
                        proof {
                            assert(self.actions@ =~= old(self).actions@);
                            assert forall|e: EncodedGameState|
                                old(self).spec_seen().contains(e) implies self.spec_seen().contains(
                                e,
                            ) by {
                                assert(before_rec.spec_seen().contains(e));
                            }
                            assert(before_rec.spec_seen().contains(spec_key(game.state)));
                            assert(self.spec_seen().contains(spec_key(game.state)));
                            if closed_losing_except(
                                old(self).spec_seen(),
                                gray0,
                                game.deck,
                            ) {
                                assert(closed_losing_except(
                                    before_rec.spec_seen(),
                                    before_rec.gray@,
                                    game.deck,
                                ));
                                assert(depth + 1 <= 500);
                                assert(closed_losing_except(
                                    self.spec_seen(),
                                    gray1,
                                    game.deck,
                                ));
                            }
                            assert forall|k: int, s2: GameState|
                                0 <= k < i + 1 && crate::game::spec_legal(
                                    game.state,
                                    game.deck,
                                    actions@[k],
                                ) && s2.wf(game.deck) && #[trigger] crate::game::spec_step(
                                    game.state,
                                    s2,
                                    game.deck,
                                    actions@[k],
                                ) implies self.spec_seen().contains(spec_key(s2)) by {
                                if k < i {
                                    assert(before_rec.spec_seen().contains(spec_key(s2)));
                                } else {
                                    crate::game::lemma_step_deterministic(
                                        game.state,
                                        s2,
                                        newgame.state,
                                        game.deck,
                                        act,
                                    );
                                    assert(self.spec_seen().contains(spec_key(newgame.state)));
                                }
                            }
                        }
                    },
                    Err(e) => {
                        proof {
                            assert forall|el: EncodedGameState|
                                old(self).spec_seen().contains(el) implies self.spec_seen().contains(
                                el,
                            ) by {
                                assert(before_rec.spec_seen().contains(el));
                            }
                            lemma_prefix_trans(
                                old(self).actions@,
                                before_rec.actions@,
                                self.actions@,
                            );
                        }
                        self.gray = Ghost(gray0);
                        return Err(e);
                    },
                }
            }
            i += 1;
        }
        self.gray = Ghost(gray0);
        proof {
            lemma_prefix_refl(self.actions@);
            if closed_losing_except(old(self).spec_seen(), gray0, game.deck) {
                // The loop left the set closed except at this key, and this
                // key's position is incomplete with every enumerated legal
                // successor visited: the whole set is closed.
                assert forall|s: GameState|
                    s.wf(game.deck) && self.spec_seen().contains(spec_key(s))
                        && !gray0.contains(spec_key(s)) implies (
                !s.foundation.spec_is_complete() && (forall|i2: int, t: GameState|
                    0 <= i2 < crate::game::spec_possible_actions(s).len()
                        && crate::game::spec_legal(
                        s,
                        game.deck,
                        crate::game::spec_possible_actions(s)[i2],
                    ) && t.wf(game.deck) && #[trigger] crate::game::spec_step(
                        s,
                        t,
                        game.deck,
                        crate::game::spec_possible_actions(s)[i2],
                    ) ==> self.spec_seen().contains(spec_key(t)))) by {
                    if spec_key(s) == spec_key(game.state) {
                        crate::gamestate::lemma_key_injective(s, game.state, game.deck);
                        assert(s == game.state);
                        assert(!s.foundation.spec_is_complete());
                        assert forall|i2: int, t: GameState|
                            0 <= i2 < crate::game::spec_possible_actions(s).len()
                                && crate::game::spec_legal(
                                s,
                                game.deck,
                                crate::game::spec_possible_actions(s)[i2],
                            ) && t.wf(game.deck) && #[trigger] crate::game::spec_step(
                                s,
                                t,
                                game.deck,
                                crate::game::spec_possible_actions(s)[i2],
                            ) implies self.spec_seen().contains(spec_key(t)) by {
                            assert(crate::game::spec_possible_actions(game.state)[i2]
                                == actions@[i2]);
                        }
                    } else {
                        assert(!gray1.contains(spec_key(s)));
                    }
                }
                assert(closed_losing_except(self.spec_seen(), gray0, game.deck));
            }
            if old(self).spec_seen() =~= Set::<EncodedGameState>::empty() && gray0 =~= Set::<
                EncodedGameState,
            >::empty() {
                assert(closed_losing_except(old(self).spec_seen(), gray0, game.deck));
                assert(gray0 == Set::<EncodedGameState>::empty());
                assert forall|fuel: nat|
                    !crate::game::spec_wins_enumerated(game.state, game.deck, fuel) by {
                    lemma_closed_losing_unwinnable(game.state, game.deck, self.spec_seen(), fuel);
                }
            }
        }
        Ok(false)
    }

    /// Among the visited keys, one whose foundation holds the most cards —
    /// the "closest" position the search saw. None only when nothing has
    /// been visited.
    pub fn closest(&self) -> (r: Option<EncodedGameState>)
        ensures
            r is None <==> self.seen_list@.len() == 0,
            r matches Some(e) ==> self.seen_list@.contains(e) && forall|i: int|
                0 <= i < self.seen_list@.len() ==> spec_foundation_total(e)
                    >= spec_foundation_total(#[trigger] self.seen_list@[i]),
    {
        if self.seen_list.len() == 0 {
            return None;
        }
        let mut best = self.seen_list[0];
        let mut best_total = foundation_total(&best);
        let mut i: usize = 1;
        while i < self.seen_list.len()
            invariant
                1 <= i <= self.seen_list@.len(),
                self.seen_list@.contains(best),
                best_total == spec_foundation_total(best),
                forall|k: int|
                    0 <= k < i ==> best_total >= spec_foundation_total(
                        #[trigger] self.seen_list@[k],
                    ),
            decreases self.seen_list@.len() - i,
        {
            let e = self.seen_list[i];
            let t = foundation_total(&e);
            if t > best_total {
                best = e;
                best_total = t;
            }
            i += 1;
        }
        Some(best)
    }
}

/// The total number of foundation cards recorded in a packed key.
pub open spec fn spec_foundation_total(e: EncodedGameState) -> int {
    let f = crate::foundation::Foundation::spec_from_bits(
        e.0 as int / 64 / 64 / 64 / 64 / 64 / 64 / 64 / 32 % 65536,
    );
    f.counts@[0] + f.counts@[1] + f.counts@[2] + f.counts@[3]
}

/// How many foundation cards a packed key records.
pub fn foundation_total(e: &EncodedGameState) -> (r: usize)
    ensures
        r == spec_foundation_total(*e),
{
    let f = e.get_foundation();
    f.n_cards(crate::suit::Suit::Spades) + f.n_cards(crate::suit::Suit::Hearts) + f.n_cards(
        crate::suit::Suit::Clubs,
    ) + f.n_cards(crate::suit::Suit::Diamonds)
}

/// The pairs `(key, action)` of a recorded winning play from `s`: each
/// action in turn is accepted by the rule engine, each key encodes the
/// well-formed position after its action, and the play ends on a complete
/// foundation.
pub open spec fn spec_winning_path(
    s: GameState,
    deck: crate::deck::Deck,
    path: Seq<(EncodedGameState, Action)>,
) -> bool
    decreases path.len(),
{
    if path.len() == 0 {
        s.foundation.spec_is_complete()
    } else {
        exists|s2: GameState|
            {
                &&& path[0].1.wf()
                &&& crate::game::spec_legal(s, deck, path[0].1)
                &&& s2.wf(deck)
                &&& crate::game::spec_step(s, s2, deck, path[0].1)
                &&& path[0].0 == spec_key(s2)
                &&& spec_winning_path(s2, deck, path.skip(1))
            }
    }
}

/// A recorded winning play witnesses winnability, in as many moves as the
/// play has steps.
pub proof fn lemma_winning_path_wins(
    s: GameState,
    deck: crate::deck::Deck,
    path: Seq<(EncodedGameState, Action)>,
)
    requires
        spec_winning_path(s, deck, path),
    ensures
        crate::game::spec_wins(s, deck, path.len() as nat),
    decreases path.len(),
{
    if path.len() > 0 {
        let s2 = choose|s2: GameState|
            {
                &&& path[0].1.wf()
                &&& crate::game::spec_legal(s, deck, path[0].1)
                &&& s2.wf(deck)
                &&& crate::game::spec_step(s, s2, deck, path[0].1)
                &&& path[0].0 == spec_key(s2)
                &&& spec_winning_path(s2, deck, path.skip(1))
            };
        lemma_winning_path_wins(s2, deck, path.skip(1));
        assert(path.skip(1).len() == path.len() - 1);
        assert(crate::game::spec_wins(s, deck, path.len() as nat));
    }
}

/// Every sequence is a prefix of itself.
proof fn lemma_prefix_refl(s: Seq<(EncodedGameState, Action)>)
    ensures
        s.is_prefix_of(s),
{
    assert(s.subrange(0, s.len() as int) =~= s);
}

/// A sequence is a prefix of itself extended by one element.
proof fn lemma_prefix_push(s: Seq<(EncodedGameState, Action)>, x: (EncodedGameState, Action))
    ensures
        s.is_prefix_of(s.push(x)),
{
    assert(s.push(x).subrange(0, s.len() as int) =~= s);
}

/// Being a prefix is transitive.
proof fn lemma_prefix_trans(
    a: Seq<(EncodedGameState, Action)>,
    b: Seq<(EncodedGameState, Action)>,
    c: Seq<(EncodedGameState, Action)>,
)
    requires
        a.is_prefix_of(b),
        b.is_prefix_of(c),
    ensures
        a.is_prefix_of(c),
{
    assert forall|i: int| 0 <= i < a.len() implies a[i] == c[i] by {
        assert(a[i] == b.subrange(0, a.len() as int)[i]);
        assert(b[i] == c.subrange(0, b.len() as int)[i]);
    }
    assert(a =~= c.subrange(0, a.len() as int));
}

} // verus!
