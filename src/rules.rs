//! The rules of the duel over sequences of cards: when a play wins, when it
//! loses, and what a run of plays leads to.
use vstd::prelude::*;

use crate::card::{Card, Player};

verus! {

/// The outcome of a session.
#[derive(PartialEq, Eq, Structural, Clone, Copy, Debug)]
pub enum GameState {
    Playing,
    Won,
    Lost,
}

/// Every card of the deck has been played.
pub open spec fn all_played(deck: Seq<Card>, played: Seq<Card>) -> bool {
    forall|i: int| 0 <= i < deck.len() ==> played.contains(#[trigger] deck[i])
}

/// Some card of the deck, of either owner, is still unplayed and ranks below `rank`.
pub open spec fn busted(deck: Seq<Card>, played: Seq<Card>, rank: u8) -> bool {
    exists|i: int|
        0 <= i < deck.len() && !played.contains(#[trigger] deck[i]) && deck[i].number < rank
}

/// The outcome just after `card` was appended, giving `played`.
pub open spec fn state_after(deck: Seq<Card>, played: Seq<Card>, card: Card) -> GameState {
    if all_played(deck, played) {
        GameState::Won
    } else if busted(deck, played, card.number) {
        GameState::Lost
    } else {
        GameState::Playing
    }
}

/// `i` is the first position in the deck of an unplayed card of `player`.
pub open spec fn first_unplayed(deck: Seq<Card>, played: Seq<Card>, player: Player, i: int) -> bool {
    0 <= i < deck.len() && deck[i].player == player && !played.contains(deck[i]) && forall|j: int|
        0 <= j < i ==> !(deck[j].player == player && !played.contains(#[trigger] deck[j]))
}

/// `player` still holds an unplayed card of the deck.
pub open spec fn has_unplayed(deck: Seq<Card>, played: Seq<Card>, player: Player) -> bool {
    exists|i: int| 0 <= i < deck.len() && deck[i].player == player && !played.contains(#[trigger] deck[i])
}

/// `card` is the next card that its owner must play: the first of that
/// owner's cards, in deck order, that is not played yet.
pub open spec fn is_next(deck: Seq<Card>, played: Seq<Card>, card: Card) -> bool {
    exists|i: int| #[trigger] first_unplayed(deck, played, card.player, i) && deck[i] == card
}

/// A play counts only while the game is on, and only for the next card
/// that its owner must play.
pub open spec fn takes_effect(deck: Seq<Card>, played: Seq<Card>, state: GameState, card: Card) -> bool {
    state == GameState::Playing && is_next(deck, played, card)
}

/// No card occurs twice.
pub open spec fn distinct_cards(s: Seq<Card>) -> bool {
    forall|i: int, j: int| 0 <= i < j < s.len() ==> s[i] != s[j]
}

/// Of each owner's cards, those played come first in deck order.
pub open spec fn played_first(deck: Seq<Card>, played: Seq<Card>) -> bool {
    forall|i: int, j: int|
        0 <= i < j < deck.len() && deck[i].player == deck[j].player && played.contains(
            #[trigger] deck[j],
        ) ==> played.contains(#[trigger] deck[i])
}

/// Each owner's cards were played in deck order.
pub open spec fn played_in_order(deck: Seq<Card>, played: Seq<Card>) -> bool {
    forall|a: int, b: int, i: int, j: int|
        #![trigger played[a], played[b], deck[i], deck[j]]
        0 <= a < b < played.len() && played[a].player == played[b].player && 0 <= i < deck.len()
            && 0 <= j < deck.len() && deck[i] == played[a] && deck[j] == played[b] ==> i < j
}

/// What the plays so far keep true: only cards of the deck, none twice, and,
/// where the deck holds no card twice, each owner's played cards are the
/// first of its cards in deck order, played in that order.
pub open spec fn plays_valid(deck: Seq<Card>, played: Seq<Card>) -> bool {
    &&& forall|i: int| 0 <= i < played.len() ==> deck.contains(#[trigger] played[i])
    &&& distinct_cards(played)
    &&& distinct_cards(deck) ==> played_first(deck, played) && played_in_order(deck, played)
}

/// Nothing played is valid.
pub proof fn lemma_nothing_played_valid(deck: Seq<Card>)
    ensures
        plays_valid(deck, seq![]),
{
}

/// Only one position is the first unplayed card of an owner.
pub proof fn lemma_first_unplayed_unique(
    deck: Seq<Card>,
    played: Seq<Card>,
    player: Player,
    i: int,
    j: int,
)
    requires
        first_unplayed(deck, played, player, i),
        first_unplayed(deck, played, player, j),
    ensures
        i == j,
{
    if i < j {
        assert(!(deck[i].player == player && !played.contains(deck[i])));
    } else if j < i {
        assert(!(deck[j].player == player && !played.contains(deck[j])));
    }
}

/// Playing the next card of its owner keeps the plays valid.
pub proof fn lemma_next_play_valid(deck: Seq<Card>, played: Seq<Card>, card: Card)
    requires
        plays_valid(deck, played),
        is_next(deck, played, card),
    ensures
        plays_valid(deck, played.push(card)),
{
    let i0 = choose|i: int| #[trigger] first_unplayed(deck, played, card.player, i) && deck[i] == card;
    let p = played.push(card);
    assert forall|x: Card| p.contains(x) <==> (played.contains(x) || x == card) by {
        if played.contains(x) {
            let k = choose|k: int| 0 <= k < played.len() && played[k] == x;
            assert(p[k] == x);
        }
        if x == card {
            assert(p[played.len() as int] == x);
        }
        if p.contains(x) && x != card {
            let k = choose|k: int| 0 <= k < p.len() && p[k] == x;
            assert(played[k] == x);
        }
    }
    assert forall|k: int| 0 <= k < p.len() implies deck.contains(#[trigger] p[k]) by {
        if k == played.len() {
            assert(deck[i0] == p[k]);
        } else {
            assert(p[k] == played[k]);
        }
    }
    assert forall|a: int, b: int| 0 <= a < b < p.len() implies p[a] != p[b] by {
        if b == played.len() {
            assert(played.contains(p[a]));
        } else {
            assert(p[a] == played[a] && p[b] == played[b]);
        }
    }
    if distinct_cards(deck) {
        assert forall|i: int, j: int|
            0 <= i < j < deck.len() && deck[i].player == deck[j].player && p.contains(
                #[trigger] deck[j],
            ) implies p.contains(#[trigger] deck[i]) by {
            if !played.contains(deck[j]) {
                assert(deck[j] == card);
                assert(j == i0);
                assert(!(deck[i].player == card.player && !played.contains(deck[i])));
            }
        }
        assert forall|a: int, b: int, i: int, j: int|
            #![trigger p[a], p[b], deck[i], deck[j]]
            0 <= a < b < p.len() && p[a].player == p[b].player && 0 <= i < deck.len() && 0 <= j
                < deck.len() && deck[i] == p[a] && deck[j] == p[b] implies i < j by {
            if b == played.len() {
                assert(p[a] == played[a]);
                assert(played.contains(deck[i]));
                assert(j == i0);
                if i > i0 {
                    assert(played.contains(deck[i0]));
                }
            } else {
                assert(p[a] == played[a] && p[b] == played[b]);
            }
        }
    }
}

/// The cards played and the outcome after one play.
pub open spec fn play_step(deck: Seq<Card>, played: Seq<Card>, state: GameState, card: Card) -> (
    Seq<Card>,
    GameState,
) {
    if takes_effect(deck, played, state, card) {
        (played.push(card), state_after(deck, played.push(card), card))
    } else {
        (played, state)
    }
}

/// The cards played and the outcome after a run of plays, in order.
pub open spec fn play_all(
    deck: Seq<Card>,
    played: Seq<Card>,
    state: GameState,
    plays: Seq<Card>,
) -> (Seq<Card>, GameState)
    decreases plays.len(),
{
    if plays.len() == 0 {
        (played, state)
    } else {
        let (p, s) = play_step(deck, played, state, plays[0]);
        play_all(deck, p, s, plays.drop_first())
    }
}

/// The cards of one owner, in deck order.
pub open spec fn hand(deck: Seq<Card>, player: Player) -> Seq<Card>
    decreases deck.len(),
{
    if deck.len() == 0 {
        seq![]
    } else if deck.last().player == player {
        hand(deck.drop_last(), player).push(deck.last())
    } else {
        hand(deck.drop_last(), player)
    }
}

/// `k` is the first position of `card` in the hand of `player`.
pub open spec fn first_in_hand(deck: Seq<Card>, player: Player, card: Card, k: int) -> bool {
    0 <= k < hand(deck, player).len() && hand(deck, player)[k] == card && forall|j: int|
        0 <= j < k ==> hand(deck, player)[j] != card
}

/// Once the game is over, no play changes anything.
pub proof fn lemma_over_stays_over(
    deck: Seq<Card>,
    played: Seq<Card>,
    state: GameState,
    plays: Seq<Card>,
)
    requires
        state != GameState::Playing,
    ensures
        play_all(deck, played, state, plays) == (played, state),
    decreases plays.len(),
{
    if plays.len() > 0 {
        lemma_over_stays_over(deck, played, state, plays.drop_first());
    }
}

/// A play of a card outside the deck changes neither the cards played nor
/// the outcome.
pub proof fn lemma_foreign_card_ignored(
    deck: Seq<Card>,
    played: Seq<Card>,
    state: GameState,
    card: Card,
)
    requires
        !deck.contains(card),
    ensures
        play_step(deck, played, state, card) == (played, state),
{
    if is_next(deck, played, card) {
        let i = choose|i: int| #[trigger] first_unplayed(deck, played, card.player, i) && deck[i] == card;
        assert(deck.contains(deck[i]));
    }
}

/// A play that leaves a lower card of either owner unplayed loses at once,
/// and the game stays lost whatever is played after it.
pub proof fn lemma_bust_loses_for_good(
    deck: Seq<Card>,
    played: Seq<Card>,
    state: GameState,
    card: Card,
    rest: Seq<Card>,
)
    requires
        state != GameState::Won,
        is_next(deck, played, card),
        busted(deck, played.push(card), card.number),
    ensures
        play_step(deck, played, state, card).1 == GameState::Lost,
        play_all(deck, played, state, seq![card] + rest).1 == GameState::Lost,
{
    assert(!all_played(deck, played.push(card)));
    let (after, outcome) = play_step(deck, played, state, card);
    assert((seq![card] + rest).drop_first() =~= rest);
    lemma_over_stays_over(deck, after, outcome, rest);
}

proof fn lemma_clean_run_from(deck: Seq<Card>, plays: Seq<Card>, k: int)
    requires
        0 <= k <= plays.len(),
        k == 0 || !all_played(deck, plays.take(k)),
        forall|i: int| 0 <= i < deck.len() ==> plays.contains(#[trigger] deck[i]),
        forall|i: int| 0 <= i < plays.len() ==> is_next(deck, #[trigger] plays.take(i), plays[i]),
        forall|i: int|
            0 <= i < plays.len() ==> !busted(deck, #[trigger] plays.take(i + 1), plays[i].number),
        deck.len() > 0,
    ensures
        play_all(deck, plays.take(k), GameState::Playing, plays.skip(k)).1 == GameState::Won,
    decreases plays.len() - k,
{
    if k == plays.len() {
        assert(plays.take(k) =~= plays);
        if k == 0 {
            assert(plays.contains(deck[0]));
        }
        assert(all_played(deck, plays.take(k)));
    } else {
        let card = plays[k];
        assert(is_next(deck, plays.take(k), plays[k]));
        let p = plays.take(k).push(card);
        assert(p =~= plays.take(k + 1));
        assert(plays.skip(k).drop_first() =~= plays.skip(k + 1));
        assert(!busted(deck, plays.take(k + 1), plays[k].number));
        if all_played(deck, p) {
            lemma_over_stays_over(deck, p, GameState::Won, plays.skip(k + 1));
        } else {
            lemma_clean_run_from(deck, plays, k + 1);
        }
    }
}

/// A run of plays from a fresh game in which each card is the next one its
/// owner must play, that plays every card of the deck, and that never leaves
/// a lower card unplayed, ends won.
pub proof fn lemma_clean_run_wins(deck: Seq<Card>, plays: Seq<Card>)
    requires
        deck.len() > 0,
        forall|i: int| 0 <= i < deck.len() ==> plays.contains(#[trigger] deck[i]),
        forall|i: int| 0 <= i < plays.len() ==> is_next(deck, #[trigger] plays.take(i), plays[i]),
        forall|i: int|
            0 <= i < plays.len() ==> !busted(deck, #[trigger] plays.take(i + 1), plays[i].number),
    ensures
        play_all(deck, seq![], GameState::Playing, plays).1 == GameState::Won,
{
    lemma_clean_run_from(deck, plays, 0);
    assert(plays.take(0) =~= seq![]);
    assert(plays.skip(0) =~= plays);
}

} // verus!
