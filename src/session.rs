//! The session state machine: one dealt game, the cards played so far, the
//! outcome, and whether the live channel is attached.
use vstd::prelude::*;

use crate::card::{Card, Player};
use crate::codec::{decode_card, decode_handshake, encode_card, card_bytes, parse_card, parse_handshake};
use crate::error::HortaError;
use crate::rules::{
    GameState, all_played, busted, first_in_hand, first_unplayed, hand, has_unplayed, is_next,
    lemma_first_unplayed_unique, lemma_foreign_card_ignored, lemma_next_play_valid, play_step, plays_valid, state_after,
    takes_effect,
};

verus! {

/// The dealt deck and the cards played from it so far.
pub struct Game {
    pub cards: Vec<Card>,
    pub cards_played: Vec<Card>,
}

/// The live channel of a session.
#[derive(PartialEq, Eq, Structural, Clone, Copy, Debug)]
pub enum Channel {
    /// Not opened yet.
    Detached,
    Open,
    Closed,
}

/// What the caller must do on the channel after a play.
#[derive(PartialEq, Eq, Structural, Clone, Copy, Debug)]
pub enum Effect {
    Nothing,
    /// Send this card's play message to the peer.
    Send(Card),
    /// Close the channel: the game is over.
    Close,
}

/// One session against the remote peer.
pub struct Horta {
    uuid: u128,
    instance: u64,
    game: Game,
    ws: Channel,
    state: GameState,
}

/// The abstract state of a session.
pub struct HortaView {
    pub uuid: u128,
    pub instance: u64,
    pub deck: Seq<Card>,
    pub played: Seq<Card>,
    pub state: GameState,
    pub channel: Channel,
}

impl View for Horta {
    type V = HortaView;

    closed spec fn view(&self) -> HortaView {
        HortaView {
            uuid: self.uuid,
            instance: self.instance,
            deck: self.game.cards@,
            played: self.game.cards_played@,
            state: self.state,
            channel: self.ws,
        }
    }
}

/// The session invariant: the plays are valid (only cards of the deck, none
/// twice, each owner's in deck order), a won game has played them all, and a
/// finished game has no open channel.
pub open spec fn session_wf(v: HortaView) -> bool {
    &&& plays_valid(v.deck, v.played)
    &&& v.state == GameState::Won ==> all_played(v.deck, v.played)
    &&& v.state != GameState::Playing ==> v.channel != Channel::Open
}

/// The session after `card` is played.
pub open spec fn after_play(v: HortaView, card: Card) -> HortaView {
    let (played, state) = play_step(v.deck, v.played, v.state, card);
    if takes_effect(v.deck, v.played, v.state, card) {
        HortaView {
            played,
            state,
            channel: if state != GameState::Playing && v.channel == Channel::Open {
                Channel::Closed
            } else {
                v.channel
            },
            ..v
        }
    } else {
        v
    }
}

/// What the caller must do on the channel after `card` is played.
pub open spec fn play_effect(v: HortaView, card: Card) -> Effect {
    if !takes_effect(v.deck, v.played, v.state, card) || v.channel != Channel::Open {
        Effect::Nothing
    } else if state_after(v.deck, v.played.push(card), card) != GameState::Playing {
        Effect::Close
    } else if card.player == Player::Person {
        Effect::Send(card)
    } else {
        Effect::Nothing
    }
}

fn contains_card(v: &Vec<Card>, card: &Card) -> (r: bool)
    ensures
        r == v@.contains(*card),
{
    let mut i: usize = 0;
    while i < v.len()
        invariant
            i <= v@.len(),
            forall|j: int| 0 <= j < i ==> v@[j] != *card,
        decreases v@.len() - i,
    {
        if v[i] == *card {
            return true;
        }
        i = i + 1;
    }
    false
}

/// The hand of a prefix of the deck is a prefix of the hand of the deck.
pub proof fn lemma_hand_prefix(deck: Seq<Card>, player: Player, m: int)
    requires
        0 <= m <= deck.len(),
    ensures
        hand(deck.take(m), player).len() <= hand(deck, player).len(),
        forall|j: int|
            0 <= j < hand(deck.take(m), player).len() ==> hand(deck, player)[j] == hand(
                deck.take(m),
                player,
            )[j],
    decreases deck.len(),
{
    if m == deck.len() {
        assert(deck.take(m) =~= deck);
    } else {
        let d = deck.drop_last();
        assert(d.take(m) =~= deck.take(m));
        lemma_hand_prefix(d, player, m);
    }
}

/// Every card of an owner is in that owner's hand.
pub proof fn lemma_in_hand(deck: Seq<Card>, player: Player, i: int)
    requires
        0 <= i < deck.len(),
        deck[i].player == player,
    ensures
        hand(deck, player).contains(deck[i]),
    decreases deck.len(),
{
    let h = hand(deck, player);
    if i == deck.len() - 1 {
        assert(h[h.len() - 1] == deck[i]);
    } else {
        let d = deck.drop_last();
        lemma_in_hand(d, player, i);
        let k = choose|k: int| 0 <= k < hand(d, player).len() && hand(d, player)[k] == d[i];
        if deck.last().player == player {
            assert(h[k] == deck[i]);
        }
    }
}

impl Horta {
    pub closed spec fn wf(&self) -> bool {
        session_wf(self@)
    }

    /// A fresh session on a dealt deck: nothing played, no channel yet.
    pub fn new(uuid: u128, instance: u64, cards: Vec<Card>) -> (r: Horta)
        ensures
            r@ == (HortaView {
                uuid,
                instance,
                deck: cards@,
                played: Seq::empty(),
                state: GameState::Playing,
                channel: Channel::Detached,
            }),
            r.wf(),
    {
        let r = Horta {
            uuid,
            instance,
            game: Game { cards, cards_played: Vec::new() },
            ws: Channel::Detached,
            state: GameState::Playing,
        };
        assert(r@.played =~= Seq::empty());
        r
    }

    /// Builds a session from a handshake's bytes.
    pub fn from_handshake(b: &[u8]) -> (r: Result<Horta, HortaError>)
        ensures
            match parse_handshake(b@) {
                Some((uuid, instance, deck)) => r matches Ok(h) && h@ == (HortaView {
                    uuid,
                    instance,
                    deck,
                    played: Seq::empty(),
                    state: GameState::Playing,
                    channel: Channel::Detached,
                }) && h.wf(),
                None => r == Err::<Horta, HortaError>(HortaError::DealUnavailable),
            },
    {
        match decode_handshake(b) {
            Ok(h) => Ok(Horta::new(h.uuid, h.instance, h.cards)),
            Err(e) => Err(e),
        }
    }

    pub fn uuid(&self) -> (r: u128)
        ensures
            r == self@.uuid,
    {
        self.uuid
    }

    pub fn instance(&self) -> (r: u64)
        ensures
            r == self@.instance,
    {
        self.instance
    }

    pub fn state(&self) -> (r: GameState)
        ensures
            r == self@.state,
    {
        self.state
    }

    pub fn channel(&self) -> (r: Channel)
        ensures
            r == self@.channel,
    {
        self.ws
    }

    pub fn cards(&self) -> (r: &Vec<Card>)
        ensures
            r@ == self@.deck,
    {
        &self.game.cards
    }

    pub fn cards_played(&self) -> (r: &Vec<Card>)
        ensures
            r@ == self@.played,
    {
        &self.game.cards_played
    }
}

impl Horta {
    fn all_cards_played(&self) -> (r: bool)
        ensures
            r == all_played(self@.deck, self@.played),
    {
        let deck = &self.game.cards;
        let mut i: usize = 0;
        while i < deck.len()
            invariant
                i <= deck@.len(),
                deck@ == self@.deck,
                forall|j: int| 0 <= j < i ==> self@.played.contains(#[trigger] deck@[j]),
            decreases deck@.len() - i,
        {
            if !contains_card(&self.game.cards_played, &deck[i]) {
                return false;
            }
            i = i + 1;
        }
        true
    }

    fn lower_card_unplayed(&self, rank: u8) -> (r: bool)
        ensures
            r == busted(self@.deck, self@.played, rank),
    {
        let deck = &self.game.cards;
        let mut i: usize = 0;
        while i < deck.len()
            invariant
                i <= deck@.len(),
                deck@ == self@.deck,
                forall|j: int|
                    0 <= j < i ==> !(!self@.played.contains(#[trigger] deck@[j]) && deck@[j].number
                        < rank),
            decreases deck@.len() - i,
        {
            if deck[i].number < rank && !contains_card(&self.game.cards_played, &deck[i]) {
                return true;
            }
            i = i + 1;
        }
        false
    }

    /// Whether `card` is the next card that its owner must play.
    fn is_next_card(&self, card: &Card) -> (r: bool)
        ensures
            r == is_next(self@.deck, self@.played, *card),
    {
        match self.next_card(card.player) {
            None => {
                proof {
                    if is_next(self@.deck, self@.played, *card) {
                        let i = choose|i: int|
                            #[trigger] first_unplayed(self@.deck, self@.played, card.player, i)
                                && self@.deck[i] == *card;
                        assert(has_unplayed(self@.deck, self@.played, card.player));
                    }
                }
                false
            },
            Some(c) => {
                proof {
                    let i = choose|i: int|
                        first_unplayed(self@.deck, self@.played, card.player, i) && c
                            == self@.deck[i];
                    if is_next(self@.deck, self@.played, *card) {
                        let j = choose|j: int|
                            #[trigger] first_unplayed(self@.deck, self@.played, card.player, j)
                                && self@.deck[j] == *card;
                        lemma_first_unplayed_unique(self@.deck, self@.played, card.player, i, j);
                    }
                    if c == *card {
                        assert(first_unplayed(self@.deck, self@.played, card.player, i));
                    }
                }
                c == *card
            },
        }
    }

    /// Plays `card`: ignored unless the game is on and the card is the next
    /// one that its owner must play (so a card outside the deck, a card
    /// played already, or one ahead of its turn changes nothing); otherwise appended, and the outcome recomputed (all played wins;
    /// else a lower card of either owner left unplayed loses). A finished
    /// game closes the channel.
    pub fn card_played(&mut self, card: &Card) -> (r: Effect)
        ensures
            final(self)@ == after_play(old(self)@, *card),
            r == play_effect(old(self)@, *card),
            !old(self)@.deck.contains(*card) ==> final(self)@ == old(self)@ && r == Effect::Nothing,
            old(self).wf() ==> final(self).wf(),
    {
        if self.state != GameState::Playing || !self.is_next_card(card) {
            proof {
                if !old(self)@.deck.contains(*card) {
                    lemma_foreign_card_ignored(
                        old(self)@.deck,
                        old(self)@.played,
                        old(self)@.state,
                        *card,
                    );
                }
            }
            return Effect::Nothing;
        }
        proof {
            if session_wf(self@) {
                lemma_next_play_valid(self@.deck, self@.played, *card);
            }
            if !self@.deck.contains(*card) {
                lemma_foreign_card_ignored(self@.deck, self@.played, self@.state, *card);
            }
        }
        self.game.cards_played.push(*card);
        if self.all_cards_played() {
            self.state = GameState::Won;
        } else if self.lower_card_unplayed(card.number) {
            self.state = GameState::Lost;
        }
        match self.state {
            GameState::Playing => {
                if card.player == Player::Person && self.ws == Channel::Open {
                    Effect::Send(*card)
                } else {
                    Effect::Nothing
                }
            },
            _ => {
                if self.close_ws() {
                    Effect::Close
                } else {
                    Effect::Nothing
                }
            },
        }
    }

    /// Closes the channel if it is open; otherwise does nothing. Tells
    /// whether the caller must close the live connection.
    pub fn close_ws(&mut self) -> (r: bool)
        ensures
            r == (old(self)@.channel == Channel::Open),
            final(self)@ == (HortaView {
                channel: if r {
                    Channel::Closed
                } else {
                    old(self)@.channel
                },
                ..old(self)@
            }),
            old(self).wf() ==> final(self).wf(),
    {
        if self.ws == Channel::Open {
            self.ws = Channel::Closed;
            true
        } else {
            false
        }
    }

    /// Attaches the live channel to a game in progress that has none yet,
    /// and hands back the identifiers that address it.
    pub fn connect_ws(&mut self) -> (r: Option<(u128, u64)>)
        ensures
            old(self)@.state == GameState::Playing && old(self)@.channel == Channel::Detached ==> r
                == Some((old(self)@.uuid, old(self)@.instance)) && final(self)@ == (HortaView {
                channel: Channel::Open,
                ..old(self)@
            }),
            !(old(self)@.state == GameState::Playing && old(self)@.channel == Channel::Detached)
                ==> r is None && final(self)@ == old(self)@,
            old(self).wf() ==> final(self).wf(),
    {
        if self.state == GameState::Playing && self.ws == Channel::Detached {
            self.ws = Channel::Open;
            Some((self.uuid, self.instance))
        } else {
            None
        }
    }

    /// The play message for `card`, if there is an open channel to send it on.
    pub fn send_card(&self, card: &Card) -> (r: Option<Vec<u8>>)
        ensures
            match r {
                Some(b) => self@.channel == Channel::Open && b@ == card_bytes(*card),
                None => self@.channel != Channel::Open,
            },
    {
        if self.ws == Channel::Open {
            Some(encode_card(card))
        } else {
            None
        }
    }

    /// The first unplayed card of `player`, in deck order.
    pub fn next_card(&self, player: Player) -> (r: Option<Card>)
        ensures
            match r {
                Some(c) => exists|i: int|
                    first_unplayed(self@.deck, self@.played, player, i) && c == self@.deck[i],
                None => !has_unplayed(self@.deck, self@.played, player),
            },
    {
        let deck = &self.game.cards;
        let mut i: usize = 0;
        while i < deck.len()
            invariant
                i <= deck@.len(),
                deck@ == self@.deck,
                forall|j: int|
                    0 <= j < i ==> !(deck@[j].player == player && !self@.played.contains(
                        #[trigger] deck@[j],
                    )),
            decreases deck@.len() - i,
        {
            if deck[i].player == player && !contains_card(&self.game.cards_played, &deck[i]) {
                assert(first_unplayed(self@.deck, self@.played, player, i as int));
                return Some(deck[i]);
            }
            i = i + 1;
        }
        None
    }

    /// The position of `card` among the cards of `player`, in deck order.
    pub fn next_card_idx(&self, card: &Card, player: Player) -> (r: Option<usize>)
        ensures
            match r {
                Some(k) => first_in_hand(self@.deck, player, *card, k as int),
                None => !hand(self@.deck, player).contains(*card),
            },
    {
        let deck = &self.game.cards;
        let mut i: usize = 0;
        let mut count: usize = 0;
        proof {
            assert(deck@.take(0) =~= seq![]);
        }
        while i < deck.len()
            invariant
                i <= deck@.len(),
                deck@ == self@.deck,
                count <= i,
                count == hand(deck@.take(i as int), player).len(),
                forall|j: int| 0 <= j < count ==> hand(deck@.take(i as int), player)[j] != *card,
            decreases deck@.len() - i,
        {
            proof {
                assert(deck@.take(i + 1).drop_last() =~= deck@.take(i as int));
                lemma_hand_prefix(deck@, player, i + 1);
            }
            if deck[i].player == player {
                if deck[i] == *card {
                    return Some(count);
                }
                count = count + 1;
            }
            i = i + 1;
        }
        proof {
            assert(deck@.take(i as int) =~= deck@);
        }
        None
    }

    /// Plays the next card of `player`, if the game is on and one is left:
    /// its position in the hand, the card, and what to do on the channel.
    pub fn play_next_card(&mut self, player: Player) -> (r: Option<(usize, Card, Effect)>)
        ensures
            old(self)@.state == GameState::Playing && has_unplayed(
                old(self)@.deck,
                old(self)@.played,
                player,
            ) ==> (r matches Some((k, c, e)) && (exists|i: int|
                first_unplayed(old(self)@.deck, old(self)@.played, player, i)
                    && c == old(self)@.deck[i])
                && first_in_hand(old(self)@.deck, player, c, k as int)
                && e == play_effect(old(self)@, c)
                && final(self)@ == after_play(old(self)@, c)),
            !(old(self)@.state == GameState::Playing && has_unplayed(
                old(self)@.deck,
                old(self)@.played,
                player,
            )) ==> r is None && final(self)@ == old(self)@,
            old(self).wf() ==> final(self).wf(),
    {
        if self.state != GameState::Playing {
            return None;
        }
        match self.next_card(player) {
            None => None,
            Some(card) => {
                proof {
                    let i = choose|i: int|
                        first_unplayed(self@.deck, self@.played, player, i) && card
                            == self@.deck[i];
                    lemma_in_hand(self@.deck, player, i);
                }
                match self.next_card_idx(&card, player) {
                    None => None,
                    Some(k) => {
                        let e = self.card_played(&card);
                        Some((k, card, e))
                    },
                }
            },
        }
    }

    /// Handles an inbound frame: a well-formed play message for the next card
    /// that the computer must play, while the game is on, is played; anything
    /// else (malformed, a person's card, a card outside the deck, played
    /// already or ahead of its turn) is dropped and leaves the session as it was.
    pub fn receive_frame(&mut self, frame: &[u8]) -> (r: Option<(usize, Card, Effect)>)
        ensures
            match parse_card(frame@) {
                Some(c) => if c.player == Player::Computer && takes_effect(
                    old(self)@.deck,
                    old(self)@.played,
                    old(self)@.state,
                    c,
                ) {
                    r matches Some((k, c2, e)) && c2 == c
                        && first_in_hand(old(self)@.deck, Player::Computer, c, k as int)
                        && e == play_effect(old(self)@, c)
                        && final(self)@ == after_play(old(self)@, c)
                } else {
                    r is None && final(self)@ == old(self)@
                },
                None => r is None && final(self)@ == old(self)@,
            },
            old(self).wf() ==> final(self).wf(),
    {
        match decode_card(frame) {
            Err(_) => None,
            Ok(card) => {
                if card.player != Player::Computer || self.state != GameState::Playing
                    || !self.is_next_card(&card) {
                    return None;
                }
                proof {
                    let i = choose|i: int|
                        #[trigger] first_unplayed(self@.deck, self@.played, card.player, i)
                            && self@.deck[i] == card;
                    lemma_in_hand(self@.deck, Player::Computer, i);
                }
                match self.next_card_idx(&card, Player::Computer) {
                    None => None,
                    Some(k) => {
                        let e = self.card_played(&card);
                        Some((k, card, e))
                    },
                }
            },
        }
    }
}

} // verus!
