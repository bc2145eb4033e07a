use horta::card::{Card, Player};
use horta::codec::{decode_card, decode_handshake, encode_card, encode_handshake};
use horta::error::HortaError;
use horta::rules::GameState;
use horta::session::{Channel, Effect, Horta};

fn person(n: u8) -> Card {
    Card::new(Player::Person, n)
}

fn computer(n: u8) -> Card {
    Card::new(Player::Computer, n)
}

fn started(cards: Vec<Card>) -> Horta {
    let mut h = Horta::new(7, 9, cards);
    assert_eq!(h.connect_ws(), Some((7, 9)));
    h
}

#[test]
fn lower_card_left_unplayed_loses() {
    let mut h = started(vec![person(3), computer(5), person(7), computer(2)]);
    assert_eq!(h.card_played(&person(3)), Effect::Close);
    assert_eq!(h.state(), GameState::Lost);
    assert_eq!(h.channel(), Channel::Closed);
}

#[test]
fn four_card_deck_person_three_then_computer_two() {
    let mut h = started(vec![person(3), computer(5), person(7), computer(2)]);
    // Computer:2 is unplayed and lower than 3: the bust rule spans both owners.
    h.card_played(&person(3));
    assert_eq!(h.state(), GameState::Lost);
    h.card_played(&computer(2));
    assert_eq!(h.state(), GameState::Lost);
    assert_eq!(h.cards_played(), &vec![person(3)]);
}

#[test]
fn ascending_deck_computer_nine_loses_to_unplayed_seven() {
    let mut h = started(vec![person(3), computer(5), person(7), computer(9)]);
    assert_eq!(h.card_played(&person(3)), Effect::Send(person(3)));
    assert_eq!(h.state(), GameState::Playing);
    assert_eq!(h.card_played(&computer(5)), Effect::Nothing);
    assert_eq!(h.state(), GameState::Playing);
    assert_eq!(h.card_played(&computer(9)), Effect::Close);
    assert_eq!(h.state(), GameState::Lost);
    assert_eq!(h.channel(), Channel::Closed);
}

#[test]
fn two_card_deck_is_won() {
    let mut h = started(vec![person(1), computer(2)]);
    assert_eq!(h.card_played(&person(1)), Effect::Send(person(1)));
    assert_eq!(h.state(), GameState::Playing);
    assert_eq!(h.card_played(&computer(2)), Effect::Close);
    assert_eq!(h.state(), GameState::Won);
    assert_eq!(h.cards_played(), h.cards());
    assert_eq!(h.channel(), Channel::Closed);
}

#[test]
fn empty_frame_is_dropped() {
    let mut h = started(vec![person(1), computer(2)]);
    h.card_played(&person(1));
    assert_eq!(h.receive_frame(&[]), None);
    assert_eq!(h.state(), GameState::Playing);
    assert_eq!(h.cards_played(), &vec![person(1)]);
    assert_eq!(h.channel(), Channel::Open);
}

#[test]
fn frame_with_unknown_tag_is_dropped() {
    let mut h = started(vec![person(1), computer(2)]);
    assert_eq!(h.receive_frame(&[2, 2]), None);
    assert_eq!(h.receive_frame(&[0, 2, 0]), None);
    assert!(h.cards_played().is_empty());
}

#[test]
fn frame_for_card_of_computer_is_played() {
    let mut h = started(vec![person(1), computer(2), computer(4)]);
    h.card_played(&person(1));
    assert_eq!(h.receive_frame(&[0, 2]), Some((0, computer(2), Effect::Nothing)));
    assert_eq!(h.receive_frame(&[0, 4]), Some((1, computer(4), Effect::Close)));
    assert_eq!(h.state(), GameState::Won);
}

#[test]
fn frame_for_card_of_person_is_dropped() {
    let mut h = started(vec![person(1), computer(2)]);
    assert_eq!(h.receive_frame(&[1, 1]), None);
    assert!(h.cards_played().is_empty());
}

#[test]
fn card_outside_deck_changes_nothing() {
    let mut h = started(vec![person(1), computer(2)]);
    assert_eq!(h.card_played(&person(5)), Effect::Nothing);
    assert!(h.cards_played().is_empty());
    assert_eq!(h.state(), GameState::Playing);
    h.card_played(&person(1));
    assert_eq!(h.card_played(&computer(1)), Effect::Nothing);
    assert_eq!(h.cards_played(), &vec![person(1)]);
    assert_eq!(h.state(), GameState::Playing);
}

#[test]
fn lost_game_stays_lost() {
    let mut h = started(vec![person(4), computer(2)]);
    h.card_played(&person(4));
    assert_eq!(h.state(), GameState::Lost);
    assert_eq!(h.card_played(&computer(2)), Effect::Nothing);
    assert_eq!(h.state(), GameState::Lost);
    assert_eq!(h.cards_played(), &vec![person(4)]);
}

#[test]
fn clean_run_in_rank_order_wins() {
    let deck = vec![computer(1), person(2), person(5), computer(6), person(8)];
    let mut h = started(deck.clone());
    for c in [computer(1), person(2), person(5), computer(6)] {
        h.card_played(&c);
        assert_eq!(h.state(), GameState::Playing);
    }
    h.card_played(&person(8));
    assert_eq!(h.state(), GameState::Won);
}

#[test]
fn person_plays_are_not_sent_without_channel() {
    let mut h = Horta::new(1, 2, vec![person(1), computer(2)]);
    assert_eq!(h.card_played(&person(1)), Effect::Nothing);
    assert_eq!(h.card_played(&computer(2)), Effect::Nothing);
    assert_eq!(h.state(), GameState::Won);
    assert_eq!(h.channel(), Channel::Detached);
    assert_eq!(h.connect_ws(), None);
}

#[test]
fn close_is_idempotent() {
    let mut h = Horta::new(1, 2, vec![person(1)]);
    assert!(!h.close_ws());
    assert_eq!(h.channel(), Channel::Detached);
    h.connect_ws();
    assert!(h.close_ws());
    assert!(!h.close_ws());
    assert_eq!(h.channel(), Channel::Closed);
}

#[test]
fn send_card_needs_open_channel() {
    let mut h = Horta::new(1, 2, vec![person(1)]);
    assert_eq!(h.send_card(&person(1)), None);
    h.connect_ws();
    assert_eq!(h.send_card(&person(1)), Some(vec![1, 1]));
}

#[test]
fn next_card_follows_deck_order() {
    let mut h = started(vec![computer(1), person(2), computer(3), person(4)]);
    assert_eq!(h.next_card(Player::Person), Some(person(2)));
    assert_eq!(h.next_card(Player::Computer), Some(computer(1)));
    h.card_played(&computer(1));
    h.card_played(&person(2));
    assert_eq!(h.next_card(Player::Computer), Some(computer(3)));
    assert_eq!(h.next_card(Player::Person), Some(person(4)));
    h.card_played(&person(4));
    assert_eq!(h.next_card(Player::Person), None);
}

#[test]
fn next_card_idx_counts_within_hand() {
    let h = Horta::new(1, 2, vec![computer(1), person(2), computer(3), person(4)]);
    assert_eq!(h.next_card_idx(&person(4), Player::Person), Some(1));
    assert_eq!(h.next_card_idx(&computer(3), Player::Computer), Some(1));
    assert_eq!(h.next_card_idx(&person(4), Player::Computer), None);
    assert_eq!(h.next_card_idx(&person(9), Player::Person), None);
}

#[test]
fn play_next_card_plays_first_unplayed() {
    let mut h = started(vec![computer(3), person(1), person(2)]);
    assert_eq!(h.play_next_card(Player::Person), Some((0, person(1), Effect::Send(person(1)))));
    assert_eq!(h.play_next_card(Player::Person), Some((1, person(2), Effect::Send(person(2)))));
    assert_eq!(h.play_next_card(Player::Person), None);
    assert_eq!(h.play_next_card(Player::Computer), Some((0, computer(3), Effect::Close)));
    assert_eq!(h.state(), GameState::Won);
}

#[test]
fn card_encoding_is_tag_then_rank() {
    assert_eq!(encode_card(&computer(5)), vec![0, 5]);
    assert_eq!(encode_card(&person(200)), vec![1, 200]);
}

#[test]
fn card_round_trip() {
    for c in [computer(0), computer(255), person(7)] {
        assert_eq!(decode_card(&encode_card(&c)), Ok(c));
    }
}

#[test]
fn malformed_cards_are_refused() {
    assert_eq!(decode_card(&[]), Err(HortaError::MalformedFrame));
    assert_eq!(decode_card(&[1]), Err(HortaError::MalformedFrame));
    assert_eq!(decode_card(&[3, 1]), Err(HortaError::MalformedFrame));
    assert_eq!(decode_card(&[1, 1, 1]), Err(HortaError::MalformedFrame));
}

#[test]
fn handshake_layout() {
    let b = encode_handshake(0x0102, 3, &vec![person(4), computer(5)]);
    let mut want: Vec<u8> = vec![0x02, 0x01];
    want.extend(vec![0; 14]);
    want.extend(vec![3, 0, 0, 0, 0, 0, 0, 0]);
    want.extend(vec![2, 0, 0, 0, 0, 0, 0, 0]);
    want.extend(vec![1, 4, 0, 5]);
    assert_eq!(b, want);
}

#[test]
fn handshake_round_trip() {
    let cards = vec![person(3), computer(5), person(7), computer(2)];
    let b = encode_handshake(u128::MAX - 5, u64::MAX, &cards);
    let h = decode_handshake(&b).unwrap();
    assert_eq!(h.uuid, u128::MAX - 5);
    assert_eq!(h.instance, u64::MAX);
    assert_eq!(h.cards, cards);
    assert_eq!(encode_handshake(h.uuid, h.instance, &h.cards), b);
}

#[test]
fn empty_deck_handshake_round_trip() {
    let b = encode_handshake(0, 0, &vec![]);
    assert_eq!(b.len(), 32);
    let h = decode_handshake(&b).unwrap();
    assert!(h.cards.is_empty());
}

#[test]
fn bad_handshakes_make_deal_unavailable() {
    assert!(matches!(decode_handshake(&[]), Err(HortaError::DealUnavailable)));
    let good = encode_handshake(1, 2, &vec![person(1)]);
    assert!(matches!(decode_handshake(&good[..good.len() - 1]), Err(HortaError::DealUnavailable)));
    let mut extra = good.clone();
    extra.extend(vec![0, 1]);
    assert!(matches!(decode_handshake(&extra), Err(HortaError::DealUnavailable)));
    let mut bad_tag = good.clone();
    bad_tag[32] = 9;
    assert!(matches!(decode_handshake(&bad_tag), Err(HortaError::DealUnavailable)));
}

#[test]
fn session_from_handshake() {
    let b = encode_handshake(11, 12, &vec![person(1), computer(2)]);
    let h = Horta::from_handshake(&b).unwrap();
    assert_eq!(h.uuid(), 11);
    assert_eq!(h.instance(), 12);
    assert_eq!(h.cards(), &vec![person(1), computer(2)]);
    assert!(h.cards_played().is_empty());
    assert_eq!(h.state(), GameState::Playing);
    assert_eq!(h.channel(), Channel::Detached);
    assert!(matches!(Horta::from_handshake(&b[..10]), Err(HortaError::DealUnavailable)));
}

#[test]
fn repeated_frame_is_dropped() {
    let mut h = started(vec![person(1), computer(2), computer(3)]);
    h.card_played(&person(1));
    assert_eq!(h.receive_frame(&[0, 2]), Some((0, computer(2), Effect::Nothing)));
    assert_eq!(h.receive_frame(&[0, 2]), None);
    assert_eq!(h.cards_played(), &vec![person(1), computer(2)]);
    assert_eq!(h.state(), GameState::Playing);
    assert_eq!(h.channel(), Channel::Open);
}

#[test]
fn frame_ahead_of_turn_is_dropped() {
    let mut h = started(vec![computer(5), computer(2), person(9)]);
    assert_eq!(h.receive_frame(&[0, 2]), None);
    assert!(h.cards_played().is_empty());
    assert_eq!(h.state(), GameState::Playing);
    assert_eq!(h.receive_frame(&[0, 5]), Some((0, computer(5), Effect::Close)));
    assert_eq!(h.state(), GameState::Lost);
}

#[test]
fn card_played_ignores_repeats_and_skips() {
    let mut h = started(vec![person(1), person(4), computer(6)]);
    assert_eq!(h.card_played(&person(4)), Effect::Nothing);
    assert!(h.cards_played().is_empty());
    assert_eq!(h.card_played(&person(1)), Effect::Send(person(1)));
    assert_eq!(h.card_played(&person(1)), Effect::Nothing);
    assert_eq!(h.cards_played(), &vec![person(1)]);
    assert_eq!(h.state(), GameState::Playing);
}

#[test]
fn frames_after_game_over_are_dropped() {
    let mut h = started(vec![person(4), computer(2)]);
    h.card_played(&person(4));
    assert_eq!(h.state(), GameState::Lost);
    assert_eq!(h.receive_frame(&[0, 2]), None);
    assert_eq!(h.play_next_card(Player::Person), None);
    assert_eq!(h.cards_played(), &vec![person(4)]);
}
