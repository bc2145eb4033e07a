//! The wire format: a play message is one card, a handshake is the session's
//! identifiers followed by the dealt deck. Integers are little-endian.
use vstd::prelude::*;
use vstd::arithmetic::div_mod::lemma_fundamental_div_mod_converse;

use crate::card::{Card, Player};
use crate::error::HortaError;

verus! {

/// `256` raised to `n`: one more than the largest value that `n` bytes hold.
pub open spec fn span(n: nat) -> nat
    decreases n,
{
    if n == 0 {
        1
    } else {
        256 * span((n - 1) as nat)
    }
}

/// The unsigned value of little-endian bytes.
pub open spec fn le_value(b: Seq<u8>) -> nat
    decreases b.len(),
{
    if b.len() == 0 {
        0
    } else {
        b[0] as nat + 256 * le_value(b.drop_first())
    }
}

/// The `n` low bytes of `x`, least significant first.
pub open spec fn le_bytes(x: nat, n: nat) -> Seq<u8>
    decreases n,
{
    if n == 0 {
        seq![]
    } else {
        seq![(x % 256) as u8] + le_bytes(x / 256, (n - 1) as nat)
    }
}

/// The tag byte that stands for an owner on the wire.
pub open spec fn owner_tag(p: Player) -> u8 {
    match p {
        Player::Computer => 0,
        Player::Person => 1,
    }
}

/// A play message: the owner's tag, then the rank.
pub open spec fn card_bytes(c: Card) -> Seq<u8> {
    seq![owner_tag(c.player), c.number]
}

/// The card that a play message holds, if it is well formed.
pub open spec fn parse_card(b: Seq<u8>) -> Option<Card> {
    if b.len() == 2 && b[0] == 0 {
        Some(Card { player: Player::Computer, number: b[1] })
    } else if b.len() == 2 && b[0] == 1 {
        Some(Card { player: Player::Person, number: b[1] })
    } else {
        None
    }
}

/// The cards of a deck, one play message after another.
pub open spec fn deck_bytes(cards: Seq<Card>) -> Seq<u8>
    decreases cards.len(),
{
    if cards.len() == 0 {
        seq![]
    } else {
        card_bytes(cards[0]) + deck_bytes(cards.drop_first())
    }
}

/// The cards that a run of play messages holds, if each is well formed.
pub open spec fn parse_deck(b: Seq<u8>) -> Option<Seq<Card>>
    decreases b.len(),
{
    if b.len() == 0 {
        Some(seq![])
    } else if b.len() < 2 {
        None
    } else {
        match (parse_card(b.take(2)), parse_deck(b.skip(2))) {
            (Some(c), Some(rest)) => Some(seq![c] + rest),
            _ => None,
        }
    }
}

/// A handshake: pairing id (16 bytes), instance id (8 bytes), number of
/// cards (8 bytes), then the cards.
pub open spec fn handshake_bytes(uuid: u128, instance: u64, cards: Seq<Card>) -> Seq<u8> {
    le_bytes(uuid as nat, 16) + le_bytes(instance as nat, 8) + le_bytes(cards.len(), 8)
        + deck_bytes(cards)
}

/// What a handshake holds, if it is well formed: the count must match the
/// bytes that follow it exactly.
pub open spec fn parse_handshake(b: Seq<u8>) -> Option<(u128, u64, Seq<Card>)> {
    if b.len() < 32 || b.len() - 32 != 2 * le_value(b.subrange(24, 32)) {
        None
    } else {
        match parse_deck(b.skip(32)) {
            Some(cards) => Some(
                (le_value(b.take(16)) as u128, le_value(b.subrange(16, 24)) as u64, cards),
            ),
            None => None,
        }
    }
}

pub proof fn lemma_le_bytes_len(x: nat, n: nat)
    ensures
        le_bytes(x, n).len() == n,
    decreases n,
{
    if n > 0 {
        lemma_le_bytes_len(x / 256, (n - 1) as nat);
    }
}

pub proof fn lemma_le_value_bound(b: Seq<u8>)
    ensures
        le_value(b) < span(b.len()),
    decreases b.len(),
{
    if b.len() > 0 {
        let r = b.drop_first();
        lemma_le_value_bound(r);
        let v = le_value(r);
        let s = span(r.len());
        assert(b[0] as nat + 256 * v < 256 * s) by (nonlinear_arith)
            requires
                v < s,
                b[0] < 256,
        ;
    }
}

pub proof fn lemma_span_16()
    ensures
        span(16) == 0x1_0000_0000_0000_0000_0000_0000_0000_0000,
        span(8) == 0x1_0000_0000_0000_0000,
{
    reveal_with_fuel(span, 17);
}

/// Reading back `n` bytes written from a value that fits in them gives the value.
pub proof fn lemma_le_round_trip(x: nat, n: nat)
    requires
        x < span(n),
    ensures
        le_value(le_bytes(x, n)) == x,
        le_bytes(x, n).len() == n,
    decreases n,
{
    lemma_le_bytes_len(x, n);
    if n > 0 {
        let m = (n - 1) as nat;
        let s = span(m);
        assert(x / 256 < s) by (nonlinear_arith)
            requires
                x < 256 * s,
        ;
        lemma_le_round_trip(x / 256, m);
        let b = le_bytes(x, n);
        assert(b.drop_first() =~= le_bytes(x / 256, m));
        assert(x == x % 256 + 256 * (x / 256)) by (nonlinear_arith);
    } else {
        assert(x == 0) by {
            reveal_with_fuel(span, 1);
        }
    }
}

/// Writing back the value of some bytes, in as many bytes, gives them again.
pub proof fn lemma_le_bytes_of_value(b: Seq<u8>)
    ensures
        le_bytes(le_value(b), b.len()) == b,
    decreases b.len(),
{
    if b.len() > 0 {
        let r = b.drop_first();
        lemma_le_bytes_of_value(r);
        let x = le_value(b);
        lemma_fundamental_div_mod_converse(x as int, 256, le_value(r) as int, b[0] as int);
        assert(le_bytes(x, b.len()) =~= b);
    } else {
        assert(le_bytes(le_value(b), 0) =~= b);
    }
}

/// Appends the `n` low bytes of `x`, least significant first.
fn push_le(out: &mut Vec<u8>, x: u128, n: usize)
    ensures
        final(out)@ == old(out)@ + le_bytes(x as nat, n as nat),
{
    let mut v: u128 = x;
    let mut i: usize = 0;
    assert(old(out)@ =~= old(out)@ + seq![]);
    while i < n
        invariant
            i <= n,
            out@ + le_bytes(v as nat, (n - i) as nat) == old(out)@ + le_bytes(x as nat, n as nat),
        decreases n - i,
    {
        let ghost prev = out@;
        out.push((v % 256) as u8);
        assert(le_bytes(v as nat, (n - i) as nat) == seq![(v % 256) as u8] + le_bytes(
            (v / 256) as nat,
            (n - i - 1) as nat,
        ));
        assert(out@ + le_bytes((v / 256) as nat, (n - i - 1) as nat) =~= prev + le_bytes(
            v as nat,
            (n - i) as nat,
        ));
        v = v / 256;
        i = i + 1;
    }
    assert(le_bytes(v as nat, 0) =~= seq![]);
    assert(out@ =~= out@ + le_bytes(v as nat, 0));
}

/// Reads the little-endian value of `b[start..start + n]`.
fn read_le(b: &[u8], start: usize, n: usize) -> (r: u128)
    requires
        start + n <= b@.len(),
        n <= 16,
    ensures
        r as nat == le_value(b@.subrange(start as int, start + n)),
{
    let len = b.len();
    assert(start + n <= len);
    let end = start + n;
    let mut v: u128 = 0;
    let mut k: usize = 0;
    assert(b@.subrange(end as int, end as int) =~= seq![]);
    while k < n
        invariant
            k <= n,
            end == start + n,
            end <= b@.len(),
            n <= 16,
            v as nat == le_value(b@.subrange(end - k, end as int)),
        decreases n - k,
    {
        let j = end - k - 1;
        proof {
            let tail = b@.subrange(j + 1, end as int);
            let whole = b@.subrange(j as int, end as int);
            assert(whole.drop_first() =~= tail);
            lemma_le_value_bound(tail);
            lemma_le_value_bound(whole);
            lemma_span_mono(whole.len(), 16);
            lemma_span_16();
            assert(le_value(whole) == b[j as int] as nat + 256 * le_value(tail));
        }
        v = b[j] as u128 + 256 * v;
        k = k + 1;
    }
    v
}

pub proof fn lemma_span_mono(a: nat, b: nat)
    requires
        a <= b,
    ensures
        span(a) <= span(b),
    decreases b,
{
    if a < b {
        lemma_span_mono(a, (b - 1) as nat);
    }
}

/// Encodes a play message.
pub fn encode_card(card: &Card) -> (r: Vec<u8>)
    ensures
        r@ == card_bytes(*card),
{
    let mut out: Vec<u8> = Vec::new();
    push_card(&mut out, card);
    assert(out@ =~= card_bytes(*card));
    out
}

fn push_card(out: &mut Vec<u8>, card: &Card)
    ensures
        final(out)@ == old(out)@ + card_bytes(*card),
{
    let tag: u8 = match card.player {
        Player::Computer => 0,
        Player::Person => 1,
    };
    out.push(tag);
    out.push(card.number);
    assert(final(out)@ =~= old(out)@ + card_bytes(*card));
}

/// Decodes a play message: exactly two bytes, the first a known owner tag.
pub fn decode_card(b: &[u8]) -> (r: Result<Card, HortaError>)
    ensures
        match r {
            Ok(c) => parse_card(b@) == Some(c),
            Err(e) => parse_card(b@) is None && e == HortaError::MalformedFrame,
        },
{
    if b.len() != 2 {
        return Err(HortaError::MalformedFrame);
    }
    if b[0] == 0 {
        Ok(Card { player: Player::Computer, number: b[1] })
    } else if b[0] == 1 {
        Ok(Card { player: Player::Person, number: b[1] })
    } else {
        Err(HortaError::MalformedFrame)
    }
}

/// What a handshake carries: the session's identifiers and the dealt deck.
pub struct Handshake {
    pub uuid: u128,
    pub instance: u64,
    pub cards: Vec<Card>,
}

/// Encodes a handshake.
pub fn encode_handshake(uuid: u128, instance: u64, cards: &Vec<Card>) -> (r: Vec<u8>)
    ensures
        r@ == handshake_bytes(uuid, instance, cards@),
{
    let mut out: Vec<u8> = Vec::new();
    push_le(&mut out, uuid, 16);
    push_le(&mut out, instance as u128, 8);
    push_le(&mut out, cards.len() as u128, 8);
    let ghost head = out@;
    let mut i: usize = 0;
    proof {
        assert(cards@.skip(0) =~= cards@);
        assert(head =~= head + seq![]);
    }
    while i < cards.len()
        invariant
            i <= cards@.len(),
            out@ + deck_bytes(cards@.skip(i as int)) == head + deck_bytes(cards@),
        decreases cards@.len() - i,
    {
        let ghost prev = out@;
        push_card(&mut out, &cards[i]);
        proof {
            let rest = cards@.skip(i as int);
            assert(rest.drop_first() =~= cards@.skip(i + 1));
            assert(out@ + deck_bytes(cards@.skip(i + 1)) =~= prev + deck_bytes(rest));
        }
        i = i + 1;
    }
    proof {
        assert(cards@.skip(i as int) =~= seq![]);
        assert(out@ =~= out@ + deck_bytes(cards@.skip(i as int)));
        assert(head + deck_bytes(cards@) =~= handshake_bytes(uuid, instance, cards@));
    }
    out
}

/// Decodes a handshake; any flaw in it makes the deal unavailable.
pub fn decode_handshake(b: &[u8]) -> (r: Result<Handshake, HortaError>)
    ensures
        match r {
            Ok(h) => parse_handshake(b@) == Some((h.uuid, h.instance, h.cards@)),
            Err(e) => parse_handshake(b@) is None && e == HortaError::DealUnavailable,
        },
{
    let len = b.len();
    if len < 32 {
        return Err(HortaError::DealUnavailable);
    }
    let count = read_le(b, 24, 8);
    proof {
        lemma_le_value_bound(b@.subrange(24, 32));
        lemma_span_16();
    }
    if (len - 32) as u128 != 2 * count {
        return Err(HortaError::DealUnavailable);
    }
    let uuid = read_le(b, 0, 16);
    let wide = read_le(b, 16, 8);
    proof {
        lemma_le_value_bound(b@.subrange(16, 24));
        lemma_span_16();
        assert(b@.subrange(0, 16) =~= b@.take(16));
    }
    let mut cards: Vec<Card> = Vec::new();
    let mut pos: usize = 32;
    proof {
        assert(cards@ + seq![] =~= cards@);
    }
    while pos < len
        invariant
            len == b@.len(),
            32 <= pos <= len,
            (len - pos) % 2 == 0,
            parse_deck(b@.skip(32)) == (match parse_deck(b@.skip(pos as int)) {
                Some(rest) => Some(cards@ + rest),
                None => None::<Seq<Card>>,
            }),
        decreases len - pos,
    {
        let ghost here = b@.skip(pos as int);
        proof {
            assert(here.take(2) =~= b@.subrange(pos as int, pos + 2));
            assert(here.skip(2) =~= b@.skip(pos + 2));
        }
        let tag = b[pos];
        let number = b[pos + 1];
        let card = if tag == 0 {
            Card { player: Player::Computer, number }
        } else if tag == 1 {
            Card { player: Player::Person, number }
        } else {
            return Err(HortaError::DealUnavailable);
        };
        assert(parse_card(here.take(2)) == Some(card));
        let ghost before = cards@;
        cards.push(card);
        proof {
            match parse_deck(b@.skip(pos + 2)) {
                Some(rest) => {
                    assert(before + (seq![card] + rest) =~= cards@ + rest);
                },
                None => {},
            }
        }
        pos = pos + 2;
    }
    proof {
        assert(b@.skip(pos as int) =~= seq![]);
        assert(cards@ + seq![] =~= cards@);
    }
    Ok(Handshake { uuid, instance: wide as u64, cards })
}

/// A play message reads back as the card it was made from.
pub proof fn lemma_card_round_trip(c: Card)
    ensures
        parse_card(card_bytes(c)) == Some(c),
{
}

/// A well-formed play message is exactly the encoding of the card it holds.
pub proof fn lemma_card_bytes_canonical(b: Seq<u8>)
    requires
        parse_card(b) is Some,
    ensures
        card_bytes(parse_card(b)->Some_0) == b,
{
    assert(card_bytes(parse_card(b)->Some_0) =~= b);
}

pub proof fn lemma_deck_round_trip(cards: Seq<Card>)
    ensures
        parse_deck(deck_bytes(cards)) == Some(cards),
        deck_bytes(cards).len() == 2 * cards.len(),
    decreases cards.len(),
{
    if cards.len() > 0 {
        let rest = cards.drop_first();
        lemma_deck_round_trip(rest);
        let b = deck_bytes(cards);
        assert(b.take(2) =~= card_bytes(cards[0]));
        assert(b.skip(2) =~= deck_bytes(rest));
        assert(seq![cards[0]] + rest =~= cards);
    }
}

/// A handshake reads back as the identifiers and deck it was made from,
/// for every deck whose size fits the count field.
pub proof fn lemma_handshake_round_trip(uuid: u128, instance: u64, cards: Seq<Card>)
    requires
        cards.len() < span(8),
    ensures
        parse_handshake(handshake_bytes(uuid, instance, cards)) == Some((uuid, instance, cards)),
{
    lemma_span_16();
    lemma_le_round_trip(uuid as nat, 16);
    lemma_le_round_trip(instance as nat, 8);
    lemma_le_round_trip(cards.len(), 8);
    lemma_deck_round_trip(cards);
    let b = handshake_bytes(uuid, instance, cards);
    assert(b.take(16) =~= le_bytes(uuid as nat, 16));
    assert(b.subrange(16, 24) =~= le_bytes(instance as nat, 8));
    assert(b.subrange(24, 32) =~= le_bytes(cards.len(), 8));
    assert(b.skip(32) =~= deck_bytes(cards));
}

pub proof fn lemma_deck_bytes_canonical(b: Seq<u8>)
    requires
        parse_deck(b) is Some,
    ensures
        deck_bytes(parse_deck(b)->Some_0) == b,
        parse_deck(b)->Some_0.len() * 2 == b.len(),
    decreases b.len(),
{
    if b.len() > 0 {
        let rest = b.skip(2);
        lemma_deck_bytes_canonical(rest);
        lemma_card_bytes_canonical(b.take(2));
        let cards = parse_deck(b)->Some_0;
        assert(cards.drop_first() =~= parse_deck(rest)->Some_0);
        assert(deck_bytes(cards) =~= b);
    }
}

/// A well-formed handshake is exactly the encoding of what it holds.
pub proof fn lemma_handshake_bytes_canonical(b: Seq<u8>)
    requires
        parse_handshake(b) is Some,
    ensures
        ({
            let (uuid, instance, cards) = parse_handshake(b)->Some_0;
            handshake_bytes(uuid, instance, cards) == b
        }),
{
    let (uuid, instance, cards) = parse_handshake(b)->Some_0;
    lemma_span_16();
    lemma_le_value_bound(b.take(16));
    lemma_le_value_bound(b.subrange(16, 24));
    lemma_le_bytes_of_value(b.take(16));
    lemma_le_bytes_of_value(b.subrange(16, 24));
    lemma_le_bytes_of_value(b.subrange(24, 32));
    lemma_deck_bytes_canonical(b.skip(32));
    assert(handshake_bytes(uuid, instance, cards) =~= b);
}

} // verus!
