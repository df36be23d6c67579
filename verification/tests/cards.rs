use ohhell::cards::{Card, Deck};

fn faces(cards: &[Card]) -> Vec<String> {
    cards.iter().map(|c| c.get_facevalue().to_string()).collect()
}

#[test]
fn card_new_and_getters() {
    let c = Card::new(12, "Q", 3);
    assert_eq!(c.get_index(), 12);
    assert_eq!(c.get_suit_int(), 3);
    assert_eq!(c.get_facevalue(), "Q");
    assert_eq!(c.to_string(), "Q");
}

#[test]
fn card_suit_names() {
    assert_eq!(Card::new(1, "A", 1).get_suit(), "hearts");
    assert_eq!(Card::new(1, "A", 2).get_suit(), "diamonds");
    assert_eq!(Card::new(1, "A", 3).get_suit(), "clubs");
    assert_eq!(Card::new(1, "A", 4).get_suit(), "spades");
}

#[test]
fn card_equality_ignores_face_text() {
    assert!(Card::new(5, "5", 2) == Card::new(5, "", 2));
    assert!(Card::new(5, "5", 2) != Card::new(5, "5", 3));
    assert!(Card::new(5, "5", 2) != Card::new(6, "5", 2));
}

#[test]
fn create_52_builds_a_full_deck() {
    let deck = Deck::new(vec![]).create_52();
    assert_eq!(deck.len(), 52);
    let cards = deck.get_cards();
    assert_eq!(cards[0].get_index(), 1);
    assert_eq!(cards[0].get_suit_int(), 1);
    assert_eq!(cards[0].get_facevalue(), "A");
    assert_eq!(cards[9].get_facevalue(), "10");
    assert_eq!(cards[51].get_index(), 13);
    assert_eq!(cards[51].get_suit_int(), 4);
    assert_eq!(cards[51].get_facevalue(), "K");
    for k in 0..52 {
        assert_eq!(cards[k].get_index() as usize, k % 13 + 1);
        assert_eq!(cards[k].get_suit_int() as usize, k / 13 + 1);
        for j in 0..k {
            assert!(cards[j] != cards[k]);
        }
    }
}

#[test]
fn create_52_keeps_cards_already_there() {
    let deck = Deck::new(vec![Card::new(7, "seven", 9)]).create_52();
    assert_eq!(deck.len(), 53);
    assert_eq!(deck.get_cards()[0].get_facevalue(), "seven");
    assert_eq!(deck.get_cards()[1].get_facevalue(), "A");
}

#[test]
fn deck_display_concatenates_faces() {
    let deck = Deck::new(vec![]).create_52();
    let suit = "A2345678910JQK";
    assert_eq!(deck.to_string(), suit.repeat(4));
    assert_eq!(Deck::new(vec![]).to_string(), "");
}

#[test]
fn take_a_card_takes_the_top() {
    let deck = Deck::new(vec![Card::new(1, "A", 1), Card::new(2, "2", 1)]);
    let (card, rest) = deck.take_a_card();
    assert_eq!(card.get_facevalue(), "2");
    assert_eq!(rest.len(), 1);
    assert_eq!(rest.get_cards()[0].get_facevalue(), "A");
}

#[test]
fn take_a_card_undoes_add_card() {
    let deck = Deck::new(vec![Card::new(3, "3", 2)]);
    let (card, rest) = deck.add_card(Card::new(9, "9", 4)).take_a_card();
    assert_eq!(card.get_index(), 9);
    assert_eq!(card.get_suit_int(), 4);
    assert_eq!(faces(&rest.get_cards()), vec!["3"]);
}

#[test]
fn take_card_takes_the_first_match() {
    let deck = Deck::new(vec![
        Card::new(4, "x", 1),
        Card::new(4, "first", 2),
        Card::new(4, "second", 2),
    ]);
    let (card, rest) = deck.take_card(4, 2);
    assert_eq!(card.get_facevalue(), "first");
    assert_eq!(faces(&rest.get_cards()), vec!["x", "second"]);
}

#[test]
fn take_card_from_full_deck() {
    let deck = Deck::new(vec![]).create_52();
    let (card, rest) = deck.take_card(12, 1);
    assert_eq!(card.get_facevalue(), "Q");
    assert_eq!(rest.len(), 51);
    assert!(rest.get_cards().iter().all(|c| *c != card));
}

#[test]
fn shuffle_keeps_the_cards() {
    let deck = Deck::new(vec![]).create_52();
    let shuffled = deck.clone().shuffle();
    assert_eq!(shuffled.len(), 52);
    let mut a: Vec<(i8, i8)> = deck.get_cards().iter().map(|c| (c.get_suit_int(), c.get_index())).collect();
    let mut b: Vec<(i8, i8)> =
        shuffled.get_cards().iter().map(|c| (c.get_suit_int(), c.get_index())).collect();
    a.sort();
    b.sort();
    assert_eq!(a, b);
}

#[test]
fn add_card_puts_on_top() {
    let deck = Deck::new(vec![]).add_card(Card::new(1, "A", 1)).add_card(Card::new(2, "2", 1));
    assert_eq!(deck.len(), 2);
    assert_eq!(faces(&deck.get_cards()), vec!["A", "2"]);
}

#[test]
fn shuffle_moves_cards() {
    let deck = Deck::new(vec![]).create_52();
    let order: Vec<(i8, i8)> = deck.get_cards().iter().map(|c| (c.get_suit_int(), c.get_index())).collect();
    let shuffled: Vec<(i8, i8)> =
        deck.shuffle().get_cards().iter().map(|c| (c.get_suit_int(), c.get_index())).collect();
    assert_ne!(order, shuffled);
}
