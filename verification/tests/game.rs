use ohhell::cards::Card;
use ohhell::ohhell::{Hand, Ohhell, Player, Round, Trick};
use ohhell::rooms::Room;

fn is_v4(u: u128) -> bool {
    (u >> 76) & 0xf == 4 && (u >> 62) & 0x3 == 2
}

#[test]
fn player_new_has_name_no_cards_and_v4_uuid() {
    let p = Player::new("ann".to_string());
    assert_eq!(p.get_name(), "ann");
    assert!(p.get_cards().is_empty());
    assert!(is_v4(p.get_uuid()));
}

#[test]
fn players_equal_only_by_uuid() {
    let a = Player::new("same".to_string());
    let b = Player::new("same".to_string());
    assert!(a != b);
    let a2 = a.clone().add_card(Card::new(1, "A", 1));
    assert!(a == a2);
}

#[test]
fn player_takes_cards() {
    let p = Player::new("p".to_string())
        .add_card(Card::new(1, "A", 1))
        .add_card(Card::new(2, "2", 1))
        .add_card(Card::new(3, "3", 1));
    let (c, p) = p.take_a_card();
    assert_eq!(c.get_index(), 3);
    let (c, p) = p.take_card(1, 1);
    assert_eq!(c.get_facevalue(), "A");
    let rest = p.get_cards();
    assert_eq!(rest.len(), 1);
    assert_eq!(rest[0].get_index(), 2);
}

#[test]
fn set_players_names_seats() {
    let mut g = Ohhell::new();
    g.add_player(Player::new("host".to_string()));
    let n = g.set_players(3).get_players().len();
    assert_eq!(n, 4);
    let names: Vec<String> = g.get_players().iter().map(|p| p.get_name().to_string()).collect();
    assert_eq!(names, vec!["host", "Player 0", "Player 1", "Player 2"]);
    for p in g.get_players() {
        assert!(is_v4(p.get_uuid()));
        assert!(p.get_cards().is_empty());
    }
}

#[test]
fn set_players_gives_distinct_names_for_many() {
    let mut g = Ohhell::new();
    g.set_players(12);
    assert_eq!(g.get_players()[10].get_name(), "Player 10");
    assert_eq!(g.get_players()[11].get_name(), "Player 11");
}

#[test]
fn set_rounds_adds_empty_rounds() {
    let mut g = Ohhell::new();
    g.set_rounds(2);
    g.set_rounds(1);
    assert_eq!(g.get_rounds().len(), 3);
    for r in g.get_rounds() {
        assert_eq!(r.get_hands().len(), 0);
        assert_eq!(r.bet_count(), 0);
    }
}

#[test]
fn set_hands_adds_count_times_index_hands() {
    let mut g = Ohhell::new();
    g.set_rounds(4);
    g.set_hands(3);
    let counts: Vec<usize> = g.get_rounds().iter().map(|r| r.get_hands().len()).collect();
    assert_eq!(counts, vec![0, 3, 6, 0]);
}

#[test]
fn set_hands_with_more_count_than_rounds() {
    let mut g = Ohhell::new();
    g.set_rounds(2);
    g.set_hands(5);
    let counts: Vec<usize> = g.get_rounds().iter().map(|r| r.get_hands().len()).collect();
    assert_eq!(counts, vec![0, 5]);
}

#[test]
fn add_round_and_add_hands() {
    let mut g = Ohhell::new();
    let mut r = Round::new();
    r.add_hands(2);
    let n = r.add_hands(3).get_hands().len();
    assert_eq!(n, 5);
    g.add_round(r);
    assert_eq!(g.get_rounds()[0].get_hands().len(), 5);
    for h in g.get_rounds()[0].get_hands() {
        assert!(h.get_winner().is_none());
        assert!(h.get_pile().is_empty());
    }
}

#[test]
fn set_winners_without_bets_changes_nothing() {
    let mut r = Round::new();
    r.add_hands(1);
    let r = r.set_winners(vec![Player::new("w".to_string())]);
    assert_eq!(r.bet_count(), 0);
    assert_eq!(r.get_hands().len(), 1);
}

#[test]
fn hand_collects_cards_and_winner() {
    let p = Player::new("w".to_string());
    let h = Hand::new().add_card(Card::new(1, "A", 1)).add_card(Card::new(5, "5", 2)).set_winner(p.clone());
    assert_eq!(h.get_pile().len(), 2);
    assert_eq!(h.get_pile()[1].get_index(), 5);
    assert!(h.get_winner() == Some(&p));
}

#[test]
fn tricks_equal_only_by_uuid() {
    let p = Player::new("p".to_string());
    let a = Trick::new(p.clone(), 2);
    let b = Trick::new(p, 2);
    assert!(a != b);
    assert!(a == a.clone());
}

#[test]
fn room_new_is_empty_with_v4_uuid() {
    let r = Room::new();
    assert!(is_v4(r.get_uuid()));
    assert_eq!(r.game.get_players().len(), 0);
    assert_eq!(r.game.get_rounds().len(), 0);
    assert!(Room::new().get_uuid() != r.get_uuid());
}
