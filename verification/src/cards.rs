use vstd::prelude::*;

use rand::seq::SliceRandom;

verus! {

/// A playing card: a rank index (1 = ace ... 13 = king), the text shown for
/// it, and a suit number (1 hearts, 2 diamonds, 3 clubs, 4 spades).
#[derive(Hash, Debug, Clone, Copy)]
pub struct Card {
    index: i8,
    facevalue: &'static str,
    suit: i8,
}

/// The name of a suit number, as `Card::get_suit` gives it.
pub open spec fn suit_name(suit: int) -> Seq<char> {
    if suit == 1 {
        "hearts"@
    } else if suit == 2 {
        "diamonds"@
    } else if suit == 3 {
        "clubs"@
    } else {
        "spades"@
    }
}

/// The text of a rank in a standard deck: "A", "2" ... "10", "J", "Q", "K".
pub open spec fn face_text(index: int) -> Seq<char> {
    if index == 1 {
        "A"@
    } else if index == 2 {
        "2"@
    } else if index == 3 {
        "3"@
    } else if index == 4 {
        "4"@
    } else if index == 5 {
        "5"@
    } else if index == 6 {
        "6"@
    } else if index == 7 {
        "7"@
    } else if index == 8 {
        "8"@
    } else if index == 9 {
        "9"@
    } else if index == 10 {
        "10"@
    } else if index == 11 {
        "J"@
    } else if index == 12 {
        "Q"@
    } else {
        "K"@
    }
}

/// Whether a card has the given rank index and suit: the card equality of
/// this library, which does not look at the face text.
pub open spec fn same_card(c: Card, index: i8, suit: i8) -> bool {
    c.index_spec() == index && c.suit_spec() == suit
}

/// The `k`-th card (0 <= k < 52) that `Deck::create_52` adds: suits in the
/// order 1..=4, and within a suit the ranks 1..=13.
pub open spec fn is_standard_card(c: Card, k: int) -> bool {
    &&& c.index_spec() == k % 13 + 1
    &&& c.suit_spec() == k / 13 + 1
    &&& c.face_spec() == face_text(k % 13 + 1)
}

/// The face texts of the cards, one after the other.
pub open spec fn faces_concat(cards: Seq<Card>) -> Seq<char>
    decreases cards.len(),
{
    if cards.len() == 0 {
        Seq::empty()
    } else {
        faces_concat(cards.drop_last()) + cards.last().face_spec()
    }
}

impl Card {
    /// The rank index of the card.
    pub closed spec fn index_spec(self) -> i8 {
        self.index
    }

    /// The suit number of the card.
    pub closed spec fn suit_spec(self) -> i8 {
        self.suit
    }

    /// The text shown for the card.
    pub closed spec fn face_spec(self) -> Seq<char> {
        self.facevalue@
    }

    pub fn new(index: i8, string: &'static str, suit: i8) -> (c: Card)
        ensures
            c.index_spec() == index,
            c.suit_spec() == suit,
            c.face_spec() == string@,
    {
        Card { index: index, facevalue: string, suit: suit }
    }

    pub fn get_facevalue(&self) -> (s: &str)
        ensures
            s@ == self.face_spec(),
    {
        self.facevalue
    }

    /// The name of the card's suit; the suit must be one of 1..=4.
    pub fn get_suit(&self) -> (s: String)
        requires
            1 <= self.suit_spec() <= 4,
        ensures
            s@ == suit_name(self.suit_spec() as int),
    {
        if self.suit == 1 {
            "hearts".to_owned()
        } else if self.suit == 2 {
            "diamonds".to_owned()
        } else if self.suit == 3 {
            "clubs".to_owned()
        } else {
            "spades".to_owned()
        }
    }

    pub fn get_index(&self) -> (i: i8)
        ensures
            i == self.index_spec(),
    {
        self.index
    }

    pub fn get_suit_int(&self) -> (s: i8)
        ensures
            s == self.suit_spec(),
    {
        self.suit
    }

    /// The text shown for the card, as its display form.
    pub fn to_string(&self) -> (s: String)
        ensures
            s@ == self.face_spec(),
    {
        self.facevalue.to_owned()
    }
}

impl PartialEq for Card {
    fn eq(&self, other: &Self) -> (r: bool) {
        self.index == other.index && self.suit == other.suit
    }
}

impl vstd::std_specs::cmp::PartialEqSpecImpl for Card {
    open spec fn obeys_eq_spec() -> bool {
        true
    }

    open spec fn eq_spec(&self, other: &Card) -> bool {
        same_card(*self, other.index_spec(), other.suit_spec())
    }
}

impl Eq for Card {

}

/// The face text of a rank in a standard deck.
fn facevalue_of(index: i8) -> (s: &'static str)
    requires
        1 <= index <= 13,
    ensures
        s@ == face_text(index as int),
{
    if index == 1 {
        "A"
    } else if index == 2 {
        "2"
    } else if index == 3 {
        "3"
    } else if index == 4 {
        "4"
    } else if index == 5 {
        "5"
    } else if index == 6 {
        "6"
    } else if index == 7 {
        "7"
    } else if index == 8 {
        "8"
    } else if index == 9 {
        "9"
    } else if index == 10 {
        "10"
    } else if index == 11 {
        "J"
    } else if index == 12 {
        "Q"
    } else {
        "K"
    }
}

/// A pile of cards; the last card is the top.
#[derive(Hash, Debug, Clone)]
pub struct Deck {
    cards: Vec<Card>,
}

impl Deck {
    /// The cards of the deck, bottom first.
    pub closed spec fn cards_spec(self) -> Seq<Card> {
        self.cards@
    }
}

impl View for Deck {
    type V = Seq<Card>;

    open spec fn view(&self) -> Seq<Card> {
        self.cards_spec()
    }
}

/// Puts the cards in a random order (`rand`'s `SliceRandom::shuffle` with
/// the thread-local generator). Claimed of it: the result is a permutation of
/// the input, the same cards as often as before. Which order comes out is
/// left open.
#[verifier::external_body]
fn shuffle_cards(cards: &mut Vec<Card>)
    ensures
        final(cards)@.to_multiset() == old(cards)@.to_multiset(),
{
    cards.shuffle(&mut rand::thread_rng());
}

impl Deck {
    pub fn new(cards: Vec<Card>) -> (d: Deck)
        ensures
            d@ == cards@,
    {
        Deck { cards: cards }
    }

    /// Adds the 52 cards of a standard deck on top: for each suit 1..=4 in
    /// turn, the ranks 1..=13.
    pub fn create_52(self) -> (d: Deck)
        ensures
            d@.len() == self@.len() + 52,
            d@.subrange(0, self@.len() as int) == self@,
            forall|k: int| 0 <= k < 52 ==> is_standard_card(#[trigger] d@[self@.len() + k], k),
    {
        let mut deck = self;
        let ghost start = self@;
        let mut suit: i8 = 1;
        while suit <= 4
            invariant
                1 <= suit <= 5,
                deck@.len() == start.len() + 13 * (suit - 1),
                deck@.subrange(0, start.len() as int) == start,
                forall|k: int|
                    0 <= k < 13 * (suit - 1) ==> is_standard_card(#[trigger] deck@[start.len() + k], k),
            decreases 5 - suit,
        {
            let mut index: i8 = 1;
            while index <= 13
                invariant
                    1 <= suit <= 4,
                    1 <= index <= 14,
                    deck@.len() == start.len() + 13 * (suit - 1) + index - 1,
                    deck@.subrange(0, start.len() as int) == start,
                    forall|k: int|
                        0 <= k < 13 * (suit - 1) + index - 1 ==> is_standard_card(
                            #[trigger] deck@[start.len() + k],
                            k,
                        ),
                decreases 14 - index,
            {
                let card = Card::new(index, facevalue_of(index), suit);
                let ghost before = deck@;
                deck = deck.add_card(card);
                proof {
                    let k = 13 * (suit - 1) + index - 1;
                    assert(k % 13 == index - 1 && k / 13 == suit - 1) by (nonlinear_arith)
                        requires
                            k == 13 * (suit - 1) + index - 1,
                            1 <= index <= 13,
                            1 <= suit,
                    ;
                    assert(deck@.subrange(0, start.len() as int) == before.subrange(
                        0,
                        start.len() as int,
                    ));
                    assert forall|j: int| 0 <= j < k + 1 implies is_standard_card(
                        #[trigger] deck@[start.len() + j],
                        j,
                    ) by {
                        if j < k {
                            assert(deck@[start.len() + j] == before[start.len() + j]);
                        }
                    }
                }
                index = index + 1;
            }
            suit = suit + 1;
        }
        deck
    }

    /// Puts the cards of the deck in a random order.
    pub fn shuffle(self) -> (d: Deck)
        ensures
            d@.to_multiset() == self@.to_multiset(),
            d@.len() == self@.len(),
    {
        let mut deck = self;
        shuffle_cards(&mut deck.cards);
        proof {
            broadcast use vstd::seq_lib::group_to_multiset_ensures;

            assert(deck.cards@.to_multiset().len() == self.cards@.to_multiset().len());
        }
        deck
    }

    /// Takes the top card; the deck must not be empty.
    pub fn take_a_card(self) -> (r: (Card, Deck))
        requires
            self@.len() > 0,
        ensures
            r.0 == self@.last(),
            r.1@ == self@.drop_last(),
    {
        let mut deck = self;
        let card = deck.cards.pop().unwrap();
        (card, deck)
    }

    /// Takes out the lowest card with the given rank index and suit; the deck
    /// must hold such a card.
    pub fn take_card(self, index: i8, suit: i8) -> (r: (Card, Deck))
        requires
            exists|k: int| 0 <= k < self@.len() && same_card(#[trigger] self@[k], index, suit),
        ensures
            exists|k: int|
                0 <= k < self@.len() && same_card(#[trigger] self@[k], index, suit) && (forall|j: int|
                    0 <= j < k ==> !same_card(#[trigger] self@[j], index, suit)) && r.0 == self@[k]
                    && r.1@ == self@.remove(k),
    {
        let mut deck = self;
        let card = Card::new(index, "", suit);
        let mut pos: usize = 0;
        while pos < deck.cards.len()
            invariant
                deck@ == self@,
                same_card(card, index, suit),
                exists|k: int| pos <= k < self@.len() && same_card(#[trigger] self@[k], index, suit),
                forall|j: int| 0 <= j < pos ==> !same_card(#[trigger] self@[j], index, suit),
            ensures
                pos < self@.len(),
                same_card(self@[pos as int], index, suit),
                forall|j: int| 0 <= j < pos ==> !same_card(#[trigger] self@[j], index, suit),
            decreases deck.cards.len() - pos,
        {
            if deck.cards[pos] == card {
                break;
            }
            pos = pos + 1;
        }
        let taken = deck.cards.remove(pos);
        assert(same_card(self@[pos as int], index, suit));
        (taken, deck)
    }

    pub fn get_cards(&self) -> (v: Vec<Card>)
        ensures
            v@ == self@,
    {
        let mut v: Vec<Card> = Vec::new();
        let mut i: usize = 0;
        while i < self.cards.len()
            invariant
                i <= self.cards@.len(),
                v@ == self.cards@.subrange(0, i as int),
            decreases self.cards.len() - i,
        {
            v.push(self.cards[i]);
            i = i + 1;
        }
        v
    }

    /// Puts a card on top.
    pub fn add_card(self, card: Card) -> (d: Deck)
        ensures
            d@ == self@.push(card),
    {
        let mut deck = self;
        deck.cards.push(card);
        deck
    }

    pub fn len(&self) -> (n: usize)
        ensures
            n == self@.len(),
    {
        self.cards.len()
    }

    /// The face texts of all cards, bottom first, as the deck's display form.
    pub fn to_string(&self) -> (s: String)
        ensures
            s@ == faces_concat(self@),
    {
        let mut s = String::new();
        let mut i: usize = 0;
        while i < self.cards.len()
            invariant
                i <= self.cards@.len(),
                s@ == faces_concat(self.cards@.subrange(0, i as int)),
            decreases self.cards.len() - i,
        {
            proof {
                assert(self.cards@.subrange(0, i + 1).drop_last() == self.cards@.subrange(
                    0,
                    i as int,
                ));
            }
            s.append(self.cards[i].get_facevalue());
            i = i + 1;
        }
        proof {
            assert(self.cards@.subrange(0, i as int) == self.cards@);
        }
        s
    }
}

/// The 52 cards that `Deck::create_52` adds are pairwise different cards: no
/// two of them share both rank and suit, so each of the 52 (rank, suit)
/// pairs occurs once.
pub proof fn lemma_standard_cards_distinct(c1: Card, j: int, c2: Card, k: int)
    requires
        0 <= j < 52,
        0 <= k < 52,
        j != k,
        is_standard_card(c1, j),
        is_standard_card(c2, k),
    ensures
        !same_card(c1, c2.index_spec(), c2.suit_spec()),
{
    if j % 13 == k % 13 && j / 13 == k / 13 {
        assert(j == 13 * (j / 13) + j % 13) by (nonlinear_arith);
        assert(k == 13 * (k / 13) + k % 13) by (nonlinear_arith);
    }
}

/// Each (rank 1..=13, suit 1..=4) pair is among the cards `Deck::create_52`
/// adds, at position `13 * (suit - 1) + rank - 1`.
pub proof fn lemma_standard_cards_complete(index: int, suit: int)
    requires
        1 <= index <= 13,
        1 <= suit <= 4,
    ensures
        ({
            let k = 13 * (suit - 1) + index - 1;
            &&& 0 <= k < 52
            &&& k % 13 + 1 == index
            &&& k / 13 + 1 == suit
        }),
{
    let k = 13 * (suit - 1) + index - 1;
    assert(k % 13 == index - 1 && k / 13 == suit - 1) by (nonlinear_arith)
        requires
            k == 13 * (suit - 1) + index - 1,
            1 <= index <= 13,
            1 <= suit,
    ;
}

/// Taking the top card after putting `card` on deck `d` gives back `card`
/// and `d`.
pub proof fn lemma_take_a_card_undoes_add_card(d: Seq<Card>, card: Card)
    ensures
        d.push(card).len() > 0,
        d.push(card).last() == card,
        d.push(card).drop_last() == d,
{
    assert(d.push(card).drop_last() =~= d);
}

/// Taking the card at position `k` out of a deck loses no card and adds
/// none: the rest and the taken card are the cards that were there.
pub proof fn lemma_take_keeps_cards(d: Seq<Card>, k: int)
    requires
        0 <= k < d.len(),
    ensures
        d.remove(k).to_multiset().insert(d[k]) == d.to_multiset(),
{
    broadcast use vstd::seq_lib::group_to_multiset_ensures;
    broadcast use vstd::multiset::group_multiset_axioms;

    assert(d.to_multiset().contains(d[k]));
    assert(d.remove(k).to_multiset().insert(d[k]) =~= d.to_multiset());
}

} // verus!
