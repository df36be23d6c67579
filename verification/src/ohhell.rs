use vstd::prelude::*;

use crate::cards::{Card, Deck, same_card};
use crate::text::{decimal, push_decimal};

verus! {

/// Draws a fresh random version-4 UUID (uuid's `Uuid::new_v4`) and gives its
/// 128-bit value (`Uuid::as_u128`, most significant byte first). Claimed of
/// it, as uuid's source sets these bits: the version nibble (bits 76..80) is
/// 4 and the variant bits (62..64) are 0b10. The other 122 bits are random
/// and left open.
#[verifier::external_body]
pub(crate) fn new_uuid_v4() -> (r: u128)
    ensures
        (r >> 76u128) & 0xfu128 == 4,
        (r >> 62u128) & 0x3u128 == 2,
{
    uuid::Uuid::new_v4().as_u128()
}

/// Whether a 128-bit identifier has the version and variant bits of a
/// random (version 4) UUID.
pub open spec fn is_v4_uuid(u: u128) -> bool {
    (u >> 76u128) & 0xfu128 == 4 && (u >> 62u128) & 0x3u128 == 2
}

/// Some player of `players` has UUID `u`.
pub open spec fn uuid_used(players: Seq<PlayerView>, u: u128) -> bool {
    exists|k: int| 0 <= k < players.len() && #[trigger] players[k].uuid == u
}

/// The `j`-th value with the version-4 bits, counted from the least: the bits
/// of `j` fill the low 62 bits, and the bits above them go to bits 64 and up.
pub open spec fn v4_candidate(j: u128) -> u128 {
    0x0000_0000_0000_4000_8000_0000_0000_0000u128 | (j & 0x3fff_ffff_ffff_ffffu128) | ((j
        >> 62u128) << 64u128)
}

/// The number `j` of the value `v4_candidate(j)`.
pub open spec fn v4_candidate_index(u: u128) -> u128 {
    (u & 0x3fff_ffff_ffff_ffffu128) | (((u >> 64u128) & 0x3u128) << 62u128)
}

/// For `j` below 2^64, `v4_candidate(j)` has the version-4 bits, and its
/// number is `j`.
proof fn lemma_v4_candidate(j: u128)
    requires
        j < 0x1_0000_0000_0000_0000u128,
    ensures
        is_v4_uuid(v4_candidate(j)),
        v4_candidate_index(v4_candidate(j)) == j,
{
    assert((((0x0000_0000_0000_4000_8000_0000_0000_0000u128 | (j & 0x3fff_ffff_ffff_ffffu128) | ((j
        >> 62u128) << 64u128)) >> 76u128) & 0xfu128 == 4) && (((0x0000_0000_0000_4000_8000_0000_0000_0000u128
        | (j & 0x3fff_ffff_ffff_ffffu128) | ((j >> 62u128) << 64u128)) >> 62u128) & 0x3u128 == 2))
        by (bit_vector)
        requires
            j < 0x1_0000_0000_0000_0000u128,
    ;
    assert(((0x0000_0000_0000_4000_8000_0000_0000_0000u128 | (j & 0x3fff_ffff_ffff_ffffu128) | ((j
        >> 62u128) << 64u128)) & 0x3fff_ffff_ffff_ffffu128) | ((((0x0000_0000_0000_4000_8000_0000_0000_0000u128
        | (j & 0x3fff_ffff_ffff_ffffu128) | ((j >> 62u128) << 64u128)) >> 64u128) & 0x3u128) << 62u128)
        == j) by (bit_vector)
        requires
            j < 0x1_0000_0000_0000_0000u128,
    ;
}

/// Players whose UUIDs include `v4_candidate(j)` for every `j` in `0..=c`
/// are more than `c`.
proof fn lemma_v4_candidates_cover(ps: Seq<PlayerView>, c: u128)
    requires
        c < 0x1_0000_0000_0000_0000u128,
        forall|j: u128| j <= c ==> #[trigger] uuid_used(ps, v4_candidate(j)),
    ensures
        c < ps.len(),
{
    let ids = ps.map_values(|p: PlayerView| v4_candidate_index(p.uuid) as int);
    ids.lemma_cardinality_of_set();
    vstd::set_lib::lemma_int_range(0, c + 1);
    assert forall|x: int| #[trigger] vstd::set_lib::set_int_range(0, c + 1).contains(x) implies ids.to_set().contains(x) by {
        let j = x as u128;
        assert(uuid_used(ps, v4_candidate(j)));
        let k = choose|k: int| 0 <= k < ps.len() && #[trigger] ps[k].uuid == v4_candidate(j);
        lemma_v4_candidate(j);
        assert(ids[k] == x);
    }
    vstd::seq_lib::seq_to_set_is_finite(ids);
    vstd::set_lib::lemma_len_subset(vstd::set_lib::set_int_range(0, c + 1), ids.to_set());
}

/// `v4_candidate(j)`.
fn v4_candidate_value(j: u128) -> (r: u128)
    ensures
        r == v4_candidate(j),
{
    0x0000_0000_0000_4000_8000_0000_0000_0000u128 | (j & 0x3fff_ffff_ffff_ffffu128) | ((j >> 62u128)
        << 64u128)
}

/// What a player is: its identity, its name and the cards in its hand.
pub struct PlayerView {
    pub uuid: u128,
    pub name: Seq<char>,
    pub cards: Seq<Card>,
}

/// A player, told apart from the others by its UUID alone.
#[derive(Hash, Debug, Clone)]
pub struct Player {
    uuid: u128,
    name: String,
    cards: Deck,
}

impl Player {
    pub closed spec fn model(self) -> PlayerView {
        PlayerView { uuid: self.uuid, name: self.name@, cards: self.cards@ }
    }
}

impl View for Player {
    type V = PlayerView;

    open spec fn view(&self) -> PlayerView {
        self.model()
    }
}

impl Player {
    /// A player with the given name, no cards and a fresh random UUID.
    pub fn new(name: String) -> (p: Player)
        ensures
            p@.name == name@,
            p@.cards == Seq::<Card>::empty(),
            is_v4_uuid(p@.uuid),
    {
        Player { uuid: new_uuid_v4(), name: name, cards: Deck::new(Vec::new()) }
    }

    /// Gives the player one more card, on top of its hand.
    pub fn add_card(self, card: Card) -> (p: Player)
        ensures
            p@ == (PlayerView { cards: self@.cards.push(card), ..self@ }),
    {
        let mut p = self;
        p.cards = p.cards.add_card(card);
        p
    }

    /// Takes the top card of the player's hand, which must not be empty.
    pub fn take_a_card(self) -> (r: (Card, Player))
        requires
            self@.cards.len() > 0,
        ensures
            r.0 == self@.cards.last(),
            r.1@ == (PlayerView { cards: self@.cards.drop_last(), ..self@ }),
    {
        let mut p = self;
        let (card, deck) = p.cards.take_a_card();
        p.cards = deck;
        (card, p)
    }

    /// Takes the lowest card of the given rank index and suit out of the
    /// player's hand, which must hold one.
    pub fn take_card(self, index: i8, suit: i8) -> (r: (Card, Player))
        requires
            exists|k: int|
                0 <= k < self@.cards.len() && same_card(#[trigger] self@.cards[k], index, suit),
        ensures
            exists|k: int|
                0 <= k < self@.cards.len() && same_card(#[trigger] self@.cards[k], index, suit)
                    && (forall|j: int|
                    0 <= j < k ==> !same_card(#[trigger] self@.cards[j], index, suit)) && r.0
                    == self@.cards[k] && r.1@ == (PlayerView {
                    cards: self@.cards.remove(k),
                    ..self@
                }),
    {
        let mut p = self;
        let (card, deck) = p.cards.take_card(index, suit);
        p.cards = deck;
        (card, p)
    }
}

impl Player {
    pub fn get_name(&self) -> (n: &str)
        ensures
            n@ == self@.name,
    {
        self.name.as_str()
    }

    pub fn get_uuid(&self) -> (u: u128)
        ensures
            u == self@.uuid,
    {
        self.uuid
    }

    /// The cards in the player's hand, bottom first.
    pub fn get_cards(&self) -> (v: Vec<Card>)
        ensures
            v@ == self@.cards,
    {
        self.cards.get_cards()
    }
}

impl PartialEq for Player {
    fn eq(&self, other: &Self) -> (r: bool) {
        self.uuid == other.uuid
    }
}

impl vstd::std_specs::cmp::PartialEqSpecImpl for Player {
    open spec fn obeys_eq_spec() -> bool {
        true
    }

    open spec fn eq_spec(&self, other: &Player) -> bool {
        self@.uuid == other@.uuid
    }
}

impl Eq for Player {

}

/// What a hand (one trick's pile) is: who won it, if that is known, and the
/// cards played to it.
pub struct HandView {
    pub winner: Option<PlayerView>,
    pub pile: Seq<Card>,
}

/// A hand with no winner and no cards, as `Hand::new` makes it.
pub open spec fn empty_hand() -> HandView {
    HandView { winner: None, pile: Seq::empty() }
}

#[derive(Debug, Clone)]
pub struct Hand {
    winner: Option<Player>,
    pile: Deck,
}

impl Hand {
    pub closed spec fn model(self) -> HandView {
        HandView {
            winner: match self.winner {
                Some(p) => Some(p@),
                None => None,
            },
            pile: self.pile@,
        }
    }
}

impl View for Hand {
    type V = HandView;

    open spec fn view(&self) -> HandView {
        self.model()
    }
}

impl Hand {
    pub fn new() -> (h: Hand)
        ensures
            h@ == empty_hand(),
    {
        Hand { winner: None, pile: Deck::new(Vec::new()) }
    }

    /// Plays a card onto the pile.
    pub fn add_card(self, card: Card) -> (h: Hand)
        ensures
            h@ == (HandView { pile: self@.pile.push(card), ..self@ }),
    {
        let mut h = self;
        h.pile = h.pile.add_card(card);
        h
    }

    /// Records who won the hand.
    pub fn set_winner(self, player: Player) -> (h: Hand)
        ensures
            h@ == (HandView { winner: Some(player@), ..self@ }),
    {
        let mut h = self;
        h.winner = Some(player);
        h
    }
}

impl Hand {
    /// The cards played to the hand, first played first.
    pub fn get_pile(&self) -> (v: Vec<Card>)
        ensures
            v@ == self@.pile,
    {
        self.pile.get_cards()
    }

    pub fn get_winner(&self) -> (w: Option<&Player>)
        ensures
            match w {
                Some(p) => self@.winner == Some(p@),
                None => self@.winner is None,
            },
    {
        match &self.winner {
            Some(p) => Some(p),
            None => None,
        }
    }
}

/// What a bet is: its identity, the player who made it and the number of
/// tricks bid.
pub struct TrickView {
    pub uuid: u128,
    pub player: PlayerView,
    pub tricks: i16,
}

/// A bet of a number of tricks by a player, told apart from the others by its
/// UUID alone.
#[derive(Hash, Debug, Clone)]
pub struct Trick {
    uuid: u128,
    player: Player,
    tricks: i16,
}

impl Trick {
    pub closed spec fn model(self) -> TrickView {
        TrickView { uuid: self.uuid, player: self.player@, tricks: self.tricks }
    }
}

impl View for Trick {
    type V = TrickView;

    open spec fn view(&self) -> TrickView {
        self.model()
    }
}

impl Trick {
    /// A bet of `bet` tricks by `player`, with a fresh random UUID.
    pub fn new(player: Player, bet: i16) -> (t: Trick)
        ensures
            t@.player == player@,
            t@.tricks == bet,
            is_v4_uuid(t@.uuid),
    {
        Trick { uuid: new_uuid_v4(), player: player, tricks: bet }
    }
}

impl PartialEq for Trick {
    fn eq(&self, other: &Self) -> (r: bool) {
        self.uuid == other.uuid
    }
}

impl vstd::std_specs::cmp::PartialEqSpecImpl for Trick {
    open spec fn obeys_eq_spec() -> bool {
        true
    }

    open spec fn eq_spec(&self, other: &Trick) -> bool {
        self@.uuid == other@.uuid
    }
}

impl Eq for Trick {

}

/// What a round is: its hands, the bets with whether each was won, the deck
/// and the trump suit, if one is set.
pub struct RoundView {
    pub hands: Seq<HandView>,
    pub bets: Seq<(TrickView, bool)>,
    pub deck: Seq<Card>,
    pub trump: Option<i8>,
}

/// A round with no hands, no bets, an empty deck and no trump, as
/// `Round::new` makes it.
pub open spec fn empty_round() -> RoundView {
    RoundView { hands: Seq::empty(), bets: Seq::empty(), deck: Seq::empty(), trump: None }
}

/// No two bets of the round are the same bet (have the same UUID): the bets
/// are keyed by their identity.
pub open spec fn bets_distinct(bets: Seq<(TrickView, bool)>) -> bool {
    forall|i: int, j: int|
        0 <= i < bets.len() && 0 <= j < bets.len() && i != j ==> #[trigger] bets[i].0.uuid
            != #[trigger] bets[j].0.uuid
}

/// Whether one of `winners` is the player who made bet `t`.
pub open spec fn made_by_one_of(t: TrickView, winners: Seq<PlayerView>) -> bool {
    exists|w: int| 0 <= w < winners.len() && #[trigger] winners[w].uuid == t.player.uuid
}

/// The views of a list of players.
pub open spec fn player_views(players: Seq<Player>) -> Seq<PlayerView> {
    players.map_values(|p: Player| p@)
}

/// `new` is round `old` after `Round::set_winners(winners)`: every bet made
/// by one of `winners` is marked won, the other marks stay, and nothing else
/// changes.
pub open spec fn winners_marked(old: RoundView, new: RoundView, winners: Seq<PlayerView>) -> bool {
    &&& new.hands == old.hands
    &&& new.deck == old.deck
    &&& new.trump == old.trump
    &&& new.bets.len() == old.bets.len()
    &&& forall|i: int|
        0 <= i < old.bets.len() ==> (#[trigger] new.bets[i]).0 == old.bets[i].0 && new.bets[i].1 == (
        old.bets[i].1 || made_by_one_of(old.bets[i].0, winners))
}

#[derive(Debug, Clone)]
pub struct Round {
    hands: Vec<Hand>,
    bets: Vec<(Trick, bool)>,
    deck: Deck,
    trump: Option<i8>,
}

impl Round {
    pub closed spec fn model(self) -> RoundView {
        RoundView {
            hands: self.hands@.map_values(|h: Hand| h@),
            bets: self.bets@.map_values(|b: (Trick, bool)| (b.0@, b.1)),
            deck: self.deck@,
            trump: self.trump,
        }
    }
}

impl View for Round {
    type V = RoundView;

    open spec fn view(&self) -> RoundView {
        self.model()
    }
}

impl Round {
    pub fn new() -> (r: Round)
        ensures
            r@ == empty_round(),
            bets_distinct(r@.bets),
    {
        let r = Round {
            hands: Vec::new(),
            bets: Vec::new(),
            deck: Deck::new(Vec::new()),
            trump: None,
        };
        proof {
            assert(r@.hands =~= Seq::<HandView>::empty());
            assert(r@.bets =~= Seq::<(TrickView, bool)>::empty());
        }
        r
    }

    /// Adds `hands` empty hands to the round.
    pub fn add_hands(&mut self, hands: usize) -> (r: &Round)
        ensures
            final(self)@ == (RoundView {
                hands: old(self)@.hands + Seq::new(hands as nat, |i: int| empty_hand()),
                ..old(self)@
            }),
            r@ == final(self)@,
    {
        let ghost start = self@;
        let mut k: usize = 0;
        while k < hands
            invariant
                k <= hands,
                self@ == (RoundView {
                    hands: start.hands + Seq::new(k as nat, |i: int| empty_hand()),
                    ..start
                }),
            decreases hands - k,
        {
            let ghost before = self.hands@;
            self.hands.push(Hand::new());
            proof {
                assert(self.hands@.map_values(|h: Hand| h@) =~= before.map_values(|h: Hand| h@).push(
                    empty_hand(),
                ));
                assert(start.hands + Seq::new((k + 1) as nat, |i: int| empty_hand()) =~= (start.hands
                    + Seq::new(k as nat, |i: int| empty_hand())).push(empty_hand()));
            }
            k = k + 1;
        }
        self
    }

    pub fn get_hands(&self) -> (v: &Vec<Hand>)
        ensures
            v@.map_values(|h: Hand| h@) == self@.hands,
    {
        &self.hands
    }

    /// The number of bets of the round.
    pub fn bet_count(&self) -> (n: usize)
        ensures
            n == self@.bets.len(),
    {
        self.bets.len()
    }

    /// Marks as won every bet made by one of `winners` (players compared by
    /// their UUID); the other bets keep their mark.
    pub fn set_winners(self, winners: Vec<Player>) -> (r: Round)
        ensures
            winners_marked(self@, r@, player_views(winners@)),
            bets_distinct(self@.bets) ==> bets_distinct(r@.bets),
    {
        let mut round = self;
        let ghost wv = player_views(winners@);
        let ghost start = self@;
        let mut w: usize = 0;
        while w < winners.len()
            invariant
                w <= winners@.len(),
                wv == player_views(winners@),
                round@.hands == start.hands,
                round@.deck == start.deck,
                round@.trump == start.trump,
                round@.bets.len() == start.bets.len(),
                forall|i: int|
                    0 <= i < start.bets.len() ==> (#[trigger] round@.bets[i]).0 == start.bets[i].0
                        && round@.bets[i].1 == (start.bets[i].1 || made_by_one_of(
                        start.bets[i].0,
                        wv.subrange(0, w as int),
                    )),
            decreases winners.len() - w,
        {
            let mut j: usize = 0;
            while j < round.bets.len()
                invariant
                    w < winners@.len(),
                    j <= round.bets@.len(),
                    wv == player_views(winners@),
                    round@.hands == start.hands,
                    round@.deck == start.deck,
                    round@.trump == start.trump,
                    round@.bets.len() == start.bets.len(),
                    forall|i: int|
                        0 <= i < start.bets.len() ==> (#[trigger] round@.bets[i]).0 == start.bets[i].0
                            && round@.bets[i].1 == (start.bets[i].1 || made_by_one_of(
                            start.bets[i].0,
                            wv.subrange(0, w as int),
                        ) || (i < j && wv[w as int].uuid == start.bets[i].0.player.uuid)),
                decreases round.bets.len() - j,
            {
                let same = round.bets[j].0.player == winners[w];
                proof {
                    assert(round@.bets[j as int] == (round.bets@[j as int].0@, round.bets@[j as int].1));
                    assert(wv[w as int] == winners@[w as int]@);
                    assert(same == (wv[w as int].uuid == start.bets[j as int].0.player.uuid));
                }
                if same {
                    let ghost before = round.bets@;
                    let entry = &mut round.bets[j];
                    entry.1 = true;
                    proof {
                        assert(round.bets@ == before.update(j as int, (before[j as int].0, true)));
                        assert(round@.bets =~= before.map_values(|b: (Trick, bool)| (b.0@, b.1)).update(
                            j as int,
                            (before[j as int].0@, true),
                        ));
                    }
                }
                j = j + 1;
            }
            proof {
                assert forall|i: int| 0 <= i < start.bets.len() implies (#[trigger] round@.bets[i]).1
                    == (start.bets[i].1 || made_by_one_of(
                    start.bets[i].0,
                    wv.subrange(0, w + 1),
                )) by {
                    let t = start.bets[i].0;
                    if made_by_one_of(t, wv.subrange(0, w + 1)) {
                        let x = choose|x: int|
                            0 <= x < w + 1 && #[trigger] wv.subrange(0, w + 1)[x].uuid
                                == t.player.uuid;
                        if x < w {
                            assert(wv.subrange(0, w as int)[x] == wv.subrange(0, w + 1)[x]);
                        }
                    }
                    if made_by_one_of(t, wv.subrange(0, w as int)) {
                        let x = choose|x: int|
                            0 <= x < w && #[trigger] wv.subrange(0, w as int)[x].uuid
                                == t.player.uuid;
                        assert(wv.subrange(0, w + 1)[x] == wv.subrange(0, w as int)[x]);
                    }
                    if wv[w as int].uuid == t.player.uuid {
                        assert(wv.subrange(0, w + 1)[w as int] == wv[w as int]);
                    }
                }
            }
            w = w + 1;
        }
        proof {
            assert(wv.subrange(0, w as int) == wv);
        }
        round
    }
}

/// What a game is: its rounds and its players.
pub struct OhhellView {
    pub rounds: Seq<RoundView>,
    pub players: Seq<PlayerView>,
}

/// The name `Ohhell::set_players` gives its `i`-th new player: "Player i".
pub open spec fn seat_name(i: nat) -> Seq<char> {
    "Player "@ + decimal(i)
}

/// Round `r` after `Ohhell::set_hands(count)` at position `i`: rounds at a
/// position below `count` gain `count * i` empty hands.
pub open spec fn round_after_set_hands(r: RoundView, i: int, count: int) -> RoundView {
    if i < count {
        RoundView { hands: r.hands + Seq::new((count * i) as nat, |k: int| empty_hand()), ..r }
    } else {
        r
    }
}

/// `new` is `old` with `count` players seated after the others by
/// `Ohhell::set_players`: named "Player 0" ... in order, with no cards and
/// fresh version-4 UUIDs, each its own player: no other player of the game
/// has the UUID of a new one. The rounds are unchanged.
pub open spec fn seats_added(old: OhhellView, new: OhhellView, count: nat) -> bool {
    &&& new.rounds == old.rounds
    &&& new.players.len() == old.players.len() + count
    &&& new.players.subrange(0, old.players.len() as int) == old.players
    &&& forall|i: int|
        0 <= i < count ==> {
            let p = #[trigger] new.players[old.players.len() + i];
            &&& p.name == seat_name(i as nat)
            &&& p.cards == Seq::<Card>::empty()
            &&& is_v4_uuid(p.uuid)
        }
    &&& forall|i: int, j: int|
        0 <= i < count && 0 <= j < new.players.len() && j != old.players.len() + i
            ==> #[trigger] new.players[old.players.len() + i].uuid != #[trigger] new.players[j].uuid
}

/// `g` with `count` empty rounds added after its rounds.
pub open spec fn with_rounds_added(g: OhhellView, count: nat) -> OhhellView {
    OhhellView { rounds: g.rounds + Seq::new(count, |i: int| empty_round()), ..g }
}

/// `g` after `Ohhell::set_hands(count)`: round `i`, for `i` below `count`,
/// gains `count * i` empty hands.
pub open spec fn with_hands_set(g: OhhellView, count: int) -> OhhellView {
    OhhellView {
        rounds: Seq::new(g.rounds.len(), |i: int| round_after_set_hands(g.rounds[i], i, count)),
        ..g
    }
}

/// A game of Oh Hell: a list of rounds and a list of players.
#[derive(Debug, Clone)]
pub struct Ohhell {
    rounds: Vec<Round>,
    players: Vec<Player>,
}

impl Ohhell {
    pub closed spec fn model(self) -> OhhellView {
        OhhellView {
            rounds: self.rounds@.map_values(|r: Round| r@),
            players: self.players@.map_values(|p: Player| p@),
        }
    }
}

impl View for Ohhell {
    type V = OhhellView;

    open spec fn view(&self) -> OhhellView {
        self.model()
    }
}

impl Ohhell {
    /// A game with no rounds and no players.
    pub fn new() -> (g: Ohhell)
        ensures
            g@.rounds == Seq::<RoundView>::empty(),
            g@.players == Seq::<PlayerView>::empty(),
    {
        let g = Ohhell { rounds: Vec::new(), players: Vec::new() };
        proof {
            assert(g@.rounds =~= Seq::<RoundView>::empty());
            assert(g@.players =~= Seq::<PlayerView>::empty());
        }
        g
    }

    pub fn add_player(&mut self, player: Player)
        ensures
            final(self)@ == (OhhellView { players: old(self)@.players.push(player@), ..old(self)@ }),
    {
        let ghost before = self.players@;
        self.players.push(player);
        proof {
            assert(self.players@.map_values(|p: Player| p@) =~= before.map_values(|p: Player| p@).push(
                player@,
            ));
        }
    }

    pub fn get_players(&self) -> (v: &Vec<Player>)
        ensures
            v@.map_values(|p: Player| p@) == self@.players,
    {
        &self.players
    }

    pub fn get_rounds(&self) -> (v: &Vec<Round>)
        ensures
            v@.map_values(|r: Round| r@) == self@.rounds,
    {
        &self.rounds
    }

    /// Whether some player of the game has UUID `u`.
    fn uuid_taken(&self, u: u128) -> (r: bool)
        ensures
            r == uuid_used(self@.players, u),
    {
        let mut k: usize = 0;
        while k < self.players.len()
            invariant
                k <= self@.players.len(),
                forall|x: int| 0 <= x < k ==> #[trigger] self@.players[x].uuid != u,
            decreases self@.players.len() - k,
        {
            if self.players[k].uuid == u {
                proof {
                    assert(self@.players[k as int].uuid == u);
                }
                return true;
            }
            k = k + 1;
        }
        false
    }

    /// A version-4 UUID that no player of the game has: a random one, drawn
    /// again (four draws at most) while a player has it; should every draw
    /// be taken, the least free value with the version-4 bits.
    fn fresh_player_uuid(&self) -> (r: u128)
        ensures
            is_v4_uuid(r),
            !uuid_used(self@.players, r),
    {
        let mut tries: usize = 0;
        while tries < 4
            invariant
                tries <= 4,
            decreases 4 - tries,
        {
            let u = new_uuid_v4();
            if !self.uuid_taken(u) {
                return u;
            }
            tries = tries + 1;
        }
        let n = self.players.len();
        let mut j: u128 = 0;
        while j <= n as u128
            invariant
                n == self@.players.len(),
                j <= n as u128 + 1,
                forall|x: u128| x < j ==> #[trigger] uuid_used(self@.players, v4_candidate(x)),
            decreases n as u128 + 1 - j,
        {
            let u = v4_candidate_value(j);
            if !self.uuid_taken(u) {
                proof {
                    lemma_v4_candidate(j);
                }
                return u;
            }
            j = j + 1;
        }
        proof {
            lemma_v4_candidates_cover(self@.players, n as u128);
        }
        v4_candidate_value(0)
    }

    /// Seats `count` more players, named "Player 0", "Player 1", ...; each
    /// has no cards and a fresh random UUID that no other player has.
    pub fn set_players(&mut self, count: usize) -> (r: &Ohhell)
        ensures
            seats_added(old(self)@, final(self)@, count as nat),
            forall|i: int, j: int|
                0 <= i < j < final(self)@.players.len() && old(self)@.players.len() <= j
                    ==> #[trigger] final(self)@.players[i].uuid != #[trigger] final(self)@.players[j].uuid,
            r@ == final(self)@,
    {
        let ghost start = self@;
        let mut i: usize = 0;
        while i < count
            invariant
                i <= count,
                self@.rounds == start.rounds,
                self@.players.len() == start.players.len() + i,
                self@.players.subrange(0, start.players.len() as int) == start.players,
                forall|k: int|
                    0 <= k < i ==> {
                        let p = #[trigger] self@.players[start.players.len() + k];
                        &&& p.name == seat_name(k as nat)
                        &&& p.cards == Seq::<Card>::empty()
                        &&& is_v4_uuid(p.uuid)
                    },
                forall|k: int, j: int|
                    0 <= k < i && 0 <= j < self@.players.len() && j != start.players.len() + k
                        ==> #[trigger] self@.players[start.players.len() + k].uuid
                        != #[trigger] self@.players[j].uuid,
            decreases count - i,
        {
            let mut name = String::from_str("Player ");
            push_decimal(i, &mut name);
            let ghost before = self@;
            let uuid = self.fresh_player_uuid();
            self.add_player(Player { uuid: uuid, name: name, cards: Deck::new(Vec::new()) });
            proof {
                assert forall|k: int, j: int|
                    0 <= k < i + 1 && 0 <= j < self@.players.len() && j != start.players.len() + k
                        implies #[trigger] self@.players[start.players.len() + k].uuid
                        != #[trigger] self@.players[j].uuid by {
                    if k < i && j < before.players.len() {
                        assert(self@.players[start.players.len() + k] == before.players[start.players.len() + k]);
                        assert(self@.players[j] == before.players[j]);
                    } else if k < i {
                        assert(self@.players[start.players.len() + k] == before.players[start.players.len() + k]);
                        assert(!uuid_used(before.players, uuid));
                        assert(before.players[start.players.len() + k].uuid != uuid);
                    } else {
                        assert(self@.players[j] == before.players[j]);
                        assert(before.players[j].uuid != uuid);
                    }
                }
                assert(self@.players.subrange(0, start.players.len() as int)
                    == before.players.subrange(0, start.players.len() as int));
                assert forall|k: int| 0 <= k < i + 1 implies {
                    let p = #[trigger] self@.players[start.players.len() + k];
                    &&& p.name == seat_name(k as nat)
                    &&& p.cards == Seq::<Card>::empty()
                    &&& is_v4_uuid(p.uuid)
                } by {
                    if k < i {
                        assert(self@.players[start.players.len() + k] == before.players[start.players.len() + k]);
                    }
                }
            }
            i = i + 1;
        }
        proof {
            assert forall|a: int, b: int|
                0 <= a < b < self@.players.len() && start.players.len() <= b implies #[trigger] self@.players[a].uuid
                != #[trigger] self@.players[b].uuid by {
                let k = b - start.players.len();
                assert(self@.players[start.players.len() + k].uuid != self@.players[a].uuid);
            }
        }
        self
    }

    pub fn add_round(&mut self, round: Round)
        ensures
            final(self)@ == (OhhellView { rounds: old(self)@.rounds.push(round@), ..old(self)@ }),
    {
        let ghost before = self.rounds@;
        self.rounds.push(round);
        proof {
            assert(self.rounds@.map_values(|r: Round| r@) =~= before.map_values(|r: Round| r@).push(
                round@,
            ));
        }
    }

    /// Adds `count` empty rounds after the rounds the game has; those stay
    /// where they are.
    pub fn set_rounds(&mut self, count: usize) -> (r: &Ohhell)
        ensures
            final(self)@ == with_rounds_added(old(self)@, count as nat),
            final(self)@.players == old(self)@.players,
            final(self)@.rounds.len() == old(self)@.rounds.len() + count,
            final(self)@.rounds.subrange(0, old(self)@.rounds.len() as int) == old(self)@.rounds,
            forall|k: int|
                old(self)@.rounds.len() <= k < final(self)@.rounds.len()
                    ==> #[trigger] final(self)@.rounds[k] == (RoundView {
                    hands: Seq::empty(),
                    bets: Seq::empty(),
                    deck: Seq::empty(),
                    trump: None,
                }),
            r@ == final(self)@,
    {
        let ghost start = self@;
        let mut i: usize = 0;
        while i < count
            invariant
                i <= count,
                self@ == (OhhellView {
                    rounds: start.rounds + Seq::new(i as nat, |k: int| empty_round()),
                    ..start
                }),
            decreases count - i,
        {
            self.add_round(Round::new());
            proof {
                assert(start.rounds + Seq::new((i + 1) as nat, |k: int| empty_round()) =~= (start.rounds
                    + Seq::new(i as nat, |k: int| empty_round())).push(empty_round()));
            }
            i = i + 1;
        }
        self
    }

    /// For each position `i` below `count` that holds a round, adds `count`
    /// times `i` empty hands to that round, after the hands it has.
    pub fn set_hands(&mut self, count: usize) -> (r: &Ohhell)
        ensures
            final(self)@ == with_hands_set(old(self)@, count as int),
            final(self)@.players == old(self)@.players,
            final(self)@.rounds.len() == old(self)@.rounds.len(),
            forall|i: int|
                0 <= i < old(self)@.rounds.len() ==> {
                    let o = old(self)@.rounds[i];
                    let n = #[trigger] final(self)@.rounds[i];
                    &&& n.hands.len() == o.hands.len() + if i < count {
                        count * i
                    } else {
                        0
                    }
                    &&& n.hands.subrange(0, o.hands.len() as int) == o.hands
                    &&& forall|k: int|
                        o.hands.len() <= k < n.hands.len() ==> #[trigger] n.hands[k] == (HandView {
                            winner: None,
                            pile: Seq::empty(),
                        })
                    &&& n.bets == o.bets
                    &&& n.deck == o.deck
                    &&& n.trump == o.trump
                },
            r@ == final(self)@,
    {
        let ghost start = self@;
        let mut i: usize = 0;
        while i < count && i < self.rounds.len()
            invariant
                i <= count,
                i <= self.rounds@.len(),
                self@.players == start.players,
                self@.rounds.len() == start.rounds.len(),
                forall|k: int|
                    0 <= k < start.rounds.len() ==> #[trigger] self@.rounds[k] == if k < i {
                        round_after_set_hands(start.rounds[k], k, count as int)
                    } else {
                        start.rounds[k]
                    },
            decreases count - i,
        {
            let ghost before = self.rounds@;
            proof {
                assert(self@.rounds[i as int] == before[i as int]@);
                assert(start.rounds[i as int] == before[i as int]@);
            }
            let round = &mut self.rounds[i];
            let ghost r0 = round@;
            assert(r0 == start.rounds[i as int]);
            let mut j: usize = 0;
            while j < count
                invariant
                    j <= count,
                    round@ == (RoundView {
                        hands: r0.hands + Seq::new((j * i) as nat, |k: int| empty_hand()),
                        ..r0
                    }),
                decreases count - j,
            {
                round.add_hands(i);
                proof {
                    assert((j + 1) * i == j * i + i) by (nonlinear_arith);
                    assert(r0.hands + Seq::new(((j + 1) * i) as nat, |k: int| empty_hand()) =~= r0.hands
                        + Seq::new((j * i) as nat, |k: int| empty_hand()) + Seq::new(
                        i as nat,
                        |k: int| empty_hand(),
                    ));
                }
                j = j + 1;
            }
            proof {
                assert(self.rounds@ == before.update(i as int, *round));
                assert(self@.rounds =~= before.map_values(|r: Round| r@).update(i as int, round@));
                assert(self@.rounds[i as int] == round_after_set_hands(
                    start.rounds[i as int],
                    i as int,
                    count as int,
                ));
                assert forall|k: int| 0 <= k < start.rounds.len() && k != i implies #[trigger] self@.rounds[k]
                    == before.map_values(|r: Round| r@)[k] by {}
            }
            i = i + 1;
        }
        proof {
            assert(self@.rounds =~= with_hands_set(start, count as int).rounds);
        }
        self
    }
}

/// Marking the same winners twice marks nothing more than marking them once.
pub proof fn lemma_set_winners_idempotent(
    r0: RoundView,
    r1: RoundView,
    r2: RoundView,
    winners: Seq<PlayerView>,
)
    requires
        winners_marked(r0, r1, winners),
        winners_marked(r1, r2, winners),
    ensures
        r2 == r1,
{
    assert(r2.bets =~= r1.bets);
}

/// Adding `a` hands and then `b` hands adds `a + b` hands.
pub proof fn lemma_add_hands_compose(r: RoundView, a: nat, b: nat)
    ensures
        (RoundView {
            hands: (RoundView { hands: r.hands + Seq::new(a, |i: int| empty_hand()), ..r }).hands
                + Seq::new(b, |i: int| empty_hand()),
            ..r
        }) == (RoundView { hands: r.hands + Seq::new(a + b, |i: int| empty_hand()), ..r }),
{
    assert(r.hands + Seq::new(a, |i: int| empty_hand()) + Seq::new(b, |i: int| empty_hand()) =~= r.hands
        + Seq::new(a + b, |i: int| empty_hand()));
}

/// Adding `a` rounds and then `b` rounds adds `a + b` rounds.
pub proof fn lemma_set_rounds_compose(g: OhhellView, a: nat, b: nat)
    ensures
        with_rounds_added(with_rounds_added(g, a), b) == with_rounds_added(g, a + b),
{
    assert(with_rounds_added(with_rounds_added(g, a), b).rounds =~= with_rounds_added(
        g,
        a + b,
    ).rounds);
}

/// The players that one `Ohhell::set_players` seats have pairwise different
/// names.
pub proof fn lemma_seat_names_distinct(old: OhhellView, new: OhhellView, count: nat, i: int, j: int)
    requires
        seats_added(old, new, count),
        0 <= i < count,
        0 <= j < count,
        i != j,
    ensures
        new.players[old.players.len() + i].name != new.players[old.players.len() + j].name,
{
    let pi = new.players[old.players.len() + i];
    let pj = new.players[old.players.len() + j];
    crate::text::lemma_decimal_injective(i as nat, j as nat);
    let prefix = "Player "@;
    if pi.name == pj.name {
        assert((prefix + decimal(i as nat)).skip(prefix.len() as int) =~= decimal(i as nat));
        assert((prefix + decimal(j as nat)).skip(prefix.len() as int) =~= decimal(j as nat));
    }
}

/// Each player that one `Ohhell::set_players` seats is its own player: no
/// other player of the game, seated before or with it, has its UUID, and
/// players are equal exactly when their UUIDs are.
pub proof fn lemma_seated_players_distinct(old: OhhellView, new: OhhellView, count: nat, i: int, j: int)
    requires
        seats_added(old, new, count),
        0 <= i < count,
        0 <= j < new.players.len(),
        j != old.players.len() + i,
    ensures
        new.players[old.players.len() + i].uuid != new.players[j].uuid,
{
}

/// What `Round::set_winners` makes of a round is fixed by the round and the
/// winners: two results of marking the same winners are the same round.
pub proof fn lemma_set_winners_deterministic(
    r0: RoundView,
    r1: RoundView,
    r2: RoundView,
    winners: Seq<PlayerView>,
)
    requires
        winners_marked(r0, r1, winners),
        winners_marked(r0, r2, winners),
    ensures
        r1 == r2,
{
    assert(r1.bets =~= r2.bets);
}

/// Marking no winners changes nothing.
pub proof fn lemma_set_winners_none(r0: RoundView, r1: RoundView)
    requires
        winners_marked(r0, r1, Seq::<PlayerView>::empty()),
    ensures
        r1 == r0,
{
    assert(r1.bets =~= r0.bets);
}

/// Marking winners `a` and then winners `b` is marking the winners `a`
/// followed by `b` at once.
pub proof fn lemma_set_winners_concat(
    r0: RoundView,
    r1: RoundView,
    r2: RoundView,
    a: Seq<PlayerView>,
    b: Seq<PlayerView>,
)
    requires
        winners_marked(r0, r1, a),
        winners_marked(r1, r2, b),
    ensures
        winners_marked(r0, r2, a + b),
{
    let ab = a + b;
    assert forall|i: int| 0 <= i < r0.bets.len() implies (#[trigger] r2.bets[i]).0 == r0.bets[i].0
        && r2.bets[i].1 == (r0.bets[i].1 || made_by_one_of(r0.bets[i].0, ab)) by {
        let t = r0.bets[i].0;
        assert(r1.bets[i].0 == t);
        if made_by_one_of(t, ab) {
            let w = choose|w: int| 0 <= w < ab.len() && #[trigger] ab[w].uuid == t.player.uuid;
            if w < a.len() {
                assert(a[w] == ab[w]);
                assert(made_by_one_of(t, a));
            } else {
                assert(b[w - a.len()] == ab[w]);
                assert(made_by_one_of(t, b));
            }
        }
        if made_by_one_of(t, a) {
            let w = choose|w: int| 0 <= w < a.len() && #[trigger] a[w].uuid == t.player.uuid;
            assert(ab[w] == a[w]);
        }
        if made_by_one_of(t, b) {
            let w = choose|w: int| 0 <= w < b.len() && #[trigger] b[w].uuid == t.player.uuid;
            assert(ab[a.len() + w] == b[w]);
        }
    }
}

/// Adding rounds keeps the rounds a game has, in their places, and puts
/// `count` empty rounds after them; the players stay as they are.
pub proof fn lemma_set_rounds_keeps_rounds(g: OhhellView, count: nat)
    ensures
        with_rounds_added(g, count).players == g.players,
        with_rounds_added(g, count).rounds.len() == g.rounds.len() + count,
        with_rounds_added(g, count).rounds.subrange(0, g.rounds.len() as int) == g.rounds,
        forall|k: int|
            g.rounds.len() <= k < g.rounds.len() + count ==> #[trigger] with_rounds_added(
                g,
                count,
            ).rounds[k] == (RoundView {
                hands: Seq::empty(),
                bets: Seq::empty(),
                deck: Seq::empty(),
                trump: None,
            }),
{
    assert(with_rounds_added(g, count).rounds.subrange(0, g.rounds.len() as int) =~= g.rounds);
}

/// Setting hands keeps the hands each round has and adds `count * i` empty
/// hands after them to round `i`, for `i` below `count`; nothing else of the
/// game changes.
pub proof fn lemma_set_hands_keeps_hands(g: OhhellView, count: nat)
    ensures
        with_hands_set(g, count as int).players == g.players,
        with_hands_set(g, count as int).rounds.len() == g.rounds.len(),
        forall|i: int|
            0 <= i < g.rounds.len() ==> {
                let o = g.rounds[i];
                let n = #[trigger] with_hands_set(g, count as int).rounds[i];
                &&& n.hands.len() == o.hands.len() + if i < count {
                    count * i
                } else {
                    0
                }
                &&& n.hands.subrange(0, o.hands.len() as int) == o.hands
                &&& forall|k: int|
                    o.hands.len() <= k < n.hands.len() ==> #[trigger] n.hands[k] == (HandView {
                        winner: None,
                        pile: Seq::empty(),
                    })
                &&& n.bets == o.bets
                &&& n.deck == o.deck
                &&& n.trump == o.trump
            },
{
    assert forall|i: int| 0 <= i < g.rounds.len() implies {
        let o = g.rounds[i];
        let n = #[trigger] with_hands_set(g, count as int).rounds[i];
        n.hands.subrange(0, o.hands.len() as int) == o.hands
    } by {
        let o = g.rounds[i];
        let n = with_hands_set(g, count as int).rounds[i];
        assert(n.hands.subrange(0, o.hands.len() as int) =~= o.hands);
    }
}

/// Setting hands twice, first `a` then `b`, adds to round `i` the hands of
/// both calls: `a * i` for `i` below `a` and `b * i` for `i` below `b`.
pub proof fn lemma_set_hands_twice(g: OhhellView, a: nat, b: nat)
    ensures
        forall|i: int|
            0 <= i < g.rounds.len() ==> #[trigger] with_hands_set(
                with_hands_set(g, a as int),
                b as int,
            ).rounds[i] == (RoundView {
                hands: g.rounds[i].hands + Seq::new(
                    ((if i < a {
                        a * i
                    } else {
                        0
                    }) + (if i < b {
                        b * i
                    } else {
                        0
                    })) as nat,
                    |k: int| empty_hand(),
                ),
                ..g.rounds[i]
            }),
{
    assert forall|i: int| 0 <= i < g.rounds.len() implies #[trigger] with_hands_set(
        with_hands_set(g, a as int),
        b as int,
    ).rounds[i] == (RoundView {
        hands: g.rounds[i].hands + Seq::new(
            ((if i < a {
                a * i
            } else {
                0
            }) + (if i < b {
                b * i
            } else {
                0
            })) as nat,
            |k: int| empty_hand(),
        ),
        ..g.rounds[i]
    }) by {
        let x: nat = (if i < a {
            a * i
        } else {
            0
        }) as nat;
        let y: nat = (if i < b {
            b * i
        } else {
            0
        }) as nat;
        assert(0 <= a * i) by (nonlinear_arith)
            requires
                0 <= i,
        ;
        assert(0 <= b * i) by (nonlinear_arith)
            requires
                0 <= i,
        ;
        assert(g.rounds[i].hands + Seq::new(x, |k: int| empty_hand()) + Seq::new(y, |k: int| empty_hand())
            =~= g.rounds[i].hands + Seq::new(x + y, |k: int| empty_hand()));
    }
}

} // verus!
