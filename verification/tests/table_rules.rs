use deck::input::{parse_player_count, ParseFailure};
use deck::{Card, CardValue, Deck, Suit, Table};
use rand::{RngExt, SeedableRng};

fn card(suit: Suit, value: CardValue) -> Card {
    Card { suit, value }
}

fn table() -> Table {
    Table::with_rng(rand::rngs::StdRng::seed_from_u64(42))
}

fn sorted(mut cards: Vec<Card>) -> Vec<Card> {
    cards.sort();
    cards
}

#[test]
fn new_table_is_empty_but_for_the_dealer() {
    let t = Table::new();
    assert_eq!(t.dealer.cards, Deck::new().cards);
    assert!(t.players.is_empty());
    assert!(t.spoils_of_war.is_empty());
    assert!(t.battle_cards.is_empty());
    assert!(t.winners.is_empty());
}

#[test]
fn set_player_count_adds_to_existing_players() {
    let mut t = table();
    t.set_player_count(2);
    t.set_player_count(3);
    assert_eq!(t.players.len(), 5);
    assert!(t.players.iter().all(|p| p.cards.is_empty()));
}

#[test]
fn deal_is_even_and_keeps_every_card() {
    for n in 1..=7usize {
        let mut t = table();
        t.set_player_count(n);
        t.deal();
        assert!(t.dealer.cards.is_empty());
        let sizes: Vec<usize> = t.players.iter().map(|p| p.cards.len()).collect();
        for p in 0..n {
            assert_eq!(sizes[p], (52 + n - 1 - p) / n);
        }
        let all: Vec<Card> = t.players.iter().flat_map(|p| p.cards.clone()).collect();
        assert_eq!(sorted(all), sorted(Deck::new().cards));
    }
}

#[test]
fn deal_with_no_cards_and_no_players_does_nothing() {
    let mut t = table();
    t.dealer.cards.clear();
    t.deal();
    assert!(t.players.is_empty());
}

#[test]
fn play_cards_skips_empty_decks() {
    let mut t = table();
    t.set_player_count(3);
    t.players[0].cards.push(card(Suit::Clubs, CardValue::Two));
    t.players[2].cards.push(card(Suit::Hearts, CardValue::Five));
    t.players[2].cards.push(card(Suit::Hearts, CardValue::Six));
    t.play_cards();
    assert_eq!(
        t.battle_cards,
        vec![(0, card(Suit::Clubs, CardValue::Two)), (2, card(Suit::Hearts, CardValue::Six))]
    );
    assert!(t.players[0].cards.is_empty());
    assert_eq!(t.players[2].cards, vec![card(Suit::Hearts, CardValue::Five)]);
}

#[test]
fn find_winners_takes_all_tied_highest_in_order() {
    let mut t = table();
    t.battle_cards = vec![
        (0, card(Suit::Clubs, CardValue::Nine)),
        (1, card(Suit::Hearts, CardValue::Queen)),
        (2, card(Suit::Spades, CardValue::Three)),
        (3, card(Suit::Diamonds, CardValue::Queen)),
    ];
    t.find_winners();
    assert_eq!(t.winners, vec![1, 3]);
}

#[test]
fn find_winners_names_the_players_of_the_highest_cards() {
    let mut t = table();
    t.battle_cards = vec![(1, card(Suit::Spades, CardValue::King)), (2, card(Suit::Spades, CardValue::Ace))];
    t.find_winners();
    assert_eq!(t.winners, vec![2]);
    t.battle_cards = vec![(1, card(Suit::Clubs, CardValue::Nine)), (0, card(Suit::Hearts, CardValue::Two))];
    t.find_winners();
    assert_eq!(t.winners, vec![1]);
    t.battle_cards = vec![(4, card(Suit::Clubs, CardValue::Nine)), (2, card(Suit::Hearts, CardValue::Nine))];
    t.find_winners();
    assert_eq!(t.winners, vec![4, 2]);
    t.battle_cards.clear();
    t.find_winners();
    assert!(t.winners.is_empty());
}

#[test]
fn find_winners_ignores_suits() {
    let mut t = table();
    t.battle_cards = vec![(0, card(Suit::Clubs, CardValue::Ten)), (1, card(Suit::Spades, CardValue::Ten))];
    t.find_winners();
    let first = t.winners.clone();
    t.battle_cards = vec![(0, card(Suit::Spades, CardValue::Ten)), (1, card(Suit::Clubs, CardValue::Ten))];
    t.find_winners();
    assert_eq!(t.winners, first);
}

#[test]
fn check_win_needs_exactly_one_holder() {
    let mut t = table();
    assert_eq!(t.check_win(), None);
    t.set_player_count(3);
    assert_eq!(t.check_win(), None);
    t.players[1].cards.push(card(Suit::Clubs, CardValue::Ace));
    assert_eq!(t.check_win(), Some(1));
    t.players[2].cards.push(card(Suit::Clubs, CardValue::King));
    assert_eq!(t.check_win(), None);
}

#[test]
fn award_puts_spoils_and_battle_under_the_winner() {
    let mut t = table();
    t.set_player_count(2);
    t.players[1].cards.push(card(Suit::Spades, CardValue::Four));
    t.spoils_of_war.push(card(Suit::Clubs, CardValue::Seven));
    t.battle_cards = vec![(0, card(Suit::Hearts, CardValue::Two)), (1, card(Suit::Hearts, CardValue::Ace))];
    t.winners = vec![1];
    t.award_player();
    assert_eq!(
        t.players[1].cards,
        vec![
            card(Suit::Clubs, CardValue::Seven),
            card(Suit::Hearts, CardValue::Two),
            card(Suit::Hearts, CardValue::Ace),
            card(Suit::Spades, CardValue::Four),
        ]
    );
    assert!(t.spoils_of_war.is_empty());
    assert!(t.battle_cards.is_empty());
}

#[test]
fn war_leaves_every_winner_a_card() {
    let mut t = table();
    t.players.push(Deck { cards: vec![card(Suit::Clubs, CardValue::Two), card(Suit::Clubs, CardValue::Ace)] });
    t.players.push(Deck { cards: vec![card(Suit::Hearts, CardValue::Ace)] });
    t.play_cards();
    t.find_winners();
    assert_eq!(t.winners, vec![0, 1]);
    t.ensure_player_has_last_card();
    assert_eq!(t.players[1].cards, vec![card(Suit::Hearts, CardValue::Ace)]);
    t.build_spoils_of_war();
    assert_eq!(t.players[0].cards.len(), 1);
    assert_eq!(t.players[1].cards.len(), 1);
}

#[test]
fn one_battle_with_a_single_winner_is_decided() {
    let mut t = table();
    t.set_player_count(2);
    t.players[0].cards.push(card(Suit::Clubs, CardValue::Three));
    t.players[1].cards.push(card(Suit::Spades, CardValue::Jack));
    assert!(t.battle_is_playable());
    assert!(t.play_battle().decided);
    assert_eq!(t.winners, vec![1]);
    assert_eq!(
        t.players[1].cards,
        vec![card(Suit::Clubs, CardValue::Three), card(Suit::Spades, CardValue::Jack)]
    );
    assert_eq!(t.check_win(), Some(1));
}

#[test]
fn one_battle_with_a_tie_goes_to_war() {
    let mut t = table();
    t.set_player_count(2);
    for c in [CardValue::Two, CardValue::Five, CardValue::Nine] {
        t.players[0].cards.push(card(Suit::Clubs, c));
        t.players[1].cards.push(card(Suit::Hearts, c));
    }
    assert!(t.battle_is_playable());
    let report = t.play_battle();
    assert!(!report.decided);
    assert_eq!(report.deck_sizes, vec![(0, 2), (1, 2)]);
    assert_eq!(report.stakes, vec![(0, 1), (1, 1)]);
    assert!(t.winners.is_empty());
    assert!(t.battle_cards.is_empty());
    assert_eq!(t.players[0].cards, vec![card(Suit::Clubs, CardValue::Two)]);
    assert_eq!(t.players[1].cards, vec![card(Suit::Hearts, CardValue::Two)]);
    assert_eq!(
        t.spoils_of_war,
        vec![
            card(Suit::Clubs, CardValue::Nine),
            card(Suit::Hearts, CardValue::Nine),
            card(Suit::Clubs, CardValue::Five),
            card(Suit::Hearts, CardValue::Five),
        ]
    );
}

#[test]
fn a_battle_without_cards_is_not_playable() {
    let mut t = table();
    t.set_player_count(2);
    assert!(!t.battle_is_playable());
}

#[test]
fn a_battle_won_by_no_player_is_not_playable() {
    let mut t = table();
    t.set_player_count(2);
    t.battle_cards = vec![(5, card(Suit::Clubs, CardValue::Ace))];
    assert!(!t.battle_is_playable());
    t.battle_cards = vec![(5, card(Suit::Clubs, CardValue::Ace)), (6, card(Suit::Hearts, CardValue::Ace))];
    assert!(!t.battle_is_playable());
}

#[test]
fn a_winner_without_cards_takes_back_its_own_battle_card() {
    let mut t = table();
    t.set_player_count(2);
    t.players[0].cards.push(card(Suit::Hearts, CardValue::Two));
    t.battle_cards = vec![(1, card(Suit::Spades, CardValue::King)), (0, card(Suit::Clubs, CardValue::Queen))];
    t.winners = vec![1];
    let sizes = t.ensure_player_has_last_card();
    assert_eq!(sizes, vec![(1, 0)]);
    assert_eq!(t.players[1].cards, vec![card(Suit::Spades, CardValue::King)]);
    assert_eq!(t.battle_cards, vec![(0, card(Suit::Clubs, CardValue::Queen))]);
}

#[test]
fn a_game_keeps_every_card_in_play() {
    let mut t = table();
    t.set_player_count(3);
    t.dealer.shuffle(&mut t.rng);
    t.deal();
    let mut battles = 0;
    while t.check_win().is_none() && battles < 2000 {
        assert!(t.battle_is_playable());
        t.play_battle();
        assert!(t.battle_cards.is_empty());
        let mut all: Vec<Card> = t.players.iter().flat_map(|p| p.cards.clone()).collect();
        all.extend(t.spoils_of_war.iter().cloned());
        assert_eq!(sorted(all), sorted(Deck::new().cards));
        battles += 1;
    }
}

#[test]
fn parse_player_count_trims_and_reads_decimal() {
    assert_eq!(parse_player_count("3\n").unwrap(), 3);
    assert_eq!(parse_player_count("  +12\t\r\n").unwrap(), 12);
    assert_eq!(parse_player_count("007").unwrap(), 7);
    assert!(parse_player_count("").is_err());
    assert!(parse_player_count("\n").is_err());
    assert!(parse_player_count("-1").is_err());
    assert!(parse_player_count("3 4").is_err());
    assert!(parse_player_count("x").is_err());
    assert!(parse_player_count("99999999999999999999999").is_err());
}

#[test]
fn parse_player_count_tells_why_it_failed() {
    assert_eq!(parse_player_count("").unwrap_err().kind, ParseFailure::Empty);
    assert_eq!(parse_player_count(" \n").unwrap_err().kind, ParseFailure::Empty);
    assert_eq!(parse_player_count("x\n").unwrap_err().kind, ParseFailure::InvalidDigit);
    assert_eq!(parse_player_count("-1").unwrap_err().kind, ParseFailure::InvalidDigit);
    assert_eq!(parse_player_count("+").unwrap_err().kind, ParseFailure::InvalidDigit);
    assert_eq!(parse_player_count("3 4").unwrap_err().kind, ParseFailure::InvalidDigit);
    assert_eq!(
        parse_player_count("99999999999999999999999\n").unwrap_err().kind,
        ParseFailure::PosOverflow
    );
    assert_eq!(
        parse_player_count("x").unwrap_err().error.to_string(),
        "invalid digit found in string"
    );
}

#[test]
fn shuffle_records_one_draw_per_card() {
    let mut t = table();
    let before = t.dealer.cards.clone();
    t.dealer.shuffle(&mut t.rng);
    let mut again = Deck::new();
    let picks: Vec<usize> = {
        // the same seed gives the same draws, one from 0..=i per position
        let mut rng = rand::rngs::StdRng::seed_from_u64(42);
        (0..52usize).map(|i| rng.random_range(0..=i)).collect()
    };
    assert!(picks.iter().enumerate().all(|(i, p)| *p <= i));
    again.shuffle_by(&picks);
    assert_eq!(t.dealer.cards, again.cards);
    assert_eq!(sorted(before), sorted(t.dealer.cards.clone()));
}

#[test]
fn checks_tell_when_each_war_step_can_run() {
    let mut t = table();
    t.set_player_count(2);
    assert!(!t.can_award());
    t.winners = vec![1];
    assert!(t.can_award());
    t.winners = vec![2];
    assert!(!t.can_award());
    assert!(!t.can_return_last_cards());
    assert!(!t.can_collect_spoils());

    t.winners = vec![0, 1];
    // both decks empty, no battle cards: nobody can take a card back
    assert!(!t.can_return_last_cards());
    assert!(!t.can_collect_spoils());
    t.battle_cards = vec![(1, card(Suit::Clubs, CardValue::Five)), (0, card(Suit::Hearts, CardValue::Five))];
    assert!(t.can_return_last_cards());
    t.ensure_player_has_last_card();
    assert!(t.can_collect_spoils());
    let stakes = t.build_spoils_of_war();
    assert_eq!(stakes, vec![(0, 0), (1, 0)]);
    assert_eq!(t.players[0].cards, vec![card(Suit::Hearts, CardValue::Five)]);
    assert_eq!(t.players[1].cards, vec![card(Suit::Clubs, CardValue::Five)]);
}

#[test]
fn a_finished_game_leaves_the_winner_every_card() {
    let mut t = table();
    t.set_player_count(2);
    t.players[0].cards = vec![card(Suit::Clubs, CardValue::Two), card(Suit::Clubs, CardValue::Three)];
    t.players[1].cards = vec![card(Suit::Hearts, CardValue::Ace), card(Suit::Hearts, CardValue::King)];
    let mut battles = 0;
    while t.check_win().is_none() {
        assert!(t.battle_is_playable());
        while !t.play_battle().decided {}
        battles += 1;
        assert!(battles < 100);
    }
    assert_eq!(t.check_win(), Some(1));
    assert_eq!(t.players[1].cards.len(), 4);
    assert!(t.players[0].cards.is_empty());
    assert!(t.spoils_of_war.is_empty());
    assert!(t.battle_cards.is_empty());
}
