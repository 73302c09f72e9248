use deck::input::{parse_player_count, GREETING};
use deck::{Card, CardValue, Deck, Suit, Table};
use rand::SeedableRng;

#[test]
fn test_table_new() {
    let rng = rand::rngs::StdRng::seed_from_u64(42);
    let table = Table::with_rng(rng);

    assert_eq!(table.dealer.cards.len(), 52);
    assert_eq!(table.players.len(), 0);
}

#[test]
fn test_set_player_count() {
    let rng = rand::rngs::StdRng::seed_from_u64(42);
    let mut table = Table::with_rng(rng);

    table.set_player_count(3);

    assert_eq!(table.dealer.cards.len(), 52);
    assert_eq!(table.dealer.cards, Deck::new().cards);
    assert_eq!(table.players.len(), 3);
    assert_eq!(table.players[0].cards.len(), 0);
}

#[test]
fn test_initialize() {
    let input = "3\n";
    assert_eq!(parse_player_count(input).unwrap(), 3);
    assert_eq!(format!("{}\n", GREETING), "Lets Play WAR!\n")
}

#[test]
fn test_deal() {
    let rng = rand::rngs::StdRng::seed_from_u64(42);
    let mut table = Table::with_rng(rng);

    table.set_player_count(3);
    table.deal();

    assert_eq!(table.players[0].cards.len(), 18);
    assert_eq!(table.players[1].cards.len(), 17);
    assert_eq!(table.players[2].cards.len(), 17);
    assert_eq!(table.dealer.cards.len(), 0);

    let correct_players = vec![
        Deck {
            cards: vec![
                Card {
                    suit: Suit::Clubs,
                    value: CardValue::Two,
                },
                Card {
                    suit: Suit::Clubs,
                    value: CardValue::Five,
                },
                Card {
                    suit: Suit::Clubs,
                    value: CardValue::Eight,
                },
                Card {
                    suit: Suit::Clubs,
                    value: CardValue::Jack,
                },
                Card {
                    suit: Suit::Clubs,
                    value: CardValue::Ace,
                },
                Card {
                    suit: Suit::Diamonds,
                    value: CardValue::Four,
                },
                Card {
                    suit: Suit::Diamonds,
                    value: CardValue::Seven,
                },
                Card {
                    suit: Suit::Diamonds,
                    value: CardValue::Ten,
                },
                Card {
                    suit: Suit::Diamonds,
                    value: CardValue::King,
                },
                Card {
                    suit: Suit::Hearts,
                    value: CardValue::Three,
                },
                Card {
                    suit: Suit::Hearts,
                    value: CardValue::Six,
                },
                Card {
                    suit: Suit::Hearts,
                    value: CardValue::Nine,
                },
                Card {
                    suit: Suit::Hearts,
                    value: CardValue::Queen,
                },
                Card {
                    suit: Suit::Spades,
                    value: CardValue::Two,
                },
                Card {
                    suit: Suit::Spades,
                    value: CardValue::Five,
                },
                Card {
                    suit: Suit::Spades,
                    value: CardValue::Eight,
                },
                Card {
                    suit: Suit::Spades,
                    value: CardValue::Jack,
                },
                Card {
                    suit: Suit::Spades,
                    value: CardValue::Ace,
                },
            ],
        },
        Deck {
            cards: vec![
                Card {
                    suit: Suit::Clubs,
                    value: CardValue::Three,
                },
                Card {
                    suit: Suit::Clubs,
                    value: CardValue::Six,
                },
                Card {
                    suit: Suit::Clubs,
                    value: CardValue::Nine,
                },
                Card {
                    suit: Suit::Clubs,
                    value: CardValue::Queen,
                },
                Card {
                    suit: Suit::Diamonds,
                    value: CardValue::Two,
                },
                Card {
                    suit: Suit::Diamonds,
                    value: CardValue::Five,
                },
                Card {
                    suit: Suit::Diamonds,
                    value: CardValue::Eight,
                },
                Card {
                    suit: Suit::Diamonds,
                    value: CardValue::Jack,
                },
                Card {
                    suit: Suit::Diamonds,
                    value: CardValue::Ace,
                },
                Card {
                    suit: Suit::Hearts,
                    value: CardValue::Four,
                },
                Card {
                    suit: Suit::Hearts,
                    value: CardValue::Seven,
                },
                Card {
                    suit: Suit::Hearts,
                    value: CardValue::Ten,
                },
                Card {
                    suit: Suit::Hearts,
                    value: CardValue::King,
                },
                Card {
                    suit: Suit::Spades,
                    value: CardValue::Three,
                },
                Card {
                    suit: Suit::Spades,
                    value: CardValue::Six,
                },
                Card {
                    suit: Suit::Spades,
                    value: CardValue::Nine,
                },
                Card {
                    suit: Suit::Spades,
                    value: CardValue::Queen,
                },
            ],
        },
        Deck {
            cards: vec![
                Card {
                    suit: Suit::Clubs,
                    value: CardValue::Four,
                },
                Card {
                    suit: Suit::Clubs,
                    value: CardValue::Seven,
                },
                Card {
                    suit: Suit::Clubs,
                    value: CardValue::Ten,
                },
                Card {
                    suit: Suit::Clubs,
                    value: CardValue::King,
                },
                Card {
                    suit: Suit::Diamonds,
                    value: CardValue::Three,
                },
                Card {
                    suit: Suit::Diamonds,
                    value: CardValue::Six,
                },
                Card {
                    suit: Suit::Diamonds,
                    value: CardValue::Nine,
                },
                Card {
                    suit: Suit::Diamonds,
                    value: CardValue::Queen,
                },
                Card {
                    suit: Suit::Hearts,
                    value: CardValue::Two,
                },
                Card {
                    suit: Suit::Hearts,
                    value: CardValue::Five,
                },
                Card {
                    suit: Suit::Hearts,
                    value: CardValue::Eight,
                },
                Card {
                    suit: Suit::Hearts,
                    value: CardValue::Jack,
                },
                Card {
                    suit: Suit::Hearts,
                    value: CardValue::Ace,
                },
                Card {
                    suit: Suit::Spades,
                    value: CardValue::Four,
                },
                Card {
                    suit: Suit::Spades,
                    value: CardValue::Seven,
                },
                Card {
                    suit: Suit::Spades,
                    value: CardValue::Ten,
                },
                Card {
                    suit: Suit::Spades,
                    value: CardValue::King,
                },
            ],
        },
    ];

    assert_eq!(table.players, correct_players);
}

#[test]
fn test_check_win() {}

#[test]
fn test_play_cards() {
    let rng = rand::rngs::StdRng::seed_from_u64(42);
    let mut table = Table::with_rng(rng);

    table.set_player_count(3);
    table.deal();

    table.play_cards();
    let correct_cards = vec![
        (
            0,
            Card {
                suit: Suit::Spades,
                value: CardValue::Ace,
            },
        ),
        (
            1,
            Card {
                suit: Suit::Spades,
                value: CardValue::Queen,
            },
        ),
        (
            2,
            Card {
                suit: Suit::Spades,
                value: CardValue::King,
            },
        ),
    ];
    assert_eq!(table.battle_cards, correct_cards);
}

#[test]
fn test_find_winners() {
    let rng = rand::rngs::StdRng::seed_from_u64(42);
    let mut table = Table::with_rng(rng);

    table.set_player_count(3);
    table.deal();
    table.play_cards();
    table.find_winners();

    let correct_winners = vec![0];
    assert_eq!(table.winners, correct_winners);

    table.battle_cards.clear();
    for player in table.players.iter_mut() {
        player.shuffle(&mut table.rng);
    }
    table.play_cards();
    table.find_winners();

    let correct_winners = vec![2];
    assert_eq!(table.winners, correct_winners);

    table.battle_cards.clear();
    for player in table.players.iter_mut() {
        player.shuffle(&mut table.rng);
    }
    table.play_cards();
    table.find_winners();
    assert_eq!(table.winners, vec![1]);

    table.battle_cards.clear();
    table.players[0].cards.push(Card {
        suit: Suit::Spades,
        value: CardValue::King,
    });
    table.players[1].cards.push(Card {
        suit: Suit::Hearts,
        value: CardValue::King,
    });
    table.play_cards();
    table.find_winners();
    assert_eq!(table.winners, vec![0, 1]);

    table.battle_cards.clear();
    table.players[0].cards.push(Card {
        suit: Suit::Clubs,
        value: CardValue::Ace,
    });
    table.players[1].cards.push(Card {
        suit: Suit::Hearts,
        value: CardValue::Three,
    });
    table.players[2].cards.push(Card {
        suit: Suit::Clubs,
        value: CardValue::Three,
    });

    table.play_cards();
    table.find_winners();
    assert_eq!(table.winners, vec![0]);
}

#[test]
fn test_award_player(){
    let rng = rand::rngs::StdRng::seed_from_u64(42);
    let mut table = Table::with_rng(rng);

    table.set_player_count(3);
    table.players[0].cards.push(Card{suit: Suit::Clubs, value: CardValue::Ace});
    table.players[1].cards.push(Card{suit: Suit::Spades, value: CardValue::Jack});
    table.players[2].cards.push(Card{suit: Suit::Clubs, value: CardValue::Four});

    table.play_cards();
    table.find_winners();
    table.award_player();

    assert_eq!(table.players[0].cards, vec![Card{suit: Suit::Clubs, value: CardValue::Ace}, Card{suit: Suit::Spades, value: CardValue::Jack}, Card{suit: Suit::Clubs, value: CardValue::Four}]);
    assert_eq!(table.players[1].cards, Vec::<Card>::new());
    assert_eq!(table.players[2].cards, Vec::<Card>::new());
}
#[test]
fn test_ensure_player_has_last_card(){
    let rng = rand::rngs::StdRng::seed_from_u64(42);
    let mut table = Table::with_rng(rng);

    let player1 = Deck{cards: vec![
        Card{suit: Suit::Clubs, value: CardValue::Ace},
        Card{suit: Suit::Clubs, value: CardValue::King},
        Card{suit: Suit::Clubs, value: CardValue::Queen},
        Card{suit: Suit::Clubs, value: CardValue::Jack},
        ],
    };

    let player2 = Deck{cards: vec![
        Card{suit: Suit::Spades, value: CardValue::Ace},
        Card{suit: Suit::Spades, value: CardValue::King},
        Card{suit: Suit::Spades, value: CardValue::Queen},
        Card{suit: Suit::Spades, value: CardValue::Jack},
        ],
    };

    let player3 = Deck{cards: vec![
        Card{suit: Suit::Hearts, value: CardValue::Ace},
        ],
    };

    table.players.push(player1);
    table.players.push(player2);
    table.players.push(player3);

    table.play_cards();
    table.find_winners();

    let correct_battle_cards = vec![(0, Card{suit: Suit::Clubs, value: CardValue::Jack}), (1, Card{suit: Suit::Spades, value: CardValue::Jack}), (2, Card{suit: Suit::Hearts, value: CardValue::Ace})];
    assert_eq!(table.battle_cards, correct_battle_cards);

    table.ensure_player_has_last_card();

    let correct_battle_cards = vec![(0, Card{suit: Suit::Clubs, value: CardValue::Jack}), (1, Card{suit: Suit::Spades, value: CardValue::Jack})];
    assert_eq!(table.battle_cards, correct_battle_cards);
    assert_eq!(table.players[0].cards.len(), 3);
    assert_eq!(table.players[1].cards.len(), 3);
    assert_eq!(table.players[2].cards, vec![Card{suit: Suit::Hearts, value: CardValue::Ace}]);
}

#[test]
fn test_build_spoils_of_war(){
    let rng = rand::rngs::StdRng::seed_from_u64(42);
    let mut table = Table::with_rng(rng);

    let player1 = Deck{cards: vec![
        Card{suit: Suit::Clubs, value: CardValue::Ace},
        Card{suit: Suit::Clubs, value: CardValue::King},
        Card{suit: Suit::Clubs, value: CardValue::Queen},
        Card{suit: Suit::Clubs, value: CardValue::Jack},
        Card{suit: Suit::Clubs, value: CardValue::Ten},
        ],
    };

    let player2 = Deck{cards: vec![
        Card{suit: Suit::Spades, value: CardValue::Ace},
        Card{suit: Suit::Spades, value: CardValue::King},
        Card{suit: Suit::Spades, value: CardValue::Queen},
        Card{suit: Suit::Spades, value: CardValue::Ten},
        ],
    };

    let player3 = Deck{cards: vec![
        Card{suit: Suit::Hearts, value: CardValue::Ace},
        Card{suit: Suit::Hearts, value: CardValue::Ten},
        ],
    };

    table.players.push(player1);
    table.players.push(player2);
    table.players.push(player3);

    table.play_cards();
    table.find_winners();
    table.build_spoils_of_war();

    let correct_spoils = vec![
        Card{suit: Suit::Clubs, value: CardValue::Ten},
        Card{suit: Suit::Spades, value: CardValue::Ten},
        Card{suit: Suit::Hearts, value: CardValue::Ten},
        Card{suit: Suit::Clubs, value: CardValue::Jack},
        Card{suit: Suit::Clubs, value: CardValue::Queen},
        Card{suit: Suit::Clubs, value: CardValue::King},
        Card{suit: Suit::Spades, value: CardValue::Queen},
        Card{suit: Suit::Spades, value: CardValue::King},
    ];
    assert_eq!(table.spoils_of_war, correct_spoils);

    let correct_player1 = Deck{cards: vec![
        Card{suit: Suit::Clubs, value: CardValue::Ace},
        ],
    };

    let correct_player2 = Deck{cards: vec![
        Card{suit: Suit::Spades, value: CardValue::Ace},
        ],
    };

    let correct_player3 = Deck{cards: vec![
        Card{suit: Suit::Hearts, value: CardValue::Ace},
        ],
    };

    assert_eq!(table.players[0], correct_player1);
    assert_eq!(table.players[1], correct_player2);
    assert_eq!(table.players[2], correct_player3);
    
}

#[test]
fn test_game_loop(){
    let rng = rand::rngs::StdRng::seed_from_u64(42);
    let mut table = Table::with_rng(rng);

    table.set_player_count(3);

    let player1 = Deck{cards: vec![
        Card{suit: Suit::Clubs, value: CardValue::Ace},
        Card{suit: Suit::Clubs, value: CardValue::King},
        Card{suit: Suit::Clubs, value: CardValue::Queen},
        Card{suit: Suit::Clubs, value: CardValue::Jack},
        Card{suit: Suit::Clubs, value: CardValue::Ten},
        Card{suit: Suit::Clubs, value: CardValue::Nine},
        Card{suit: Suit::Clubs, value: CardValue::Eight},
        Card{suit: Suit::Clubs, value: CardValue::Seven},
        Card{suit: Suit::Clubs, value: CardValue::Six}
        ],
    };

    let player2 = Deck{cards: vec![
        Card{suit: Suit::Spades, value: CardValue::Ace},
        Card{suit: Suit::Spades, value: CardValue::King},
        Card{suit: Suit::Spades, value: CardValue::Queen},
        Card{suit: Suit::Spades, value: CardValue::Jack},
        Card{suit: Suit::Spades, value: CardValue::Ten},
        Card{suit: Suit::Spades, value: CardValue::Nine},
        Card{suit: Suit::Spades, value: CardValue::Eight},
        Card{suit: Suit::Spades, value: CardValue::Seven},
        Card{suit: Suit::Spades, value: CardValue::Six}
        ],
    };

    let player3 = Deck{cards: vec![
        Card{suit: Suit::Hearts, value: CardValue::Ace},
        Card{suit: Suit::Hearts, value: CardValue::King},
        Card{suit: Suit::Hearts, value: CardValue::Queen},
        Card{suit: Suit::Hearts, value: CardValue::Jack},
        Card{suit: Suit::Hearts, value: CardValue::Two},
        Card{suit: Suit::Hearts, value: CardValue::Three},
        Card{suit: Suit::Hearts, value: CardValue::Four},
        Card{suit: Suit::Hearts, value: CardValue::Seven},
        Card{suit: Suit::Hearts, value: CardValue::Six},
        ],
    };
}
