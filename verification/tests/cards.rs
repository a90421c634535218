use holdem_notation::cards::{
    filter_blocked_combos, generate_all_combos, parse_board, Card, Combo, Rank, Suit,
};
use holdem_notation::error::ErrorKind;

fn card(s: &str) -> Card {
    s.parse().unwrap()
}

#[test]
fn test_rank_conversion() {
    assert_eq!(Rank::Ace.to_char(), 'A');
    assert_eq!(Rank::from_char('A'), Some(Rank::Ace));
    assert_eq!(Rank::from_char('a'), Some(Rank::Ace));
    assert_eq!(Rank::from_char('K'), Some(Rank::King));
    assert_eq!(Rank::from_char('2'), Some(Rank::Two));
    assert_eq!(Rank::from_char('X'), None);
}

#[test]
fn test_suit_conversion() {
    assert_eq!(Suit::Hearts.to_char(), 'h');
    assert_eq!(Suit::from_char('h'), Some(Suit::Hearts));
    assert_eq!(Suit::from_char('H'), Some(Suit::Hearts));
    assert_eq!(Suit::from_char('s'), Some(Suit::Spades));
    assert_eq!(Suit::from_char('X'), None);
}

#[test]
fn test_card_creation() {
    let card = Card::new(Rank::Ace, Suit::Hearts);
    assert_eq!(card.rank(), Rank::Ace);
    assert_eq!(card.suit(), Suit::Hearts);
    assert_eq!(card.to_string(), "Ah");
}

#[test]
fn test_card_parsing() {
    let card: Card = "Ah".parse().unwrap();
    assert_eq!(card.rank(), Rank::Ace);
    assert_eq!(card.suit(), Suit::Hearts);

    let card: Card = "2c".parse().unwrap();
    assert_eq!(card.rank(), Rank::Two);
    assert_eq!(card.suit(), Suit::Clubs);

    assert!("X".parse::<Card>().is_err());
    assert!("Ahh".parse::<Card>().is_err());
}

#[test]
fn test_combo_generation() {
    let combos = generate_all_combos();
    assert_eq!(combos.len(), 1326);

    let first = combos.first().unwrap();
    assert_eq!(first.card1.rank(), Rank::Ace);
    assert_eq!(first.card2.rank(), Rank::Ace);
    assert_eq!(first.id, 0);

    let last = combos.last().unwrap();
    assert_eq!(last.card1.rank(), Rank::Two);
    assert_eq!(last.card2.rank(), Rank::Two);
    assert_eq!(last.id, 1325);
}

#[test]
fn test_blocking() {
    let combos = generate_all_combos();
    let board: Vec<Card> = vec!["Ah".parse().unwrap(), "Kd".parse().unwrap()];

    let unblocked = filter_blocked_combos(&combos, &board);

    assert!(unblocked.len() < combos.len());

    for combo in &unblocked {
        assert!(!combo.is_blocked_by(&board));
    }

    let aa_combos: Vec<_> = unblocked
        .iter()
        .filter(|c| c.card1.rank() == Rank::Ace && c.card2.rank() == Rank::Ace)
        .collect();
    assert_eq!(aa_combos.len(), 3);
}

#[test]
fn test_parse_board_space_separated() {
    let board = parse_board("Ah Kd Qc").unwrap();
    assert_eq!(board.len(), 3);
    assert_eq!(board[0].to_string(), "Ah");
    assert_eq!(board[1].to_string(), "Kd");
    assert_eq!(board[2].to_string(), "Qc");
}

#[test]
fn test_parse_board_concatenated() {
    let board = parse_board("AhKdQc").unwrap();
    assert_eq!(board.len(), 3);
    assert_eq!(board[0].to_string(), "Ah");
    assert_eq!(board[1].to_string(), "Kd");
    assert_eq!(board[2].to_string(), "Qc");
}

#[test]
fn test_parse_board_invalid() {
    assert!(parse_board("AhKdQ").is_err());
    assert!(parse_board("Ah Xd").is_err());
}

#[test]
fn rank_characters_round_trip() {
    let symbols = ['2', '3', '4', '5', '6', '7', '8', '9', 'T', 'J', 'Q', 'K', 'A'];
    let ranks = Rank::all();
    assert_eq!(ranks.len(), 13);
    for (i, rank) in ranks.iter().enumerate() {
        assert_eq!(rank.to_char(), symbols[i]);
        assert_eq!(rank.to_string(), symbols[i].to_string());
        assert_eq!(Rank::from_char(symbols[i]), Some(*rank));
        assert_eq!(Rank::from_char(symbols[i].to_ascii_lowercase()), Some(*rank));
        assert_eq!(rank.index() as usize, i);
        assert_eq!(Rank::from_index(i as u8), Some(*rank));
    }
    assert_eq!(Rank::from_index(13), None);
    assert_eq!(Rank::from_char('1'), None);
    assert_eq!(Rank::from_char('0'), None);
    assert!(Rank::Two < Rank::Three);
    assert!(Rank::King < Rank::Ace);
}

#[test]
fn suit_characters_round_trip() {
    let symbols = ['c', 'd', 'h', 's'];
    let suits = Suit::all();
    assert_eq!(suits, [Suit::Clubs, Suit::Diamonds, Suit::Hearts, Suit::Spades]);
    for (i, suit) in suits.iter().enumerate() {
        assert_eq!(suit.to_char(), symbols[i]);
        assert_eq!(suit.to_string(), symbols[i].to_string());
        assert_eq!(Suit::from_char(symbols[i]), Some(*suit));
        assert_eq!(Suit::from_char(symbols[i].to_ascii_uppercase()), Some(*suit));
        assert_eq!(suit.index() as usize, i);
        assert_eq!(Suit::from_index(i as u8), Some(*suit));
    }
    assert_eq!(Suit::from_index(4), None);
}

#[test]
fn card_value_is_four_times_rank_plus_suit() {
    assert_eq!(Card::new(Rank::Two, Suit::Clubs).value(), 0);
    assert_eq!(Card::new(Rank::Two, Suit::Spades).value(), 3);
    assert_eq!(Card::new(Rank::Three, Suit::Clubs).value(), 4);
    assert_eq!(Card::new(Rank::Ace, Suit::Hearts).value(), 50);
    assert_eq!(Card::new(Rank::Ace, Suit::Spades).value(), 51);
    for value in 0..52u8 {
        let card = Card::from_value(value).unwrap();
        assert_eq!(card.value(), value);
        assert_eq!(card.rank().index(), value / 4);
        assert_eq!(card.suit().index(), value % 4);
    }
    assert_eq!(Card::from_value(52), None);
    assert_eq!(Card::from_value(255), None);
    assert!(Card::new(Rank::Two, Suit::Spades) < Card::new(Rank::Three, Suit::Clubs));
    assert!(Card::new(Rank::Ace, Suit::Hearts) < Card::new(Rank::Ace, Suit::Spades));
}

#[test]
fn card_text_round_trips_for_every_card() {
    for value in 0..52u8 {
        let card = Card::from_value(value).unwrap();
        let text = card.to_string();
        assert_eq!(text.chars().count(), 2);
        assert_eq!(Card::parse(&text).unwrap(), card);
        assert_eq!(Card::parse(&text.to_lowercase()).unwrap(), card);
        assert_eq!(Card::parse(&text.to_uppercase()).unwrap(), card);
    }
    assert_eq!(card("tS").to_string(), "Ts");
    assert_eq!(card("aH").to_string(), "Ah");
}

#[test]
fn card_errors_name_what_is_wrong() {
    let e = Card::parse("Ahh").unwrap_err();
    assert_eq!(e.kind, ErrorKind::CardLength);
    assert_eq!(e.text, "Ahh");
    let e = Card::parse("").unwrap_err();
    assert_eq!(e.kind, ErrorKind::CardLength);
    assert_eq!(e.text, "");
    let e = Card::parse("Xh").unwrap_err();
    assert_eq!(e.kind, ErrorKind::CardRank);
    assert_eq!(e.text, "X");
    let e = Card::parse("Ax").unwrap_err();
    assert_eq!(e.kind, ErrorKind::CardSuit);
    assert_eq!(e.text, "x");
    let e = Card::parse("XX").unwrap_err();
    assert_eq!(e.kind, ErrorKind::CardRank);
    let e = Card::parse(" Ah").unwrap_err();
    assert_eq!(e.kind, ErrorKind::CardLength);
}

#[test]
fn combos_are_numbered_in_enumeration_order() {
    let combos = generate_all_combos();
    for (k, combo) in combos.iter().enumerate() {
        assert_eq!(combo.id as usize, k);
        assert!(combo.card1.value() > combo.card2.value());
    }
    assert_eq!(combos[0].to_string(), "AsAh");
    assert_eq!(combos[1].to_string(), "AsAd");
    assert_eq!(combos[2].to_string(), "AsAc");
    assert_eq!(combos[3].to_string(), "AsKs");
    assert_eq!(combos[50].to_string(), "As2c");
    assert_eq!(combos[51].to_string(), "AhAd");
    assert_eq!(combos[101].to_string(), "AdAc");
    assert_eq!(combos[1324].to_string(), "2h2c");
    assert_eq!(combos[1325].to_string(), "2d2c");
    assert_eq!(combos[1325].cards(), [card("2d"), card("2c")]);
}

#[test]
fn combos_are_all_distinct_pairs() {
    let combos = generate_all_combos();
    let mut seen = [[false; 52]; 52];
    for combo in &combos {
        let a = combo.card1.value() as usize;
        let b = combo.card2.value() as usize;
        assert_ne!(a, b);
        assert!(!seen[a][b]);
        assert!(!seen[b][a]);
        seen[a][b] = true;
        seen[b][a] = true;
    }
    for a in 0..52 {
        for b in 0..52 {
            assert_eq!(seen[a][b], a != b);
        }
    }
}

#[test]
fn enumeration_is_the_same_on_every_call() {
    assert_eq!(generate_all_combos(), generate_all_combos());
}

#[test]
fn blocking_is_membership_of_either_card() {
    let combo = Combo::new(card("Ah"), card("Kd"), 7);
    assert_eq!(combo.id, 7);
    assert!(combo.is_blocked_by(&[card("Ah")]));
    assert!(combo.is_blocked_by(&[card("2c"), card("Kd")]));
    assert!(combo.is_blocked_by(&[card("Kd"), card("Kd"), card("Kd")]));
    assert!(!combo.is_blocked_by(&[card("As"), card("Kh")]));
    assert!(!combo.is_blocked_by(&[]));
}

#[test]
fn filtering_keeps_order_and_drops_blocked() {
    let combos = generate_all_combos();
    let board = [card("Ah"), card("Kd")];
    let kept = filter_blocked_combos(&combos, &board);
    assert_eq!(kept.len(), 1326 - 51 - 51 + 1);
    for pair in kept.windows(2) {
        assert!(pair[0].id < pair[1].id);
    }
    for combo in &kept {
        assert_ne!(combo.card1, board[0]);
        assert_ne!(combo.card2, board[0]);
        assert_ne!(combo.card1, board[1]);
        assert_ne!(combo.card2, board[1]);
    }
    let aces_before = combos
        .iter()
        .filter(|c| c.card1.rank() == Rank::Ace && c.card2.rank() == Rank::Ace)
        .count();
    assert_eq!(aces_before, 6);
    assert_eq!(filter_blocked_combos(&combos, &[]), combos);
    assert_eq!(filter_blocked_combos(&[], &board), vec![]);
}

#[test]
fn board_forms_and_edge_cases() {
    assert_eq!(parse_board("").unwrap(), vec![]);
    assert_eq!(parse_board("   ").unwrap(), vec![]);
    assert_eq!(parse_board("  AhKd  ").unwrap(), vec![card("Ah"), card("Kd")]);
    assert_eq!(parse_board("Ah   Kd\tQc").unwrap(), vec![card("Ah"), card("Kd"), card("Qc")]);
    assert_eq!(parse_board("Ah Ah").unwrap(), vec![card("Ah"), card("Ah")]);
    assert_eq!(parse_board("AhAh").unwrap(), vec![card("Ah"), card("Ah")]);
    assert_eq!(parse_board("ah kd").unwrap(), vec![card("Ah"), card("Kd")]);

    let e = parse_board("AhKdQ").unwrap_err();
    assert_eq!(e.kind, ErrorKind::BoardLength);
    assert_eq!(e.text, "AhKdQ");
    let e = parse_board("Ah Xd").unwrap_err();
    assert_eq!(e.kind, ErrorKind::CardRank);
    assert_eq!(e.text, "X");
    let e = parse_board("AhKx").unwrap_err();
    assert_eq!(e.kind, ErrorKind::CardSuit);
    assert_eq!(e.text, "x");
    let e = parse_board("Ah KdQc").unwrap_err();
    assert_eq!(e.kind, ErrorKind::CardLength);
    assert_eq!(e.text, "KdQc");
    let e = parse_board("Ah\tKd").unwrap_err();
    assert_eq!(e.kind, ErrorKind::BoardLength);
}
