use holdem_notation::cards::{generate_all_combos, parse_board, Card, Combo, Rank};
use holdem_notation::decimal::Decimal;
use holdem_notation::error::ErrorKind;
use holdem_notation::range::{
    hand_combo_ids, parse_hand_pattern, parse_plus_notation, parse_range_notation,
    parse_single_hand, Range,
};

fn as_float(d: Decimal) -> f64 {
    d.units() as f64 / 1e18
}

fn count_hand(range: &Range, combos: &[Combo], high: Rank, low: Rank, suited: Option<bool>) -> usize {
    range
        .get_combos()
        .iter()
        .filter(|(id, _)| {
            let c = &combos[*id as usize];
            c.card1.rank() == high
                && c.card2.rank() == low
                && suited.map_or(true, |s| (c.card1.suit() == c.card2.suit()) == s)
        })
        .count()
}

#[test]
fn test_parse_single_pair() {
    let range = Range::parse("AA").unwrap();
    assert_eq!(range.len(), 6);
    assert_eq!(as_float(range.get_frequency(0)), 1.0);
}

#[test]
fn test_parse_suited() {
    let range = Range::parse("AKs").unwrap();
    assert_eq!(range.len(), 4);
}

#[test]
fn test_parse_offsuit() {
    let range = Range::parse("AKo").unwrap();
    assert_eq!(range.len(), 12);
}

#[test]
fn test_parse_with_frequency() {
    let range = Range::parse("QQ:0.5").unwrap();
    assert_eq!(range.len(), 6);
    for (_, freq) in range.get_combos() {
        assert_eq!(as_float(freq), 0.5);
    }
}

#[test]
fn range_test_parse_multiple() {
    let range = Range::parse("AA,KK,QQ").unwrap();
    assert_eq!(range.len(), 18);
}

#[test]
fn test_parse_pair_range() {
    let range = Range::parse("JJ-99").unwrap();
    assert_eq!(range.len(), 18);
}

#[test]
fn test_parse_plus_pairs() {
    let range = Range::parse("QQ+").unwrap();
    assert_eq!(range.len(), 18);
}

#[test]
fn test_filter_blocked() {
    let range = Range::parse("AA").unwrap();
    let board: Vec<Card> = vec!["Ah".parse().unwrap()];

    let filtered = range.filter_blocked(&board);
    assert_eq!(filtered.len(), 3);
}

#[test]
fn test_complex_range() {
    let range = Range::parse("AA,AKs,AKo,KK,QQ:0.5,JJ-99,AQs-ATs,KQs").unwrap();
    assert!(!range.is_empty());
    assert!(range.len() > 30);
}

#[test]
fn test_empty_range() {
    let range = Range::parse("").unwrap();
    assert!(range.is_empty());
    assert_eq!(range.len(), 0);
}

#[test]
fn test_invalid_frequency() {
    assert!(Range::parse("AA:1.5").is_err());
    assert!(Range::parse("AA:-0.1").is_err());
}

#[test]
fn test_invalid_hand() {
    assert!(Range::parse("XX").is_err());
    assert!(Range::parse("A").is_err());
    assert!(Range::parse("AKx").is_err());
}

#[test]
fn single_pair_holds_the_six_ace_pairs() {
    let range = Range::parse("AA").unwrap();
    let mut pairs = range.get_combos();
    pairs.sort_by_key(|(id, _)| *id);
    let ids: Vec<u16> = pairs.iter().map(|(id, _)| *id).collect();
    assert_eq!(ids, vec![0, 1, 2, 51, 52, 101]);
    for (_, frequency) in pairs {
        assert_eq!(frequency, Decimal::one());
        assert_eq!(as_float(frequency), 1.0);
    }
    assert_eq!(range.get_frequency(3), Decimal::zero());
    assert_eq!(as_float(range.get_frequency(1325)), 0.0);
    assert_eq!(range.get_frequency(60000), Decimal::zero());
}

#[test]
fn new_and_default_ranges_are_empty() {
    assert!(Range::new().is_empty());
    assert_eq!(Range::new().len(), 0);
    assert!(Range::default().is_empty());
    assert_eq!(Range::new().get_combos(), vec![]);
    assert!(Range::new().filter_blocked(&[]).is_empty());
    let range = Range::parse("KK").unwrap();
    assert_eq!(range.clone().get_combos(), range.get_combos());
}

#[test]
fn stray_commas_and_spaces_are_skipped() {
    assert!(Range::parse(",").unwrap().is_empty());
    assert!(Range::parse(" , ,, ").unwrap().is_empty());
    assert!(Range::parse("   ").unwrap().is_empty());
    assert_eq!(Range::parse(" AA , KK ,").unwrap().len(), 12);
    assert_eq!(Range::parse(",AA,,KK").unwrap().len(), 12);
}

#[test]
fn hand_without_modifier_takes_suited_and_offsuit() {
    assert_eq!(Range::parse("AK").unwrap().len(), 16);
    assert_eq!(Range::parse("KA").unwrap().len(), 16);
    assert_eq!(Range::parse("KAs").unwrap().len(), 4);
    assert_eq!(Range::parse("KAo").unwrap().len(), 12);
    assert_eq!(Range::parse("akS").unwrap().len(), 4);
    assert_eq!(Range::parse("t9O").unwrap().len(), 12);
    assert_eq!(Range::parse("AK").unwrap().get_combos(), Range::parse("KA").unwrap().get_combos());
    assert_eq!(Range::parse("AAo").unwrap().len(), 6);
}

#[test]
fn later_token_sets_the_frequency() {
    let range = Range::parse("AA:0.25,AA:0.75").unwrap();
    assert_eq!(range.len(), 6);
    for (_, frequency) in range.get_combos() {
        assert_eq!(as_float(frequency), 0.75);
    }
    let range = Range::parse("QQ+,KK:0.5").unwrap();
    assert_eq!(range.len(), 18);
    let combos = generate_all_combos();
    for (id, frequency) in range.get_combos() {
        let kings = combos[id as usize].card1.rank() == Rank::King;
        assert_eq!(as_float(frequency), if kings { 0.5 } else { 1.0 });
    }
}

#[test]
fn frequency_forms() {
    for text in ["AA:0", "AA:0.0", "AA:-0", "AA:.0"] {
        let range = Range::parse(text).unwrap();
        assert_eq!(range.len(), 6);
        assert_eq!(range.get_frequency(0), Decimal::zero());
    }
    for text in ["AA:1", "AA:1.0", "AA:+1", "AA:1.", "AA:01.000"] {
        assert_eq!(Range::parse(text).unwrap().get_frequency(0), Decimal::one());
    }
    assert_eq!(as_float(Range::parse("AA:.5").unwrap().get_frequency(0)), 0.5);
    assert_eq!(
        Range::parse("AA:0.123456789012345678").unwrap().get_frequency(0).units(),
        123_456_789_012_345_678
    );

    let e = Range::parse("AA:1.5").unwrap_err();
    assert_eq!(e.kind, ErrorKind::FrequencyBounds);
    assert_eq!(e.text, "1.5");
    let e = Range::parse("AA:-0.1").unwrap_err();
    assert_eq!(e.kind, ErrorKind::FrequencyBounds);
    assert_eq!(e.text, "-0.1");
    let e = Range::parse("AA:1.000000000000000001").unwrap_err();
    assert_eq!(e.kind, ErrorKind::FrequencyBounds);
    let e = Range::parse("AA:99999999999999999999999999999999999999999").unwrap_err();
    assert_eq!(e.kind, ErrorKind::FrequencyBounds);
    assert_eq!(
        Range::parse("AA:1.0000000000000000001").unwrap().get_frequency(0),
        Decimal::one()
    );
    for text in [
        "AA:-0.0000000000000000001",
        "AA:-0.000000000000000000000000000000000001",
        "AA:-1e-30",
        "AA:-1e-999999999999999999999999999999",
        "AA:-0.1",
        "AA:-inf",
        "AA:inf",
        "AA:1e1",
        "AA:11e-1",
    ] {
        let e = Range::parse(text).unwrap_err();
        assert_eq!(e.kind, ErrorKind::FrequencyBounds, "{}", text);
        assert_eq!(e.text, &text[3..]);
    }
    for text in ["AA:-0", "AA:-0.000", "AA:-0e5", "AA:-.0e-3"] {
        assert_eq!(Range::parse(text).unwrap().get_frequency(0), Decimal::zero());
    }
    assert_eq!(as_float(Range::parse("AA:5e-1").unwrap().get_frequency(0)), 0.5);
    assert_eq!(as_float(Range::parse("AA:0.05E1").unwrap().get_frequency(0)), 0.5);
    assert_eq!(Range::parse("AA:1e0").unwrap().get_frequency(0), Decimal::one());
    assert_eq!(Range::parse("AA:1e-30").unwrap().get_frequency(0), Decimal::from_units(1));
    let e = Range::parse("AA:nan").unwrap_err();
    assert_eq!(e.kind, ErrorKind::FrequencySyntax);
    let e = Range::parse("AA:1e").unwrap_err();
    assert_eq!(e.kind, ErrorKind::FrequencySyntax);
    let e = Range::parse("AA:half").unwrap_err();
    assert_eq!(e.kind, ErrorKind::FrequencySyntax);
    assert_eq!(e.text, "half");
    let e = Range::parse("AA:").unwrap_err();
    assert_eq!(e.kind, ErrorKind::FrequencySyntax);
    assert_eq!(e.text, "");
    let e = Range::parse("AA: 0.5").unwrap_err();
    assert_eq!(e.kind, ErrorKind::FrequencySyntax);
    assert_eq!(e.text, " 0.5");
    let e = Range::parse("AA:0.5:1").unwrap_err();
    assert_eq!(e.kind, ErrorKind::FrequencySyntax);
    assert_eq!(e.text, "0.5:1");
    let e = Range::parse("XX:2").unwrap_err();
    assert_eq!(e.kind, ErrorKind::FrequencyBounds);
}

#[test]
fn hand_errors_name_what_is_wrong() {
    let e = Range::parse("XX").unwrap_err();
    assert_eq!(e.kind, ErrorKind::HandRank);
    assert_eq!(e.text, "X");
    let e = Range::parse("A").unwrap_err();
    assert_eq!(e.kind, ErrorKind::HandLength);
    assert_eq!(e.text, "A");
    let e = Range::parse("AKx").unwrap_err();
    assert_eq!(e.kind, ErrorKind::HandModifier);
    assert_eq!(e.text, "x");
    let e = Range::parse("AX").unwrap_err();
    assert_eq!(e.kind, ErrorKind::HandRank);
    assert_eq!(e.text, "X");
    let e = Range::parse("AKso").unwrap_err();
    assert_eq!(e.kind, ErrorKind::HandFormat);
    assert_eq!(e.text, "AKso");
    let e = Range::parse("AAs").unwrap_err();
    assert_eq!(e.kind, ErrorKind::HandEmpty);
    assert_eq!(e.text, "AAs");
    let e = Range::parse("KK,AAs,XX").unwrap_err();
    assert_eq!(e.kind, ErrorKind::HandEmpty);
    let e = Range::parse("+").unwrap_err();
    assert_eq!(e.kind, ErrorKind::PlusLength);
    assert_eq!(e.text, "+");
    let e = Range::parse("A+").unwrap_err();
    assert_eq!(e.kind, ErrorKind::PlusLength);
    assert_eq!(e.text, "A+");
    let e = Range::parse("AXs+").unwrap_err();
    assert_eq!(e.kind, ErrorKind::HandRank);
    let e = Range::parse("A2x+").unwrap_err();
    assert_eq!(e.kind, ErrorKind::HandModifier);
    assert_eq!(e.text, "x");
    let e = Range::parse("JJ-99-77").unwrap_err();
    assert_eq!(e.kind, ErrorKind::SpanFormat);
    assert_eq!(e.text, "JJ-99-77");
    let e = Range::parse("JJ-9").unwrap_err();
    assert_eq!(e.kind, ErrorKind::SpanLength);
    assert_eq!(e.text, "JJ-9");
    let e = Range::parse("-99").unwrap_err();
    assert_eq!(e.kind, ErrorKind::SpanLength);
    let e = Range::parse("JX-99").unwrap_err();
    assert_eq!(e.kind, ErrorKind::HandRank);
    assert_eq!(e.text, "X");
    let e = Range::parse("JJ-9X").unwrap_err();
    assert_eq!(e.kind, ErrorKind::HandRank);
    let e = Range::parse("AQx-ATs").unwrap_err();
    assert_eq!(e.kind, ErrorKind::HandModifier);
    let e = Range::parse("AQs-KTs").unwrap_err();
    assert_eq!(e.kind, ErrorKind::SpanFirstRank);
    assert_eq!(e.text, "AQs-KTs");
    let e = Range::parse("AKs-AAs").unwrap_err();
    assert_eq!(e.kind, ErrorKind::HandEmpty);
    assert_eq!(e.text, "AAs");
    let e = parse_range_notation("JJ").unwrap_err();
    assert_eq!(e.kind, ErrorKind::SpanFormat);
}

#[test]
fn plus_notation_sweeps_upwards() {
    assert_eq!(Range::parse("22+").unwrap().len(), 13 * 6);
    assert_eq!(Range::parse("AA+").unwrap().len(), 6);
    assert_eq!(Range::parse("A2s+").unwrap().len(), 12 * 4);
    assert_eq!(Range::parse("ATo+").unwrap().len(), 4 * 12);
    assert_eq!(Range::parse("AT+").unwrap().len(), 4 * 16);
    assert_eq!(Range::parse("KQs+").unwrap().len(), 4);
    for text in ["2A+", "2Ks+", "KAs+", "QKo+", "2K+"] {
        let e = Range::parse(text).unwrap_err();
        assert_eq!(e.kind, ErrorKind::HandEmpty, "{}", text);
        assert_eq!(e.text, text);
        let e = parse_hand_pattern(text).unwrap_err();
        assert_eq!(e.kind, ErrorKind::HandEmpty, "{}", text);
        let e = parse_plus_notation(&text[..text.len() - 1]).unwrap_err();
        assert_eq!(e.kind, ErrorKind::HandEmpty, "{}", text);
        assert_eq!(e.text, text);
    }
    assert!(Range::parse("AA,2Ks+").is_err());
    assert_eq!(Range::parse("K2s+").unwrap().len(), 11 * 4);
    assert_eq!(Range::parse("32s+").unwrap().len(), 4);
    assert_eq!(Range::parse("22s+").unwrap().len(), 13 * 6);
    assert_eq!(Range::parse("A2sx+").unwrap().len(), 12 * 16);
    assert_eq!(parse_plus_notation("QQ").unwrap().len(), 18);
    assert_eq!(parse_plus_notation("KJs").unwrap().len(), 8);

    let combos = generate_all_combos();
    let range = Range::parse("KTs+").unwrap();
    assert_eq!(range.len(), 12);
    assert_eq!(count_hand(&range, &combos, Rank::King, Rank::Ten, Some(true)), 4);
    assert_eq!(count_hand(&range, &combos, Rank::King, Rank::Jack, Some(true)), 4);
    assert_eq!(count_hand(&range, &combos, Rank::King, Rank::Queen, Some(true)), 4);
}

#[test]
fn spans_sweep_between_both_ends() {
    assert_eq!(Range::parse("99-JJ").unwrap().len(), 18);
    assert_eq!(
        Range::parse("99-JJ").unwrap().get_combos(),
        Range::parse("JJ-99").unwrap().get_combos()
    );
    assert_eq!(Range::parse("AQs-ATs").unwrap().len(), 12);
    assert_eq!(Range::parse("ATs-AQs").unwrap().len(), 12);
    assert_eq!(Range::parse("AQo-ATo").unwrap().len(), 36);
    assert_eq!(Range::parse("AQ-AT").unwrap().len(), 48);
    assert_eq!(Range::parse("AQs-ATo").unwrap().len(), 12);
    assert_eq!(Range::parse("TT-TT").unwrap().len(), 6);
    assert_eq!(Range::parse("KQ-KA").unwrap().len(), 16 + 6 + 16);
    assert_eq!(parse_range_notation("JJ-99").unwrap().len(), 18);

    let combos = generate_all_combos();
    let range = Range::parse("JJ-99").unwrap();
    assert_eq!(count_hand(&range, &combos, Rank::Jack, Rank::Jack, None), 6);
    assert_eq!(count_hand(&range, &combos, Rank::Ten, Rank::Ten, None), 6);
    assert_eq!(count_hand(&range, &combos, Rank::Nine, Rank::Nine, None), 6);
}

#[test]
fn pattern_functions_return_ids_in_enumeration_order() {
    let combos = generate_all_combos();
    assert_eq!(parse_single_hand("AA", &combos).unwrap(), vec![0, 1, 2, 51, 52, 101]);
    assert_eq!(parse_single_hand("AKs", &combos).unwrap(), vec![3, 54, 104, 153]);
    assert_eq!(parse_hand_pattern("AA").unwrap(), vec![0, 1, 2, 51, 52, 101]);
    assert_eq!(parse_hand_pattern("AA+").unwrap(), vec![0, 1, 2, 51, 52, 101]);
    assert_eq!(parse_hand_pattern("AA-AA").unwrap(), vec![0, 1, 2, 51, 52, 101]);
    assert_eq!(
        hand_combo_ids(Rank::Ace, Rank::King, Some(true), &combos),
        hand_combo_ids(Rank::King, Rank::Ace, Some(true), &combos)
    );
    assert_eq!(hand_combo_ids(Rank::Ace, Rank::Ace, Some(true), &combos), vec![]);
    assert_eq!(parse_single_hand("AA", &combos[..2]).unwrap(), vec![0, 1]);
    let e = parse_single_hand("KK", &combos[..2]).unwrap_err();
    assert_eq!(e.kind, ErrorKind::HandEmpty);
    assert_eq!(e.text, "KK");
    let kings_first: Vec<u16> = parse_hand_pattern("KK-AA").unwrap();
    assert_eq!(kings_first.len(), 12);
    assert!(kings_first[..6].iter().all(|id| combos[*id as usize].card1.rank() == Rank::King));
    assert!(kings_first[6..].iter().all(|id| combos[*id as usize].card1.rank() == Rank::Ace));
}

#[test]
fn entries_come_out_by_number_with_their_frequency() {
    let range = Range::parse("22+:0.3,AKs").unwrap();
    let pairs = range.get_combos();
    assert_eq!(pairs.len(), range.len());
    for window in pairs.windows(2) {
        assert!(window[0].0 < window[1].0);
    }
    for (id, frequency) in &pairs {
        assert!(*id < 1326);
        assert_eq!(range.get_frequency(*id), *frequency);
        assert!(frequency.is_fraction());
    }
}

#[test]
fn filtering_a_range_keeps_frequencies() {
    let combos = generate_all_combos();
    let range = Range::parse("QQ:0.5,AKs").unwrap();
    let board = parse_board("Qc As").unwrap();
    let filtered = range.filter_blocked(&board);
    assert_eq!(filtered.len(), 3 + 3);
    for (id, frequency) in filtered.get_combos() {
        assert!(!combos[id as usize].is_blocked_by(&board));
        assert_eq!(frequency, range.get_frequency(id));
    }
    assert_eq!(range.filter_blocked(&[]).get_combos(), range.get_combos());
    assert_eq!(range.len(), 10);
}

#[test]
fn combined_range_on_a_flop() {
    let combos = generate_all_combos();
    let range = Range::parse("AA,AKs,AKo,KK,QQ:0.5,JJ-99,AQs-ATs,KQs").unwrap();
    assert_eq!(range.len(), 6 + 4 + 12 + 6 + 6 + 18 + 12 + 4);
    let board = parse_board("Ah Kd Qc").unwrap();
    let filtered = range.filter_blocked(&board);
    assert_eq!(filtered.len(), 46);
    assert_eq!(count_hand(&filtered, &combos, Rank::Ace, Rank::Ace, None), 3);
    assert_eq!(count_hand(&filtered, &combos, Rank::Ace, Rank::King, Some(true)), 2);
    assert_eq!(count_hand(&filtered, &combos, Rank::Ace, Rank::King, Some(false)), 7);
    assert_eq!(count_hand(&filtered, &combos, Rank::King, Rank::King, None), 3);
    assert_eq!(count_hand(&filtered, &combos, Rank::Queen, Rank::Queen, None), 3);
    assert_eq!(count_hand(&filtered, &combos, Rank::Ace, Rank::Queen, Some(true)), 2);
    assert_eq!(count_hand(&filtered, &combos, Rank::Ace, Rank::Jack, Some(true)), 3);
    assert_eq!(count_hand(&filtered, &combos, Rank::Ace, Rank::Ten, Some(true)), 3);
    assert_eq!(count_hand(&filtered, &combos, Rank::King, Rank::Queen, Some(true)), 2);
    assert_eq!(count_hand(&filtered, &combos, Rank::Jack, Rank::Jack, None), 6);
    assert_eq!(count_hand(&filtered, &combos, Rank::Ten, Rank::Ten, None), 6);
    assert_eq!(count_hand(&filtered, &combos, Rank::Nine, Rank::Nine, None), 6);
    for (id, frequency) in filtered.get_combos() {
        let queens = combos[id as usize].card1.rank() == Rank::Queen
            && combos[id as usize].card2.rank() == Rank::Queen;
        assert_eq!(as_float(frequency), if queens { 0.5 } else { 1.0 });
    }
}
