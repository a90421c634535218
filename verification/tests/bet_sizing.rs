use holdem_notation::bet_sizing::{
    parse_bet_size_string, parse_single_bet_size, BetSize, BetSizeConfig, BetSizes,
};
use holdem_notation::decimal::Decimal;
use holdem_notation::error::ErrorKind;

fn percent(value: f64) -> BetSize {
    BetSize::Percent(Decimal::parse(&format!("{}", value)).unwrap())
}

fn config(bets: &str, raises: &str) -> BetSizeConfig {
    BetSizeConfig::from_bet_sizes(&BetSizes {
        oop_bet: bets.to_string(),
        oop_raise: raises.to_string(),
        ip_bet: bets.to_string(),
        ip_raise: raises.to_string(),
    })
    .unwrap()
}

#[test]
fn test_parse_single_percent() {
    let size = parse_single_bet_size("33").unwrap();
    assert_eq!(size, percent(33.0));
}

#[test]
fn test_parse_allin() {
    assert_eq!(parse_single_bet_size("a").unwrap(), BetSize::AllIn);
    assert_eq!(parse_single_bet_size("allin").unwrap(), BetSize::AllIn);
    assert_eq!(parse_single_bet_size("ALLIN").unwrap(), BetSize::AllIn);
}

#[test]
fn bet_sizing_test_parse_multiple() {
    let sizes = parse_bet_size_string("33, 67, a").unwrap();
    assert_eq!(sizes.len(), 3);
    assert_eq!(sizes[0], percent(33.0));
    assert_eq!(sizes[1], percent(67.0));
    assert_eq!(sizes[2], BetSize::AllIn);
}

#[test]
fn test_parse_decimal() {
    let size = parse_single_bet_size("33.5").unwrap();
    assert_eq!(size, percent(33.5));
}

#[test]
fn test_calculate_percent() {
    let size = percent(33.0);
    assert_eq!(size.calculate(100, 200), 33);
    assert_eq!(size.calculate(100, 20), 20);
}

#[test]
fn test_calculate_allin() {
    let size = BetSize::AllIn;
    assert_eq!(size.calculate(100, 50), 50);
}

#[test]
fn test_get_bet_amounts() {
    let config = BetSizeConfig::default();
    let amounts = config.get_bet_amounts(true, 20, 100);

    assert_eq!(amounts.len(), 3);
    assert!(amounts.contains(&7) || amounts.contains(&6));
    assert!(amounts.contains(&13) || amounts.contains(&14));
    assert!(amounts.contains(&100));
}

#[test]
fn test_get_raise_amounts() {
    let config = BetSizeConfig::default();
    let amounts = config.get_raise_amounts(true, 20, 10, 100);

    assert!(amounts.len() >= 1);
    assert!(amounts.contains(&100));
}

#[test]
fn test_invalid_bet_size() {
    assert!(parse_single_bet_size("xyz").is_err());
    assert!(parse_single_bet_size("-10").is_err());
    assert!(parse_single_bet_size("0").is_err());
}

#[test]
fn test_empty_string() {
    assert!(parse_bet_size_string("").is_err());
    assert!(parse_bet_size_string("   ").is_err());
}

#[test]
fn test_from_bet_sizes_model() {
    let model = BetSizes {
        oop_bet: "33, 67, a".to_string(),
        oop_raise: "50, a".to_string(),
        ip_bet: "33, 67, a".to_string(),
        ip_raise: "50, a".to_string(),
    };

    let config = BetSizeConfig::from_bet_sizes(&model).unwrap();
    assert_eq!(config.oop_bet.len(), 3);
    assert_eq!(config.oop_raise.len(), 2);
}

#[test]
fn percent_holds_the_number_written() {
    assert_eq!(parse_single_bet_size("33").unwrap(), BetSize::Percent(Decimal::from_integer(33)));
    assert_eq!(
        parse_single_bet_size("33.5").unwrap(),
        BetSize::Percent(Decimal::from_units(33_500_000_000_000_000_000))
    );
    assert_eq!(parse_single_bet_size(" 150 ").unwrap(), percent(150.0));
    assert_eq!(parse_single_bet_size("+2.50").unwrap(), percent(2.5));
    assert_eq!(
        parse_single_bet_size("0.000000000000000001").unwrap(),
        BetSize::Percent(Decimal::from_units(1))
    );
    for text in ["0.0000000000000000001", "1e-19", "1e-400", "0.00000000000000000000000000009"] {
        let tiny = parse_single_bet_size(text).unwrap();
        assert_eq!(tiny, BetSize::Percent(Decimal::from_units(1)), "{}", text);
        assert_eq!(tiny.calculate(u32::MAX, u32::MAX), 0);
    }
    assert_eq!(parse_single_bet_size("3.3e1").unwrap(), percent(33.0));
    assert_eq!(parse_single_bet_size("330E-1").unwrap(), percent(33.0));
    assert_eq!(parse_single_bet_size("1e2").unwrap(), percent(100.0));
    for text in ["inf", "Infinity", "+INF", "1e999"] {
        let all = parse_single_bet_size(text).unwrap();
        assert_eq!(all, BetSize::Percent(Decimal::from_units(i128::MAX)), "{}", text);
        assert_eq!(all.calculate(1, 77), 77);
        assert_eq!(all.calculate(0, 77), 0);
    }
}

#[test]
fn all_in_marker_in_any_case() {
    for text in ["a", "A", "allin", "ALLIN", "AllIn", " a ", "\tallin\n"] {
        assert_eq!(parse_single_bet_size(text).unwrap(), BetSize::AllIn);
    }
    for text in ["al", "all", "allinn", "all in", "aa", "b"] {
        let e = parse_single_bet_size(text).unwrap_err();
        assert_eq!(e.kind, ErrorKind::BetSizeSyntax);
    }
}

#[test]
fn bet_size_errors_name_what_is_wrong() {
    let e = parse_single_bet_size("xyz").unwrap_err();
    assert_eq!(e.kind, ErrorKind::BetSizeSyntax);
    assert_eq!(e.text, "xyz");
    let e = parse_single_bet_size("-10").unwrap_err();
    assert_eq!(e.kind, ErrorKind::BetSizeSign);
    assert_eq!(e.text, "-10");
    let e = parse_single_bet_size(" 0 ").unwrap_err();
    assert_eq!(e.kind, ErrorKind::BetSizeSign);
    assert_eq!(e.text, "0");
    let e = parse_single_bet_size("0.0").unwrap_err();
    assert_eq!(e.kind, ErrorKind::BetSizeSign);
    let e = parse_single_bet_size("-0.0000000000000000001").unwrap_err();
    assert_eq!(e.kind, ErrorKind::BetSizeSign);
    let e = parse_single_bet_size("0e5").unwrap_err();
    assert_eq!(e.kind, ErrorKind::BetSizeSign);
    let e = parse_single_bet_size("-inf").unwrap_err();
    assert_eq!(e.kind, ErrorKind::BetSizeSign);
    let e = parse_single_bet_size("nan").unwrap_err();
    assert_eq!(e.kind, ErrorKind::BetSizeSyntax);
    let e = parse_single_bet_size("3e").unwrap_err();
    assert_eq!(e.kind, ErrorKind::BetSizeSyntax);
    let e = parse_single_bet_size("").unwrap_err();
    assert_eq!(e.kind, ErrorKind::BetSizeSyntax);
    assert_eq!(e.text, "");
    let e = parse_single_bet_size("33%").unwrap_err();
    assert_eq!(e.kind, ErrorKind::BetSizeSyntax);
    let e = parse_bet_size_string("").unwrap_err();
    assert_eq!(e.kind, ErrorKind::BetSizeEmpty);
    assert_eq!(e.text, "");
    let e = parse_bet_size_string(" , ,").unwrap_err();
    assert_eq!(e.kind, ErrorKind::BetSizeEmpty);
    assert_eq!(e.text, " , ,");
    let e = parse_bet_size_string("33, x, -1").unwrap_err();
    assert_eq!(e.kind, ErrorKind::BetSizeSyntax);
    assert_eq!(e.text, "x");
    let e = parse_bet_size_string("33, 0, x").unwrap_err();
    assert_eq!(e.kind, ErrorKind::BetSizeSign);
}

#[test]
fn lists_keep_their_order() {
    assert_eq!(
        parse_bet_size_string("a,67,33,67").unwrap(),
        vec![BetSize::AllIn, percent(67.0), percent(33.0), percent(67.0)]
    );
    assert_eq!(parse_bet_size_string(",33,,").unwrap(), vec![percent(33.0)]);
    assert_eq!(parse_bet_size_string("  75  ").unwrap(), vec![percent(75.0)]);
}

#[test]
fn default_config_is_the_default_lists() {
    let config = BetSizeConfig::default();
    assert_eq!(config.oop_bet, parse_bet_size_string("33, 67, a").unwrap());
    assert_eq!(config.oop_raise, parse_bet_size_string("50, a").unwrap());
    assert_eq!(config.ip_bet, parse_bet_size_string("33, 67, a").unwrap());
    assert_eq!(config.ip_raise, parse_bet_size_string("50, a").unwrap());
    let written = BetSizes::default();
    assert_eq!(written.oop_bet, "33, 67, a");
    assert_eq!(written.oop_raise, "50, a");
    assert_eq!(written.ip_bet, "33, 67, a");
    assert_eq!(written.ip_raise, "50, a");
    let read = BetSizeConfig::from_bet_sizes(&written).unwrap();
    assert_eq!(read.oop_bet, config.oop_bet);
    assert_eq!(read.ip_raise, config.ip_raise);
}

#[test]
fn config_reports_the_first_list_at_fault() {
    let model = BetSizes {
        oop_bet: "33".to_string(),
        oop_raise: "".to_string(),
        ip_bet: "x".to_string(),
        ip_raise: "-1".to_string(),
    };
    let e = BetSizeConfig::from_bet_sizes(&model).unwrap_err();
    assert_eq!(e.kind, ErrorKind::BetSizeEmpty);
    let model = BetSizes {
        oop_bet: "33".to_string(),
        oop_raise: "a".to_string(),
        ip_bet: "x".to_string(),
        ip_raise: "-1".to_string(),
    };
    let e = BetSizeConfig::from_bet_sizes(&model).unwrap_err();
    assert_eq!(e.kind, ErrorKind::BetSizeSyntax);
    assert_eq!(e.text, "x");
}

#[test]
fn bet_amounts_round_half_up_and_cap_at_stack() {
    assert_eq!(BetSizeConfig::default().get_bet_amounts(true, 20, 100), vec![7, 13, 100]);
    assert_eq!(BetSizeConfig::default().get_bet_amounts(false, 20, 100), vec![7, 13, 100]);
    assert_eq!(percent(33.0).calculate(20, 100), 7);
    assert_eq!(percent(67.0).calculate(20, 100), 13);
    assert_eq!(percent(50.0).calculate(1, 100), 1);
    assert_eq!(percent(50.0).calculate(3, 100), 2);
    assert_eq!(percent(49.0).calculate(1, 100), 0);
    assert_eq!(percent(2.5).calculate(20, 100), 1);
    assert_eq!(percent(2.49).calculate(20, 100), 0);
    assert_eq!(percent(32.3).calculate(500, 1000), 162);
    assert_eq!(percent(33.3).calculate(500, 1000), 167);
    assert_eq!(percent(0.1).calculate(500, 1000), 1);
    assert_eq!(percent(0.1).calculate(499, 1000), 0);
    assert_eq!(percent(150.0).calculate(100, 120), 120);
    assert_eq!(percent(150.0).calculate(100, 150), 150);
    assert_eq!(percent(100.0).calculate(u32::MAX, u32::MAX), u32::MAX);
    assert_eq!(percent(1e19).calculate(u32::MAX, u32::MAX), u32::MAX);
    assert_eq!(percent(1e19).calculate(u32::MAX, 5), 5);
    let huge = parse_single_bet_size("1000000000000000000000000000000000000000000").unwrap();
    assert_eq!(huge, BetSize::Percent(Decimal::from_units(i128::MAX)));
    assert_eq!(huge.calculate(1, 77), 77);
    assert_eq!(huge.calculate(0, 77), 0);
    assert_eq!(percent(33.0).calculate(0, 100), 0);
    assert_eq!(BetSize::Percent(Decimal::zero()).calculate(100, 100), 0);
    assert_eq!(BetSize::Percent(Decimal::from_units(-1)).calculate(100, 100), 0);
    assert_eq!(BetSize::AllIn.calculate(0, 0), 0);
}

#[test]
fn bet_amounts_drop_zero_and_keep_duplicates() {
    let sizes = config("1, 33, 33, 500, a", "a");
    assert_eq!(sizes.get_bet_amounts(true, 20, 50), vec![7, 7, 50, 50]);
    assert_eq!(sizes.get_bet_amounts(true, 0, 50), vec![50]);
    assert_eq!(sizes.get_bet_amounts(true, 20, 0), vec![]);
    assert_eq!(sizes.get_bet_amounts(true, 20, 5), vec![5, 5, 5, 5]);
}

#[test]
fn raise_amounts_exceed_the_call_and_fit_the_stack() {
    assert_eq!(BetSizeConfig::default().get_raise_amounts(true, 20, 10, 100), vec![25, 100]);
    assert_eq!(BetSizeConfig::default().get_raise_amounts(false, 20, 10, 100), vec![25, 100]);
    for amount in BetSizeConfig::default().get_raise_amounts(true, 20, 10, 100) {
        assert!(amount > 10);
        assert!(amount <= 100);
    }
    let sizes = config("a", "1, 50, 100, 300, a");
    assert_eq!(sizes.get_raise_amounts(true, 20, 10, 100), vec![25, 40, 100, 100]);
    assert_eq!(sizes.get_raise_amounts(true, 20, 10, 99), vec![25, 40, 99]);
    assert_eq!(sizes.get_raise_amounts(true, 20, 10, 10), vec![]);
    assert_eq!(sizes.get_raise_amounts(true, 20, 10, 5), vec![]);
    assert_eq!(sizes.get_raise_amounts(true, 0, 0, 100), vec![100]);
    assert_eq!(
        sizes.get_raise_amounts(true, u32::MAX, u32::MAX, u32::MAX),
        vec![]
    );
    assert_eq!(
        sizes.get_raise_amounts(true, u32::MAX, 1, u32::MAX),
        vec![42949674, 2147483649, u32::MAX]
    );
}
