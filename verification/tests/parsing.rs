use postflop_session::SolverError;
use postflop_session::card::{card_from_str, flop_from_str, card_to_string, hole_to_string, u64_to_string};
use postflop_session::range::parse_range;
use postflop_session::bet::BetSizeOptions;

#[test]
fn card_parse_basic() {
    assert_eq!(card_from_str("2c").unwrap(), 0);
    assert_eq!(card_from_str("Ah").unwrap(), 12 * 4 + 2);
    assert_eq!(card_from_str("As").unwrap(), 51);
    assert_eq!(card_from_str("Td").unwrap(), 8 * 4 + 1);
}

#[test]
fn card_parse_rejects_malformed() {
    assert!(matches!(card_from_str("Ax"), Err(SolverError::Parse { .. })));
    assert!(matches!(card_from_str("A"), Err(SolverError::Parse { .. })));
    assert!(matches!(card_from_str("1h"), Err(SolverError::Parse { .. })));
    assert!(matches!(card_from_str("Ahh"), Err(SolverError::Parse { .. })));
}

#[test]
fn card_format_round_trip() {
    for c in 0u8..52 {
        let s = card_to_string(c);
        assert_eq!(card_from_str(&s).unwrap(), c);
    }
}

#[test]
fn flop_parse_three_distinct() {
    let f = flop_from_str("Ah Kd 2c").unwrap();
    assert_eq!(f, vec![12 * 4 + 2, 11 * 4 + 1, 0]);
}

#[test]
fn flop_parse_rejects_duplicates_and_counts() {
    assert!(matches!(flop_from_str("Ah Ah 2c"), Err(SolverError::Parse { .. })));
    assert!(matches!(flop_from_str("Ah Kd"), Err(SolverError::Parse { .. })));
    assert!(matches!(flop_from_str("Ah Kd 2c 3d"), Err(SolverError::Parse { .. })));
}

#[test]
fn range_parse_weights() {
    let r = parse_range("AA,KQs:0.5").unwrap();
    // two aces: both combos of ranks carry the full scale
    assert_eq!(r.weight_of(48, 49), 1000);
    // suited king-queen of clubs: half
    assert_eq!(r.weight_of(40, 44), 500);
    // offsuit king-queen: not in the range
    assert_eq!(r.weight_of(40, 45), 0);
}

#[test]
fn range_parse_deterministic() {
    let r1 = parse_range("AA,KQs:0.5,T9o").unwrap();
    let r2 = parse_range("AA,KQs:0.5,T9o").unwrap();
    assert_eq!(r1.toks, r2.toks);
    for a in 0u8..52 {
        for b in (a + 1)..52 {
            assert_eq!(r1.weight_of(a, b), r2.weight_of(a, b));
        }
    }
}

#[test]
fn range_last_token_wins() {
    let r = parse_range("AA,AA:0.25").unwrap();
    assert_eq!(r.weight_of(48, 49), 250);
}

#[test]
fn range_rejects_bad_token() {
    match parse_range("AA,XX") {
        Err(SolverError::Parse { argument, token }) => {
            assert_eq!(argument, "range");
            assert_eq!(token, "XX");
        },
        other => panic!("expected a parse error, got {:?}", other.is_ok()),
    }
}

#[test]
fn bet_sizes_parse() {
    let o = BetSizeOptions::parse("50%,125%,allin", "60%,a").unwrap();
    assert_eq!(o.bet.len(), 3);
    assert_eq!(o.raise.len(), 2);
    assert!(BetSizeOptions::parse("", "").is_ok());
}

#[test]
fn bet_sizes_reject_bad_tokens() {
    assert!(matches!(BetSizeOptions::parse("50%,nope", ""), Err(SolverError::Parse { .. })));
    assert!(matches!(BetSizeOptions::parse("0%", ""), Err(SolverError::Parse { .. })));
    assert!(matches!(BetSizeOptions::parse("10001%", ""), Err(SolverError::Parse { .. })));
}

#[test]
fn hole_and_number_formatting() {
    assert_eq!(hole_to_string(48, 51), "AsAc");
    assert_eq!(u64_to_string(0), "0");
    assert_eq!(u64_to_string(105), "105");
    assert_eq!(u64_to_string(1000000), "1000000");
}

#[test]
fn error_message_names_token() {
    match parse_range("QQ,!!") {
        Err(e) => assert_eq!(e.message(), "invalid range: !!"),
        Ok(_) => panic!("expected an error"),
    }
    let e = SolverError::Index { index: 6, limit: 6 };
    assert_eq!(e.message(), "index 6 out of range (limit 6)");
}
