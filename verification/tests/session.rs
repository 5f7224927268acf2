use postflop_session::SolverError;
use postflop_session::game::{Session, BoardState};
use postflop_session::solve::{should_stop, ExploitTracker, regret_match};

fn river_session() -> Session {
    Session::new(
        "AA,KK",
        "QQ,JJ",
        "Ah Kd 2c",
        10,
        100,
        "50%",
        "50%",
        Some("7s"),
        Some("3d"),
    )
    .unwrap()
}

#[test]
fn construct_infers_board_state() {
    let s = river_session();
    assert_eq!(s.board_state(), BoardState::River);
    let t = Session::new("AA", "KK", "Ah Kd 2c", 10, 10, "50%", "50%", Some("7s"), None).unwrap();
    assert_eq!(t.board_state(), BoardState::Turn);
    let f = Session::new("AA", "KK", "Ah Kd 2c", 10, 10, "50%", "50%", None, None).unwrap();
    assert_eq!(f.board_state(), BoardState::Flop);
}

#[test]
fn construct_rejects_bad_inputs() {
    assert!(matches!(
        Session::new("ZZ", "KK", "Ah Kd 2c", 10, 100, "50%", "50%", None, None),
        Err(SolverError::Parse { .. })
    ));
    assert!(matches!(
        Session::new("AA", "KK", "Ah Kd 2c", 0, 100, "50%", "50%", None, None),
        Err(SolverError::Config { .. })
    ));
    // river given without a turn
    assert!(matches!(
        Session::new("AA", "KK", "Ah Kd 2c", 10, 100, "50%", "50%", None, Some("3d")),
        Err(SolverError::Parse { .. })
    ));
    // turn card already on the flop
    assert!(matches!(
        Session::new("AA", "KK", "Ah Kd 2c", 10, 100, "50%", "50%", Some("Ah"), None),
        Err(SolverError::Parse { .. })
    ));
    // a range with no surviving combination on this board
    assert!(matches!(
        Session::new("22", "KK", "2c 2d 2h", 10, 100, "50%", "50%", None, None),
        Err(SolverError::Config { .. })
    ));
}

#[test]
fn private_cards_exclude_board() {
    let s = river_session();
    let oop = s.get_private_cards(0).unwrap();
    // AA without the Ah: 3 combos; KK without the Kd: 3 combos
    assert_eq!(oop.len(), 6);
    for hand in &oop {
        assert!(!hand.contains("Ah"));
        assert!(!hand.contains("Kd"));
        assert!(!hand.contains("7s"));
        assert!(!hand.contains("3d"));
    }
    let ip = s.get_private_cards(1).unwrap();
    assert_eq!(ip.len(), 12);
    assert!(matches!(s.get_private_cards(2), Err(SolverError::Index { .. })));
}

#[test]
fn available_actions_at_root() {
    let s = river_session();
    let acts = s.get_available_actions();
    assert_eq!(acts, vec!["Check", "Bet(5)", "AllIn(100)"]);
}

#[test]
fn strategy_rows_sum_to_scale() {
    let s = river_session();
    let strat = s.get_strategy();
    let num_hands = s.get_private_cards(0).unwrap().len();
    let num_actions = s.get_available_actions().len();
    assert_eq!(strat.len(), num_hands * num_actions);
    for h in 0..num_hands {
        let total: u32 = (0..num_actions).map(|a| strat[a * num_hands + h]).sum();
        assert_eq!(total, 1000);
    }
}

#[test]
fn action_frequencies_sum_to_scale() {
    let mut s = river_session();
    let freqs = s.get_action_frequencies();
    assert_eq!(freqs.len(), 3);
    let total: u32 = freqs.iter().map(|p| p.1).sum();
    assert_eq!(total, 1000);
    assert_eq!(freqs[0].0, "Check");
    assert_eq!(freqs[1].0, "Bet(5)");
    assert_eq!(freqs[2].0, "AllIn(100)");
}

#[test]
fn action_frequencies_empty_at_terminal() {
    let mut s = river_session();
    s.play(1).unwrap();
    s.play(0).unwrap();
    // Bet then Fold: the hand is over
    let freqs = s.get_action_frequencies();
    assert!(freqs.is_empty());
    assert!(s.get_available_actions().is_empty());
}

#[test]
fn play_rejects_bad_index() {
    let mut s = river_session();
    assert!(matches!(s.play(99), Err(SolverError::Index { index: 99, limit: 3 })));
    // the failed play left the cursor alone
    assert_eq!(s.get_available_actions().len(), 3);
    s.play(1).unwrap();
    s.play(0).unwrap();
    // any index at a terminal is an error
    assert!(matches!(s.play(0), Err(SolverError::Index { limit: 0, .. })));
}

#[test]
fn replay_reproduces_outputs() {
    let mut s = river_session();
    let root_strat = s.get_strategy();
    let root_freqs = s.get_action_frequencies();
    s.play(1).unwrap();
    let after_strat = s.get_strategy();
    let after_freqs = s.get_action_frequencies();
    s.back_to_root();
    assert_eq!(s.get_strategy(), root_strat);
    assert_eq!(s.get_action_frequencies(), root_freqs);
    s.play(1).unwrap();
    assert_eq!(s.get_strategy(), after_strat);
    assert_eq!(s.get_action_frequencies(), after_freqs);
}

#[test]
fn replay_through_chance_reproduces_outputs() {
    let mut s = Session::new("AA", "KK", "Ah Kd 2c", 10, 10, "50%", "50%", None, None).unwrap();
    s.play(0).unwrap();
    s.play(0).unwrap();
    s.deal(5).unwrap();
    let strat = s.get_strategy();
    let freqs = s.get_action_frequencies();
    s.back_to_root();
    s.play(0).unwrap();
    s.play(0).unwrap();
    s.deal(5).unwrap();
    assert_eq!(s.get_strategy(), strat);
    assert_eq!(s.get_action_frequencies(), freqs);
}

#[test]
fn hand_frequencies_exact_values() {
    let s = river_session();
    let strat = s.get_strategy();
    let num_hands = s.get_private_cards(0).unwrap().len();
    let hf = s.get_hand_frequencies(0).unwrap();
    assert_eq!(hf.len(), 3);
    for (a, pair) in hf.iter().enumerate() {
        assert_eq!(pair.1, strat[a * num_hands]);
    }
}

#[test]
fn hand_frequencies_boundary_is_an_error() {
    let s = river_session();
    let num_hands = s.get_private_cards(0).unwrap().len();
    assert!(s.get_hand_frequencies(num_hands - 1).is_ok());
    // the off-by-one boundary must raise, never clamp
    match s.get_hand_frequencies(num_hands) {
        Err(SolverError::Index { index, limit }) => {
            assert_eq!(index, num_hands);
            assert_eq!(limit, num_hands);
        },
        _ => panic!("expected an index error at hand_index == num_hands"),
    }
}

#[test]
fn all_hand_frequencies_cover_every_hand() {
    let s = river_session();
    let all = s.get_all_hand_frequencies();
    let names = s.get_private_cards(0).unwrap();
    assert_eq!(all.len(), names.len());
    for (k, entry) in all.iter().enumerate() {
        assert_eq!(entry.0, names[k]);
        assert_eq!(entry.1.len(), 3);
    }
}

#[test]
fn normalized_weights_sum_to_scale() {
    let mut s = river_session();
    s.cache_normalized_weights();
    let w = s.get_normalized_weights(0).unwrap();
    assert_eq!(w.len(), 6);
    let total: u32 = w.iter().sum();
    assert_eq!(total, 1000);
    let w1 = s.get_normalized_weights(1).unwrap();
    assert_eq!(w1.len(), 12);
    assert_eq!(w1.iter().sum::<u32>(), 1000);
    assert!(matches!(s.get_normalized_weights(2), Err(SolverError::Index { .. })));
}

#[test]
fn flop_game_deals_chance_cards() {
    let mut s = Session::new("AA", "KK", "Ah Kd 2c", 10, 10, "50%", "50%", None, None).unwrap();
    // the 50% bet exceeds the force-all-in share of the tiny stack
    assert_eq!(s.get_available_actions(), vec!["Check", "AllIn(10)"]);
    assert!(s.get_chance_cards().is_empty());
    s.play(0).unwrap();
    s.play(0).unwrap();
    // check-check ends the flop: the cursor stands on a turn chance node
    assert!(s.get_available_actions().is_empty());
    assert!(s.get_strategy().is_empty());
    // play's domain is the advertised (empty) action list: it rejects here
    assert!(matches!(s.play(0), Err(SolverError::Index { index: 0, limit: 0 })));
    let cards = s.get_chance_cards();
    assert_eq!(cards.len(), 49);
    assert_eq!(cards[0], "2d");
    s.deal(0).unwrap();
    // the turn is dealt; the turn decision follows
    assert_eq!(s.get_available_actions(), vec!["Check", "AllIn(10)"]);
    assert!(!s.get_strategy().is_empty());
    // and deal in turn rejects at a decision node
    assert!(matches!(s.deal(0), Err(SolverError::Index { limit: 0, .. })));
}

#[test]
fn action_frequencies_uniform_when_no_hand_reaches() {
    // the only pair of deuces collides with the dealt turn: the acting
    // player's range empties, yet the probabilities still sum to the scale
    let mut s = Session::new("22", "KK", "2h 2s 3c", 10, 10, "50%", "50%", None, None).unwrap();
    s.play(0).unwrap();
    s.play(0).unwrap();
    let cards = s.get_chance_cards();
    assert_eq!(cards[0], "2c");
    s.deal(0).unwrap();
    assert_eq!(s.get_private_cards(0).unwrap().len(), 0);
    let freqs = s.get_action_frequencies();
    assert_eq!(freqs.len(), 2);
    assert_eq!(freqs[0].1, 500);
    assert_eq!(freqs[1].1, 500);
}

#[test]
fn allocate_memory_is_idempotent() {
    let mut s = river_session();
    let before = s.get_strategy();
    s.allocate_memory();
    s.allocate_memory();
    assert_eq!(s.get_strategy(), before);
}

#[test]
fn solve_controls() {
    assert!(should_stop(10, 10, 500, 0));
    assert!(should_stop(3, 10, 5, 10));
    assert!(!should_stop(3, 10, 500, 10));
    let mut t = ExploitTracker::start();
    t.record(500);
    assert_eq!(t.best, 500);
    t.record(700);
    assert_eq!(t.best, 500);
    t.record(100);
    assert_eq!(t.best, 100);
}

#[test]
fn regret_matching_proportional() {
    // negative and zero regrets are floored at zero; the rest share the
    // scale in proportion
    let r = regret_match(&vec![300, 100, -50, 0]);
    assert_eq!(r, vec![750, 250, 0, 0]);
    assert_eq!(r.iter().sum::<u32>(), 1000);
}

#[test]
fn regret_matching_uniform_without_positive_regret() {
    let r = regret_match(&vec![-5, 0, -1]);
    assert_eq!(r, vec![334, 333, 333]);
    assert_eq!(regret_match(&vec![0]), vec![1000]);
}
