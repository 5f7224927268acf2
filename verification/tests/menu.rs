use postflop_session::game::Session;

fn river(pot: u64, stack: u64, bets: &str, raises: &str) -> Session {
    Session::new("AA,KK", "QQ,JJ", "Ah Kd 2c", pot, stack, bets, raises, Some("7s"), Some("3d"))
        .unwrap()
}

#[test]
fn merging_collapses_near_sizes() {
    // 52% of a 100 pot lies within a tenth of 50%: one bet remains, the
    // smaller of the two, whichever order the sizes were declared in
    let s = river(100, 1000, "50%,52%", "50%");
    assert_eq!(s.get_available_actions(), vec!["Check", "Bet(50)", "AllIn(1000)"]);
    let t = river(100, 1000, "52%,50%", "50%");
    assert_eq!(t.get_available_actions(), s.get_available_actions());
}

#[test]
fn distant_sizes_stay_separate() {
    let s = river(100, 1000, "30%,100%", "50%");
    assert_eq!(
        s.get_available_actions(),
        vec!["Check", "Bet(30)", "Bet(100)", "AllIn(1000)"]
    );
}

#[test]
fn force_allin_replaces_large_bet() {
    // 90% of the pot exceeds three twentieths of the 40 stack
    let s = river(10, 40, "90%", "50%");
    assert_eq!(s.get_available_actions(), vec!["Check", "AllIn(40)"]);
}

#[test]
fn force_allin_boundary_keeps_exact_share() {
    // 15 chips is exactly three twentieths of the 100 stack: kept as a bet
    let s = river(100, 100, "15", "50%");
    assert_eq!(s.get_available_actions(), vec!["Check", "Bet(15)", "AllIn(100)"]);
    // one chip more crosses the threshold and is replaced by all-in
    let t = river(100, 100, "16", "50%");
    assert_eq!(t.get_available_actions(), vec!["Check", "AllIn(100)"]);
}

#[test]
fn explicit_chip_and_oversized_percent_sizes() {
    let s = river(10, 1000, "7,150%", "50%");
    assert_eq!(
        s.get_available_actions(),
        vec!["Check", "Bet(7)", "Bet(15)", "AllIn(1000)"]
    );
}

#[test]
fn raise_menu_after_a_bet() {
    let mut s = river(10, 100, "50%", "50%");
    s.play(1).unwrap();
    // facing the 5-chip bet: pot after calling is 20, half of it raises by 10
    assert_eq!(
        s.get_available_actions(),
        vec!["Fold", "Call", "Raise(10)", "AllIn(95)"]
    );
}

#[test]
fn deterministic_menu_for_same_configuration() {
    let s1 = river(100, 1000, "25%,75%,allin", "60%");
    let s2 = river(100, 1000, "25%,75%,allin", "60%");
    assert_eq!(s1.get_available_actions(), s2.get_available_actions());
}

#[test]
fn menus_depend_on_configuration_alone() {
    // same pot, stack and sizes but different ranges: identical menus at
    // every shared cursor
    let mut a = river(10, 100, "50%", "50%");
    let mut b = Session::new(
        "QQ,JJ,T9s",
        "AA,KK",
        "Ah Kd 2c",
        10,
        100,
        "50%",
        "50%",
        Some("7s"),
        Some("3d"),
    )
    .unwrap();
    assert_eq!(a.get_available_actions(), b.get_available_actions());
    a.play(1).unwrap();
    b.play(1).unwrap();
    assert_eq!(a.get_available_actions(), b.get_available_actions());
}
