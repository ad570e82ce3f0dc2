use tourney::codec::seed_to_string;
use tourney::game::{Match, MatchId, Seed, INVALID, PLACEHOLDER};

#[test]
fn serialization() {
    let id = MatchId::new(1, 2, 3);
    assert_eq!("{\"s\":1,\"r\":2,\"m\":3}", id.encode().as_str());

    let wo: Seed = INVALID;
    let womark = seed_to_string(wo);
    assert_eq!(womark, "-1");
    let ph: Seed = PLACEHOLDER;
    let placeholder = seed_to_string(ph);
    assert_eq!(placeholder, "0");
    let p2: Seed = 2;
    let player2 = seed_to_string(p2);
    assert_eq!(player2, "2");
}

#[test]
fn ordering() {
    // lowest match ids by order can be played first
    let w23 = MatchId::new(1, 2, 3);
    let w41 = MatchId::new(1, 4, 1);
    assert!(w23 < w41);
    let l11 = MatchId::new(2, 1, 1);
    assert!(w23 < l11);
    let l21 = MatchId::new(2, 2, 1);
    assert!(l21 > l11);
}

#[test]
fn ordering_is_strict_and_ties_are_equal() {
    let a = MatchId::new(3, 1, 4);
    let b = MatchId::new(3, 1, 4);
    assert!(!(a < b));
    assert!(!(a > b));
    assert_eq!(a, b);
    assert!(MatchId::new(0, 9, 9) < MatchId::new(1, 0, 0));
}

#[test]
fn match_order_follows_id() {
    let early = Match { id: MatchId::new(1, 1, 1), players: vec![9, 9], scores: None };
    let late = Match { id: MatchId::new(1, 2, 1), players: vec![1, 1], scores: Some(vec![1, 0]) };
    assert!(early < late);
    assert!(!(late < early));
}

#[test]
fn readiness_and_membership() {
    let m = Match { id: MatchId::new(1, 1, 1), players: vec![1, 2], scores: None };
    assert!(m.is_ready());
    assert!(m.contains(1));
    assert!(m.contains(2));
    assert!(!m.contains(3));
    assert!(!m.is_scored());

    let pending = Match { id: MatchId::new(1, 1, 2), players: vec![PLACEHOLDER, 3], scores: None };
    assert!(!pending.is_ready());
    let invalid = Match { id: MatchId::new(1, 1, 3), players: vec![INVALID, 3], scores: None };
    assert!(!invalid.is_ready());

    let played = Match { id: MatchId::new(1, 1, 4), players: vec![1, 2], scores: Some(vec![2, 1]) };
    assert!(played.is_scored());
}

#[test]
fn display_code() {
    let id = MatchId::new(1, 2, 3);
    assert_eq!(id.code().as_str(), "S1R2M3");
    assert_eq!(MatchId::new(10, 0, 7).code().as_str(), "S10R0M7");
}
