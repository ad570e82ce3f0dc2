use tourney::duel::{Duel, DuelErr};
use tourney::game::{Base, Match, MatchId, ScoreError, Tournament, PLACEHOLDER};

fn two_match_bracket() -> Duel {
    Duel::new(vec![
        Match { id: MatchId::new(1, 1, 1), players: vec![1, 2], scores: None },
        Match { id: MatchId::new(1, 2, 1), players: vec![PLACEHOLDER, PLACEHOLDER], scores: None },
    ])
}

#[test]
fn duel_validate_accepts_iff_unequal_pair() {
    let d = two_match_bracket();
    let m = Match { id: MatchId::new(1, 1, 1), players: vec![1, 2], scores: None };
    assert_eq!(d.validate(&m, &vec![3, 1]), Ok(()));
    assert_eq!(d.validate(&m, &vec![1, 3]), Ok(()));
    assert_eq!(d.validate(&m, &vec![2, 2]), Err(DuelErr::IllegalDraw));
    assert_eq!(d.validate(&m, &vec![1, 2, 3]), Err(DuelErr::ScoreLength));
    assert_eq!(d.validate(&m, &vec![]), Err(DuelErr::ScoreLength));
}

#[test]
fn error_descriptions() {
    assert_eq!(DuelErr::ScoreLength.describe(), "Invalid score array length != 2");
    assert_eq!(DuelErr::IllegalDraw.describe(), "Cannot draw a duel match");
}

#[test]
fn find_by_id() {
    let d = two_match_bracket();
    let found = d.find(MatchId::new(1, 2, 1)).expect("match exists");
    assert_eq!(found.id, MatchId::new(1, 2, 1));
    assert!(d.find(MatchId::new(9, 9, 9)).is_none());
}

#[test]
fn score_rejects_unknown_id() {
    let mut d = two_match_bracket();
    let r = d.score(MatchId::new(3, 1, 1), &vec![1, 0]);
    assert_eq!(r, Err(ScoreError::UnknownId));
}

#[test]
fn score_rejects_unready_match() {
    let mut d = two_match_bracket();
    // the final has only placeholder seeds, whatever the scores say
    let r = d.score(MatchId::new(1, 2, 1), &vec![2, 0]);
    assert_eq!(r, Err(ScoreError::NotReady));
    let r = d.score(MatchId::new(1, 2, 1), &vec![0, 0]);
    assert_eq!(r, Err(ScoreError::NotReady));
}

#[test]
fn score_rejects_wrong_arity() {
    let mut d = two_match_bracket();
    let r = d.score(MatchId::new(1, 1, 1), &vec![2]);
    assert_eq!(r, Err(ScoreError::WrongArity));
    let r = d.score(MatchId::new(1, 1, 1), &vec![2, 1, 0]);
    assert_eq!(r, Err(ScoreError::WrongArity));
}

#[test]
fn score_rejects_draw_through_format() {
    let mut d = two_match_bracket();
    let r = d.score(MatchId::new(1, 1, 1), &vec![2, 2]);
    assert_eq!(r, Err(ScoreError::Format(DuelErr::IllegalDraw)));
}

#[test]
fn rejected_scores_leave_state_untouched() {
    let mut d = two_match_bracket();
    let before: Vec<Match> = d.get_matches().clone();
    assert!(d.score(MatchId::new(3, 1, 1), &vec![1, 0]).is_err());
    assert!(d.score(MatchId::new(1, 2, 1), &vec![1, 0]).is_err());
    assert!(d.score(MatchId::new(1, 1, 1), &vec![1]).is_err());
    assert!(d.score(MatchId::new(1, 1, 1), &vec![2, 2]).is_err());
    assert_eq!(d.get_matches(), &before);
}

#[test]
fn accepted_score_is_stored() {
    let mut d = two_match_bracket();
    assert_eq!(d.score(MatchId::new(1, 1, 1), &vec![2, 1]), Ok(()));
    let m = d.find(MatchId::new(1, 1, 1)).expect("match exists");
    assert_eq!(m.scores, Some(vec![2, 1]));
    // the untouched match keeps its state
    let other = d.find(MatchId::new(1, 2, 1)).expect("match exists");
    assert_eq!(other.scores, None);
}

#[test]
fn rescoring_overwrites_by_default() {
    let mut d = two_match_bracket();
    assert_eq!(d.score(MatchId::new(1, 1, 1), &vec![2, 1]), Ok(()));
    assert_eq!(d.score(MatchId::new(1, 1, 1), &vec![0, 3]), Ok(()));
    let m = d.find(MatchId::new(1, 1, 1)).expect("match exists");
    assert_eq!(m.scores, Some(vec![0, 3]));
}

#[test]
fn finished_iff_every_match_scored() {
    let mut d = Duel::new(vec![
        Match { id: MatchId::new(1, 1, 1), players: vec![1, 2], scores: None },
        Match { id: MatchId::new(1, 2, 1), players: vec![3, 4], scores: None },
    ]);
    assert!(!d.finished());
    assert_eq!(d.score(MatchId::new(1, 1, 1), &vec![2, 1]), Ok(()));
    assert!(!d.finished());
    assert_eq!(d.score(MatchId::new(1, 2, 1), &vec![0, 1]), Ok(()));
    assert!(d.finished());
    assert!(Duel::new(vec![]).finished());
}
