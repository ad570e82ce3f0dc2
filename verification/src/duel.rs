//! The duel format: two participants per match, draws are illegal.

use vstd::prelude::*;

use crate::game::{Base, Match, Score, scores_applied};
use vstd::pervasive::VecAdditionalExecFns;

verus! {

/// Why the duel format rejected a candidate score.
#[derive(Debug, PartialEq, Eq, Structural, Clone, Copy)]
pub enum DuelErr {
    /// The score list does not have exactly two entries.
    ScoreLength,
    /// The two scores are equal; a duel cannot end in a draw.
    IllegalDraw,
}

impl DuelErr {
    /// A human-readable account of the rejection.
    pub fn describe(&self) -> (r: &'static str)
        ensures
            *self == DuelErr::ScoreLength ==> r@ == "Invalid score array length != 2"@,
            *self == DuelErr::IllegalDraw ==> r@ == "Cannot draw a duel match"@,
    {
        match self {
            DuelErr::ScoreLength => "Invalid score array length != 2",
            DuelErr::IllegalDraw => "Cannot draw a duel match",
        }
    }
}

/// A bracket of two-participant, draw-less matches.
pub struct Duel {
    matches: Vec<Match>,
}

impl Duel {
    /// A duel bracket over the given match set; topology construction
    /// is the caller's concern.
    pub fn new(matches: Vec<Match>) -> (d: Duel)
        ensures
            d.spec_matches() == matches@,
    {
        Duel { matches }
    }
}

impl Base<DuelErr> for Duel {
    closed spec fn spec_matches(&self) -> Seq<Match> {
        self.matches@
    }

    /// Legal iff exactly two scores that differ.
    open spec fn spec_validate_ok(&self, m: Match, score: Seq<Score>) -> bool {
        score.len() == 2 && score[0] != score[1]
    }

    /// A wrong length is named before an equal pair.
    open spec fn spec_validate_err(&self, m: Match, score: Seq<Score>) -> DuelErr {
        if score.len() != 2 {
            DuelErr::ScoreLength
        } else {
            DuelErr::IllegalDraw
        }
    }

    /// The duel format keeps the permissive default: any scored match
    /// may be rescored.
    open spec fn spec_rescorable(&self, m: Match) -> bool {
        true
    }

    fn get_matches(&self) -> (r: &Vec<Match>) {
        &self.matches
    }

    fn validate(&self, m: &Match, score: &Vec<Score>) -> (r: Result<(), DuelErr>) {
        if score.len() != 2 {
            Err(DuelErr::ScoreLength)
        } else if score[0] == score[1] {
            Err(DuelErr::IllegalDraw)
        } else {
            Ok(())
        }
    }

    fn rescorable(&self, m: &Match) -> (r: bool) {
        true
    }

    fn finished(&self) -> (r: bool) {
        let mut i: usize = 0;
        while i < self.matches.len()
            invariant
                i <= self.matches@.len(),
                forall|j: int| 0 <= j < i ==> self.matches@[j].spec_scored(),
            decreases self.matches@.len() - i,
        {
            if !self.matches[i].is_scored() {
                proof {
                    assert(!self.spec_matches()[i as int].spec_scored());
                }
                return false;
            }
            i += 1;
        }
        true
    }

    fn apply_scores(&mut self, i: usize, score: &Vec<Score>) {
        let m = &self.matches[i];
        let updated = Match { id: m.id, players: m.players.clone(), scores: Some(score.clone()) };
        proof {
            assert(updated.players@ =~= old(self).spec_matches()[i as int].players@);
            assert(updated.scores->0@ =~= score@);
        }
        self.matches.set(i, updated);
    }
}

/// Duel legality: the duel's validation accepts a score list iff it
/// holds exactly two entries and they differ; a wrong length is
/// rejected as such, an equal pair as an illegal draw.
pub proof fn lemma_duel_validate(d: Duel, m: Match, score: Seq<Score>)
    ensures
        d.spec_validate_ok(m, score) <==> (score.len() == 2 && score[0] != score[1]),
        score.len() != 2 ==> d.spec_validate_err(m, score) == DuelErr::ScoreLength,
        score.len() == 2 && score[0] == score[1] ==> d.spec_validate_err(m, score)
            == DuelErr::IllegalDraw,
{
}

/// The duel format does not restrict rescoring: every match may be
/// overwritten once scored.
pub proof fn lemma_duel_rescorable(d: Duel, m: Match)
    ensures
        d.spec_rescorable(m),
{
}

} // verus!
