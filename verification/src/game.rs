//! Match identities, match state, and the generic scoring protocol.

use vstd::prelude::*;

verus! {

/// A participant slot in a match: values `> 0` name a real entrant,
/// `0` is a placeholder awaiting propagation, negative values are
/// invalid sentinels.
pub type Seed = i32;

/// A score awarded to one participant of a match.
pub type Score = u32;

/// Sentinel seed: this slot is known to be invalid.
pub const INVALID: Seed = -1;

/// Sentinel seed: this slot is pending propagation from an earlier match.
pub const PLACEHOLDER: Seed = 0;

/// A unique representation of a match in the tournament.
///
/// Ordered lexicographically by `(section, round, game)`; formats are
/// expected to number sections so that a match's prerequisites carry a
/// smaller id.
#[derive(PartialEq, Eq, Structural, Ord, Hash, Clone, Copy, Debug)]
pub struct MatchId {
    /// Bracket/group/section of the match.
    pub section: u32,
    /// Round number in this section.
    pub round: u32,
    /// Match number in this round.
    pub game: u32,
}

impl MatchId {
    /// Strict lexicographic order on `(section, round, game)`.
    pub open spec fn spec_lt(self, other: MatchId) -> bool {
        ||| self.section < other.section
        ||| (self.section == other.section && self.round < other.round)
        ||| (self.section == other.section && self.round == other.round
            && self.game < other.game)
    }

    pub fn new(section: u32, round: u32, game: u32) -> (r: MatchId)
        ensures
            r.section == section,
            r.round == round,
            r.game == game,
    {
        MatchId { section, round, game }
    }
}

impl PartialOrd for MatchId {
    fn partial_cmp(&self, other: &MatchId) -> (r: Option<core::cmp::Ordering>) {
        if self.section != other.section {
            if self.section < other.section {
                Some(core::cmp::Ordering::Less)
            } else {
                Some(core::cmp::Ordering::Greater)
            }
        } else if self.round != other.round {
            if self.round < other.round {
                Some(core::cmp::Ordering::Less)
            } else {
                Some(core::cmp::Ordering::Greater)
            }
        } else if self.game != other.game {
            if self.game < other.game {
                Some(core::cmp::Ordering::Less)
            } else {
                Some(core::cmp::Ordering::Greater)
            }
        } else {
            Some(core::cmp::Ordering::Equal)
        }
    }
}

impl vstd::std_specs::cmp::PartialOrdSpecImpl for MatchId {
    open spec fn obeys_partial_cmp_spec() -> bool {
        true
    }

    open spec fn partial_cmp_spec(&self, other: &MatchId) -> Option<core::cmp::Ordering> {
        if self.spec_lt(*other) {
            Some(core::cmp::Ordering::Less)
        } else if other.spec_lt(*self) {
            Some(core::cmp::Ordering::Greater)
        } else {
            Some(core::cmp::Ordering::Equal)
        }
    }
}

/// The id order is total: it is irreflexive and transitive, and of two
/// distinct ids exactly one is the smaller.
pub proof fn lemma_match_id_total_order(a: MatchId, b: MatchId, c: MatchId)
    ensures
        !a.spec_lt(a),
        a != b ==> (a.spec_lt(b) <==> !b.spec_lt(a)),
        a.spec_lt(b) && b.spec_lt(c) ==> a.spec_lt(c),
{
}

/// One game of the bracket: its identity, the ordered seeds playing
/// it, and — once it has been played — the scores, zipping with the
/// seeds.
#[derive(PartialEq, Eq, Clone, Debug)]
pub struct Match {
    /// A unique representation of the match in the tournament.
    pub id: MatchId,
    /// Ordered seeds playing this match.
    pub players: Vec<Seed>,
    /// Ordered scores that zip with players (if played).
    pub scores: Option<Vec<Score>>,
}

impl Match {
    /// Every participant slot is resolved to a real entrant.
    pub open spec fn spec_ready(self) -> bool {
        forall|i: int| 0 <= i < self.players@.len() ==> self.players@[i] > PLACEHOLDER
    }

    /// Some slot holds the given seed.
    pub open spec fn spec_contains(self, player: Seed) -> bool {
        exists|i: int| 0 <= i < self.players@.len() && self.players@[i] == player
    }

    /// The match has been played: scores are present.
    pub open spec fn spec_scored(self) -> bool {
        self.scores is Some
    }

    /// A match may be scored only once every seed is a real entrant.
    pub fn is_ready(&self) -> (r: bool)
        ensures
            r == self.spec_ready(),
    {
        let mut i: usize = 0;
        while i < self.players.len()
            invariant
                i <= self.players@.len(),
                forall|j: int| 0 <= j < i ==> self.players@[j] > PLACEHOLDER,
            decreases self.players@.len() - i,
        {
            if self.players[i] <= PLACEHOLDER {
                return false;
            }
            i += 1;
        }
        true
    }

    /// Whether the given seed plays in this match.
    pub fn contains(&self, player: Seed) -> (r: bool)
        ensures
            r == self.spec_contains(player),
    {
        let mut i: usize = 0;
        while i < self.players.len()
            invariant
                i <= self.players@.len(),
                forall|j: int| 0 <= j < i ==> self.players@[j] != player,
            decreases self.players@.len() - i,
        {
            if self.players[i] == player {
                return true;
            }
            i += 1;
        }
        false
    }

    /// Whether the match already carries scores.
    pub fn is_scored(&self) -> (r: bool)
        ensures
            r == self.spec_scored(),
    {
        self.scores.is_some()
    }
}

impl PartialOrd for Match {
    /// Matches order by their id alone; players and scores never
    /// affect the order.
    fn partial_cmp(&self, other: &Match) -> (r: Option<core::cmp::Ordering>) {
        self.id.partial_cmp(&other.id)
    }
}

impl vstd::std_specs::cmp::PartialOrdSpecImpl for Match {
    open spec fn obeys_partial_cmp_spec() -> bool {
        true
    }

    open spec fn partial_cmp_spec(&self, other: &Match) -> Option<core::cmp::Ordering> {
        if self.id.spec_lt(other.id) {
            Some(core::cmp::Ordering::Less)
        } else if other.id.spec_lt(self.id) {
            Some(core::cmp::Ordering::Greater)
        } else {
            Some(core::cmp::Ordering::Equal)
        }
    }
}

/// Why the generic protocol rejected a `score` submission; `Format`
/// wraps the rejection of a format's own validation.
#[derive(Debug, PartialEq, Eq, Clone, Copy)]
pub enum ScoreError<E> {
    /// The id names no match of this tournament.
    UnknownId,
    /// The match still has placeholder or invalid seeds.
    NotReady,
    /// The submitted score list's length differs from the player count.
    WrongArity,
    /// The match was already scored and the format forbids rescoring.
    NotRescorable,
    /// The format's own validation rejected the scores.
    Format(E),
}

/// Index of the first match with the given id, or `-1` where none has it.
pub open spec fn first_idx(ms: Seq<Match>, id: MatchId) -> int
    decreases ms.len(),
{
    if ms.len() == 0 {
        -1
    } else if ms[0].id == id {
        0
    } else {
        let t = first_idx(ms.subrange(1, ms.len() as int), id);
        if t < 0 {
            -1
        } else {
            1 + t
        }
    }
}

/// `first_idx` names a valid index whose match carries the id and whose
/// predecessors do not, or `-1` exactly where no match carries the id.
pub proof fn lemma_first_idx(ms: Seq<Match>, id: MatchId)
    ensures
        first_idx(ms, id) >= 0 ==> {
            &&& first_idx(ms, id) < ms.len()
            &&& ms[first_idx(ms, id)].id == id
            &&& forall|j: int| 0 <= j < first_idx(ms, id) ==> ms[j].id != id
        },
        first_idx(ms, id) < 0 ==> forall|i: int| 0 <= i < ms.len() ==> ms[i].id != id,
    decreases ms.len(),
{
    if ms.len() == 0 {
    } else if ms[0].id == id {
    } else {
        let tail = ms.subrange(1, ms.len() as int);
        lemma_first_idx(tail, id);
        let ti = first_idx(tail, id);
        if ti >= 0 {
            assert(ms[1 + ti] == tail[ti]);
            assert forall|j: int| 0 <= j < 1 + ti implies ms[j].id != id by {
                if j >= 1 {
                    assert(ms[j] == tail[j - 1]);
                }
            }
        } else {
            assert forall|i: int| 0 <= i < ms.len() implies ms[i].id != id by {
                if i >= 1 {
                    assert(ms[i] == tail[i - 1]);
                }
            }
        }
    }
}

/// The stored match set `after` is `before` with the scores of the
/// match at `i` replaced by `score`; nothing else moved.
pub open spec fn scores_applied(
    before: Seq<Match>,
    after: Seq<Match>,
    i: int,
    score: Seq<Score>,
) -> bool {
    &&& after.len() == before.len()
    &&& forall|j: int| 0 <= j < before.len() && j != i ==> after[j] == before[j]
    &&& after[i].id == before[i].id
    &&& after[i].players@ == before[i].players@
    &&& after[i].scores is Some
    &&& after[i].scores->0@ == score
}

/// The minimal contract a bracket format implements: expose its match
/// set, validate a candidate score, decide rescorability and overall
/// completion, and apply an accepted score to its stored state.
pub trait Base<E>: Sized {
    /// The format's full match set, in storage order.
    spec fn spec_matches(&self) -> Seq<Match>;

    /// Whether the format's own validation accepts these scores for
    /// this match.
    spec fn spec_validate_ok(&self, m: Match, score: Seq<Score>) -> bool;

    /// The error the format's validation returns where it rejects.
    spec fn spec_validate_err(&self, m: Match, score: Seq<Score>) -> E;

    /// Whether a previously scored match may be overwritten.
    spec fn spec_rescorable(&self, m: Match) -> bool;

    /// Get a reference to the matches.
    fn get_matches(&self) -> (r: &Vec<Match>)
        ensures
            r@ == self.spec_matches(),
    ;

    /// Score validator that takes a generic error.
    fn validate(&self, m: &Match, score: &Vec<Score>) -> (r: Result<(), E>)
        ensures
            r is Ok <==> self.spec_validate_ok(*m, score@),
            r is Err ==> r->Err_0 == self.spec_validate_err(*m, score@),
    ;

    /// Check if a match is safe to rescore at this time.
    fn rescorable(&self, m: &Match) -> (r: bool)
        ensures
            r == self.spec_rescorable(*m),
    ;

    /// Whether the tournament is complete: every match has scores.
    /// Formats with early-termination rules would decide this
    /// differently and then carry a different completion spec.
    fn finished(&self) -> (r: bool)
        ensures
            r == forall|i: int|
                0 <= i < self.spec_matches().len() ==> self.spec_matches()[i].spec_scored(),
    ;

    /// Overwrite the stored scores of the match at index `i`.
    fn apply_scores(&mut self, i: usize, score: &Vec<Score>)
        requires
            i < old(self).spec_matches().len(),
        ensures
            scores_applied(
                old(self).spec_matches(),
                final(self).spec_matches(),
                i as int,
                score@,
            ),
    ;
}

/// The result `score` owes for this submission: the first applicable
/// rejection among the universal gates, then the format's own verdict.
pub open spec fn spec_score_result<B: Base<E>, E>(
    t: B,
    id: MatchId,
    score: Seq<Score>,
) -> Result<(), ScoreError<E>> {
    let ms = t.spec_matches();
    let i = first_idx(ms, id);
    if i < 0 {
        Err(ScoreError::UnknownId)
    } else {
        let m = ms[i];
        if !m.spec_ready() {
            Err(ScoreError::NotReady)
        } else if score.len() != m.players@.len() {
            Err(ScoreError::WrongArity)
        } else if m.spec_scored() && !t.spec_rescorable(m) {
            Err(ScoreError::NotRescorable)
        } else if !t.spec_validate_ok(m, score) {
            Err(ScoreError::Format(t.spec_validate_err(m, score)))
        } else {
            Ok(())
        }
    }
}

/// Readiness gate: whatever the format and whatever the submitted
/// scores, a found match with an unresolved seed rejects scoring with
/// the not-ready condition.
pub proof fn lemma_readiness_gate<B: Base<E>, E>(t: B, id: MatchId, score: Seq<Score>)
    requires
        first_idx(t.spec_matches(), id) >= 0,
        !t.spec_matches()[first_idx(t.spec_matches(), id)].spec_ready(),
    ensures
        spec_score_result(t, id, score) == Result::<(), ScoreError<E>>::Err(
            ScoreError::NotReady,
        ),
{
}

/// Arity gate: whatever the format, a score list whose length differs
/// from the found match's player count is always rejected; where the
/// match is ready, the rejection names the arity.
pub proof fn lemma_arity_gate<B: Base<E>, E>(t: B, id: MatchId, score: Seq<Score>)
    requires
        first_idx(t.spec_matches(), id) >= 0,
        score.len() != t.spec_matches()[first_idx(t.spec_matches(), id)].players@.len(),
    ensures
        spec_score_result(t, id, score) is Err,
        t.spec_matches()[first_idx(t.spec_matches(), id)].spec_ready()
            ==> spec_score_result(t, id, score) == Result::<(), ScoreError<E>>::Err(
            ScoreError::WrongArity,
        ),
{
}

/// Rescorability: a format that permits rescoring the found match lets
/// a legal score overwrite an earlier one — being already scored is
/// then no ground for rejection.
pub proof fn lemma_rescore_permitted<B: Base<E>, E>(t: B, id: MatchId, score: Seq<Score>)
    requires
        first_idx(t.spec_matches(), id) >= 0,
        t.spec_matches()[first_idx(t.spec_matches(), id)].spec_ready(),
        score.len() == t.spec_matches()[first_idx(t.spec_matches(), id)].players@.len(),
        t.spec_rescorable(t.spec_matches()[first_idx(t.spec_matches(), id)]),
        t.spec_validate_ok(t.spec_matches()[first_idx(t.spec_matches(), id)], score),
    ensures
        spec_score_result(t, id, score) == Result::<(), ScoreError<E>>::Ok(()),
{
}

/// The format-independent progression protocol, written once over any
/// `Base` implementer.
pub trait Tournament<E>: Base<E> {
    /// Look a match up by id; absence is a normal outcome.
    fn find(&self, id: MatchId) -> (r: Option<&Match>)
        ensures
            match r {
                Some(m) => {
                    &&& first_idx(self.spec_matches(), id) >= 0
                    &&& *m == self.spec_matches()[first_idx(self.spec_matches(), id)]
                    &&& m.id == id
                },
                None => first_idx(self.spec_matches(), id) < 0,
            },
    ;

    /// Attempt to record a score: apply the universal gates in order,
    /// delegate to the format's validation, and only on success write
    /// the scores into the stored match — never on a rejection.
    fn score(&mut self, id: MatchId, score: &Vec<Score>) -> (r: Result<(), ScoreError<E>>)
        ensures
            r == spec_score_result(*old(self), id, score@),
            r is Err ==> *final(self) == *old(self),
            r is Ok ==> scores_applied(
                old(self).spec_matches(),
                final(self).spec_matches(),
                first_idx(old(self).spec_matches(), id),
                score@,
            ),
    ;
}

impl<T, E> Tournament<E> for T where T: Base<E> {
    fn find(&self, id: MatchId) -> (r: Option<&Match>) {
        proof {
            lemma_first_idx(self.spec_matches(), id);
        }
        let ms = self.get_matches();
        let n = ms.len();
        let mut k: usize = 0;
        while k < n && ms[k].id != id
            invariant
                k <= n,
                n == ms@.len(),
                ms@ == self.spec_matches(),
                forall|j: int| 0 <= j < k ==> ms@[j].id != id,
            decreases n - k,
        {
            k += 1;
        }
        if k == n {
            None
        } else {
            Some(&ms[k])
        }
    }

    fn score(&mut self, id: MatchId, score: &Vec<Score>) -> (r: Result<(), ScoreError<E>>) {
        proof {
            lemma_first_idx(self.spec_matches(), id);
        }
        let ghost fi = first_idx(self.spec_matches(), id);
        let ms = self.get_matches();
        let n = ms.len();
        let mut k: usize = 0;
        while k < n && ms[k].id != id
            invariant
                k <= n,
                n == ms@.len(),
                ms@ == self.spec_matches(),
                forall|j: int| 0 <= j < k ==> ms@[j].id != id,
            decreases n - k,
        {
            k += 1;
        }
        if k == n {
            return Err(ScoreError::UnknownId);
        }
        proof {
            assert(fi == k);
        }
        let m = &ms[k];
        if !m.is_ready() {
            return Err(ScoreError::NotReady);
        }
        if score.len() != m.players.len() {
            return Err(ScoreError::WrongArity);
        }
        if m.is_scored() && !self.rescorable(m) {
            return Err(ScoreError::NotRescorable);
        }
        match self.validate(m, score) {
            Err(e) => Err(ScoreError::Format(e)),
            Ok(()) => {
                self.apply_scores(k, score);
                Ok(())
            },
        }
    }
}

} // verus!
