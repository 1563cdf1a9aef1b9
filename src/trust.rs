//! A repeated trust game between two agents: each round both either cooperate
//! or cheat, and their scores change by the pair of moves.
use vstd::prelude::*;

verus! {

/// Score change for each player when both cooperate.
pub const MUTUAL_COOP_DELTA: i32 = 2;

/// Score change for a player that cheats a cooperating one.
pub const CHEAT_DELTA: i32 = 3;

/// Score change for a player that cooperates with a cheating one.
pub const COOPERATION_DELTA: i32 = -1;

#[derive(Clone, Copy, Debug, PartialEq, Eq, Structural)]
pub enum RoundOutcome {
    BothCooperated,
    LeftCheated,
    RightCheated,
    BothCheated,
}

#[derive(Clone, Copy, Debug, PartialEq, Eq, Structural)]
pub enum Move {
    Cooperate,
    Cheat,
}

/// The outcome of a round with these moves.
pub open spec fn outcome_of(left: Move, right: Move) -> RoundOutcome {
    match (left, right) {
        (Move::Cooperate, Move::Cooperate) => RoundOutcome::BothCooperated,
        (Move::Cooperate, Move::Cheat) => RoundOutcome::RightCheated,
        (Move::Cheat, Move::Cooperate) => RoundOutcome::LeftCheated,
        (Move::Cheat, Move::Cheat) => RoundOutcome::BothCheated,
    }
}

/// How the score of a player that played `mine` against `theirs` changes.
pub open spec fn delta_of(mine: Move, theirs: Move) -> int {
    match (mine, theirs) {
        (Move::Cooperate, Move::Cooperate) => MUTUAL_COOP_DELTA as int,
        (Move::Cooperate, Move::Cheat) => COOPERATION_DELTA as int,
        (Move::Cheat, Move::Cooperate) => CHEAT_DELTA as int,
        (Move::Cheat, Move::Cheat) => 0,
    }
}

/// A player of the game: it chooses a move each round, learns the
/// opponent's move afterwards, and keeps a score.
pub trait Agent: Sized {
    spec fn score_of(&self) -> int;

    /// The move the agent plays next.
    spec fn next_move(&self) -> Move;

    /// The agent once it has played a round.
    spec fn played(&self) -> Self;

    /// The agent once it has learnt the opponent's move.
    spec fn updated(&self, opponent_move: Move) -> Self;

    /// The agent with its score set to `score`.
    spec fn with_score(&self, score: i32) -> Self;

    fn play_round(&mut self) -> (r: Move)
        ensures
            r == old(self).next_move(),
            *final(self) == old(self).played(),
            final(self).score_of() == old(self).score_of(),
    ;

    fn update(&mut self, opponent_move: Move)
        ensures
            *final(self) == old(self).updated(opponent_move),
            final(self).score_of() == old(self).score_of(),
    ;

    fn get_score(&self) -> (r: i32)
        ensures
            r == self.score_of(),
    ;

    fn set_score(&mut self, score: i32)
        ensures
            *final(self) == old(self).with_score(score),
            final(self).score_of() == score,
    ;
}

/// A match between two agents.
pub struct Game<L: Agent, R: Agent> {
    left: L,
    right: R,
}

impl<L: Agent, R: Agent> Game<L, R> {
    pub closed spec fn left_spec(&self) -> L {
        self.left
    }

    pub closed spec fn right_spec(&self) -> R {
        self.right
    }

    pub fn new(left: L, right: R) -> (r: Self)
        ensures
            r.left_spec() == left,
            r.right_spec() == right,
    {
        Game { left, right }
    }

    pub fn left_score(&self) -> (r: i32)
        ensures
            r == self.left_spec().score_of(),
    {
        self.left.get_score()
    }

    pub fn right_score(&self) -> (r: i32)
        ensures
            r == self.right_spec().score_of(),
    {
        self.right.get_score()
    }

    /// Plays one round: both agents choose, learn each other's move, and
    /// score.
    pub fn play_round(&mut self) -> (r: RoundOutcome)
        requires
            i32::MIN - COOPERATION_DELTA <= old(self).left_spec().score_of() <= i32::MAX - CHEAT_DELTA,
            i32::MIN - COOPERATION_DELTA <= old(self).right_spec().score_of() <= i32::MAX - CHEAT_DELTA,
        ensures
            ({
                let lm = old(self).left_spec().next_move();
                let rm = old(self).right_spec().next_move();
                let l1 = old(self).left_spec().played().updated(rm);
                let r1 = old(self).right_spec().played().updated(lm);
                &&& r == outcome_of(lm, rm)
                &&& final(self).left_spec().score_of() == old(self).left_spec().score_of() + delta_of(lm, rm)
                &&& final(self).right_spec().score_of() == old(self).right_spec().score_of() + delta_of(rm, lm)
                &&& final(self).left_spec() == if lm == Move::Cheat && rm == Move::Cheat {
                    l1
                } else {
                    l1.with_score((l1.score_of() + delta_of(lm, rm)) as i32)
                }
                &&& final(self).right_spec() == if lm == Move::Cheat && rm == Move::Cheat {
                    r1
                } else {
                    r1.with_score((r1.score_of() + delta_of(rm, lm)) as i32)
                }
            }),
    {
        let left_move = self.left.play_round();
        let right_move = self.right.play_round();

        self.left.update(right_move);
        self.right.update(left_move);

        match (left_move, right_move) {
            (Move::Cooperate, Move::Cooperate) => {
                change_score(&mut self.left, MUTUAL_COOP_DELTA);
                change_score(&mut self.right, MUTUAL_COOP_DELTA);
                RoundOutcome::BothCooperated
            },
            (Move::Cooperate, Move::Cheat) => {
                change_score(&mut self.left, COOPERATION_DELTA);
                change_score(&mut self.right, CHEAT_DELTA);
                RoundOutcome::RightCheated
            },
            (Move::Cheat, Move::Cooperate) => {
                change_score(&mut self.left, CHEAT_DELTA);
                change_score(&mut self.right, COOPERATION_DELTA);
                RoundOutcome::LeftCheated
            },
            (Move::Cheat, Move::Cheat) => RoundOutcome::BothCheated,
        }
    }
}

/// Adds `delta` to the agent's score.
fn change_score<A: Agent>(agent: &mut A, delta: i32)
    requires
        i32::MIN <= old(agent).score_of() + delta <= i32::MAX,
    ensures
        final(agent).score_of() == old(agent).score_of() + delta,
        *final(agent) == old(agent).with_score((old(agent).score_of() + delta) as i32),
{
    let score = agent.get_score();
    agent.set_score(score + delta);
}

/// Always cheats.
pub struct CheatingAgent {
    score: i32,
}

impl CheatingAgent {
    pub fn new() -> (r: Self)
        ensures
            r.score_of() == 0,
    {
        CheatingAgent { score: 0 }
    }
}

impl Default for CheatingAgent {
    fn default() -> (r: Self)
        ensures
            r.score_of() == 0,
    {
        Self::new()
    }
}

impl Agent for CheatingAgent {
    closed spec fn played(&self) -> Self {
        *self
    }

    closed spec fn updated(&self, opponent_move: Move) -> Self {
        *self
    }

    closed spec fn with_score(&self, score: i32) -> Self {
        CheatingAgent { score }
    }

    closed spec fn score_of(&self) -> int {
        self.score as int
    }

    open spec fn next_move(&self) -> Move {
        Move::Cheat
    }

    fn play_round(&mut self) -> (r: Move) {
        Move::Cheat
    }

    fn update(&mut self, opponent_move: Move) {
    }

    fn get_score(&self) -> (r: i32) {
        self.score
    }

    fn set_score(&mut self, score: i32) {
        self.score = score;
    }
}

/// Always cooperates.
pub struct CooperatingAgent {
    score: i32,
}

impl CooperatingAgent {
    pub fn new() -> (r: Self)
        ensures
            r.score_of() == 0,
    {
        CooperatingAgent { score: 0 }
    }
}

impl Default for CooperatingAgent {
    fn default() -> (r: Self)
        ensures
            r.score_of() == 0,
    {
        Self::new()
    }
}

impl Agent for CooperatingAgent {
    closed spec fn played(&self) -> Self {
        *self
    }

    closed spec fn updated(&self, opponent_move: Move) -> Self {
        *self
    }

    closed spec fn with_score(&self, score: i32) -> Self {
        CooperatingAgent { score }
    }

    closed spec fn score_of(&self) -> int {
        self.score as int
    }

    open spec fn next_move(&self) -> Move {
        Move::Cooperate
    }

    fn play_round(&mut self) -> (r: Move) {
        Move::Cooperate
    }

    fn update(&mut self, opponent_move: Move) {
    }

    fn get_score(&self) -> (r: i32) {
        self.score
    }

    fn set_score(&mut self, score: i32) {
        self.score = score;
    }
}

/// Cooperates until the opponent cheats once, then cheats for good.
pub struct GrudgerAgent {
    score: i32,
    holding_grudge: bool,
}

impl GrudgerAgent {
    /// Whether the opponent has cheated.
    pub closed spec fn grudge(&self) -> bool {
        self.holding_grudge
    }

    pub fn new() -> (r: Self)
        ensures
            r.score_of() == 0,
            !r.grudge(),
    {
        GrudgerAgent { score: 0, holding_grudge: false }
    }
}

impl Default for GrudgerAgent {
    fn default() -> (r: Self)
        ensures
            r.score_of() == 0,
            !r.grudge(),
    {
        Self::new()
    }
}

impl Agent for GrudgerAgent {
    closed spec fn played(&self) -> Self {
        *self
    }

    closed spec fn updated(&self, opponent_move: Move) -> Self {
        if opponent_move == Move::Cheat {
            GrudgerAgent { holding_grudge: true, ..*self }
        } else {
            *self
        }
    }

    closed spec fn with_score(&self, score: i32) -> Self {
        GrudgerAgent { score, ..*self }
    }

    closed spec fn score_of(&self) -> int {
        self.score as int
    }

    open spec fn next_move(&self) -> Move {
        if self.grudge() {
            Move::Cheat
        } else {
            Move::Cooperate
        }
    }

    fn play_round(&mut self) -> (r: Move) {
        if self.holding_grudge {
            Move::Cheat
        } else {
            Move::Cooperate
        }
    }

    fn update(&mut self, opponent_move: Move) {
        if let Move::Cheat = opponent_move {
            self.holding_grudge = true;
        }
    }

    fn get_score(&self) -> (r: i32) {
        self.score
    }

    fn set_score(&mut self, score: i32) {
        self.score = score;
    }
}

/// Cooperates first, then repeats the opponent's latest move.
pub struct CopycatAgent {
    score: i32,
    latest_opponent_move: Option<Move>,
}

impl CopycatAgent {
    /// The opponent's latest move, if any.
    pub closed spec fn latest(&self) -> Option<Move> {
        self.latest_opponent_move
    }

    pub fn new() -> (r: Self)
        ensures
            r.score_of() == 0,
            r.latest() is None,
    {
        CopycatAgent { score: 0, latest_opponent_move: None }
    }
}

impl Default for CopycatAgent {
    fn default() -> (r: Self)
        ensures
            r.score_of() == 0,
            r.latest() is None,
    {
        Self::new()
    }
}

impl Agent for CopycatAgent {
    closed spec fn played(&self) -> Self {
        *self
    }

    closed spec fn updated(&self, opponent_move: Move) -> Self {
        CopycatAgent { latest_opponent_move: Some(opponent_move), ..*self }
    }

    closed spec fn with_score(&self, score: i32) -> Self {
        CopycatAgent { score, ..*self }
    }

    closed spec fn score_of(&self) -> int {
        self.score as int
    }

    open spec fn next_move(&self) -> Move {
        match self.latest() {
            Some(m) => m,
            None => Move::Cooperate,
        }
    }

    fn play_round(&mut self) -> (r: Move) {
        match self.latest_opponent_move {
            Some(Move::Cooperate) => Move::Cooperate,
            Some(Move::Cheat) => Move::Cheat,
            None => Move::Cooperate,
        }
    }

    fn update(&mut self, opponent_move: Move) {
        self.latest_opponent_move = Some(opponent_move);
    }

    fn get_score(&self) -> (r: i32) {
        self.score
    }

    fn set_score(&mut self, score: i32) {
        self.score = score;
    }
}

/// Number of opening moves the detective plays regardless of the opponent.
pub const OPENING_LEN: usize = 4;

/// The detective's opening: cooperate, cheat, cooperate, cooperate.
pub open spec fn opening_move(turn: int) -> Move {
    if turn == 1 {
        Move::Cheat
    } else {
        Move::Cooperate
    }
}

/// Plays a fixed opening; if the opponent cheated during it, then copies the
/// opponent's latest move, and otherwise cheats for good.
pub struct DetectiveAgent {
    score: i32,
    turn_number: usize,
    opponent_cheated_during_initial_stage: bool,
    latest_opponent_move: Option<Move>,
}

impl DetectiveAgent {
    /// Rounds played so far.
    pub closed spec fn turn(&self) -> int {
        self.turn_number as int
    }

    /// Whether the opponent cheated during the opening.
    pub closed spec fn caught_cheating(&self) -> bool {
        self.opponent_cheated_during_initial_stage
    }

    /// The opponent's latest move after the opening, if any.
    pub closed spec fn latest(&self) -> Option<Move> {
        self.latest_opponent_move
    }

    pub fn new() -> (r: Self)
        ensures
            r.score_of() == 0,
            r.turn() == 0,
            !r.caught_cheating(),
            r.latest() is None,
    {
        DetectiveAgent {
            score: 0,
            turn_number: 0,
            opponent_cheated_during_initial_stage: false,
            latest_opponent_move: None,
        }
    }
}

impl Default for DetectiveAgent {
    fn default() -> (r: Self)
        ensures
            r.score_of() == 0,
            r.turn() == 0,
            !r.caught_cheating(),
            r.latest() is None,
    {
        Self::new()
    }
}

impl Agent for DetectiveAgent {
    closed spec fn played(&self) -> Self {
        DetectiveAgent {
            turn_number: if self.turn_number < usize::MAX { (self.turn_number + 1) as usize } else { usize::MAX },
            ..*self
        }
    }

    closed spec fn updated(&self, opponent_move: Move) -> Self {
        if self.turn_number < OPENING_LEN {
            if opponent_move == Move::Cheat {
                DetectiveAgent { opponent_cheated_during_initial_stage: true, ..*self }
            } else {
                *self
            }
        } else if self.opponent_cheated_during_initial_stage {
            DetectiveAgent { latest_opponent_move: Some(opponent_move), ..*self }
        } else {
            *self
        }
    }

    closed spec fn with_score(&self, score: i32) -> Self {
        DetectiveAgent { score, ..*self }
    }

    closed spec fn score_of(&self) -> int {
        self.score as int
    }

    /// During the opening, its next move; then the opponent's latest move
    /// if it was caught cheating (cooperation before any is known), else
    /// cheating.
    open spec fn next_move(&self) -> Move {
        if self.turn() < OPENING_LEN {
            opening_move(self.turn())
        } else if self.caught_cheating() {
            match self.latest() {
                Some(m) => m,
                None => Move::Cooperate,
            }
        } else {
            Move::Cheat
        }
    }

    fn play_round(&mut self) -> (r: Move) {
        let result: Move = if self.turn_number < OPENING_LEN {
            match self.turn_number {
                1 => Move::Cheat,
                _ => Move::Cooperate,
            }
        } else if self.opponent_cheated_during_initial_stage {
            match self.latest_opponent_move {
                Some(m) => m,
                None => Move::Cooperate,
            }
        } else {
            Move::Cheat
        };
        self.turn_number = self.turn_number.saturating_add(1);
        result
    }

    fn update(&mut self, opponent_move: Move) {
        if self.turn_number < OPENING_LEN {
            if let Move::Cheat = opponent_move {
                self.opponent_cheated_during_initial_stage = true;
            }
        } else if self.opponent_cheated_during_initial_stage {
            self.latest_opponent_move = Some(opponent_move);
        }
    }

    fn get_score(&self) -> (r: i32) {
        self.score
    }

    fn set_score(&mut self, score: i32) {
        self.score = score;
    }
}

} // verus!
