//! The domain records the scoring core consumes. They arrive from the
//! persistence layer as already-validated plain values; identifiers are
//! 128-bit numbers, timestamps are epoch milliseconds.

use crate::value::Datum;
use vstd::prelude::*;

verus! {

/// Whether a competition event is scored by teams or by groups.
#[derive(Debug, Clone, Copy, PartialEq, Eq, Structural)]
pub enum ScoreType {
    Group,
    Team,
}

/// A season: the top aggregation level.
#[derive(Debug)]
pub struct Season {
    pub id: Option<u128>,
    pub name: String,
    pub description: String,
    pub score_calculator: Option<u128>,
    pub calculator_config: Datum,
    pub enabled: bool,
}

/// A competition, as a catalogue entry; it runs within seasons.
#[derive(Debug)]
pub struct Competition {
    pub id: Option<u128>,
    pub name: String,
    pub description: String,
    pub enabled: bool,
}

/// An event, as a catalogue entry; it runs within competitions.
#[derive(Debug)]
pub struct Event {
    pub id: Option<u128>,
    pub competition_id: u128,
    pub name: String,
    pub description: String,
    pub enabled: bool,
}

/// One competition running in one season: the middle aggregation level.
#[derive(Debug)]
pub struct SeasonCompetition {
    pub id: Option<u128>,
    pub season_id: u128,
    pub competition_id: u128,
    pub description: String,
    pub score_calculator: Option<u128>,
    pub calculator_config: Datum,
    pub enabled: bool,
}

/// One event running in one season-competition: the lowest aggregation
/// level, scored either by teams or by groups.
#[derive(Debug)]
pub struct CompetitionEvent {
    pub id: Option<u128>,
    pub season_competition_id: u128,
    pub event_id: u128,
    pub description: String,
    pub score_calculator: Option<u128>,
    pub calculator_config: Datum,
    pub enabled: bool,
    pub score_type: ScoreType,
}

/// A group of participants.
#[derive(Debug)]
pub struct Group {
    pub id: Option<u128>,
    pub name: String,
    pub description: String,
    pub enabled: bool,
}

/// A group's enrollment in one season.
#[derive(Debug)]
pub struct GroupParticipation {
    pub id: Option<u128>,
    pub group_id: u128,
    pub season_id: u128,
    pub description: String,
    pub enabled: bool,
}

/// A team; it belongs to exactly one group participation.
#[derive(Debug)]
pub struct Team {
    pub id: Option<u128>,
    pub group_participation_id: u128,
    pub name: String,
    pub description: String,
    pub enabled: bool,
}

/// One raw score entry for one subject in one competition event.
#[derive(Debug)]
pub struct Score {
    pub id: Option<u128>,
    pub competition_event_id: u128,
    pub score_type: ScoreType,
    pub subject_id: u128,
    pub score_data: Datum,
    pub timestamp: i64,
    pub valid: bool,
    pub disqualified: bool,
    pub notes: String,
}

/// A calculator definition: script source, default configuration and
/// capability flags.
#[derive(Debug)]
pub struct ScoreCalculator {
    pub id: Option<u128>,
    pub name: String,
    pub description: String,
    pub script: String,
    pub default_config: Datum,
    pub supports_seasons: bool,
    pub supports_competitions: bool,
    pub supports_events: bool,
    pub score_fields: Option<Datum>,
}

/// Everything the three aggregation stages read: a snapshot of the domain,
/// supplied by the persistence collaborators.
#[derive(Debug)]
pub struct DataSet {
    pub seasons: Vec<Season>,
    pub competitions: Vec<Competition>,
    pub events: Vec<Event>,
    pub season_competitions: Vec<SeasonCompetition>,
    pub competition_events: Vec<CompetitionEvent>,
    pub groups: Vec<Group>,
    pub group_participations: Vec<GroupParticipation>,
    pub teams: Vec<Team>,
    pub scores: Vec<Score>,
    pub score_calculators: Vec<ScoreCalculator>,
}

impl DataSet {
    /// Score entries stand newest first: the persistence collaborator hands
    /// them over ordered by descending timestamp.
    pub open spec fn wf(self) -> bool {
        forall|i: int, j: int|
            0 <= i < j < self.scores@.len() ==> (#[trigger] self.scores@[i]).timestamp >= (
            #[trigger] self.scores@[j]).timestamp
    }

    pub fn empty() -> (r: DataSet)
        ensures
            r.wf(),
            r.scores@.len() == 0,
    {
        DataSet {
            seasons: Vec::new(),
            competitions: Vec::new(),
            events: Vec::new(),
            season_competitions: Vec::new(),
            competition_events: Vec::new(),
            groups: Vec::new(),
            group_participations: Vec::new(),
            teams: Vec::new(),
            scores: Vec::new(),
            score_calculators: Vec::new(),
        }
    }
}

} // verus!
