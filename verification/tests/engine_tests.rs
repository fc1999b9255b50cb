use scorecalc::decimal::Decimal;
use scorecalc::engine::{ResultsCalculator, ScoreResult};
use scorecalc::errors::CalcError;
use scorecalc::model::{
    Competition, CompetitionEvent, DataSet, Event, Group, GroupParticipation, Score,
    ScoreCalculator, ScoreType, Season, SeasonCompetition, Team,
};
use scorecalc::value::Datum;

fn d(s: &str) -> Decimal {
    Decimal::from_string(s).unwrap()
}

fn score_data(points: i64) -> Datum {
    Datum::Table(vec![("score".to_string(), Datum::Int(points))])
}

fn entry(event: u128, kind: ScoreType, subject: u128, ts: i64, data: Datum, valid: bool, dq: bool) -> Score {
    Score {
        id: None,
        competition_event_id: event,
        score_type: kind,
        subject_id: subject,
        score_data: data,
        timestamp: ts,
        valid,
        disqualified: dq,
        notes: String::new(),
    }
}

/// One season, one competition, one team-scored event, one group with two
/// teams. Team A (id 8) has valid scores 9 (newest) and 8; team B (id 9) has
/// a disqualified newest entry and a valid 7 behind it.
fn sample_data(calculator: Option<ScoreCalculator>, event_calculator: Option<u128>) -> DataSet {
    let mut data = DataSet::empty();
    data.seasons.push(Season {
        id: Some(1),
        name: "Season".to_string(),
        description: String::new(),
        score_calculator: None,
        calculator_config: Datum::Null,
        enabled: true,
    });
    data.competitions.push(Competition {
        id: Some(2),
        name: "Competition".to_string(),
        description: String::new(),
        enabled: true,
    });
    data.events.push(Event {
        id: Some(3),
        competition_id: 2,
        name: "Obstacle Run".to_string(),
        description: String::new(),
        enabled: true,
    });
    data.season_competitions.push(SeasonCompetition {
        id: Some(4),
        season_id: 1,
        competition_id: 2,
        description: String::new(),
        score_calculator: None,
        calculator_config: Datum::Null,
        enabled: true,
    });
    data.competition_events.push(CompetitionEvent {
        id: Some(5),
        season_competition_id: 4,
        event_id: 3,
        description: String::new(),
        score_calculator: event_calculator,
        calculator_config: Datum::Null,
        enabled: true,
        score_type: ScoreType::Team,
    });
    data.groups.push(Group {
        id: Some(6),
        name: "Group".to_string(),
        description: String::new(),
        enabled: true,
    });
    data.group_participations.push(GroupParticipation {
        id: Some(7),
        group_id: 6,
        season_id: 1,
        description: String::new(),
        enabled: true,
    });
    data.teams.push(Team {
        id: Some(8),
        group_participation_id: 7,
        name: "Team A".to_string(),
        description: String::new(),
        enabled: true,
    });
    data.teams.push(Team {
        id: Some(9),
        group_participation_id: 7,
        name: "Team B".to_string(),
        description: String::new(),
        enabled: true,
    });
    // Newest first, as the persistence collaborator supplies them.
    data.scores.push(entry(5, ScoreType::Team, 8, 20, score_data(9), true, false));
    data.scores.push(entry(5, ScoreType::Team, 9, 20, score_data(100), true, true));
    data.scores.push(entry(5, ScoreType::Team, 8, 10, score_data(8), true, false));
    data.scores.push(entry(5, ScoreType::Team, 9, 10, score_data(7), true, false));
    // An invalid entry that must be omitted entirely.
    data.scores.push(entry(5, ScoreType::Team, 9, 5, score_data(1000), false, false));
    if let Some(cal) = calculator {
        data.score_calculators.push(cal);
    }
    data
}

fn custom_calculator(id: u128, script: &str) -> ScoreCalculator {
    ScoreCalculator {
        id: Some(id),
        name: "Custom".to_string(),
        description: String::new(),
        script: script.to_string(),
        default_config: Datum::Table(vec![]),
        supports_seasons: true,
        supports_competitions: true,
        supports_events: true,
        score_fields: None,
    }
}

#[test]
fn end_to_end_default_calculator_ranks_two_teams() {
    let calc = ResultsCalculator::new(sample_data(None, None)).unwrap();
    // Team A's score is its most recent valid entry.
    let (score_a, _) = calc.calculate_team_event_score(5, 8).unwrap();
    assert_eq!(score_a, Some(d("9")));
    // Team B's disqualified entry does not erase its older valid 7.
    let (score_b, _) = calc.calculate_team_event_score(5, 9).unwrap();
    assert_eq!(score_b, Some(d("7")));
    let result = calc.compute_event_results(5).unwrap();
    assert_eq!(result.event_name, "Obstacle Run");
    assert_eq!(
        result.results,
        vec![
            ScoreResult::Team {
                team_id: 8,
                group_name: "Group".to_string(),
                team_name: "Team A".to_string(),
                rank: Some(d("1")),
            },
            ScoreResult::Team {
                team_id: 9,
                group_name: "Group".to_string(),
                team_name: "Team B".to_string(),
                rank: Some(d("2")),
            },
        ]
    );
}

#[test]
fn recomputing_unchanged_data_is_byte_identical() {
    let calc = ResultsCalculator::new(sample_data(None, None)).unwrap();
    let first = calc.compute_event_results(5).unwrap();
    let second = calc.compute_event_results(5).unwrap();
    assert_eq!(first, second);
    assert_eq!(format!("{:?}", first), format!("{:?}", second));
    let season_one = calc.compute_season_results(1).unwrap();
    let season_two = calc.compute_season_results(1).unwrap();
    assert_eq!(format!("{:?}", season_one), format!("{:?}", season_two));
}

#[test]
fn disqualified_entries_are_visible_placeholders_and_invalid_ones_are_gone() {
    // The calculator reports, per subject, ten times the number of entries it
    // sees plus the number of explicit placeholders among them.
    let script = "function calculate_event_scores(units, config)\n\
                  local u = units[1]\n\
                  local n = #u.scores\n\
                  local c = 0\n\
                  for i = 1, n do\n\
                    if u.scores[i] == false then c = c + 1 end\n\
                  end\n\
                  return { { id = u.id, event_score = n * 10 + c } }\n\
                  end";
    let data = sample_data(Some(custom_calculator(77, script)), Some(77));
    let calc = ResultsCalculator::new(data).unwrap();
    // Team B: two visible entries (one a placeholder); the invalid entry is
    // omitted entirely.
    let (score_b, _) = calc.calculate_team_event_score(5, 9).unwrap();
    assert_eq!(score_b, Some(d("21")));
    // Team A: two visible entries, no placeholder.
    let (score_a, _) = calc.calculate_team_event_score(5, 8).unwrap();
    assert_eq!(score_a, Some(d("20")));
}

#[test]
fn a_throwing_script_isolates_to_its_own_subject() {
    // The script fails for team A (id 8) and scores everyone else.
    let script = "function calculate_event_scores(units, config)\n\
                  if units[1].id == '8' then error('boom') end\n\
                  return { { id = units[1].id, event_score = 5 } }\n\
                  end";
    let data = sample_data(Some(custom_calculator(77, script)), Some(77));
    let calc = ResultsCalculator::new(data).unwrap();
    let result = calc.compute_event_results(5).unwrap();
    assert_eq!(
        result.results,
        vec![
            ScoreResult::Team {
                team_id: 9,
                group_name: "Group".to_string(),
                team_name: "Team B".to_string(),
                rank: Some(d("1")),
            },
            ScoreResult::Team {
                team_id: 8,
                group_name: "Group".to_string(),
                team_name: "Team A".to_string(),
                rank: None,
            },
        ]
    );
}

#[test]
fn dangling_calculator_reference_is_not_found_not_replaced() {
    let data = sample_data(None, Some(999));
    let calc = ResultsCalculator::new(data).unwrap();
    let r = calc.compute_event_results(5);
    assert!(matches!(r, Err(CalcError::NotFound(_))), "{:?}", r);
}

#[test]
fn reference_intact_event_without_participants_succeeds() {
    let mut data = sample_data(None, None);
    data.group_participations.clear();
    data.teams.clear();
    data.scores.clear();
    let calc = ResultsCalculator::new(data).unwrap();
    let result = calc.compute_event_results(5).unwrap();
    assert_eq!(result.event_name, "Obstacle Run");
    assert!(result.results.is_empty());
}

#[test]
fn missing_group_is_not_found() {
    let mut data = sample_data(None, None);
    data.groups.clear();
    let calc = ResultsCalculator::new(data).unwrap();
    let r = calc.compute_event_results(5);
    assert!(matches!(r, Err(CalcError::NotFound(_))), "{:?}", r);
    let r2 = calc.compute_season_results(1);
    assert!(matches!(r2, Err(CalcError::NotFound(_))), "{:?}", r2);
}

#[test]
fn missing_event_is_not_found() {
    let calc = ResultsCalculator::new(sample_data(None, None)).unwrap();
    let r = calc.compute_event_results(4242);
    assert!(matches!(r, Err(CalcError::NotFound(_))), "{:?}", r);
}

#[test]
fn full_season_rollup_with_default_calculator() {
    let calc = ResultsCalculator::new(sample_data(None, None)).unwrap();
    let season = calc.compute_season_results(1).unwrap();
    assert_eq!(season.season_name, "Season");
    assert_eq!(season.competitions.len(), 1);
    let competition = &season.competitions[0];
    assert_eq!(competition.competition_name, "Competition");
    assert_eq!(competition.events.len(), 1);
    assert_eq!(competition.events[0].event_name, "Obstacle Run");
    // At the competition level the teams carry 9 and 7; the group sums its
    // teams to 16 and outranks both.
    assert_eq!(competition.results.len(), 3);
    assert_eq!(
        competition.results[0],
        ScoreResult::Group {
            group_participation_id: 7,
            group_name: "Group".to_string(),
            rank: Some(d("1")),
        }
    );
    // The single group is ranked first in the season.
    assert_eq!(
        season.results,
        vec![ScoreResult::Group {
            group_participation_id: 7,
            group_name: "Group".to_string(),
            rank: Some(d("1")),
        }]
    );
}

#[test]
fn config_override_wins_over_calculator_default() {
    let script = "function calculate_event_scores(units, config)\n\
                  return { { id = units[1].id, event_score = config.bonus } }\n\
                  end";
    let mut cal = custom_calculator(77, script);
    cal.default_config = Datum::Table(vec![("bonus".to_string(), Datum::Int(1))]);
    let mut data = sample_data(Some(cal), Some(77));
    data.competition_events[0].calculator_config =
        Datum::Table(vec![("bonus".to_string(), Datum::Int(5))]);
    let calc = ResultsCalculator::new(data).unwrap();
    let (score, _) = calc.calculate_team_event_score(5, 8).unwrap();
    assert_eq!(score, Some(d("5")));
}

#[test]
fn default_config_applies_when_no_override() {
    let script = "function calculate_event_scores(units, config)\n\
                  return { { id = units[1].id, event_score = config.bonus } }\n\
                  end";
    let mut cal = custom_calculator(77, script);
    cal.default_config = Datum::Table(vec![("bonus".to_string(), Datum::Int(1))]);
    let data = sample_data(Some(cal), Some(77));
    let calc = ResultsCalculator::new(data).unwrap();
    let (score, _) = calc.calculate_team_event_score(5, 8).unwrap();
    assert_eq!(score, Some(d("1")));
}

#[test]
fn malformed_return_shape_is_a_type_mismatch() {
    let script = "function calculate_event_scores(units, config) return 'oops' end";
    let data = sample_data(Some(custom_calculator(77, script)), Some(77));
    let calc = ResultsCalculator::new(data).unwrap();
    let r = calc.calculate_team_event_score(5, 8);
    assert!(matches!(r, Err(CalcError::TypeMismatch(_))), "{:?}", r);
}

#[test]
fn non_numeric_score_is_a_type_mismatch() {
    let script = "function calculate_event_scores(units, config)\n\
                  return { { id = units[1].id, event_score = 'high' } }\n\
                  end";
    let data = sample_data(Some(custom_calculator(77, script)), Some(77));
    let calc = ResultsCalculator::new(data).unwrap();
    let r = calc.calculate_team_event_score(5, 8);
    assert!(matches!(r, Err(CalcError::TypeMismatch(_))), "{:?}", r);
}

#[test]
fn scripts_can_rank_with_exact_decimals() {
    // Scores 0.1 + 0.2 and 0.3 must tie exactly.
    let script = "function calculate_event_scores(units, config)\n\
                  local u = units[1]\n\
                  local s\n\
                  if u.id == '8' then s = decimal('0.1') + decimal('0.2') else s = decimal('0.3') end\n\
                  return { { id = u.id, event_score = s } }\n\
                  end";
    let data = sample_data(Some(custom_calculator(77, script)), Some(77));
    let calc = ResultsCalculator::new(data).unwrap();
    let result = calc.compute_event_results(5).unwrap();
    match (&result.results[0], &result.results[1]) {
        (
            ScoreResult::Team { rank: rank_a, .. },
            ScoreResult::Team { rank: rank_b, .. },
        ) => {
            assert_eq!(rank_a.as_ref().unwrap().to_string(), "1");
            assert_eq!(rank_b.as_ref().unwrap().to_string(), "1");
        },
        other => panic!("unexpected {:?}", other),
    }
}
