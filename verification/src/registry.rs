//! Calculator resolution: which `ScoreCalculator` governs a season, a
//! season-competition or a competition event. An explicit reference must
//! resolve to a stored calculator — a dangling reference is an error, never
//! silently replaced — and the absence of a reference always resolves to the
//! one built-in default calculator.

use crate::errors::CalcError;
use crate::model::ScoreCalculator;
use crate::value::Datum;
use vstd::prelude::*;

verus! {

/// The built-in default calculator. It supports all three levels with a
/// deterministic baseline: at the event level a subject scores its most
/// recent usable entry (the `score` field of the first score-data record
/// that has one; a disqualified placeholder is skipped but still visible);
/// at the competition and season levels a subject scores the sum of the
/// values handed up from the level below. Missing inputs leave the subject
/// unscored rather than inventing a zero.
pub const DEFAULT_CALCULATOR_SCRIPT: &'static str = "\nlocal function first_score(scores)\n  for i = 1, #scores do\n    local s = scores[i]\n    if type(s) == 'table' and s.score ~= nil then\n      return s.score\n    end\n  end\n  return nil\nend\n\nlocal function total(data)\n  local sum = nil\n  for i = 1, #data do\n    local d = data[i]\n    if d ~= nil and d ~= false then\n      if sum == nil then sum = d else sum = sum + d end\n    end\n  end\n  return sum\nend\n\nfunction calculate_event_scores(units, config)\n  local results = {}\n  for i = 1, #units do\n    local u = units[i]\n    local s = first_score(u.scores)\n    results[i] = { id = u.id, event_score = s, competition_data = s }\n  end\n  return results\nend\n\nfunction calculate_competition_scores(units, config)\n  local results = {}\n  for i = 1, #units do\n    local u = units[i]\n    local s = total(u.data)\n    results[i] = { id = u.id, competition_score = s, season_data = s }\n  end\n  return results\nend\n\nfunction calculate_season_scores(units, config)\n  local results = {}\n  for i = 1, #units do\n    local u = units[i]\n    results[i] = { id = u.id, season_score = total(u.data) }\n  end\n  return results\nend\n";

impl ScoreCalculator {
    /// The single built-in default calculator: capability-complete and
    /// deterministic, used whenever an entity names no calculator.
    pub fn get_default() -> (r: ScoreCalculator)
        ensures
            r.id is None,
            r.script@ == DEFAULT_CALCULATOR_SCRIPT@,
            r.supports_seasons && r.supports_competitions && r.supports_events,
            r.default_config.dv() is Table,
    {
        let default_config = Datum::Table(Vec::new());
        proof {
            assert(default_config.dv() is Table);
        }
        ScoreCalculator {
            id: None,
            name: String::from_str("Default"),
            description: String::from_str(
                "Ranks by the most recent usable score at the event level and by sums above it.",
            ),
            script: String::from_str(DEFAULT_CALCULATOR_SCRIPT),
            default_config,
            supports_seasons: true,
            supports_competitions: true,
            supports_events: true,
            score_fields: None,
        }
    }
}

/// The stored calculator with the given identity, if any.
pub fn find_calculator<'a>(cals: &'a Vec<ScoreCalculator>, id: u128) -> (r: Option<
    &'a ScoreCalculator,
>)
    ensures
        match r {
            Some(c) => exists|i: int|
                0 <= i < cals@.len() && (#[trigger] cals@[i]).id == Some(id) && *c == cals@[i],
            None => forall|i: int| 0 <= i < cals@.len() ==> (#[trigger] cals@[i]).id != Some(id),
        },
{
    let mut i: usize = 0;
    while i < cals.len()
        invariant
            i <= cals@.len(),
            forall|t: int| 0 <= t < i ==> (#[trigger] cals@[t]).id != Some(id),
        decreases cals@.len() - i,
    {
        let hit = match cals[i].id {
            Some(cid) => cid == id,
            None => false,
        };
        if hit {
            return Some(&cals[i]);
        }
        i = i + 1;
    }
    None
}

/// Resolve the calculator an entity uses: its explicit reference when it has
/// one — a dangling reference is a `NotFound` error — and the built-in
/// default otherwise.
pub fn resolve_calculator<'a>(
    cals: &'a Vec<ScoreCalculator>,
    reference: Option<u128>,
    default: &'a ScoreCalculator,
) -> (r: Result<&'a ScoreCalculator, CalcError>)
    ensures
        match r {
            Ok(c) => (reference is None && c == default) || ((reference matches Some(id)
                && exists|i: int|
                    0 <= i < cals@.len() && (#[trigger] cals@[i]).id == Some(id) && *c
                        == cals@[i])),
            Err(e) => e is NotFound && reference is Some && (forall|i: int|
                0 <= i < cals@.len() ==> (#[trigger] cals@[i]).id != reference),
        },
{
    match reference {
        None => Ok(default),
        Some(id) => {
            match find_calculator(cals, id) {
                Some(c) => Ok(c),
                None => Err(
                    CalcError::NotFound(String::from_str("referenced score calculator")),
                ),
            }
        },
    }
}

} // verus!
