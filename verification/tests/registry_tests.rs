use scorecalc::model::ScoreCalculator;
use scorecalc::registry::{find_calculator, resolve_calculator};
use scorecalc::value::Datum;

fn cal(id: u128) -> ScoreCalculator {
    ScoreCalculator {
        id: Some(id),
        name: format!("cal {}", id),
        description: String::new(),
        script: String::new(),
        default_config: Datum::Table(vec![]),
        supports_seasons: false,
        supports_competitions: false,
        supports_events: true,
        score_fields: None,
    }
}

#[test]
fn default_calculator_is_capability_complete() {
    let d = ScoreCalculator::get_default();
    assert!(d.supports_seasons && d.supports_competitions && d.supports_events);
    assert!(d.id.is_none());
    assert!(!d.script.is_empty());
}

#[test]
fn no_reference_resolves_to_the_default() {
    let cals = vec![cal(1)];
    let default = ScoreCalculator::get_default();
    let r = resolve_calculator(&cals, None, &default).unwrap();
    assert!(r.id.is_none());
}

#[test]
fn explicit_reference_resolves_to_the_stored_calculator() {
    let cals = vec![cal(1), cal(2)];
    let default = ScoreCalculator::get_default();
    let r = resolve_calculator(&cals, Some(2), &default).unwrap();
    assert_eq!(r.id, Some(2));
    assert_eq!(find_calculator(&cals, 1).unwrap().id, Some(1));
}

#[test]
fn dangling_reference_is_an_error_not_the_default() {
    let cals = vec![cal(1)];
    let default = ScoreCalculator::get_default();
    let r = resolve_calculator(&cals, Some(99), &default);
    assert!(r.is_err());
    assert!(find_calculator(&cals, 99).is_none());
}
