use scorecalc::value::{merge_config, Datum};

fn table(entries: Vec<(&str, Datum)>) -> Datum {
    Datum::Table(entries.into_iter().map(|(k, v)| (k.to_string(), v)).collect())
}

#[test]
fn merge_override_wins_per_key() {
    let default = table(vec![("a", Datum::Int(1)), ("b", Datum::Int(2))]);
    let overlay = table(vec![("b", Datum::Int(20)), ("c", Datum::Int(30))]);
    let merged = merge_config(&default, &overlay);
    assert_eq!(merged.get("a"), Some(&Datum::Int(1)));
    assert_eq!(merged.get("b"), Some(&Datum::Int(20)));
    assert_eq!(merged.get("c"), Some(&Datum::Int(30)));
    assert_eq!(merged.get("d"), None);
}

#[test]
fn merge_with_non_table_sides() {
    let overlay = table(vec![("k", Datum::Bool(true))]);
    let merged = merge_config(&Datum::Null, &overlay);
    assert_eq!(merged.get("k"), Some(&Datum::Bool(true)));
    let merged2 = merge_config(&overlay, &Datum::Null);
    assert_eq!(merged2.get("k"), Some(&Datum::Bool(true)));
}

#[test]
fn lookup_takes_last_binding() {
    let t = table(vec![("k", Datum::Int(1)), ("k", Datum::Int(2))]);
    assert_eq!(t.get("k"), Some(&Datum::Int(2)));
}
