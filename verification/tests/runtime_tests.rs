use scorecalc::errors::CalcError;
use scorecalc::runtime::CalculatorScriptContext;
use scorecalc::value::Datum;

fn units_of(v: Datum) -> Datum {
    Datum::Array(vec![v])
}

#[test]
fn invokes_a_function_and_reads_back_values() {
    let ctx = CalculatorScriptContext::new().unwrap();
    let script = "function f(units, config) return { units[1], config.k } end";
    let units = units_of(Datum::Int(41));
    let config = Datum::Table(vec![("k".to_string(), Datum::Str("x".to_string()))]);
    let out = ctx.execute_function(script, "f", &units, &config).unwrap();
    assert_eq!(
        out,
        Datum::Array(vec![Datum::Int(41), Datum::Str("x".to_string())])
    );
}

#[test]
fn compile_error_is_reported() {
    let ctx = CalculatorScriptContext::new().unwrap();
    let r = ctx.execute_function("function f(", "f", &Datum::Null, &Datum::Null);
    assert!(matches!(r, Err(CalcError::ScriptCompileError(_))), "{:?}", r);
}

#[test]
fn missing_function_is_reported() {
    let ctx = CalculatorScriptContext::new().unwrap();
    let r = ctx.execute_function("x = 1", "nope", &Datum::Null, &Datum::Null);
    assert!(matches!(r, Err(CalcError::FunctionNotFound(n)) if n == "nope"));
}

#[test]
fn runtime_error_is_reported() {
    let ctx = CalculatorScriptContext::new().unwrap();
    let r = ctx.execute_function("function f() error('boom') end", "f", &Datum::Null, &Datum::Null);
    assert!(matches!(r, Err(CalcError::ScriptRuntimeError(_))), "{:?}", r);
}

#[test]
fn unbounded_loop_times_out() {
    let mut ctx = CalculatorScriptContext::new().unwrap();
    ctx.set_budget(200000);
    let r = ctx.execute_function(
        "function f(units, config) while true do end end",
        "f",
        &Datum::Null,
        &Datum::Null,
    );
    assert_eq!(r, Err(CalcError::Timeout));
}

#[test]
fn unbounded_loop_at_top_level_times_out() {
    let mut ctx = CalculatorScriptContext::new().unwrap();
    ctx.set_budget(200000);
    let r = ctx.execute_function("while true do end", "f", &Datum::Null, &Datum::Null);
    assert_eq!(r, Err(CalcError::Timeout));
}

#[test]
fn cyclic_return_value_is_rejected_not_followed() {
    let ctx = CalculatorScriptContext::new().unwrap();
    let script = "function f(units, config) local t = {} t[1] = t return t end";
    let r = ctx.execute_function(script, "f", &Datum::Null, &Datum::Null);
    assert!(matches!(r, Err(CalcError::TypeMismatch(_))), "{:?}", r);
}

#[test]
fn deeply_nested_return_value_is_rejected() {
    let ctx = CalculatorScriptContext::new().unwrap();
    let script = "function f(units, config)
                  local t = {}
                  local inner = t
                  for i = 1, 100000 do local n = {} inner[1] = n inner = n end
                  inner[1] = 7
                  return t
                  end";
    let r = ctx.execute_function(script, "f", &Datum::Null, &Datum::Null);
    assert!(matches!(r, Err(CalcError::TypeMismatch(_))), "{:?}", r);
}

#[test]
fn catching_the_budget_abort_does_not_evade_it() {
    let mut ctx = CalculatorScriptContext::new().unwrap();
    ctx.set_budget(200000);
    let script = "function f(units, config)
                  while true do pcall(function() while true do end end) end
                  end";
    let r = ctx.execute_function(script, "f", &Datum::Null, &Datum::Null);
    assert_eq!(r, Err(CalcError::Timeout));
}

#[test]
fn decimal_bridge_round_trips_and_computes() {
    let ctx = CalculatorScriptContext::new().unwrap();
    let script = "function f(units, config) return decimal('0.1') + decimal('0.2') end";
    let out = ctx.execute_function(script, "f", &Datum::Null, &Datum::Null).unwrap();
    let expected = scorecalc::decimal::Decimal::from_string("0.3").unwrap();
    match out {
        Datum::Dec(d) => assert!(d.eq_val(expected)),
        other => panic!("expected a decimal, got {:?}", other),
    }
}

#[test]
fn decimal_division_by_zero_fails_inside_scripts() {
    let ctx = CalculatorScriptContext::new().unwrap();
    let script = "function f(units, config) return decimal(1) / decimal(0) end";
    let r = ctx.execute_function(script, "f", &Datum::Null, &Datum::Null);
    assert!(matches!(r, Err(CalcError::ScriptRuntimeError(_))), "{:?}", r);
}

#[test]
fn decimal_constructor_rejects_other_kinds() {
    let ctx = CalculatorScriptContext::new().unwrap();
    let script = "function f(units, config) return decimal({}) end";
    let r = ctx.execute_function(script, "f", &Datum::Null, &Datum::Null);
    assert!(matches!(r, Err(CalcError::ScriptRuntimeError(_))), "{:?}", r);
}

#[test]
fn decimal_comparisons_in_scripts() {
    let ctx = CalculatorScriptContext::new().unwrap();
    let script =
        "function f(units, config) return { decimal('1.50') == decimal('1.5'), decimal('2') < decimal('10') } end";
    let out = ctx.execute_function(script, "f", &Datum::Null, &Datum::Null).unwrap();
    assert_eq!(out, Datum::Array(vec![Datum::Bool(true), Datum::Bool(true)]));
}

#[test]
fn sandbox_offers_no_io() {
    let ctx = CalculatorScriptContext::new().unwrap();
    let script = "function f(units, config) return { io == nil, os == nil } end";
    let out = ctx.execute_function(script, "f", &Datum::Null, &Datum::Null).unwrap();
    assert_eq!(out, Datum::Array(vec![Datum::Bool(true), Datum::Bool(true)]));
}
