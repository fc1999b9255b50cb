//! The script runtime: one sandboxed Lua interpreter per context, with the
//! exact-decimal constructor installed under the global name `decimal` and
//! every arithmetic and comparison operator bound to the verified decimal
//! operations. The interpreter itself is reached only through the trusted
//! wrappers in this module; everything they return is validated by verified
//! code before it is used.

use crate::decimal::Decimal;
use crate::value::Datum;
use crate::errors::{CalcError, DecimalError};
use mlua::UserDataMethods;
use vstd::prelude::*;

verus! {

#[verifier::external_type_specification]
#[verifier::external_body]
pub struct ExLua(mlua::Lua);

#[verifier::external_type_specification]
#[verifier::external_body]
pub struct ExLuaValue(mlua::Value);

#[verifier::external_type_specification]
#[verifier::external_body]
pub struct ExLuaFunction(mlua::Function);

#[verifier::external_type_specification]
#[verifier::external_body]
pub struct ExLuaTable(mlua::Table);

#[verifier::external_type_specification]
#[verifier::external_body]
pub struct ExLuaError(mlua::Error);

#[verifier::external_type_specification]
#[verifier::external_body]
pub struct ExAnyUserData(mlua::AnyUserData);

#[verifier::external_type_specification]
#[verifier::external_body]
#[verifier::reject_recursive_types(T)]
pub struct ExUserDataRegistry<T>(mlua::UserDataRegistry<T>);

/// How many Lua instructions one calculator call may execute before it is
/// aborted with a timeout.
pub const DEFAULT_INSTRUCTION_BUDGET: u32 = 10000000;

/// How deeply nested a value crossing the script boundary may be, in either
/// direction. The cap keeps the conversions' recursion bounded, so a
/// self-referential or enormously nested script value is rejected as a typed
/// error instead of exhausting the host's stack.
pub const MAX_VALUE_DEPTH: u32 = 64;

/// Relies on mlua::Error::RuntimeError: the Lua error raised when a decimal
/// operation fails inside a script.
#[verifier::external_body]
fn dec_err(e: DecimalError) -> mlua::Error {
    mlua::Error::RuntimeError(
        String::from(
            match e {
                DecimalError::DivisionByZero => "decimal division by zero",
                DecimalError::Overflow => "decimal result out of range",
                DecimalError::FractionalExponent => "decimal exponent must be an integer",
            },
        ),
    )
}

/// Relies on mlua::Lua::new_with: a fresh, isolated interpreter holding
/// only the pure computation libraries (coroutine, table, string, utf8,
/// math). No filesystem, network, process or clock capability is loaded, so
/// scripts can reach none.
#[verifier::external_body]
fn lua_new() -> Result<mlua::Lua, mlua::Error> {
    let libs = mlua::StdLib::COROUTINE | mlua::StdLib::TABLE | mlua::StdLib::STRING
        | mlua::StdLib::UTF8 | mlua::StdLib::MATH;
    let lua = mlua::Lua::new_with(libs, mlua::LuaOptions::default())?;
    lua.set_app_data(false);
    Ok(lua)
}

/// Relies on mlua::UserDataRegistry::add_meta_function: addition and
/// subtraction run the verified exact decimal operations.
#[verifier::external_body]
fn reg_dec_add(reg: &mut mlua::UserDataRegistry<Decimal>) {
    reg.add_meta_function("__add", |lua, (a, b): (mlua::UserDataRef<Decimal>, mlua::UserDataRef<Decimal>)| match (*a).checked_add(*b) { Some(d) => lua.create_any_userdata(d), None => Err(dec_err(DecimalError::Overflow)) });
    reg.add_meta_function("__sub", |lua, (a, b): (mlua::UserDataRef<Decimal>, mlua::UserDataRef<Decimal>)| match (*a).checked_sub(*b) { Some(d) => lua.create_any_userdata(d), None => Err(dec_err(DecimalError::Overflow)) });
}

/// Relies on mlua::UserDataRegistry::add_meta_function: multiplication and
/// unary negation run the verified exact decimal operations.
#[verifier::external_body]
fn reg_dec_mul(reg: &mut mlua::UserDataRegistry<Decimal>) {
    reg.add_meta_function("__mul", |lua, (a, b): (mlua::UserDataRef<Decimal>, mlua::UserDataRef<Decimal>)| match (*a).checked_mul(*b) { Some(d) => lua.create_any_userdata(d), None => Err(dec_err(DecimalError::Overflow)) });
    reg.add_meta_function("__unm", |lua, a: mlua::UserDataRef<Decimal>| lua.create_any_userdata((*a).neg()));
}

/// Relies on mlua::UserDataRegistry::add_meta_function: division and modulo
/// run the verified exact decimal operations and fail on a zero divisor.
#[verifier::external_body]
fn reg_dec_div(reg: &mut mlua::UserDataRegistry<Decimal>) {
    reg.add_meta_function("__div", |lua, (a, b): (mlua::UserDataRef<Decimal>, mlua::UserDataRef<Decimal>)| match (*a).checked_div(*b) { Ok(d) => lua.create_any_userdata(d), Err(e) => Err(dec_err(e)) });
    reg.add_meta_function("__mod", |lua, (a, b): (mlua::UserDataRef<Decimal>, mlua::UserDataRef<Decimal>)| match (*a).checked_rem(*b) { Ok(d) => lua.create_any_userdata(d), Err(e) => Err(dec_err(e)) });
}

/// Relies on mlua::UserDataRegistry::add_meta_function: floor division and
/// exponentiation run the verified exact decimal operations.
#[verifier::external_body]
fn reg_dec_pow(reg: &mut mlua::UserDataRegistry<Decimal>) {
    reg.add_meta_function("__idiv", |lua, (a, b): (mlua::UserDataRef<Decimal>, mlua::UserDataRef<Decimal>)| match (*a).checked_idiv(*b) { Ok(d) => lua.create_any_userdata(d), Err(e) => Err(dec_err(e)) });
    reg.add_meta_function("__pow", |lua, (a, b): (mlua::UserDataRef<Decimal>, mlua::UserDataRef<Decimal>)| match (*a).checked_pow(*b) { Ok(d) => lua.create_any_userdata(d), Err(e) => Err(dec_err(e)) });
}

/// Relies on mlua::UserDataRegistry::add_meta_function: equality and order
/// compare decimal values through the verified comparison.
#[verifier::external_body]
fn reg_dec_cmp(reg: &mut mlua::UserDataRegistry<Decimal>) {
    reg.add_meta_function("__eq", |_, (a, b): (mlua::UserDataRef<Decimal>, mlua::UserDataRef<Decimal>)| Ok((*a).eq_val(*b)));
    reg.add_meta_function("__lt", |_, (a, b): (mlua::UserDataRef<Decimal>, mlua::UserDataRef<Decimal>)| Ok((*a).lt_val(*b)));
    reg.add_meta_function("__le", |_, (a, b): (mlua::UserDataRef<Decimal>, mlua::UserDataRef<Decimal>)| Ok((*a).le_val(*b)));
}

/// Relies on mlua::Lua::register_userdata_type: installs the decimal
/// operator bindings above for decimal userdata values.
#[verifier::external_body]
fn register_decimal(lua: &mlua::Lua) -> Result<(), mlua::Error> {
    lua.register_userdata_type::<Decimal>(|reg| {
        reg_dec_add(reg);
        reg_dec_mul(reg);
        reg_dec_div(reg);
        reg_dec_pow(reg);
        reg_dec_cmp(reg);
    })
}

/// Relies on mlua::Lua::create_any_userdata: the `decimal` constructor. An
/// integer converts exactly, any other number through its decimal text, a
/// string through the verified parser, a decimal as itself. Every other kind
/// of value is rejected, never coerced.
#[verifier::external_body]
fn dec_from_lua_scalar(lua: &mlua::Lua, v: mlua::Value) -> Result<mlua::AnyUserData, mlua::Error> {
    let parsed = match v {
        mlua::Value::Integer(i) => Some(Decimal::from_i64(i)),
        mlua::Value::Number(n) => Decimal::from_string(&format!("{}", n)),
        mlua::Value::String(s) => Decimal::from_string(&s.to_string_lossy()),
        mlua::Value::UserData(u) => match u.borrow::<Decimal>() {
            Ok(d) => Some(*d),
            Err(_) => None,
        },
        _ => None,
    };
    match parsed {
        Some(d) => lua.create_any_userdata(d),
        None => Err(mlua::Error::RuntimeError(String::from("decimal: type mismatch"))),
    }
}

/// Relies on mlua::Lua::create_function and Table::set: installs the global
/// `decimal` constructor.
#[verifier::external_body]
fn set_decimal_constructor(lua: &mlua::Lua) -> Result<(), mlua::Error> {
    let f = lua.create_function(|lua, v: mlua::Value| dec_from_lua_scalar(lua, v))?;
    lua.globals().set("decimal", f)
}

/// Relies on mlua::Lua::set_global_hook with an every-n-instructions
/// trigger: once the script has run `n` instructions, the hook flags the
/// exhaustion and aborts the script with an error. The abort can be caught
/// by a script's pcall, so the hook then re-arms itself to fire on every
/// single instruction: after exhaustion no script makes progress, and the
/// abort reaches the host.
#[verifier::external_body]
fn arm_budget(lua: &mlua::Lua, n: u32) -> (r: Result<(), CalcError>)
    ensures
        r matches Err(e) ==> e is Internal,
{
    lua.set_app_data(false);
    let hook = |lua: &mlua::Lua, _: &mlua::debug::Debug| -> Result<mlua::VmState, mlua::Error> {
        lua.set_app_data(true);
        let every = mlua::HookTriggers::new().every_nth_instruction(1);
        let _ = lua.set_global_hook(every, |lua: &mlua::Lua, _: &mlua::debug::Debug| {
            lua.set_app_data(true);
            Err::<mlua::VmState, mlua::Error>(mlua::Error::RuntimeError(String::from("instruction budget exhausted")))
        });
        Err(mlua::Error::RuntimeError(String::from("instruction budget exhausted")))
    };
    lua.set_global_hook(mlua::HookTriggers::new().every_nth_instruction(n), hook).map_err(
        |e| CalcError::Internal(format!("{}", e)),
    )
}

/// Relies on mlua::Lua::app_data_ref: whether the most recent script
/// execution was aborted for exhausting its instruction budget.
#[verifier::external_body]
fn budget_exhausted(lua: &mlua::Lua) -> bool {
    match lua.app_data_ref::<bool>() {
        Some(b) => *b,
        None => false,
    }
}

/// Relies on mlua::Chunk::exec: compiles and runs the script's top level.
#[verifier::external_body]
fn load_script(lua: &mlua::Lua, source: &str) -> (r: Result<(), mlua::Error>) {
    lua.load(source).exec()
}

/// Relies on mlua::Table::get: the global with the given name, when it is a
/// function.
#[verifier::external_body]
fn get_function(lua: &mlua::Lua, name: &str) -> Option<mlua::Function> {
    lua.globals().get::<mlua::Function>(name).ok()
}

/// Relies on mlua::Function::call: invokes the function with two positional
/// arguments and returns its first result.
#[verifier::external_body]
fn call_function_2(f: &mlua::Function, a: mlua::Value, b: mlua::Value) -> Result<
    mlua::Value,
    mlua::Error,
> {
    f.call::<mlua::Value>((a, b))
}

/// Relies on mlua::Error's variants: a syntax error becomes a compile
/// error; everything else a script raises is a runtime error.
#[verifier::external_body]
fn classify_error(e: mlua::Error) -> (r: CalcError)
    ensures
        r is ScriptCompileError || r is ScriptRuntimeError,
{
    match e {
        mlua::Error::SyntaxError { message, .. } => CalcError::ScriptCompileError(message),
        other => CalcError::ScriptRuntimeError(format!("{}", other)),
    }
}

/// Relies on mlua::Error's text: a host-side interpreter failure.
#[verifier::external_body]
fn internal_error(e: mlua::Error) -> (r: CalcError)
    ensures
        r is Internal,
{
    CalcError::Internal(format!("{}", e))
}

/// Relies on mlua::Lua::create_string, create_table, Table::push and
/// Table::set: builds the Lua mirror of an interchange value, one entry at
/// a time, so the script sees exactly the values the engine prepared. The
/// same depth bound as on the way back keeps the recursion finite.
#[verifier::external_body]
fn to_lua(lua: &mlua::Lua, v: &Datum, depth: u32) -> Result<mlua::Value, mlua::Error> {
    match v {
        Datum::Null => Ok(mlua::Value::Nil),
        Datum::Bool(b) => Ok(mlua::Value::Boolean(*b)),
        Datum::Int(i) => Ok(mlua::Value::Integer(*i)),
        Datum::Str(s) => Ok(mlua::Value::String(lua.create_string(s.as_str())?)),
        Datum::Dec(d) => Ok(mlua::Value::UserData(lua.create_any_userdata(*d)?)),
        Datum::Array(items) => to_lua_array(lua, items, depth),
        Datum::Table(pairs) => to_lua_table(lua, pairs, depth),
    }
}

/// Relies on mlua::Table::push: an array value becomes a Lua sequence. A
/// Lua sequence cannot hold nil, so a null element is carried as the
/// explicit placeholder `false`: it stays visible and countable instead of
/// silently truncating the array.
#[verifier::external_body]
fn to_lua_array(lua: &mlua::Lua, items: &Vec<Datum>, depth: u32) -> Result<
    mlua::Value,
    mlua::Error,
> {
    if depth == 0 {
        return Err(mlua::Error::RuntimeError(String::from("value too deeply nested")));
    }
    let t = lua.create_table()?;
    for x in items {
        match x {
            Datum::Null => t.push(false)?,
            _ => t.push(to_lua(lua, x, depth - 1)?)?,
        }
    }
    Ok(mlua::Value::Table(t))
}

/// Relies on mlua::Table::set: a table value becomes a Lua table, written
/// entry by entry, so a repeated key keeps its last binding.
#[verifier::external_body]
fn to_lua_table(lua: &mlua::Lua, pairs: &Vec<(String, Datum)>, depth: u32) -> Result<
    mlua::Value,
    mlua::Error,
> {
    if depth == 0 {
        return Err(mlua::Error::RuntimeError(String::from("value too deeply nested")));
    }
    let t = lua.create_table()?;
    for (k, x) in pairs {
        t.set(k.as_str(), to_lua(lua, x, depth - 1)?)?;
    }
    Ok(mlua::Value::Table(t))
}

/// Relies on mlua::Value's variants: a script value read back into the
/// interchange type. Integers convert exactly, decimal userdata as itself;
/// anything unsupported is a type mismatch, never a coercion. `depth` bounds
/// the recursion: a cyclic or too deeply nested table is rejected, never
/// followed until the stack runs out.
#[verifier::external_body]
fn from_lua(v: mlua::Value, depth: u32) -> (r: Result<Datum, CalcError>)
    ensures
        r matches Err(e) ==> e is TypeMismatch || e is Internal,
{
    match v {
        mlua::Value::Nil => Ok(Datum::Null),
        mlua::Value::Boolean(b) => Ok(Datum::Bool(b)),
        mlua::Value::Integer(i) => Ok(Datum::Int(i)),
        mlua::Value::String(s) => Ok(Datum::Str(s.to_string_lossy())),
        mlua::Value::Number(_) => from_lua_number(v),
        mlua::Value::UserData(u) => from_lua_userdata(u),
        mlua::Value::Table(t) => from_lua_table(t, depth),
        _ => Err(CalcError::TypeMismatch(String::from("unsupported script value"))),
    }
}

/// Relies on the decimal text of an mlua::Value::Number: a non-integer Lua
/// number is read exactly through it; a value with no finite decimal form
/// is rejected.
#[verifier::external_body]
fn from_lua_number(v: mlua::Value) -> (r: Result<Datum, CalcError>)
    ensures
        r matches Err(e) ==> e is TypeMismatch,
{
    match v {
        mlua::Value::Number(n) => match Decimal::from_string(&format!("{}", n)) {
            Some(d) => Ok(Datum::Dec(d)),
            None => Err(CalcError::TypeMismatch(String::from("unrepresentable number"))),
        },
        _ => Err(CalcError::TypeMismatch(String::from("not a number"))),
    }
}

/// Relies on mlua::AnyUserData::borrow: only decimal userdata crosses back.
#[verifier::external_body]
fn from_lua_userdata(u: mlua::AnyUserData) -> (r: Result<Datum, CalcError>)
    ensures
        r matches Err(e) ==> e is TypeMismatch,
{
    match u.borrow::<Decimal>() {
        Ok(d) => Ok(Datum::Dec(*d)),
        Err(_) => Err(CalcError::TypeMismatch(String::from("foreign userdata"))),
    }
}

/// A Lua table with sequence entries is an array; otherwise its pairs form
/// a string-keyed table. One level of the bounded descent.
#[verifier::external_body]
fn from_lua_table(t: mlua::Table, depth: u32) -> (r: Result<Datum, CalcError>)
    ensures
        r matches Err(e) ==> e is TypeMismatch || e is Internal,
{
    if depth == 0 {
        return Err(CalcError::TypeMismatch(String::from("value too deeply nested")));
    }
    if t.raw_len() > 0 {
        from_lua_array(t, depth - 1)
    } else {
        from_lua_pairs(t, depth - 1)
    }
}

/// Relies on mlua::Table::raw_get: the sequence entries 1..=n, in order.
#[verifier::external_body]
fn from_lua_array(t: mlua::Table, depth: u32) -> (r: Result<Datum, CalcError>)
    ensures
        r matches Err(e) ==> e is TypeMismatch || e is Internal,
{
    let n = t.raw_len();
    let mut items: Vec<Datum> = Vec::new();
    for i in 1..=n {
        match t.raw_get::<mlua::Value>(i) {
            Ok(v) => items.push(from_lua(v, depth)?),
            Err(e) => {
                return Err(CalcError::Internal(format!("{}", e)));
            },
        }
    }
    Ok(Datum::Array(items))
}

/// Relies on mlua::Table::pairs: every key must be a string; the iteration
/// order of a Lua table is arbitrary, so nothing is assumed of it.
#[verifier::external_body]
fn from_lua_pairs(t: mlua::Table, depth: u32) -> (r: Result<Datum, CalcError>)
    ensures
        r matches Err(e) ==> e is TypeMismatch || e is Internal,
{
    let mut pairs: Vec<(String, Datum)> = Vec::new();
    for p in t.pairs::<mlua::Value, mlua::Value>() {
        match p {
            Ok((mlua::Value::String(k), v)) => pairs.push((k.to_string_lossy(), from_lua(v, depth)?)),
            Ok(_) => {
                return Err(CalcError::TypeMismatch(String::from("non-string table key")));
            },
            Err(e) => {
                return Err(CalcError::Internal(format!("{}", e)));
            },
        }
    }
    Ok(Datum::Table(pairs))
}

/// One isolated interpreter executing calculator scripts.
pub struct CalculatorScriptContext {
    lua: mlua::Lua,
    /// The instruction budget applied to each execution.
    pub budget: u32,
}

impl CalculatorScriptContext {
    /// The instruction budget applied to each execution.
    pub closed spec fn spec_budget(self) -> u32 {
        self.budget
    }

    /// A fresh sandboxed interpreter with the decimal bridge installed.
    pub fn new() -> (r: Result<CalculatorScriptContext, CalcError>)
        ensures
            r matches Ok(c) ==> c.spec_budget() == DEFAULT_INSTRUCTION_BUDGET,
            r matches Err(e) ==> e is Internal,
    {
        let lua = match lua_new() {
            Ok(l) => l,
            Err(e) => {
                return Err(internal_error(e));
            },
        };
        match register_decimal(&lua) {
            Ok(()) => (),
            Err(e) => {
                return Err(internal_error(e));
            },
        }
        match set_decimal_constructor(&lua) {
            Ok(()) => (),
            Err(e) => {
                return Err(internal_error(e));
            },
        }
        Ok(CalculatorScriptContext { lua, budget: DEFAULT_INSTRUCTION_BUDGET })
    }

    /// Bound the number of Lua instructions one execution may take.
    pub fn set_budget(&mut self, instructions: u32)
        ensures
            final(self).spec_budget() == instructions,
    {
        self.budget = instructions;
    }

    /// Run `function_name` from `script` on the participant units and the
    /// merged configuration, and read the result back as an interchange
    /// value. A failing or overrunning script is reported as a typed error;
    /// it can never abort the host.
    pub fn execute_function(&self, script: &str, function_name: &str, units: &Datum, config: &Datum)
        -> (r: Result<Datum, CalcError>)
        ensures
            r matches Err(e) ==> match e {
                CalcError::ScriptCompileError(_) => true,
                CalcError::ScriptRuntimeError(_) => true,
                CalcError::FunctionNotFound(n) => n@ == function_name@,
                CalcError::Timeout => true,
                CalcError::TypeMismatch(_) => true,
                CalcError::Internal(_) => true,
                _ => false,
            },
    {
        match arm_budget(&self.lua, self.budget) {
            Ok(()) => (),
            Err(e) => {
                return Err(e);
            },
        }
        match load_script(&self.lua, script) {
            Ok(()) => (),
            Err(e) => {
                if budget_exhausted(&self.lua) {
                    return Err(CalcError::Timeout);
                }
                return Err(classify_error(e));
            },
        }
        let f = match get_function(&self.lua, function_name) {
            Some(f) => f,
            None => {
                return Err(CalcError::FunctionNotFound(function_name.to_owned()));
            },
        };
        let la = match to_lua(&self.lua, units, MAX_VALUE_DEPTH) {
            Ok(v) => v,
            Err(e) => {
                return Err(internal_error(e));
            },
        };
        let lb = match to_lua(&self.lua, config, MAX_VALUE_DEPTH) {
            Ok(v) => v,
            Err(e) => {
                return Err(internal_error(e));
            },
        };
        match arm_budget(&self.lua, self.budget) {
            Ok(()) => (),
            Err(e) => {
                return Err(e);
            },
        }
        match call_function_2(&f, la, lb) {
            Ok(v) => from_lua(v, MAX_VALUE_DEPTH),
            Err(e) => {
                if budget_exhausted(&self.lua) {
                    Err(CalcError::Timeout)
                } else {
                    Err(classify_error(e))
                }
            },
        }
    }
}

} // verus!
