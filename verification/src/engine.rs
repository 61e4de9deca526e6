//! Declarations of the embedded scripting engine's types, and the trusted
//! wrappers around the engine calls the bridge makes.
//!
//! Each wrapper holds one engine call and the conversions of its arguments
//! and result.  Nothing is promised of an engine value's contents: the
//! verified bridge code takes every decoded value as an argument and is
//! proved for each shape it can have.

use vstd::prelude::*;

verus! {

/// Relies on mlua::Lua being an opaque engine-instance handle.
#[verifier::external_type_specification]
#[verifier::external_body]
pub struct ExLua(mlua::Lua);

/// Relies on mlua::Value being the engine's native value representation.
#[verifier::external_type_specification]
#[verifier::external_body]
pub struct ExLuaValue(mlua::Value);

/// Relies on mlua::Table being a handle to an engine-side table.
#[verifier::external_type_specification]
#[verifier::external_body]
pub struct ExLuaTable(mlua::Table);

/// Relies on mlua::Function being a handle to a compiled callable.
#[verifier::external_type_specification]
#[verifier::external_body]
pub struct ExLuaFunction(mlua::Function);

/// Relies on mlua::Error being the engine's error type.
#[verifier::external_type_specification]
#[verifier::external_body]
pub struct ExLuaError(mlua::Error);

/// An engine value, decoded into the shapes the bridge distinguishes.
/// Function and table handles stay opaque; a non-integral number is carried
/// as its decimal text.
pub enum LuaVal {
    Nil,
    Bool(bool),
    Int(i64),
    Num(String),
    Str(String),
    Func(mlua::Function),
    Table(mlua::Table),
    Other,
}

/// Relies on matching mlua::Value's variants, one arm each: booleans,
/// integers and strings move across; a number with no fractional part
/// becomes its integer (f64::trunc and the saturating cast, as Lua's own
/// integer coercion does), any other number its decimal text; value shapes
/// the data model cannot hold decode as `Other`.
#[verifier::external_body]
pub fn decode_value(v: &mlua::Value) -> LuaVal {
    match v {
        mlua::Value::Nil => LuaVal::Nil,
        mlua::Value::Boolean(b) => LuaVal::Bool(*b),
        mlua::Value::Integer(i) => LuaVal::Int(*i),
        mlua::Value::Number(x) if x.trunc() == *x => LuaVal::Int(x.trunc() as i64),
        mlua::Value::Number(x) => LuaVal::Num(x.to_string()),
        mlua::Value::String(s) => s.to_str().map(|b| LuaVal::Str(b.to_owned())).unwrap_or(LuaVal::Other),
        mlua::Value::Function(f) => LuaVal::Func(f.clone()),
        mlua::Value::Table(t) => LuaVal::Table(t.clone()),
        _ => LuaVal::Other,
    }
}

/// Relies on the mlua::Value constructors, one arm each; a number's decimal
/// text is read back through str::parse into the engine's number type, and
/// text that does not read as a number is an error, never a substituted
/// default.  Every arm but the string and number ones constructs its value
/// directly and cannot fail.
#[verifier::external_body]
pub fn encode_value(lua: &mlua::Lua, v: LuaVal) -> (r: Result<mlua::Value, mlua::Error>)
    ensures
        !(v is Str) && !(v is Num) ==> r is Ok,
{
    Ok(match v {
        LuaVal::Nil => mlua::Value::Nil,
        LuaVal::Bool(b) => mlua::Value::Boolean(b),
        LuaVal::Int(i) => mlua::Value::Integer(i),
        LuaVal::Num(t) => mlua::Value::Number(t.parse().map_err(mlua::Error::external)?),
        LuaVal::Str(s) => mlua::Value::String(lua.create_string(s.as_bytes())?),
        LuaVal::Func(f) => mlua::Value::Function(f),
        LuaVal::Table(t) => mlua::Value::Table(t),
        LuaVal::Other => mlua::Value::Nil,
    })
}

/// Relies on mlua::Function::clone: another handle to the same callable.
#[verifier::external_body]
pub fn clone_function(f: &mlua::Function) -> mlua::Function {
    f.clone()
}

/// Relies on mlua::Lua::load and mlua::Chunk::into_function: compiles
/// source text into a callable bound to this engine instance.
#[verifier::external_body]
pub fn lua_compile(lua: &mlua::Lua, src: &str) -> Result<mlua::Function, mlua::Error> {
    lua.load(src).into_function()
}

/// Relies on mlua::Function::call: invokes the callable with the given
/// arguments and returns its first result.
#[verifier::external_body]
pub fn lua_call(f: &mlua::Function, args: Vec<mlua::Value>) -> Result<mlua::Value, mlua::Error> {
    f.call::<mlua::Value>(mlua::MultiValue::from_vec(args))
}

/// Relies on mlua::Lua::create_table: a fresh empty engine table.
#[verifier::external_body]
pub fn new_table(lua: &mlua::Lua) -> Result<mlua::Table, mlua::Error> {
    lua.create_table()
}

/// Relies on mlua::Table::push: appends to the table's sequence part.
#[verifier::external_body]
pub fn table_push(t: &mlua::Table, v: mlua::Value) -> Result<(), mlua::Error> {
    t.push(v)
}

/// Relies on mlua::Table::set with a string key.
#[verifier::external_body]
pub fn table_set(t: &mlua::Table, k: &str, v: mlua::Value) -> Result<(), mlua::Error> {
    t.set(k, v)
}

/// Relies on mlua::Table::get with a string key; an absent member reads as
/// the engine's nil.
#[verifier::external_body]
pub fn table_get(t: &mlua::Table, k: &str) -> Result<mlua::Value, mlua::Error> {
    t.get(k)
}

/// Relies on mlua::Table::get with an integer key; an absent member reads
/// as the engine's nil.
#[verifier::external_body]
pub fn table_get_int(t: &mlua::Table, i: i64) -> Result<mlua::Value, mlua::Error> {
    t.get(i)
}

/// Relies on mlua::Lua::globals: the engine's global namespace table.
#[verifier::external_body]
pub fn lua_globals(lua: &mlua::Lua) -> mlua::Table {
    lua.globals()
}

/// Relies on mlua::Table::pairs: the table's entries, keys read as text
/// (numeric keys through the engine's string coercion); entries whose key
/// or value the engine cannot hand over are left out.
#[verifier::external_body]
pub fn table_entries(t: &mlua::Table) -> Vec<(String, mlua::Value)> {
    t.pairs::<String, mlua::Value>().filter_map(|e| e.ok()).collect()
}

/// Relies on mlua::Error's Display implementation: the engine's reported
/// message.
#[verifier::external_body]
pub fn lua_error_text(e: &mlua::Error) -> String {
    format!("{}", e)
}

} // verus!
