//! Reading a configuration from the Lua value a configuration file evaluates to, and checking
//! the syntax of Lua source.
use vstd::prelude::*;

use crate::config::{cfg_index, names_distinct, Cfg, CfgView, ConfigEntry, EntryView};
use crate::error::{EmuxError, ErrorView};
use crate::json::copy_string;
use crate::locator::{Filter, FilterView, Locator};
use crate::overrider::{decimal, digit_char, Overrider};
use crate::text::{push_char, str_eq};

verus! {

broadcast use vstd::seq_lib::group_seq_properties;

#[verifier::external_type_specification]
#[verifier::external_body]
pub struct ExLuaError(mlua::Error);

/// Whether `source` compiles as a Lua chunk named `name`. Lua's parser decides; it is not
/// written out here.
pub uninterp spec fn lua_chunk_compiles(source: Seq<char>, name: Seq<char>) -> bool;

/// Checks the syntax of Lua `source`: compiles it, in a fresh `mlua::Lua` state, as a chunk
/// named `name` (`Lua::load(..).set_name(..).into_function()`), without running it. `Ok`
/// exactly when the chunk compiles; the error is mlua's.
#[verifier::external_body]
pub fn verify_source(source: &str, name: &str) -> (r: Result<(), mlua::Error>)
    ensures
        r is Ok <==> lua_chunk_compiles(source@, name@),
{
    let lua = mlua::Lua::new();
    lua.load(source).set_name(name).into_function()?;
    Ok(())
}

/// A Lua value, as a configuration file evaluates to it.
pub enum LuaValue {
    Nil,
    Boolean(bool),
    /// A number (integer or float), as Lua writes it as text.
    Number(String),
    Str(String),
    /// A table: its key-value pairs, in the order they are walked.
    Table(Vec<(LuaValue, LuaValue)>),
    /// A value of another type (function, userdata, thread), by its type name.
    Other(String),
}

/// The type name of a Lua value.
pub open spec fn lua_type_name(v: LuaValue) -> Seq<char> {
    match v {
        LuaValue::Nil => "nil"@,
        LuaValue::Boolean(_) => "boolean"@,
        LuaValue::Number(_) => "number"@,
        LuaValue::Str(_) => "string"@,
        LuaValue::Table(_) => "table"@,
        LuaValue::Other(n) => n@,
    }
}

/// The type name of `v`.
fn kind_name(v: &LuaValue) -> (r: String)
    ensures
        r@ == lua_type_name(*v),
{
    match v {
        LuaValue::Nil => "nil".to_owned(),
        LuaValue::Boolean(_) => "boolean".to_owned(),
        LuaValue::Number(_) => "number".to_owned(),
        LuaValue::Str(_) => "string".to_owned(),
        LuaValue::Table(_) => "table".to_owned(),
        LuaValue::Other(n) => copy_string(n),
    }
}

/// The text a value reads as where a string is expected: a string itself, a number its text;
/// no other value reads as one.
pub open spec fn lua_text(v: LuaValue) -> Option<Seq<char>> {
    match v {
        LuaValue::Str(s) => Some(s@),
        LuaValue::Number(t) => Some(t@),
        _ => None,
    }
}

/// The text `v` reads as, where it reads as one.
fn text_of(v: &LuaValue) -> (r: Option<String>)
    ensures
        match lua_text(*v) {
            Some(s) => r matches Some(x) && x@ == s,
            None => r is None,
        },
{
    match v {
        LuaValue::Str(s) => Some(copy_string(s)),
        LuaValue::Number(t) => Some(copy_string(t)),
        _ => None,
    }
}

/// The value of the first pair of `t`, from the `i`-th on, whose key is the string `key`
/// (`nil` where there is none).
pub open spec fn field_from(t: Seq<(LuaValue, LuaValue)>, key: Seq<char>, i: int) -> LuaValue
    decreases t.len() - i,
{
    if i < 0 || i >= t.len() {
        LuaValue::Nil
    } else {
        match t[i].0 {
            LuaValue::Str(s) => if s@ == key {
                t[i].1
            } else {
                field_from(t, key, i + 1)
            },
            _ => field_from(t, key, i + 1),
        }
    }
}

/// The value a table holds at the string key `key` (`nil` where it holds none).
pub open spec fn lua_field(t: Seq<(LuaValue, LuaValue)>, key: Seq<char>) -> LuaValue {
    field_from(t, key, 0)
}

/// The value of the first pair of `t`, from the `i`-th on, whose key is the integer `n`
/// (`nil` where there is none).
pub open spec fn index_from(t: Seq<(LuaValue, LuaValue)>, n: nat, i: int) -> LuaValue
    decreases t.len() - i,
{
    if i < 0 || i >= t.len() {
        LuaValue::Nil
    } else {
        match t[i].0 {
            LuaValue::Number(s) => if s@ == decimal(n) {
                t[i].1
            } else {
                index_from(t, n, i + 1)
            },
            _ => index_from(t, n, i + 1),
        }
    }
}

/// The value a table holds at the integer key `n` (`nil` where it holds none).
pub open spec fn lua_index(t: Seq<(LuaValue, LuaValue)>, n: nat) -> LuaValue {
    index_from(t, n, 0)
}

/// The first `k`, from `k` on, where the table holds nothing at `k + 1`.
pub open spec fn border_from(t: Seq<(LuaValue, LuaValue)>, k: int) -> int
    decreases t.len() - k,
{
    if 0 <= k < t.len() && lua_index(t, (k + 1) as nat) != LuaValue::Nil {
        border_from(t, k + 1)
    } else {
        k
    }
}

/// The length of a table's sequence part (`#t`): the first `n` where it holds nothing at
/// `n + 1`.
pub open spec fn lua_border(t: Seq<(LuaValue, LuaValue)>) -> int {
    border_from(t, 0)
}

/// The value `t` holds at the string key `key`, if any.
fn field<'a>(t: &'a Vec<(LuaValue, LuaValue)>, key: &str) -> (r: Option<&'a LuaValue>)
    ensures
        match r {
            Some(v) => *v == lua_field(t@, key@),
            None => lua_field(t@, key@) == LuaValue::Nil,
        },
{
    let mut i: usize = 0;
    while i < t.len()
        invariant
            i <= t@.len(),
            field_from(t@, key@, 0) == field_from(t@, key@, i as int),
        decreases t@.len() - i,
    {
        match &t[i].0 {
            LuaValue::Str(s) => {
                if str_eq(s.as_str(), key) {
                    return Some(&t[i].1);
                }
            },
            _ => {},
        }
        i = i + 1;
    }
    None
}

/// Appends the decimal numeral of `n` to `s`.
fn append_index(s: &mut String, n: usize)
    ensures
        final(s)@ == old(s)@ + decimal(n as nat),
    decreases n,
{
    if n >= 10 {
        append_index(s, n / 10);
    }
    let d = (n % 10) as u8;
    push_char(s, (d + 48) as char);
    assert(final(s)@ =~= old(s)@ + decimal(n as nat)) by {
        if n >= 10 {
            assert(decimal(n as nat) == decimal((n / 10) as nat).push(digit_char((n % 10) as nat)));
        }
    };
}

/// The value `t` holds at the integer key `n`, if any.
fn element<'a>(t: &'a Vec<(LuaValue, LuaValue)>, n: usize) -> (r: Option<&'a LuaValue>)
    ensures
        match r {
            Some(v) => *v == lua_index(t@, n as nat),
            None => lua_index(t@, n as nat) == LuaValue::Nil,
        },
{
    let mut text = String::new();
    append_index(&mut text, n);
    assert(text@ =~= decimal(n as nat));
    let mut i: usize = 0;
    while i < t.len()
        invariant
            i <= t@.len(),
            text@ == decimal(n as nat),
            index_from(t@, n as nat, 0) == index_from(t@, n as nat, i as int),
        decreases t@.len() - i,
    {
        match &t[i].0 {
            LuaValue::Number(s) => {
                if str_eq(s.as_str(), text.as_str()) {
                    return Some(&t[i].1);
                }
            },
            _ => {},
        }
        i = i + 1;
    }
    None
}

/// The length of the sequence part of `t`.
fn border(t: &Vec<(LuaValue, LuaValue)>) -> (n: usize)
    ensures
        n == lua_border(t@),
{
    let mut k: usize = 0;
    while k < t.len()
        invariant
            k <= t@.len(),
            border_from(t@, 0) == border_from(t@, k as int),
        decreases t@.len() - k,
    {
        match element(t, k + 1) {
            Some(v) => match v {
                LuaValue::Nil => {
                    return k;
                },
                _ => {},
            },
            None => {
                return k;
            },
        }
        k = k + 1;
    }
    k
}

/// The table a value is, or `NotATable` naming `context` and the value's type.
pub open spec fn table_spec(v: LuaValue, context: Seq<char>) -> Result<Seq<(LuaValue, LuaValue)>, ErrorView> {
    match v {
        LuaValue::Table(t) => Ok(t@),
        _ => Err(ErrorView::NotATable(context, lua_type_name(v))),
    }
}

/// The table `value` is, or `NotATable` naming `context` and the type of the value found.
pub fn expect_table<'a>(value: &'a LuaValue, context: &str) -> (r: Result<&'a Vec<(LuaValue, LuaValue)>, EmuxError>)
    ensures
        match value {
            LuaValue::Table(t) => r matches Ok(u) && u == t,
            _ => r matches Err(e) && e@ == ErrorView::NotATable(context@, lua_type_name(*value)),
        },
{
    match value {
        LuaValue::Table(t) => Ok(t),
        _ => Err(EmuxError::NotATable { context: context.to_owned(), found: kind_name(value) }),
    }
}

/// The table `t` holds at `key`, or `NotATable` naming `key`.
pub open spec fn table_field_spec(t: Seq<(LuaValue, LuaValue)>, key: Seq<char>) -> Result<Seq<(LuaValue, LuaValue)>, ErrorView> {
    table_spec(lua_field(t, key), key)
}

/// The table `t` holds at `key`.
fn table_field<'a>(t: &'a Vec<(LuaValue, LuaValue)>, key: &str) -> (r: Result<&'a Vec<(LuaValue, LuaValue)>, EmuxError>)
    ensures
        match table_field_spec(t@, key@) {
            Ok(g) => r matches Ok(u) && u@ == g,
            Err(e) => r matches Err(x) && x@ == e,
        },
{
    match field(t, key) {
        Some(v) => expect_table(v, key),
        None => Err(EmuxError::NotATable { context: key.to_owned(), found: "nil".to_owned() }),
    }
}

/// The text `t` holds at `key`, or `NotAString` naming `key`.
pub open spec fn text_field_spec(t: Seq<(LuaValue, LuaValue)>, key: Seq<char>) -> Result<Seq<char>, ErrorView> {
    match lua_text(lua_field(t, key)) {
        Some(s) => Ok(s),
        None => Err(ErrorView::NotAString(key)),
    }
}

/// The text `t` holds at `key`.
fn text_field(t: &Vec<(LuaValue, LuaValue)>, key: &str) -> (r: Result<String, EmuxError>)
    ensures
        match text_field_spec(t@, key@) {
            Ok(s) => r matches Ok(x) && x@ == s,
            Err(e) => r matches Err(x) && x@ == e,
        },
{
    let found = match field(t, key) {
        Some(v) => text_of(v),
        None => None,
    };
    match found {
        Some(s) => Ok(s),
        None => Err(EmuxError::NotAString { key: key.to_owned() }),
    }
}

/// The kinds of filter a configuration can name.
pub enum FilterKind {
    EnvFile,
    JsonFile,
}

/// The filter kind a `__kind` names: `env_file` or `json_file`.
pub open spec fn filter_kind_spec(kind: Seq<char>) -> Option<FilterKind> {
    if kind == "env_file"@ {
        Some(FilterKind::EnvFile)
    } else if kind == "json_file"@ {
        Some(FilterKind::JsonFile)
    } else {
        None
    }
}

/// The filter kind `kind` names, or `UnknownFilterKind`.
pub fn filter_kind(kind: &str) -> (r: Result<FilterKind, EmuxError>)
    ensures
        match filter_kind_spec(kind@) {
            Some(k) => r matches Ok(k2) && k2 == k,
            None => r matches Err(e) && e@ == ErrorView::UnknownFilterKind(kind@),
        },
{
    if str_eq(kind, "env_file") {
        Ok(FilterKind::EnvFile)
    } else if str_eq(kind, "json_file") {
        Ok(FilterKind::JsonFile)
    } else {
        Err(EmuxError::UnknownFilterKind { kind: kind.to_owned() })
    }
}

impl FilterKind {
    /// The field that holds a filter's second argument: `variable` or `selector`.
    pub fn field_name(&self) -> (r: &'static str)
        ensures
            r@ == match self {
                FilterKind::EnvFile => "variable"@,
                FilterKind::JsonFile => "selector"@,
            },
    {
        match self {
            FilterKind::EnvFile => "variable",
            FilterKind::JsonFile => "selector",
        }
    }

    /// The filter of this kind over `path` with its second argument.
    pub fn build(&self, path: String, field: String) -> (f: Filter)
        ensures
            f@ == match self {
                FilterKind::EnvFile => FilterView::EnvFile { path: path@, variable: field@ },
                FilterKind::JsonFile => FilterView::JsonFile { path: path@, selector: field@ },
            },
    {
        match self {
            FilterKind::EnvFile => Filter::EnvFile { path, variable: field },
            FilterKind::JsonFile => Filter::JsonFile { path, selector: field },
        }
    }
}

/// The overrider a `__kind` names: `port`.
pub open spec fn overrider_kind_spec(kind: Seq<char>) -> Option<Overrider> {
    if kind == "port"@ {
        Some(Overrider::Port)
    } else {
        None
    }
}

/// The overrider `kind` names, or `UnknownOverriderKind`.
pub fn overrider_kind(kind: &str) -> (r: Result<Overrider, EmuxError>)
    ensures
        match overrider_kind_spec(kind@) {
            Some(o) => r matches Ok(o2) && o2 == o,
            None => r matches Err(e) && e@ == ErrorView::UnknownOverriderKind(kind@),
        },
{
    if str_eq(kind, "port") {
        Ok(Overrider::Port)
    } else {
        Err(EmuxError::UnknownOverriderKind { kind: kind.to_owned() })
    }
}

/// The field that holds the second argument of a filter of kind `k`.
pub open spec fn kind_field(k: FilterKind) -> Seq<char> {
    match k {
        FilterKind::EnvFile => "variable"@,
        FilterKind::JsonFile => "selector"@,
    }
}

/// The filter of kind `k` over `path` with its second argument `x`.
pub open spec fn kind_filter(k: FilterKind, path: Seq<char>, x: Seq<char>) -> FilterView {
    match k {
        FilterKind::EnvFile => FilterView::EnvFile { path, variable: x },
        FilterKind::JsonFile => FilterView::JsonFile { path, selector: x },
    }
}

/// The filter a Lua value names: a table `{ __kind = "env_file", path = .., variable = .. }` or
/// `{ __kind = "json_file", path = .., selector = .. }`.
pub open spec fn filter_of(v: LuaValue) -> Result<FilterView, ErrorView> {
    match table_spec(v, "Filter"@) {
        Err(e) => Err(e),
        Ok(t) => match text_field_spec(t, "__kind"@) {
            Err(e) => Err(e),
            Ok(k) => match filter_kind_spec(k) {
                None => Err(ErrorView::UnknownFilterKind(k)),
                Some(fk) => match text_field_spec(t, "path"@) {
                    Err(e) => Err(e),
                    Ok(p) => match text_field_spec(t, kind_field(fk)) {
                        Err(e) => Err(e),
                        Ok(x) => Ok(kind_filter(fk, p, x)),
                    },
                },
            },
        },
    }
}

/// The filters the first `n` elements of a sequence table name, in order; the first error
/// stops the reading.
pub open spec fn filters_of(g: Seq<(LuaValue, LuaValue)>, n: nat) -> Result<Seq<FilterView>, ErrorView>
    decreases n,
{
    if n == 0 {
        Ok(seq![])
    } else {
        match filters_of(g, (n - 1) as nat) {
            Err(e) => Err(e),
            Ok(s) => match filter_of(lua_index(g, n)) {
                Err(e) => Err(e),
                Ok(f) => Ok(s.push(f)),
            },
        }
    }
}

/// The locator a Lua value names: a table `{ filters = { .. } }`.
pub open spec fn locator_of(v: LuaValue) -> Result<Seq<FilterView>, ErrorView> {
    match table_spec(v, "Locator"@) {
        Err(e) => Err(e),
        Ok(t) => match table_field_spec(t, "filters"@) {
            Err(e) => Err(e),
            Ok(g) => filters_of(g, lua_border(g) as nat),
        },
    }
}

/// The locators the first `n` elements of a sequence table name, in order.
pub open spec fn locators_of(g: Seq<(LuaValue, LuaValue)>, n: nat) -> Result<Seq<Seq<FilterView>>, ErrorView>
    decreases n,
{
    if n == 0 {
        Ok(seq![])
    } else {
        match locators_of(g, (n - 1) as nat) {
            Err(e) => Err(e),
            Ok(s) => match locator_of(lua_index(g, n)) {
                Err(e) => Err(e),
                Ok(l) => Ok(s.push(l)),
            },
        }
    }
}

/// The overrider a Lua value names: a table `{ __kind = "port" }`.
pub open spec fn overrider_of(v: LuaValue) -> Result<Overrider, ErrorView> {
    match table_spec(v, "Overrider"@) {
        Err(e) => Err(e),
        Ok(t) => match text_field_spec(t, "__kind"@) {
            Err(e) => Err(e),
            Ok(k) => match overrider_kind_spec(k) {
                None => Err(ErrorView::UnknownOverriderKind(k)),
                Some(o) => Ok(o),
            },
        },
    }
}

/// The base value a Lua value gives: none for `nil`, else its text (a number reads as its
/// text).
pub open spec fn base_of(v: LuaValue) -> Result<Option<Seq<char>>, ErrorView> {
    match v {
        LuaValue::Nil => Ok(None),
        _ => match lua_text(v) {
            Some(s) => Ok(Some(s)),
            None => Err(ErrorView::NotAString("base"@)),
        },
    }
}

/// The entry a Lua value names: a table `{ locate = { .. }, base = .., override = .. }`,
/// read in that order.
pub open spec fn entry_of(v: LuaValue) -> Result<EntryView, ErrorView> {
    match table_spec(v, "ConfigEntry"@) {
        Err(e) => Err(e),
        Ok(t) => match table_field_spec(t, "locate"@) {
            Err(e) => Err(e),
            Ok(g) => match locators_of(g, lua_border(g) as nat) {
                Err(e) => Err(e),
                Ok(ls) => match base_of(lua_field(t, "base"@)) {
                    Err(e) => Err(e),
                    Ok(b) => match overrider_of(lua_field(t, "override"@)) {
                        Err(e) => Err(e),
                        Ok(o) => Ok(EntryView { locate: ls, base: b, overrider: o }),
                    },
                },
            },
        },
    }
}

/// A configuration with the entry `e` named `name` put in: it replaces an entry of that name,
/// or else comes last.
pub open spec fn cfg_insert(c: CfgView, name: Seq<char>, e: EntryView) -> CfgView {
    match cfg_index(c, name) {
        Some(i) => c.update(i, (name, e)),
        None => c.push((name, e)),
    }
}

/// The configuration the first `n` pairs of a table give, walked in order: each key (a
/// string, or a number read as its text) names an entry.
pub open spec fn cfg_pairs(t: Seq<(LuaValue, LuaValue)>, n: nat) -> Result<CfgView, ErrorView>
    decreases n,
{
    if n == 0 || n > t.len() {
        Ok(seq![])
    } else {
        match cfg_pairs(t, (n - 1) as nat) {
            Err(e) => Err(e),
            Ok(c) => match lua_text(t[n - 1].0) {
                None => Err(ErrorView::NotAString("Cfg"@)),
                Some(name) => match entry_of(t[n - 1].1) {
                    Err(e) => Err(e),
                    Ok(en) => Ok(cfg_insert(c, name, en)),
                },
            },
        }
    }
}

/// The configuration the value a configuration file evaluates to gives.
pub open spec fn cfg_of(v: LuaValue) -> Result<CfgView, ErrorView> {
    match table_spec(v, "Cfg"@) {
        Err(e) => Err(e),
        Ok(t) => cfg_pairs(t, t.len()),
    }
}

/// Once reading the elements fails, reading more of them fails the same way.
proof fn lemma_filters_stop(g: Seq<(LuaValue, LuaValue)>, k: nat, m: nat)
    requires
        k <= m,
        filters_of(g, k) is Err,
    ensures
        filters_of(g, m) == filters_of(g, k),
    decreases m - k,
{
    if m > k {
        lemma_filters_stop(g, k, (m - 1) as nat);
    }
}

/// Once reading the elements fails, reading more of them fails the same way.
proof fn lemma_locators_stop(g: Seq<(LuaValue, LuaValue)>, k: nat, m: nat)
    requires
        k <= m,
        locators_of(g, k) is Err,
    ensures
        locators_of(g, m) == locators_of(g, k),
    decreases m - k,
{
    if m > k {
        lemma_locators_stop(g, k, (m - 1) as nat);
    }
}

/// Once reading the pairs fails, reading more of them fails the same way.
proof fn lemma_pairs_stop(t: Seq<(LuaValue, LuaValue)>, k: nat, m: nat)
    requires
        0 < k <= m <= t.len(),
        cfg_pairs(t, k) is Err,
    ensures
        cfg_pairs(t, m) == cfg_pairs(t, k),
    decreases m - k,
{
    if m > k {
        lemma_pairs_stop(t, k, (m - 1) as nat);
    }
}

impl Filter {
    /// Reads a filter from a Lua table `{ __kind = ..., path = ..., variable|selector = ... }`.
    pub fn from_lua(value: &LuaValue) -> (r: Result<Filter, EmuxError>)
        ensures
            match filter_of(*value) {
                Ok(f) => r matches Ok(g) && g@ == f,
                Err(e) => r matches Err(x) && x@ == e,
            },
    {
        let t = match expect_table(value, "Filter") {
            Ok(t) => t,
            Err(e) => {
                return Err(e);
            },
        };
        let kind = match text_field(t, "__kind") {
            Ok(k) => k,
            Err(e) => {
                return Err(e);
            },
        };
        let fk = match filter_kind(kind.as_str()) {
            Ok(k) => k,
            Err(e) => {
                return Err(e);
            },
        };
        let path = match text_field(t, "path") {
            Ok(p) => p,
            Err(e) => {
                return Err(e);
            },
        };
        let x = match text_field(t, fk.field_name()) {
            Ok(x) => x,
            Err(e) => {
                return Err(e);
            },
        };
        Ok(fk.build(path, x))
    }
}

impl Locator {
    /// Reads a locator from a Lua table `{ filters = { ... } }`.
    pub fn from_lua(value: &LuaValue) -> (r: Result<Locator, EmuxError>)
        ensures
            match locator_of(*value) {
                Ok(fs) => r matches Ok(l) && l@ == fs,
                Err(e) => r matches Err(x) && x@ == e,
            },
    {
        let t = match expect_table(value, "Locator") {
            Ok(t) => t,
            Err(e) => {
                return Err(e);
            },
        };
        let g = match table_field(t, "filters") {
            Ok(g) => g,
            Err(e) => {
                return Err(e);
            },
        };
        let n = border(g);
        let nil = LuaValue::Nil;
        let mut filters: Vec<Filter> = Vec::new();
        let mut i: usize = 0;
        assert(filters@.map_values(|f: Filter| f@) =~= Seq::<FilterView>::empty());
        while i < n
            invariant
                i <= n,
                n == lua_border(g@),
                nil == LuaValue::Nil,
                locator_of(*value) == filters_of(g@, n as nat),
                filters_of(g@, i as nat) == Ok::<Seq<FilterView>, ErrorView>(filters@.map_values(|f: Filter| f@)),
            decreases n - i,
        {
            let v = match element(g, i + 1) {
                Some(v) => v,
                None => &nil,
            };
            match Filter::from_lua(v) {
                Ok(f) => {
                    let ghost before = filters@.map_values(|f: Filter| f@);
                    filters.push(f);
                    assert(filters@.map_values(|f: Filter| f@) =~= before.push(f@));
                },
                Err(e) => {
                    proof {
                        lemma_filters_stop(g@, (i + 1) as nat, n as nat);
                    }
                    return Err(e);
                },
            }
            i = i + 1;
        }
        Ok(Locator { filters })
    }
}

impl Overrider {
    /// Reads an overrider from a Lua table `{ __kind = ... }`.
    pub fn from_lua(value: &LuaValue) -> (r: Result<Overrider, EmuxError>)
        ensures
            match overrider_of(*value) {
                Ok(o) => r matches Ok(p) && p == o,
                Err(e) => r matches Err(x) && x@ == e,
            },
    {
        let t = match expect_table(value, "Overrider") {
            Ok(t) => t,
            Err(e) => {
                return Err(e);
            },
        };
        let kind = match text_field(t, "__kind") {
            Ok(k) => k,
            Err(e) => {
                return Err(e);
            },
        };
        overrider_kind(kind.as_str())
    }
}

impl ConfigEntry {
    /// Reads an entry from a Lua table `{ locate = { ... }, base = ..., override = ... }`;
    /// `base` may be absent, and a number is taken as its text.
    pub fn from_lua(value: &LuaValue) -> (r: Result<ConfigEntry, EmuxError>)
        ensures
            match entry_of(*value) {
                Ok(en) => r matches Ok(x) && x@ == en,
                Err(e) => r matches Err(x) && x@ == e,
            },
    {
        let t = match expect_table(value, "ConfigEntry") {
            Ok(t) => t,
            Err(e) => {
                return Err(e);
            },
        };
        let g = match table_field(t, "locate") {
            Ok(g) => g,
            Err(e) => {
                return Err(e);
            },
        };
        let n = border(g);
        let nil = LuaValue::Nil;
        let mut locate: Vec<Locator> = Vec::new();
        let mut i: usize = 0;
        assert(locate@.map_values(|l: Locator| l@) =~= Seq::<Seq<FilterView>>::empty());
        while i < n
            invariant
                i <= n,
                n == lua_border(g@),
                nil == LuaValue::Nil,
                table_spec(*value, "ConfigEntry"@) == Ok::<Seq<(LuaValue, LuaValue)>, ErrorView>(t@),
                table_field_spec(t@, "locate"@) == Ok::<Seq<(LuaValue, LuaValue)>, ErrorView>(g@),
                locators_of(g@, i as nat) == Ok::<Seq<Seq<FilterView>>, ErrorView>(locate@.map_values(|l: Locator| l@)),
            decreases n - i,
        {
            let v = match element(g, i + 1) {
                Some(v) => v,
                None => &nil,
            };
            match Locator::from_lua(v) {
                Ok(l) => {
                    let ghost before = locate@.map_values(|l: Locator| l@);
                    locate.push(l);
                    assert(locate@.map_values(|l: Locator| l@) =~= before.push(l@));
                },
                Err(e) => {
                    proof {
                        lemma_locators_stop(g@, (i + 1) as nat, n as nat);
                    }
                    return Err(e);
                },
            }
            i = i + 1;
        }
        let base_value = match field(t, "base") {
            Some(v) => v,
            None => &nil,
        };
        let base = match base_value {
            LuaValue::Nil => None,
            _ => match text_of(base_value) {
                Some(s) => Some(s),
                None => {
                    return Err(EmuxError::NotAString { key: "base".to_owned() });
                },
            },
        };
        let override_value = match field(t, "override") {
            Some(v) => v,
            None => &nil,
        };
        let overrider = match Overrider::from_lua(override_value) {
            Ok(o) => o,
            Err(e) => {
                return Err(e);
            },
        };
        Ok(ConfigEntry { locate, base, overrider })
    }
}

/// Reads a configuration from the table a configuration file evaluates to: each key names an
/// entry.
pub fn cfg_from_lua(value: &LuaValue) -> (r: Result<Cfg, EmuxError>)
    ensures
        match cfg_of(*value) {
            Ok(c) => r matches Ok(x) && x@ == c,
            Err(e) => r matches Err(x) && x@ == e,
        },
        r matches Ok(c) ==> names_distinct(c@),
{
    let t = match expect_table(value, "Cfg") {
        Ok(t) => t,
        Err(e) => {
            return Err(e);
        },
    };
    let mut cfg = Cfg::new();
    let mut i: usize = 0;
    while i < t.len()
        invariant
            i <= t@.len(),
            names_distinct(cfg@),
            cfg_of(*value) == cfg_pairs(t@, t@.len()),
            cfg_pairs(t@, i as nat) == Ok::<CfgView, ErrorView>(cfg@),
        decreases t@.len() - i,
    {
        let name = match text_of(&t[i].0) {
            Some(s) => s,
            None => {
                proof {
                    lemma_pairs_stop(t@, (i + 1) as nat, t@.len());
                }
                return Err(EmuxError::NotAString { key: "Cfg".to_owned() });
            },
        };
        match ConfigEntry::from_lua(&t[i].1) {
            Ok(entry) => cfg.insert(name, entry),
            Err(e) => {
                proof {
                    lemma_pairs_stop(t@, (i + 1) as nat, t@.len());
                }
                return Err(e);
            },
        }
        i = i + 1;
    }
    Ok(cfg)
}

} // verus!
