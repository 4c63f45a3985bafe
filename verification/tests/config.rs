use emux::config::{apply_cfg, diff_cfg, restore_cfg, Cfg, ConfigEntry};
use emux::error::EmuxError;
use emux::locator::{Filter, Locator};
use emux::lua::{cfg_from_lua, LuaValue};
use emux::overrider::Overrider;
use emux::workspace::Workspace;

fn model(lua: &mlua::Lua, v: mlua::Value) -> LuaValue {
    match v {
        mlua::Value::Nil => LuaValue::Nil,
        mlua::Value::Boolean(b) => LuaValue::Boolean(b),
        mlua::Value::Integer(_) | mlua::Value::Number(_) => {
            LuaValue::Number(lua.coerce_string(v).unwrap().unwrap().to_str().unwrap().to_string())
        }
        mlua::Value::String(s) => LuaValue::Str(s.to_str().unwrap().to_string()),
        mlua::Value::Table(t) => LuaValue::Table(
            t.pairs::<mlua::Value, mlua::Value>()
                .map(|p| {
                    let (k, x) = p.unwrap();
                    (model(lua, k), model(lua, x))
                })
                .collect(),
        ),
        _ => LuaValue::Other("function".to_string()),
    }
}

fn eval(lua: &mlua::Lua, src: &str) -> LuaValue {
    let v = lua.load(src).eval().unwrap();
    model(lua, v)
}

#[test]
fn config_entry_deserializes() {
    let lua = mlua::Lua::new();
    let v = eval(
        &lua,
        r#"{
            locate = {
                { filters = { { __kind = "env_file", path = "api/.env", variable = "PORT" } } },
                { filters = { { __kind = "json_file", path = "client/env.json", selector = ".port" } } },
            },
            override = { __kind = "port" },
        }"#,
    );
    let entry = ConfigEntry::from_lua(&v).unwrap();
    assert_eq!(entry.locate.len(), 2);
    assert_eq!(entry.locate[0].filters.len(), 1);
    assert_eq!(entry.locate[1].filters.len(), 1);
    assert!(matches!(entry.overrider, Overrider::Port));
}

#[test]
fn cfg_from_lua_deserializes() {
    let lua = mlua::Lua::new();
    let v = eval(
        &lua,
        r#"{
            ["api-port"] = {
                locate = {
                    { filters = { { __kind = "env_file", path = "api/.env", variable = "PORT" } } },
                },
                override = { __kind = "port" },
            },
        }"#,
    );
    let cfg = cfg_from_lua(&v).unwrap();
    assert!(cfg.contains_key("api-port"));
    assert_eq!(cfg.get("api-port").unwrap().locate.len(), 1);
}

#[test]
fn cfg_from_lua_errors_on_non_table() {
    let lua = mlua::Lua::new();
    let v = eval(&lua, "42");
    assert!(cfg_from_lua(&v).is_err());
}

#[test]
fn base_accepts_number() {
    let lua = mlua::Lua::new();
    let v = eval(&lua, r#"{ locate = {}, base = 4327, override = { __kind = "port" } }"#);
    let entry = ConfigEntry::from_lua(&v).unwrap();
    assert_eq!(entry.base.as_deref(), Some("4327"));
}

#[test]
fn base_absent_is_none() {
    let lua = mlua::Lua::new();
    let v = eval(&lua, r#"{ locate = {}, override = { __kind = "port" } }"#);
    let entry = ConfigEntry::from_lua(&v).unwrap();
    assert_eq!(entry.base, None);
}

#[test]
fn config_entry_unknown_override_errors() {
    let lua = mlua::Lua::new();
    let v = eval(&lua, r#"{ locate = {}, override = { __kind = "random_port" } }"#);
    assert!(matches!(
        ConfigEntry::from_lua(&v),
        Err(EmuxError::UnknownOverriderKind { kind }) if kind == "random_port"
    ));
}

#[test]
fn config_entry_non_table_locate_errors() {
    let lua = mlua::Lua::new();
    let v = eval(&lua, r#"{ locate = 3, override = { __kind = "port" } }"#);
    assert!(matches!(
        ConfigEntry::from_lua(&v),
        Err(EmuxError::NotATable { context, .. }) if context == "locate"
    ));
}

fn env_entry(path: &str, base: Option<&str>) -> ConfigEntry {
    ConfigEntry {
        locate: vec![Locator {
            filters: vec![Filter::EnvFile { path: path.to_string(), variable: "PORT".to_string() }],
        }],
        base: base.map(|b| b.to_string()),
        overrider: Overrider::Port,
    }
}

fn json_entry(path: &str, selector: &str, base: Option<&str>) -> ConfigEntry {
    ConfigEntry {
        locate: vec![Locator {
            filters: vec![Filter::JsonFile { path: path.to_string(), selector: selector.to_string() }],
        }],
        base: base.map(|b| b.to_string()),
        overrider: Overrider::Port,
    }
}

const WT: &str = "/work/tree";

#[test]
fn run_is_idempotent() {
    let mut cfg = Cfg::new();
    cfg.insert("api-port".to_string(), env_entry(".env", Some("4327")));
    let mut ws = Workspace::new();
    ws.write("/work/tree/.env", "PORT=4327\n".to_string());
    apply_cfg(&cfg, WT, WT, &mut ws).unwrap();
    let first = ws.read("/work/tree/.env").unwrap().clone();
    apply_cfg(&cfg, WT, WT, &mut ws).unwrap();
    let second = ws.read("/work/tree/.env").unwrap().clone();
    assert_eq!(first, second, "second run must not change the file");
    assert!(first.starts_with("PORT="));
    assert_ne!(first.trim(), "PORT=4327", "port should have been overridden");
}

#[test]
fn restore_returns_to_base() {
    let mut cfg = Cfg::new();
    cfg.insert("api-port".to_string(), env_entry(".env", Some("4327")));
    let mut ws = Workspace::new();
    ws.write("/work/tree/.env", "PORT=4327\n".to_string());
    apply_cfg(&cfg, WT, WT, &mut ws).unwrap();
    assert_ne!(ws.read("/work/tree/.env").unwrap().trim(), "PORT=4327");
    restore_cfg(&cfg, WT, &mut ws).unwrap();
    assert_eq!(ws.read("/work/tree/.env").unwrap(), "PORT=4327\n");
}

#[test]
fn restore_json_returns_to_base() {
    let mut cfg = Cfg::new();
    cfg.insert("api-port".to_string(), json_entry("env.json", ".port", Some("4327")));
    let mut ws = Workspace::new();
    ws.write("/work/tree/env.json", "{\n  \"port\": 4327\n}\n".to_string());
    apply_cfg(&cfg, WT, WT, &mut ws).unwrap();
    restore_cfg(&cfg, WT, &mut ws).unwrap();
    let json: serde_json::Value = serde_json::from_str(ws.read("/work/tree/env.json").unwrap()).unwrap();
    assert_eq!(json["port"].as_u64().unwrap(), 4327);
}

#[test]
fn restore_requires_base() {
    let mut cfg = Cfg::new();
    cfg.insert("api-port".to_string(), env_entry(".env", None));
    let mut ws = Workspace::new();
    ws.write("/work/tree/.env", "PORT=4327\n".to_string());
    assert!(matches!(
        restore_cfg(&cfg, WT, &mut ws),
        Err(EmuxError::MissingBase { entry }) if entry == "api-port"
    ));
    assert!(apply_cfg(&cfg, WT, WT, &mut ws).is_ok());
}

#[test]
fn run_writes_the_port_of_the_entry() {
    let mut cfg = Cfg::new();
    cfg.insert("api-port".to_string(), env_entry(".env", None));
    let mut ws = Workspace::new();
    ws.write("/work/tree/.env", "HOST=x\nPORT=4327\n".to_string());
    apply_cfg(&cfg, WT, WT, &mut ws).unwrap();
    let port = emux::overrider::deterministic_port(WT, "api-port");
    assert_eq!(ws.read("/work/tree/.env").unwrap(), &format!("HOST=x\nPORT={port}\n"));
}

#[test]
fn run_json_idempotent_and_numeric() {
    let mut cfg = Cfg::new();
    cfg.insert("db-port".to_string(), json_entry("env.json", ".db.port", Some("5432")));
    let mut ws = Workspace::new();
    ws.write("/work/tree/env.json", "{\"db\": {\"port\": 5432, \"host\": \"h\"}}".to_string());
    apply_cfg(&cfg, WT, WT, &mut ws).unwrap();
    let first = ws.read("/work/tree/env.json").unwrap().clone();
    apply_cfg(&cfg, WT, WT, &mut ws).unwrap();
    assert_eq!(&first, ws.read("/work/tree/env.json").unwrap());
    let json: serde_json::Value = serde_json::from_str(&first).unwrap();
    let port = emux::overrider::deterministic_port(WT, "db-port");
    assert_eq!(json["db"]["port"].as_u64().unwrap(), port as u64);
}

#[test]
fn run_stops_at_unreadable_file() {
    let mut cfg = Cfg::new();
    cfg.insert("api-port".to_string(), env_entry(".env", None));
    let mut ws = Workspace::new();
    assert!(matches!(
        apply_cfg(&cfg, WT, WT, &mut ws),
        Err(EmuxError::Unreadable { path }) if path == "/work/tree/.env"
    ));
}

#[test]
fn diff_shows_current_and_new_values() {
    let mut cfg = Cfg::new();
    cfg.insert("api-port".to_string(), env_entry(".env", None));
    let mut ws = Workspace::new();
    ws.write("/work/tree/.env", "PORT=4327\n".to_string());
    let d = diff_cfg(&cfg, WT, WT, &ws).unwrap();
    let port = emux::overrider::deterministic_port(WT, "api-port").to_string();
    assert_eq!(d.len(), 1);
    assert_eq!(d[0].entry_name, "api-port");
    assert_eq!(d[0].path, "/work/tree/.env");
    assert_eq!(d[0].line_number, Some(1));
    assert_eq!(d[0].old_value, "4327");
    assert_eq!(d[0].new_value, port);
    assert_eq!(d[0].old_line, "PORT=4327");
    assert_eq!(d[0].new_line, format!("PORT={port}"));
    assert_eq!(ws.read("/work/tree/.env").unwrap(), "PORT=4327\n");
}

#[test]
fn cfg_insert_replaces_existing_entry() {
    let mut cfg = Cfg::new();
    cfg.insert("a".to_string(), env_entry(".env", None));
    cfg.insert("a".to_string(), env_entry(".env", Some("1")));
    assert_eq!(cfg.len(), 1);
    assert_eq!(cfg.get("a").unwrap().base.as_deref(), Some("1"));
    assert!(cfg.get("b").is_none());
}

fn two_file_cfg(base: &str) -> Cfg {
    let mut cfg = Cfg::new();
    cfg.insert("api-port".to_string(), env_entry(".env", Some(base)));
    cfg.insert("client-port".to_string(), json_entry("env.json", ".apiPort", Some(base)));
    cfg
}

fn two_file_workspace(env: &str, json: &str) -> Workspace {
    let mut ws = Workspace::new();
    ws.write("/work/tree/.env", env.to_string());
    ws.write("/work/tree/env.json", json.to_string());
    ws
}

#[test]
fn restore_is_idempotent() {
    let cfg = two_file_cfg("4327");
    let mut ws = two_file_workspace("A=1\nPORT=9999\n", "{\"apiPort\": 1, \"x\": true}");
    restore_cfg(&cfg, WT, &mut ws).unwrap();
    let once = ws.files.clone();
    restore_cfg(&cfg, WT, &mut ws).unwrap();
    assert_eq!(ws.files.clone(), once);
    assert_eq!(ws.read("/work/tree/.env").unwrap(), "A=1\nPORT=4327\n");
    assert_eq!(ws.read("/work/tree/env.json").unwrap(), "{\n  \"apiPort\": 4327,\n  \"x\": true\n}\n");
}

#[test]
fn restore_after_run_matches_restore_alone() {
    let cfg = two_file_cfg("4327");
    let env = "A=1\nPORT=9999\r\nB=2";
    let json = "{\"apiPort\": \"old\", \"x\": [1, 2]}";
    let mut alone = two_file_workspace(env, json);
    restore_cfg(&cfg, WT, &mut alone).unwrap();
    let mut both = two_file_workspace(env, json);
    apply_cfg(&cfg, WT, WT, &mut both).unwrap();
    assert_ne!(both.read("/work/tree/.env").unwrap(), alone.read("/work/tree/.env").unwrap());
    restore_cfg(&cfg, WT, &mut both).unwrap();
    assert_eq!(both.read("/work/tree/.env").unwrap(), "A=1\nPORT=4327\r\nB=2");
    assert_eq!(both.read("/work/tree/.env"), alone.read("/work/tree/.env"));
    assert_eq!(both.read("/work/tree/env.json"), alone.read("/work/tree/env.json"));
}

#[test]
fn run_restore_run_is_stable() {
    let cfg = two_file_cfg("4327");
    let env = "PORT=4327\n";
    let json = "{\n  \"apiPort\": 4327\n}\n";
    let mut ws = two_file_workspace(env, json);
    apply_cfg(&cfg, WT, WT, &mut ws).unwrap();
    let after_run = ws.files.clone();
    restore_cfg(&cfg, WT, &mut ws).unwrap();
    assert_eq!(ws.read("/work/tree/.env").unwrap(), env);
    assert_eq!(ws.read("/work/tree/env.json").unwrap(), json);
    apply_cfg(&cfg, WT, WT, &mut ws).unwrap();
    assert_eq!(ws.files.clone(), after_run);
}

#[test]
fn run_ignores_base() {
    let mut with_base = two_file_workspace("PORT=1\n", "{\"apiPort\": 1}");
    let mut other_base = two_file_workspace("PORT=1\n", "{\"apiPort\": 1}");
    apply_cfg(&two_file_cfg("4327"), WT, WT, &mut with_base).unwrap();
    apply_cfg(&two_file_cfg("80"), WT, WT, &mut other_base).unwrap();
    assert_eq!(with_base.files.clone(), other_base.files.clone());
}

#[test]
fn diff_previews_the_lines_run_writes() {
    let cfg = two_file_cfg("4327");
    let mut ws = two_file_workspace("A=1\nPORT=9999\r\nB=2\nPORT=1", "{\"apiPort\": 1}");
    let diff = diff_cfg(&cfg, WT, WT, &ws).unwrap();
    apply_cfg(&cfg, WT, WT, &mut ws).unwrap();
    let mut checked = 0;
    for d in &diff {
        if let Some(n) = d.line_number {
            let content = ws.read(&d.path).unwrap();
            let line = content.lines().nth((n - 1) as usize).unwrap();
            assert_eq!(line.trim_end_matches('\r'), d.new_line);
            checked += 1;
        }
    }
    assert_eq!(checked, 2);
}

fn shared_env_cfg() -> Cfg {
    let env = |var: &str, base: &str| ConfigEntry {
        locate: vec![Locator {
            filters: vec![Filter::EnvFile { path: ".env".to_string(), variable: var.to_string() }],
        }],
        base: Some(base.to_string()),
        overrider: Overrider::Port,
    };
    let mut cfg = Cfg::new();
    cfg.insert("api-port".to_string(), env("API_PORT", "4327"));
    cfg.insert("web-port".to_string(), env("WEB_PORT", "3000"));
    cfg
}

#[test]
fn run_is_idempotent_with_shared_env_file() {
    let cfg = shared_env_cfg();
    let mut ws = Workspace::new();
    ws.write("/work/tree/.env", "API_PORT=4327\nDEBUG=1\nWEB_PORT=3000\n".to_string());
    apply_cfg(&cfg, WT, WT, &mut ws).unwrap();
    let once = ws.files.clone();
    apply_cfg(&cfg, WT, WT, &mut ws).unwrap();
    assert_eq!(ws.files, once);
    let content = ws.read("/work/tree/.env").unwrap();
    let lines: Vec<&str> = content.lines().collect();
    assert!(lines[0].starts_with("API_PORT=") && lines[0] != "API_PORT=4327");
    assert_eq!(lines[1], "DEBUG=1");
    assert!(lines[2].starts_with("WEB_PORT=") && lines[2] != "WEB_PORT=3000");
    assert_ne!(lines[0]["API_PORT=".len()..], lines[2]["WEB_PORT=".len()..]);
}

#[test]
fn restore_after_run_with_shared_env_file() {
    let cfg = shared_env_cfg();
    let original = "API_PORT=4327\nDEBUG=1\nWEB_PORT=3000\n";
    let mut ws = Workspace::new();
    ws.write("/work/tree/.env", original.to_string());
    apply_cfg(&cfg, WT, WT, &mut ws).unwrap();
    restore_cfg(&cfg, WT, &mut ws).unwrap();
    assert_eq!(ws.read("/work/tree/.env").unwrap(), original);
    restore_cfg(&cfg, WT, &mut ws).unwrap();
    assert_eq!(ws.read("/work/tree/.env").unwrap(), original);
}

#[test]
fn run_is_idempotent_with_shared_json_file() {
    let mut cfg = Cfg::new();
    cfg.insert("api-port".to_string(), json_entry("env.json", ".apiPort", Some("4327")));
    cfg.insert("ws-port".to_string(), json_entry("env.json", ".ws.port", Some("4328")));
    let mut ws = Workspace::new();
    ws.write("/work/tree/env.json", "{\"apiPort\": 4327, \"ws\": {\"port\": 4328}, \"x\": true}".to_string());
    apply_cfg(&cfg, WT, WT, &mut ws).unwrap();
    let once = ws.files.clone();
    apply_cfg(&cfg, WT, WT, &mut ws).unwrap();
    assert_eq!(ws.files, once);
    let json: serde_json::Value = serde_json::from_str(ws.read("/work/tree/env.json").unwrap()).unwrap();
    assert!(json["apiPort"].as_u64().unwrap() >= 49152);
    assert!(json["ws"]["port"].as_u64().unwrap() >= 49152);
    assert_eq!(json["x"], serde_json::Value::Bool(true));
}

#[test]
fn restore_after_run_with_shared_json_file() {
    let mut cfg = Cfg::new();
    cfg.insert("api-port".to_string(), json_entry("env.json", ".apiPort", Some("4327")));
    cfg.insert("ws-port".to_string(), json_entry("env.json", ".ws.port", Some("4328")));
    let original = "{\"apiPort\": 1, \"ws\": {\"port\": 2}, \"x\": true}";
    let mut alone = Workspace::new();
    alone.write("/work/tree/env.json", original.to_string());
    restore_cfg(&cfg, WT, &mut alone).unwrap();
    let mut both = Workspace::new();
    both.write("/work/tree/env.json", original.to_string());
    apply_cfg(&cfg, WT, WT, &mut both).unwrap();
    assert_ne!(both.read("/work/tree/env.json"), alone.read("/work/tree/env.json"));
    restore_cfg(&cfg, WT, &mut both).unwrap();
    assert_eq!(both.files.clone(), alone.files.clone());
    assert_eq!(
        both.read("/work/tree/env.json").unwrap(),
        "{\n  \"apiPort\": 4327,\n  \"ws\": {\n    \"port\": 4328\n  },\n  \"x\": true\n}\n"
    );
}

#[test]
fn run_after_restore_with_shared_json_file() {
    let mut cfg = Cfg::new();
    cfg.insert("api-port".to_string(), json_entry("env.json", ".apiPort", Some("4327")));
    cfg.insert("ws-port".to_string(), json_entry("env.json", ".ws.port", Some("4328")));
    let original = "{\"apiPort\": 1, \"ws\": {\"port\": 2}}";
    let mut alone = Workspace::new();
    alone.write("/work/tree/env.json", original.to_string());
    apply_cfg(&cfg, WT, WT, &mut alone).unwrap();
    let mut both = Workspace::new();
    both.write("/work/tree/env.json", original.to_string());
    restore_cfg(&cfg, WT, &mut both).unwrap();
    apply_cfg(&cfg, WT, WT, &mut both).unwrap();
    assert_eq!(both.files.clone(), alone.files.clone());
}

#[test]
fn run_sets_the_override_value_at_every_target() {
    let cfg = two_file_cfg("4327");
    let mut ws = two_file_workspace("A=1\nPORT=1\nPORT=2\r\n", "{\"apiPort\": \"x\"}");
    apply_cfg(&cfg, WT, WT, &mut ws).unwrap();
    for (name, entry) in [("api-port", cfg.get("api-port").unwrap()), ("client-port", cfg.get("client-port").unwrap())] {
        let port = emux::overrider::deterministic_port(WT, name).to_string();
        for l in &entry.locate {
            let apps = l.locate(WT, &ws).unwrap();
            assert!(!apps.is_empty());
            for a in &apps {
                assert_eq!(a.old_value, port);
            }
        }
    }
}

#[test]
fn restore_sets_the_base_value_at_every_target() {
    let cfg = two_file_cfg("4327");
    let mut ws = two_file_workspace("PORT=1\nB=2\nPORT=9\n", "{\"apiPort\": [1, 2]}");
    apply_cfg(&cfg, WT, WT, &mut ws).unwrap();
    restore_cfg(&cfg, WT, &mut ws).unwrap();
    for name in ["api-port", "client-port"] {
        for l in &cfg.get(name).unwrap().locate {
            let apps = l.locate(WT, &ws).unwrap();
            assert!(!apps.is_empty());
            for a in &apps {
                assert_eq!(a.old_value, "4327");
            }
        }
    }
    assert_eq!(ws.read("/work/tree/.env").unwrap(), "PORT=4327\nB=2\nPORT=4327\n");
}

#[test]
fn no_targets_is_a_no_op() {
    let mut cfg = Cfg::new();
    cfg.insert("api-port".to_string(), env_entry(".env", Some("4327")));
    let mut ws = Workspace::new();
    ws.write("/work/tree/.env", "HOST=localhost\nPORTS=1\n".to_string());
    let before = ws.files.clone();
    apply_cfg(&cfg, WT, WT, &mut ws).unwrap();
    assert_eq!(ws.files.clone(), before);
    restore_cfg(&cfg, WT, &mut ws).unwrap();
    assert_eq!(ws.files.clone(), before);
}

#[test]
fn restore_json_writes_a_string_base_as_a_string() {
    let mut cfg = Cfg::new();
    cfg.insert("api-host".to_string(), json_entry("env.json", ".host", Some("localhost")));
    let mut ws = Workspace::new();
    ws.write("/work/tree/env.json", "{\"host\": 1}".to_string());
    restore_cfg(&cfg, WT, &mut ws).unwrap();
    assert_eq!(ws.read("/work/tree/env.json").unwrap(), "{\n  \"host\": \"localhost\"\n}\n");
    let apps = cfg.get("api-host").unwrap().locate[0].locate(WT, &ws).unwrap();
    assert_eq!(apps[0].old_value, "\"localhost\"");
}

#[test]
fn expect_table_error_holds_the_value_found() {
    let five = LuaValue::Number("5".to_string());
    let r = emux::lua::expect_table(&five, "locate");
    assert!(matches!(
        r,
        Err(EmuxError::NotATable { context, found }) if context == "locate" && found == "number"
    ));
    let lua = mlua::Lua::new();
    let t = eval(&lua, "{ 1, 2 }");
    assert!(emux::lua::expect_table(&t, "locate").is_ok());
}

#[test]
fn lua_readers_give_exactly_what_the_tables_name() {
    let lua = mlua::Lua::new();
    let v = eval(
        &lua,
        r#"{ ["api-port"] = { locate = {
                { filters = { { __kind = "env_file", path = "api/.env", variable = "PORT" },
                              { __kind = "json_file", path = "c.json", selector = ".p" } } } },
             base = 4327.5, override = { __kind = "port" } } }"#,
    );
    let cfg = cfg_from_lua(&v).unwrap();
    assert_eq!(cfg.len(), 1);
    let entry = cfg.get("api-port").unwrap();
    assert_eq!(entry.base.as_deref(), Some("4327.5"));
    assert_eq!(entry.locate.len(), 1);
    let filters = &entry.locate[0].filters;
    assert_eq!(filters.len(), 2);
    assert!(matches!(&filters[0], Filter::EnvFile { path, variable } if path == "api/.env" && variable == "PORT"));
    assert!(matches!(&filters[1], Filter::JsonFile { path, selector } if path == "c.json" && selector == ".p"));
    let bad = eval(&lua, r#"{ e = { locate = {}, base = true, override = { __kind = "port" } } }"#);
    assert!(matches!(cfg_from_lua(&bad), Err(EmuxError::NotAString { key }) if key == "base"));
    let no_kind = eval(&lua, r#"{ e = { locate = { { filters = { { path = "p" } } } }, override = { __kind = "port" } } }"#);
    assert!(matches!(cfg_from_lua(&no_kind), Err(EmuxError::NotAString { key }) if key == "__kind"));
    let n = eval(&lua, "42");
    assert!(matches!(cfg_from_lua(&n), Err(EmuxError::NotATable { context, found }) if context == "Cfg" && found == "number"));
}

#[test]
fn run_and_restore_are_idempotent_when_entries_share_targets() {
    let mut cfg = Cfg::new();
    cfg.insert("api-port".to_string(), env_entry(".env", Some("4327")));
    cfg.insert("api-port-again".to_string(), env_entry(".env", Some("4328")));
    cfg.insert("json-a".to_string(), json_entry("env.json", ".port", Some("1")));
    cfg.insert("json-b".to_string(), json_entry("env.json", ".port", Some("2")));
    let mut ws = Workspace::new();
    ws.write("/work/tree/.env", "PORT=1\nA=2\nPORT=3\n".to_string());
    ws.write("/work/tree/env.json", "{\"port\": 0, \"x\": 1}".to_string());
    apply_cfg(&cfg, WT, WT, &mut ws).unwrap();
    let once = ws.files.clone();
    apply_cfg(&cfg, WT, WT, &mut ws).unwrap();
    assert_eq!(ws.files, once);
    let port = emux::overrider::deterministic_port(WT, "api-port-again");
    assert_eq!(ws.read("/work/tree/.env").unwrap(), &format!("PORT={port}\nA=2\nPORT={port}\n"));
    restore_cfg(&cfg, WT, &mut ws).unwrap();
    let restored = ws.files.clone();
    restore_cfg(&cfg, WT, &mut ws).unwrap();
    assert_eq!(ws.files, restored);
    assert_eq!(ws.read("/work/tree/.env").unwrap(), "PORT=4328\nA=2\nPORT=4328\n");
    assert_eq!(ws.read("/work/tree/env.json").unwrap(), "{\n  \"port\": 2,\n  \"x\": 1\n}\n");
}

#[test]
fn two_spellings_of_one_file_are_one_file() {
    let mut cfg = Cfg::new();
    cfg.insert("plain".to_string(), env_entry(".env", Some("4327")));
    cfg.insert("dotted".to_string(), env_entry("./.env", Some("4328")));
    let mut ws = Workspace::new();
    ws.write("/work/tree/.env", "PORT=1\n".to_string());
    restore_cfg(&cfg, WT, &mut ws).unwrap();
    assert_eq!(ws.files.len(), 1);
    assert_eq!(ws.read("/work/tree/.env").unwrap(), "PORT=4328\n");
}

#[test]
fn paths_are_spelled_plainly() {
    assert_eq!(emux::paths::normal_path_exec("./.env"), ".env");
    assert_eq!(emux::paths::normal_path_exec("/work//tree/./.env"), "/work/tree/.env");
    assert_eq!(emux::paths::normal_path_exec("."), ".");
    assert_eq!(emux::paths::normal_path_exec("/"), "/");
    assert_eq!(emux::paths::normal_path_exec("a/../b/"), "a/../b");
    assert_eq!(emux::locator::resolve_path_exec("/work/tree/", "./api/.env"), "/work/tree/api/.env");
    assert_eq!(emux::locator::resolve_path_exec(".", ".env"), ".env");
}

#[test]
fn restore_after_run_with_shared_targets_matches_restore_alone() {
    let mut cfg = Cfg::new();
    cfg.insert("api-port".to_string(), env_entry(".env", Some("4327")));
    cfg.insert("api-port-again".to_string(), env_entry("./.env", Some("4328")));
    cfg.insert("json-a".to_string(), json_entry("env.json", ".port", Some("1")));
    cfg.insert("json-b".to_string(), json_entry("env.json", ".port", Some("2")));
    let mut ws = Workspace::new();
    ws.write("/work/tree/.env", "PORT=1\nA=2\nPORT=3\n".to_string());
    ws.write("/work/tree/env.json", "{\"port\": 0, \"x\": 1}".to_string());
    let mut alone = Workspace::new();
    alone.write("/work/tree/.env", "PORT=1\nA=2\nPORT=3\n".to_string());
    alone.write("/work/tree/env.json", "{\"port\": 0, \"x\": 1}".to_string());
    restore_cfg(&cfg, WT, &mut alone).unwrap();
    apply_cfg(&cfg, WT, WT, &mut ws).unwrap();
    restore_cfg(&cfg, WT, &mut ws).unwrap();
    assert_eq!(ws.files, alone.files);
    assert_eq!(ws.read("/work/tree/.env").unwrap(), "PORT=4328\nA=2\nPORT=4328\n");
}
