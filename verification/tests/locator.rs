use emux::lua::LuaValue;
use emux::json::split_selector;
use emux::env::replace_in_content;
use emux::error::EmuxError;
use emux::locator::{Filter, Locator};
use emux::workspace::Workspace;

fn workspace_with(path: &str, content: &str) -> Workspace {
    let mut ws = Workspace::new();
    ws.write(path, content.to_string());
    ws
}

#[test]
fn locate_env_file_finds_variable() {
    let dir = "/tmp/emux_test_envfile";
    let path = format!("{dir}/.env");
    let ws = workspace_with(&path, "HOST=localhost\nPORT=8001\nDEBUG=true\n");

    let locator = Locator {
        filters: vec![Filter::EnvFile {
            path: path.clone(),
            variable: "PORT".to_string(),
        }],
    };
    let applicators = locator.locate(dir, &ws).unwrap();
    assert_eq!(applicators.len(), 1);
    assert_eq!(applicators[0].line_number, Some(2));
    assert_eq!(applicators[0].old_value, "8001");
}

#[test]
fn locate_env_file_applicator_rewrites_file() {
    let dir = "/tmp/emux_test_envfile_apply";
    let path = format!("{dir}/.env");
    let mut ws = workspace_with(&path, "HOST=localhost\nPORT=8001\nDEBUG=true\n");

    let locator = Locator {
        filters: vec![Filter::EnvFile {
            path: path.clone(),
            variable: "PORT".to_string(),
        }],
    };
    let applicators = locator.locate(dir, &ws).unwrap();
    applicators[0].apply("9999", &mut ws).unwrap();

    let content = ws.read(&path).unwrap();
    assert!(content.contains("PORT=9999"), "PORT should be rewritten");
}

#[test]
fn locate_json_file_returns_applicator() {
    let dir = "/tmp/emux_test_jsonfile_flat";
    let path = format!("{dir}/config.json");
    let ws = workspace_with(&path, "{\n  \"host\": \"localhost\",\n  \"port\": 8001\n}\n");

    let locator = Locator {
        filters: vec![Filter::JsonFile {
            path: path.clone(),
            selector: ".port".to_string(),
        }],
    };
    let applicators = locator.locate(dir, &ws).unwrap();
    assert_eq!(applicators.len(), 1);
    assert_eq!(applicators[0].old_value, "8001");
    assert_eq!(applicators[0].line_number, None);
}

#[test]
fn locate_json_file_applicator_rewrites_file() {
    let dir = "/tmp/emux_test_jsonfile_apply";
    let path = format!("{dir}/config.json");
    let mut ws = workspace_with(&path, "{\n  \"port\": 8001\n}\n");

    let locator = Locator {
        filters: vec![Filter::JsonFile {
            path: path.clone(),
            selector: ".port".to_string(),
        }],
    };
    let applicators = locator.locate(dir, &ws).unwrap();
    applicators[0].apply("9999", &mut ws).unwrap();

    let content = ws.read(&path).unwrap();
    let json: serde_json::Value = serde_json::from_str(content).unwrap();
    assert_eq!(json["port"].as_u64().unwrap(), 9999);
}

#[test]
fn locate_json_file_validates_nested_selector() {
    let dir = "/tmp/emux_test_jsonfile_nested";
    let path = format!("{dir}/config.json");
    let ws = workspace_with(&path, "{\n  \"server\": {\n    \"port\": 9000\n  }\n}\n");

    let locator = Locator {
        filters: vec![Filter::JsonFile {
            path: path.clone(),
            selector: ".server.port".to_string(),
        }],
    };
    let applicators = locator.locate(dir, &ws).unwrap();
    assert_eq!(applicators.len(), 1);
    assert_eq!(applicators[0].old_value, "9000");
}

#[test]
fn locate_json_file_errors_on_missing_key() {
    let dir = "/tmp/emux_test_jsonfile_missing";
    let path = format!("{dir}/config.json");
    let ws = workspace_with(&path, "{\"port\": 8001}\n");

    let locator = Locator {
        filters: vec![Filter::JsonFile {
            path: path.clone(),
            selector: ".missing".to_string(),
        }],
    };
    assert!(locator.locate(dir, &ws).is_err());
}

#[test]
fn replace_in_file_preserves_crlf_endings() {
    let content = replace_in_content("HOST=localhost\r\nPORT=8001\r\nDEBUG=true\r\n", 2, "PORT", "9999");
    assert!(
        content.contains("PORT=9999\r\n"),
        "CRLF ending must be preserved"
    );
    assert_eq!(
        content.matches("\r\n").count(),
        3,
        "all three CRLF endings must survive"
    );
}

#[test]
fn replace_in_file_preserves_multiple_trailing_newlines() {
    let content = replace_in_content("HOST=localhost\nPORT=8001\nDEBUG=true\n\n", 2, "PORT", "9999");
    assert!(
        content.ends_with("\n\n"),
        "double trailing newline must be preserved"
    );
    assert!(content.contains("PORT=9999"));
}

fn model(lua: &mlua::Lua, v: mlua::Value) -> LuaValue {
    match v {
        mlua::Value::Nil => LuaValue::Nil,
        mlua::Value::Boolean(b) => LuaValue::Boolean(b),
        mlua::Value::Integer(_) | mlua::Value::Number(_) => {
            LuaValue::Number(lua.coerce_string(v).unwrap().unwrap().to_str().unwrap().to_string())
        }
        mlua::Value::String(s) => LuaValue::Str(s.to_str().unwrap().to_string()),
        mlua::Value::Table(t) => LuaValue::Table(
            t.pairs::<mlua::Value, mlua::Value>()
                .map(|p| {
                    let (k, x) = p.unwrap();
                    (model(lua, k), model(lua, x))
                })
                .collect(),
        ),
        _ => LuaValue::Other("function".to_string()),
    }
}

fn eval(lua: &mlua::Lua, src: &str) -> LuaValue {
    let v = lua.load(src).eval().unwrap();
    model(lua, v)
}

#[test]
fn filter_env_file_deserializes() {
    let lua = mlua::Lua::new();
    let v = eval(
        &lua,
        r#"{ __kind = "env_file", path = "api/.env", variable = "PORT" }"#,
    );
    let f = Filter::from_lua(&v).unwrap();
    assert!(
        matches!(f, Filter::EnvFile { path, variable } if path == "api/.env" && variable == "PORT")
    );
}

#[test]
fn filter_json_file_deserializes() {
    let lua = mlua::Lua::new();
    let v = eval(
        &lua,
        r#"{ __kind = "json_file", path = "config.json", selector = ".server.port" }"#,
    );
    let f = Filter::from_lua(&v).unwrap();
    assert!(
        matches!(f, Filter::JsonFile { path, selector } if path == "config.json" && selector == ".server.port")
    );
}

#[test]
fn filter_unknown_kind_errors() {
    let lua = mlua::Lua::new();
    let v = eval(&lua, r#"{ __kind = "unknown" }"#);
    assert!(Filter::from_lua(&v).is_err());
}

#[test]
fn locator_single_env_filter() {
    let lua = mlua::Lua::new();
    let v = eval(
        &lua,
        r#"{ filters = { { __kind = "env_file", path = "api/.env", variable = "PORT" } } }"#,
    );
    let loc = Locator::from_lua(&v).unwrap();
    assert_eq!(loc.filters.len(), 1);
    assert!(matches!(&loc.filters[0], Filter::EnvFile { variable, .. } if variable == "PORT"));
}

// Relative paths are taken relative to the configuration's directory.
#[test]
fn locate_resolves_relative_path() {
    let ws = workspace_with("proj/.env", "PORT=1\n");
    let locator = Locator {
        filters: vec![Filter::EnvFile { path: ".env".to_string(), variable: "PORT".to_string() }],
    };
    let apps = locator.locate("proj", &ws).unwrap();
    assert_eq!(apps[0].path, "proj/.env");
    assert_eq!(apps[0].old_line, "PORT=1");
}

#[test]
fn locate_missing_file_is_unreadable() {
    let ws = Workspace::new();
    let locator = Locator {
        filters: vec![Filter::EnvFile { path: "/x/.env".to_string(), variable: "PORT".to_string() }],
    };
    assert!(matches!(locator.locate("/x", &ws), Err(EmuxError::Unreadable { path }) if path == "/x/.env"));
}

#[test]
fn locate_env_file_finds_every_assignment_in_order() {
    let ws = workspace_with("/e/.env", "PORT=1\nXPORT=2\nPORT=3\r\nPORT = 4\nPORT=5");
    let locator = Locator {
        filters: vec![Filter::EnvFile { path: "/e/.env".to_string(), variable: "PORT".to_string() }],
    };
    let apps = locator.locate("/e", &ws).unwrap();
    let found: Vec<(Option<u64>, &str)> = apps.iter().map(|a| (a.line_number, a.old_value.as_str())).collect();
    assert_eq!(found, vec![(Some(1), "1"), (Some(3), "3"), (Some(5), "5")]);
}

#[test]
fn locate_without_filters_finds_nothing() {
    let ws = Workspace::new();
    let locator = Locator { filters: vec![] };
    assert!(locator.locate("/x", &ws).unwrap().is_empty());
}

#[test]
fn locate_json_invalid_document_errors() {
    let ws = workspace_with("/j/c.json", "{ not json");
    let locator = Locator {
        filters: vec![Filter::JsonFile { path: "/j/c.json".to_string(), selector: ".port".to_string() }],
    };
    assert!(matches!(locator.locate("/j", &ws), Err(EmuxError::InvalidJson { .. })));
}

#[test]
fn locate_json_empty_selector_errors() {
    let ws = workspace_with("/j/c.json", "{\"port\": 1}");
    let locator = Locator {
        filters: vec![Filter::JsonFile { path: "/j/c.json".to_string(), selector: "...".to_string() }],
    };
    assert!(matches!(locator.locate("/j", &ws), Err(EmuxError::EmptySelector)));
}

#[test]
fn locate_json_missing_key_names_the_key() {
    let ws = workspace_with("/j/c.json", "{\"server\": {\"host\": \"h\"}}");
    let locator = Locator {
        filters: vec![Filter::JsonFile { path: "/j/c.json".to_string(), selector: ".server.port".to_string() }],
    };
    assert!(matches!(
        locator.locate("/j", &ws),
        Err(EmuxError::KeyNotInSelector { key, selector }) if key == "port" && selector == ".server.port"
    ));
}

#[test]
fn locate_json_shows_selector_and_compact_value() {
    let ws = workspace_with("/j/c.json", "{\"a\": {\"b\": [1, 2]}}");
    let locator = Locator {
        filters: vec![Filter::JsonFile { path: "/j/c.json".to_string(), selector: "a.b".to_string() }],
    };
    let apps = locator.locate("/j", &ws).unwrap();
    assert_eq!(apps[0].old_value, "[1,2]");
    assert_eq!(apps[0].old_line, "a.b: [1,2]");
}

#[test]
fn json_apply_writes_string_when_value_is_not_json() {
    let mut ws = workspace_with("/j/c.json", "{\"host\": \"a\"}");
    let locator = Locator {
        filters: vec![Filter::JsonFile { path: "/j/c.json".to_string(), selector: ".host".to_string() }],
    };
    let apps = locator.locate("/j", &ws).unwrap();
    apps[0].apply("localhost", &mut ws).unwrap();
    assert_eq!(ws.read("/j/c.json").unwrap(), "{\n  \"host\": \"localhost\"\n}\n");
}

#[test]
fn json_apply_into_scalar_parent_is_not_an_object() {
    let mut ws = workspace_with("/j/c.json", "{\"a\": 1}");
    let locator = Locator {
        filters: vec![Filter::JsonFile { path: "/j/c.json".to_string(), selector: ".a".to_string() }],
    };
    let apps = locator.locate("/j", &ws).unwrap();
    ws.write("/j/c.json", "{\"a\": 1, \"x\": 2}".to_string());
    let inner = Locator {
        filters: vec![Filter::JsonFile { path: "/j/c.json".to_string(), selector: ".a".to_string() }],
    };
    assert!(inner.locate("/j", &ws).is_ok());
    let nested = emux::locator::Applicator {
        path: "/j/c.json".to_string(),
        line_number: None,
        old_value: "1".to_string(),
        old_line: ".a.b: 1".to_string(),
        writer: emux::locator::Writer::JsonSelector { selector: ".a.b".to_string() },
    };
    assert!(matches!(nested.apply("5", &mut ws), Err(EmuxError::NotAnObject { key }) if key == "b"));
    assert_eq!(apps.len(), 1);
}

#[test]
fn replace_in_content_replaces_the_value_after_the_variable_only() {
    let out = replace_in_content("A=1\nB1=11\nC=1", 2, "B1", "2");
    assert_eq!(out, "A=1\nB1=2\nC=1");
    assert_eq!(replace_in_content("A=1\nB=2\n", 2, "A", "9"), "A=1\nB=2\n");
}

#[test]
fn replace_in_content_keeps_missing_final_newline() {
    assert_eq!(replace_in_content("PORT=1", 1, "PORT", "22"), "PORT=22");
}

#[test]
fn replace_in_content_out_of_range_line_changes_nothing() {
    assert_eq!(replace_in_content("PORT=1\n", 5, "PORT", "2"), "PORT=1\n");
}

#[test]
fn split_selector_keeps_the_nonempty_keys() {
    assert_eq!(split_selector(".server.port").unwrap(), vec!["server".to_string(), "port".to_string()]);
    assert_eq!(split_selector("..a..b.").unwrap(), vec!["a".to_string(), "b".to_string()]);
    assert!(matches!(split_selector("..."), Err(EmuxError::EmptySelector)));
    assert!(matches!(split_selector(""), Err(EmuxError::EmptySelector)));
}

#[test]
fn json_apply_writes_numbers_as_numbers_and_other_text_as_strings() {
    let mut ws = workspace_with("/j/c.json", "{\"a\": 1, \"b\": 2, \"c\": 3}");
    for (sel, v) in [(".a", "9999"), (".b", "true"), (".c", "[1]")] {
        let locator = Locator {
            filters: vec![Filter::JsonFile { path: "/j/c.json".to_string(), selector: sel.to_string() }],
        };
        let apps = locator.locate("/j", &ws).unwrap();
        apps[0].apply(v, &mut ws).unwrap();
    }
    assert_eq!(
        ws.read("/j/c.json").unwrap(),
        "{\n  \"a\": 9999,\n  \"b\": \"true\",\n  \"c\": \"[1]\"\n}\n"
    );
}

#[test]
fn env_apply_replaces_the_value_after_the_variable() {
    let mut ws = workspace_with("/e/.env", "A1=1\r\nB=2\n");
    let locator = Locator {
        filters: vec![Filter::EnvFile { path: "/e/.env".to_string(), variable: "A1".to_string() }],
    };
    let apps = locator.locate("/e", &ws).unwrap();
    apps[0].apply("9", &mut ws).unwrap();
    assert_eq!(ws.read("/e/.env").unwrap(), "A1=9\r\nB=2\n");
}

#[test]
fn env_writes_do_not_move_targets() {
    let mut ws = workspace_with("/e/.env", "PORT=1\nX=PORT=\nPORT=PORT\r\n");
    let locator = Locator {
        filters: vec![Filter::EnvFile { path: "/e/.env".to_string(), variable: "PORT".to_string() }],
    };
    let before = locator.locate("/e", &ws).unwrap();
    for a in &before {
        a.apply("51234", &mut ws).unwrap();
    }
    let after = locator.locate("/e", &ws).unwrap();
    assert_eq!(before.len(), 2);
    assert_eq!(after.len(), 2);
    for (b, a) in before.iter().zip(after.iter()) {
        assert_eq!(b.line_number, a.line_number);
        assert_eq!(a.old_value, "51234");
    }
    assert_eq!(ws.read("/e/.env").unwrap(), "PORT=51234\nX=PORT=\nPORT=51234\r\n");
}

#[test]
fn invalid_json_error_carries_the_parser_message() {
    let ws = workspace_with("/j/c.json", "{ not json");
    let locator = Locator {
        filters: vec![Filter::JsonFile { path: "c.json".to_string(), selector: ".port".to_string() }],
    };
    let expected = serde_json::from_str::<serde_json::Value>("{ not json").unwrap_err().to_string();
    match locator.locate("/j", &ws) {
        Err(EmuxError::InvalidJson { path, message }) => {
            assert_eq!(path, "/j/c.json");
            assert_eq!(message, expected);
            assert!(!message.is_empty());
        }
        _ => panic!("expected InvalidJson"),
    }
}
