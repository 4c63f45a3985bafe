use emux::error::EmuxError;
use emux::lua::LuaValue;
use emux::locator::Applicator;
use emux::overrider::{decimal_string, deterministic_port, fnv1a_64, Overrider};
use emux::workspace::Workspace;

const TEMP_DIR: &str = "/tmp";

#[test]
fn fnv1a_empty_is_offset_basis() {
    assert_eq!(fnv1a_64(b""), 0xcbf2_9ce4_8422_2325);
}

#[test]
fn fnv1a_differs_by_input() {
    assert_ne!(fnv1a_64(b"hello"), fnv1a_64(b"world"));
}

#[test]
fn deterministic_port_is_stable_and_in_range() {
    let dir = TEMP_DIR;
    let a = deterministic_port(dir, "api-port");
    let b = deterministic_port(dir, "api-port");
    assert_eq!(a, b);
    assert!((49152..=65535).contains(&a));
}

#[test]
fn deterministic_port_varies_by_entry() {
    let dir = TEMP_DIR;
    assert_ne!(
        deterministic_port(dir, "api-port"),
        deterministic_port(dir, "db-port")
    );
}

#[test]
fn port_value_parses_into_range() {
    let v = Overrider::Port.value(TEMP_DIR, "x").unwrap();
    let n: u16 = v.parse().unwrap();
    assert!((49152..=65535).contains(&n));
}

#[test]
fn port_apply_zero_applicators_succeeds() {
    let apps: Vec<Applicator> = vec![];
    let mut ws = Workspace::new();
    Overrider::Port.apply(TEMP_DIR, "x", &apps, &mut ws).unwrap();
}

/// The Lua table `{ __kind = kind }`.
fn kind_table(kind: &str) -> LuaValue {
    LuaValue::Table(vec![(LuaValue::Str("__kind".to_string()), LuaValue::Str(kind.to_string()))])
}

#[test]
fn port_deserializes() {
    let v = kind_table("port");
    assert!(matches!(
        Overrider::from_lua(&v).unwrap(),
        Overrider::Port
    ));
}

#[test]
fn unknown_kind_errors() {
    let v = kind_table("unknown");
    assert!(matches!(
        Overrider::from_lua(&v),
        Err(EmuxError::UnknownOverriderKind { kind }) if kind == "unknown"
    ));
    assert!(matches!(
        Overrider::from_lua(&LuaValue::Str("port".to_string())),
        Err(EmuxError::NotATable { context, found }) if context == "Overrider" && found == "string"
    ));
}

// FNV-1a test vectors from the reference implementation.
#[test]
fn fnv1a_known_vectors() {
    assert_eq!(fnv1a_64(b"a"), 0xaf63_dc4c_8601_ec8c);
    assert_eq!(fnv1a_64(b"foobar"), 0x8594_4171_f739_67e8);
}

#[test]
fn deterministic_port_matches_hash_of_seed() {
    let h = fnv1a_64(b"/work/tree\0api-port");
    let expected = 49152 + (h % 16384) as u16;
    assert_eq!(deterministic_port("/work/tree", "api-port"), expected);
}

#[test]
fn deterministic_port_varies_by_worktree() {
    assert_ne!(
        deterministic_port("/work/a", "api-port"),
        deterministic_port("/work/b", "api-port")
    );
}

#[test]
fn port_value_is_decimal_of_port() {
    let p = deterministic_port("/work/tree", "db");
    assert_eq!(Overrider::Port.value("/work/tree", "db").unwrap(), p.to_string());
}

#[test]
fn decimal_string_formats_numbers() {
    assert_eq!(decimal_string(0), "0");
    assert_eq!(decimal_string(7), "7");
    assert_eq!(decimal_string(10), "10");
    assert_eq!(decimal_string(49152), "49152");
    assert_eq!(decimal_string(65535), "65535");
}
