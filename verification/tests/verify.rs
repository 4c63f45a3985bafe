use emux::lua::verify_source;

#[test]
fn valid_lua_passes() {
    assert!(verify_source("local x = 1 + 2", "test").is_ok());
}

#[test]
fn syntax_error_fails() {
    assert!(verify_source("local x = ===", "test").is_err());
}

#[test]
fn empty_file_passes() {
    assert!(verify_source("", "test").is_ok());
}

#[test]
fn valid_function_definition_passes() {
    let src = "local function add(a, b) return a + b end";
    assert!(verify_source(src, "test").is_ok());
}

#[test]
fn unclosed_block_fails() {
    assert!(verify_source("if true then", "test").is_err());
}
