use expandenv::{expand, Env, ExpandError, __parse_string_components};

const TEST_ENVVAR_KEY: &str = "__EXPANDENV_TEST_VAR";
const TEST_ENVVAR_VALUE: &str = "test_value";
const TEST_HOME: &str = "/home/tester";

fn test_env() -> Env {
    let mut env = Env::new();
    env.set(
        TEST_ENVVAR_KEY.as_bytes().to_vec(),
        TEST_ENVVAR_VALUE.as_bytes().to_vec(),
    );
    env
}

fn expand_to_string(env: &Env, input: &str) -> String {
    let bytes = expand(env, TEST_HOME.as_bytes(), input.as_bytes()).expect("expansion failed");
    String::from_utf8(bytes).expect("expansion produced invalid text")
}

#[test]
fn test_fails_to_expand_non_existent_envvar() {
    const TEST_ENVVAR: &str = "NO_WAY_YOU_HAVE_DEFINED_THIS";

    let env = Env::new();
    match expand(&env, TEST_HOME.as_bytes(), format!("${TEST_ENVVAR}").as_bytes()) {
        Err(ExpandError::EnvvarReadError(envvar)) => {
            assert_eq!(envvar, TEST_ENVVAR.as_bytes().to_vec())
        }
        res => panic!("expected error, got {res:?}"),
    }
}

#[test]
fn test_parses_string_with_braces() {
    let expected = vec!["this is a ", "${within braces}", " string"];
    let expected_str = expected.join("");
    let actual = __parse_string_components(expected_str.as_bytes());

    let expected_bytes: Vec<Vec<u8>> = expected.iter().map(|p| p.as_bytes().to_vec()).collect();
    assert_eq!(expected_bytes, actual);
}

#[test]
fn test_parses_string_with_braces_but_no_dollar_sign() {
    let expected = vec!["this is a {within braces} string"];
    let expected_str = expected.join("");
    let actual = __parse_string_components(expected_str.as_bytes());

    let expected_bytes: Vec<Vec<u8>> = expected.iter().map(|p| p.as_bytes().to_vec()).collect();
    assert_eq!(expected_bytes, actual);
}

#[test]
fn test_expand_envvar() {
    let env = test_env();
    let expected = TEST_ENVVAR_VALUE.to_string();
    let actual = expand_to_string(&env, &format!("${TEST_ENVVAR_KEY}"));

    assert_eq!(expected, actual);
}

#[test]
fn test_expand_envvar_in_middle_of_path() {
    let env = test_env();

    let expected = format!("path/to/{TEST_ENVVAR_VALUE}/some/file");
    let actual = expand_to_string(&env, &format!("path/to/${TEST_ENVVAR_KEY}/some/file"));

    assert_eq!(expected, actual);
}

#[test]
fn test_expand_envvar_in_middle_of_string() {
    let env = test_env();

    let expected = format!("oh look! {TEST_ENVVAR_VALUE}! a wild envvar!");
    let actual = expand_to_string(&env, &format!("oh look! ${TEST_ENVVAR_KEY}! a wild envvar!"));

    assert_eq!(expected, actual);
}

#[test]
fn test_expand_envvar_with_braces_in_middle_of_string() {
    let env = test_env();

    let expected = format!("oh look! {TEST_ENVVAR_VALUE}! a wild envvar!");
    let actual = expand_to_string(&env, &format!("oh look! ${{{TEST_ENVVAR_KEY}}}! a wild envvar!"));

    assert_eq!(expected, actual);
}

#[test]
fn test_expand_envvar_with_braces() {
    let env = test_env();
    let expected = TEST_ENVVAR_VALUE.to_string();
    let actual = expand_to_string(&env, &format!("${{{TEST_ENVVAR_KEY}}}"));

    assert_eq!(expected, actual);
}

#[test]
fn test_expand_fallback_envvar() {
    let env = test_env();
    let expected = TEST_ENVVAR_VALUE.to_string();
    let actual = expand_to_string(
        &env,
        &format!("${{NO_WAY_YOU_HAVE_DEFINED_THIS:-${TEST_ENVVAR_KEY}}}"),
    );

    assert_eq!(expected, actual);
}

#[test]
fn test_expand_nested_fallback_envvars() {
    let env = test_env();
    let expected = TEST_ENVVAR_VALUE.to_string();
    // braces are important! otherwise, it's ambiguous
    let actual = expand_to_string(
        &env,
        &format!("${{MISSING1:-${{MISSING2:-${{MISSING3:-${TEST_ENVVAR_KEY}}}}}}}"),
    );

    assert_eq!(expected, actual);
}
