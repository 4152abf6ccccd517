use expandenv::{expand_path, expand_string, Env, ExpandError, Lookup};

const HOME: &str = "/home/tester";

fn env_of(pairs: &[(&str, &str)]) -> Env {
    let mut env = Env::new();
    for (name, value) in pairs {
        env.set(name.as_bytes().to_vec(), value.as_bytes().to_vec());
    }
    env
}

fn string_of(env: &Env, input: &str) -> String {
    let bytes = expand_string(env, input.as_bytes()).expect("expansion failed");
    String::from_utf8(bytes).expect("expansion produced invalid text")
}

fn path_of(env: &Env, input: &str) -> String {
    let bytes = expand_path(env, HOME.as_bytes(), input.as_bytes()).expect("expansion failed");
    String::from_utf8(bytes).expect("expansion produced invalid text")
}

#[test]
fn literal_text_is_identity() {
    let env = env_of(&[("FOO", "bar")]);
    assert_eq!("", string_of(&env, ""));
    assert_eq!("hello world", string_of(&env, "hello world"));
    assert_eq!("a {b} c~d", string_of(&env, "a {b} c~d"));
}

#[test]
fn set_variable_expands_in_both_forms() {
    let env = env_of(&[("FOO", "bar")]);
    assert_eq!("bar", string_of(&env, "$FOO"));
    assert_eq!("bar", string_of(&env, "${FOO}"));
}

#[test]
fn unset_variable_without_fallback_fails_with_its_name() {
    let env = env_of(&[]);
    match expand_string(&env, b"$FOO") {
        Err(ExpandError::EnvvarReadError(name)) => assert_eq!(name, b"FOO".to_vec()),
        res => panic!("expected EnvvarReadError, got {res:?}"),
    }
}

#[test]
fn fallback_is_used_only_when_unset() {
    let env = env_of(&[("SET", "value")]);
    assert_eq!("literal", string_of(&env, "${UNSET:-literal}"));
    assert_eq!("value", string_of(&env, "${SET:-literal}"));
}

#[test]
fn nested_fallback_resolves_innermost_set_variable() {
    let with_set = env_of(&[("SET", "found")]);
    assert_eq!("found", string_of(&with_set, "${UNSET1:-${UNSET2:-${SET:-X}}}"));
    let without_set = env_of(&[]);
    assert_eq!("X", string_of(&without_set, "${UNSET1:-${UNSET2:-${SET:-X}}}"));
}

#[test]
fn escaped_dollar_suppresses_lookup() {
    let env = env_of(&[("FOO", "bar")]);
    assert_eq!("$FOO", string_of(&env, "\\$FOO"));
}

#[test]
fn leading_tilde_component_expands_to_home() {
    let env = env_of(&[]);
    assert_eq!(format!("{HOME}/a/b"), path_of(&env, "~/a/b"));
    assert_eq!(HOME.to_string(), path_of(&env, "~"));
}

#[test]
fn tilde_from_fallback_expands_to_home() {
    let env = env_of(&[]);
    assert_eq!(format!("{HOME}/a"), path_of(&env, "${UNSET:-~}/a"));
}

#[test]
fn tilde_elsewhere_is_literal() {
    let env = env_of(&[]);
    assert_eq!("~x/a", path_of(&env, "~x/a"));
    assert_eq!("a/~/b", path_of(&env, "a/~/b"));
    assert_eq!("~/a", string_of(&env, "~/a"));
}

#[test]
fn expansion_is_idempotent_on_clean_output() {
    let env = env_of(&[("FOO", "plain value")]);
    let once = string_of(&env, "x=$FOO");
    assert_eq!("x=plain value", once);
    let twice = string_of(&env, &once);
    assert_eq!(once, twice);
}

#[test]
fn round_trip_mixed_forms() {
    let env = env_of(&[("FOO", "bar")]);
    assert_eq!(
        "x=bar, y=bar, z=bar",
        string_of(&env, "x=${FOO}, y=$FOO, z=${MISSING:-$FOO}")
    );
}

#[test]
fn lone_dollar_is_an_empty_capture() {
    let env = env_of(&[]);
    assert!(matches!(
        expand_string(&env, b"$"),
        Err(ExpandError::EmptyEnvvarCapture)
    ));
    assert!(matches!(
        expand_string(&env, b"a$/b"),
        Err(ExpandError::EmptyEnvvarCapture)
    ));
}

#[test]
fn invalid_names_are_empty_captures() {
    let env = env_of(&[]);
    assert!(matches!(
        expand_string(&env, b"${}"),
        Err(ExpandError::EmptyEnvvarCapture)
    ));
    assert!(matches!(
        expand_string(&env, b"${:-x}"),
        Err(ExpandError::EmptyEnvvarCapture)
    ));
    assert!(matches!(
        expand_string(&env, b"$9BAD"),
        Err(ExpandError::EmptyEnvvarCapture)
    ));
}

#[test]
fn undecodable_value_fails_even_with_fallback() {
    let mut env = Env::new();
    env.set_undecodable(b"BAD".to_vec());
    assert!(matches!(
        expand_string(&env, b"$BAD"),
        Err(ExpandError::OsVarError)
    ));
    assert!(matches!(
        expand_string(&env, b"${BAD:-fallback}"),
        Err(ExpandError::OsVarError)
    ));
}

#[test]
fn doubled_dollar_stays_literal() {
    let env = env_of(&[("FOO", "bar")]);
    assert_eq!("$$", string_of(&env, "$$"));
    assert_eq!("a$$FOO b", string_of(&env, "a$$FOO b"));
}

#[test]
fn unterminated_braced_placeholder_is_resolved_best_effort() {
    let env = env_of(&[("FOO", "bar")]);
    assert_eq!("bar", string_of(&env, "${FOO"));
}

#[test]
fn adjacent_placeholders_both_expand() {
    let env = env_of(&[("A", "1"), ("B", "2")]);
    assert_eq!("12", string_of(&env, "$A$B"));
}

#[test]
fn underscores_and_digits_stay_in_names() {
    let env = env_of(&[("FOO_1", "ok")]);
    assert_eq!("ok", string_of(&env, "$FOO_1"));
}

#[test]
fn later_entries_override_earlier_ones() {
    let mut env = Env::new();
    env.set(b"FOO".to_vec(), b"old".to_vec());
    env.set(b"FOO".to_vec(), b"new".to_vec());
    assert_eq!("new", string_of(&env, "$FOO"));
}

#[test]
fn lookup_reports_the_three_outcomes() {
    let mut env = Env::new();
    env.set(b"SET".to_vec(), b"v".to_vec());
    env.set_undecodable(b"BAD".to_vec());
    assert_eq!(Lookup::Text(b"v".to_vec()), env.lookup(b"SET"));
    assert_eq!(Lookup::Undecodable, env.lookup(b"BAD"));
    assert_eq!(Lookup::Unset, env.lookup(b"MISSING"));
}

#[test]
fn bare_variable_is_one_component() {
    let actual = expandenv::__parse_string_components(b"$FOO");
    assert_eq!(vec![b"$FOO".to_vec()], actual);
}

#[test]
fn escaped_backslash_leaves_next_placeholder_live() {
    let env = env_of(&[("FOO", "bar")]);
    // the input holds two backslashes and then the placeholder
    assert_eq!("\\bar", string_of(&env, "\\\\$FOO"));
}

#[test]
fn tilde_only_fallback_expands_to_home() {
    let env = env_of(&[]);
    assert_eq!(HOME.to_string(), path_of(&env, "${UNSET:-~}"));
}

#[test]
fn trailing_backslash_stands_for_itself() {
    let env = env_of(&[]);
    assert_eq!("a\\", string_of(&env, "a\\"));
}

#[test]
fn brace_after_bare_name_spoils_the_capture() {
    let env = env_of(&[("FOO", "bar")]);
    assert!(matches!(
        expand_string(&env, b"$FOO{x}"),
        Err(ExpandError::EmptyEnvvarCapture)
    ));
}

#[test]
fn fallback_may_contain_path_separators() {
    let env = env_of(&[]);
    assert_eq!("some/path", string_of(&env, "${MISSING_VAR:-some/path}"));
}

#[test]
fn value_slashes_become_real_separators() {
    let env = env_of(&[("DIR", "a/b")]);
    assert_eq!("x/a/b/y", path_of(&env, "x/$DIR/y"));
}
