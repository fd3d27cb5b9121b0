use fuzzy_cmd::ExecutionError;
use fuzzy_cmd::FuzzyCmd;

#[test]
fn mod_basics() {
    let _ = FuzzyCmd::new();
    let _ = FuzzyCmd::new().enable_fuzzy().seperator("Just some testing");
}

#[test]
fn exec_splits_on_the_default_separator() {
    let mut fuzz = FuzzyCmd::new();
    fuzz.add("help").add("me").call(1);
    assert_eq!(fuzz.exec("help me").unwrap(), 1);
}

#[test]
fn exec_with_a_custom_separator() {
    let mut fuzz = FuzzyCmd::new().seperator("THIS IS AWESOME!");
    fuzz.add("help").add("me").call(1);
    assert_eq!(fuzz.exec("helpTHIS IS AWESOME!me").unwrap(), 1);
}

#[test]
fn disable_fuzzy_requires_exact_tokens() {
    let mut fuzz = FuzzyCmd::new().disable_fuzzy();
    fuzz.add("bake").add("cake").call(1);
    assert!(fuzz.exec("b c").is_err());
    assert_eq!(fuzz.exec("bake cake").unwrap(), 1);
}

#[test]
fn enable_fuzzy_routes_prefixes() {
    let mut fuzz = FuzzyCmd::new().disable_fuzzy().enable_fuzzy();
    fuzz.add("bake").add("cake").call(1);
    assert_eq!(fuzz.exec("b c").unwrap(), 1);
}

#[test]
fn splitting_keeps_empty_tokens() {
    let mut fuzz = FuzzyCmd::new();
    fuzz.add("a").call(1);
    // "a " splits into "a" and an empty token; the leaf absorbs the extra.
    assert_eq!(fuzz.exec("a ").unwrap(), 1);
    // " a" starts with an empty token, which matches no label exactly.
    let mut two = FuzzyCmd::new().disable_fuzzy();
    two.add("a").call(1);
    assert!(two.exec(" a").is_err());
}

#[test]
fn an_empty_separator_splits_between_characters() {
    let mut fuzz = FuzzyCmd::new().seperator("");
    fuzz.add("x").call(1);
    // "ab" becomes ["", "a", "b", ""]; the empty first token is a prefix of
    // the single label "x", so the walk reaches the leaf and absorbs the rest.
    assert_eq!(fuzz.exec("ab").unwrap(), 1);
}

#[test]
fn error_message_concatenates_remaining_tokens() {
    let e = ExecutionError::new(&[String::from("te"), String::from("a")]);
    assert_eq!(e.message(), "no function to execute command 'tea'");
    let empty = ExecutionError::new(&[]);
    assert_eq!(empty.message(), "no function to execute command ''");
}

#[test]
fn unmatched_commands_report_the_remaining_text() {
    let mut fuzz = FuzzyCmd::new();
    fuzz.add("help").call(1);
    let r = fuzz.exec("nope at all");
    assert_eq!(
        r.unwrap_err().message(),
        "no function to execute command 'nopeatall'"
    );
}
