use banana_monkey::launch::{pairs_from_args, pairs_from_query, setting, LaunchError, LaunchView, Setting};

/// The registry's names, as a launch resolves a scenario against them.
const SCENARIOS: &[&str] = &["fresh", "one-worker"];

fn strings(list: &[&str]) -> Vec<String> {
    list.iter().map(|arg| (*arg).to_owned()).collect()
}

/// The command line read all the way to settings, stopping at the first refusal.
fn launch(list: &[&str]) -> Result<Vec<Setting>, LaunchError> {
    pairs_from_args(&strings(list))?
        .iter()
        .map(|(key, value)| setting(key, value, SCENARIOS))
        .collect()
}

fn pairs(list: &[(&str, &str)]) -> Vec<(String, String)> {
    list.iter()
        .map(|(key, value)| ((*key).to_owned(), (*value).to_owned()))
        .collect()
}

#[test]
fn help_and_stray_arguments_stop_the_launch() {
    assert_eq!(launch(&["--help"]), Err(LaunchError::Help));
    assert_eq!(launch(&["--scenarios"]), Err(LaunchError::Help));
    assert!(launch(&["--speed"]).is_err());
    assert!(launch(&["--view", "sideways"]).is_err());
    assert!(launch(&["--colour", "blue"]).is_err());
    assert!(launch(&["one-worker"]).is_err());
}

#[test]
fn a_scenario_that_does_not_exist_is_refused_by_name() {
    assert_eq!(
        launch(&["--scenario", "bogus"]),
        Err(LaunchError::Invalid("unknown scenario `bogus`".into()))
    );
    assert_eq!(
        setting("scenario", "one-worker", &[]),
        Err(LaunchError::Invalid("unknown scenario `one-worker`".into()))
    );
    assert_eq!(
        launch(&["--scenario=fresh"]),
        Ok(vec![Setting::Scenario("fresh".to_owned())])
    );
}

#[test]
fn both_syntaxes_give_the_same_pairs() {
    let from_args = pairs_from_args(&strings(&[
        "--scenario",
        "one-worker",
        "--speed=5",
        "--view",
        "stage",
    ]))
    .unwrap();
    let from_query = pairs_from_query("?scenario=one-worker&speed=5&view=stage");
    assert_eq!(from_args, from_query);
    assert_eq!(
        from_args,
        pairs(&[("scenario", "one-worker"), ("speed", "5"), ("view", "stage")])
    );
    assert_eq!(
        launch(&["--scenario", "one-worker", "--speed=5", "--view", "stage"]),
        Ok(vec![
            Setting::Scenario("one-worker".to_owned()),
            Setting::Speed("5".to_owned()),
            Setting::View(LaunchView::Stage),
        ])
    );
}

#[test]
fn nothing_asked_for_asks_for_nothing() {
    assert_eq!(launch(&[]), Ok(vec![]));
    assert!(pairs_from_query("").is_empty());
    assert!(pairs_from_query("?").is_empty());
    assert!(pairs_from_query("??&&").is_empty());
    // A URL carries whatever it likes; only our keys are ours.
    assert_eq!(
        pairs_from_query("?utm_source=x&speed=2"),
        pairs(&[("speed", "2")])
    );
    assert_eq!(pairs_from_query("view&x=1"), pairs(&[("view", "")]));
}

#[test]
fn refusals_say_what_was_wrong() {
    assert_eq!(
        launch(&["one-worker"]),
        Err(LaunchError::Invalid("unexpected argument `one-worker`".to_owned()))
    );
    assert_eq!(
        launch(&["--speed"]),
        Err(LaunchError::Invalid("`--speed` needs a value".to_owned()))
    );
    assert_eq!(
        launch(&["--view", "sideways"]),
        Err(LaunchError::Invalid(
            "view must be `full` or `stage`, not `sideways`".to_owned()
        ))
    );
    assert_eq!(
        launch(&["--colour=blue"]),
        Err(LaunchError::Invalid("unknown option `colour`".to_owned()))
    );
    assert_eq!(launch(&["--map"]), Err(LaunchError::Report));
    assert_eq!(launch(&["-h", "--map"]), Err(LaunchError::Help));
    assert_eq!(launch(&["--view=full"]), Ok(vec![Setting::View(LaunchView::Full)]));
    assert_eq!(LaunchView::default(), LaunchView::Full);
}
