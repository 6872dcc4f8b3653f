use jenkins::history::{clone_entry, History, HistoryEntry, ParamsMap};
use jenkins::params::{JenkinsJobParameter, ParamType};

const BASE_URL: &str = "http://example.com";

fn entry(job_url: String, name: &str) -> HistoryEntry {
    HistoryEntry {
        job_url,
        name: name.to_string(),
        display_name: None,
        params: None,
        created_at: None,
        completed_at: None,
    }
}

fn schema_param(
    name: &str,
    param_type: Option<ParamType>,
    default_value: Option<&str>,
    choices: Option<Vec<&str>>,
) -> JenkinsJobParameter {
    JenkinsJobParameter {
        param_type,
        name: name.to_string(),
        description: None,
        default_value: default_value.map(|d| d.to_string()),
        choices: choices.map(|cs| cs.into_iter().map(|c| c.to_string()).collect()),
        trim: None,
        required: None,
        credential_type: None,
        project_name: None,
        filter: None,
    }
}

#[test]
fn test_new_history() {
    let history = History::new();
    assert!(history.entries.is_empty());
}

#[test]
fn test_upsert_history() {
    let mut history = History::new();
    let mut entry = HistoryEntry {
        job_url: format!("{}/job1", BASE_URL),
        name: "Job1".to_string(),
        display_name: Some("Test Job 1".to_string()),
        params: None,
        created_at: None,
        completed_at: None,
    };

    history.upsert_history(&mut entry);
    assert_eq!(history.entries.len(), 1);

    // update existing entry
    entry.display_name = Some("Updated Job 1".to_string());
    history.upsert_history(&mut entry);
    assert_eq!(history.entries.len(), 1);
    assert_eq!(history.entries[0].display_name, Some("Updated Job 1".to_string()));
    println!("test_upsert_history: {:?}", history);
}

#[test]
fn test_get_history() {
    let mut history = History::new();
    let mut entry = HistoryEntry {
        job_url: format!("{}/job1", BASE_URL),
        name: "Job1".to_string(),
        display_name: Some("Test Job 1".to_string()),
        params: None,
        created_at: Some(1000),
        completed_at: None,
    };
    let probe = clone_entry(&entry);
    history.upsert_history(&mut entry);

    let result = history.get_history(&probe, BASE_URL);
    assert!(result.is_some());
    assert_eq!(result.unwrap().name, "Job1");
}

#[test]
fn test_get_latest_history() {
    let mut history = History::new();

    // setup history entries
    let mut older = entry(format!("{}/job1", BASE_URL), "Job1");
    older.created_at = Some(1000); // the older timestamp
    let mut newer = entry(format!("{}/job2", BASE_URL), "Job2");
    newer.created_at = Some(2000); // the newer timestamp
    history.entries = vec![older, newer];

    // get the latest history
    let recent = history.get_recent_histories(BASE_URL, Some(1));
    assert!(!recent.is_empty());
    assert_eq!(recent[0].name, "Job2");

    // test get multiple histories
    let recent_multiple = history.get_recent_histories(BASE_URL, Some(2));
    assert_eq!(recent_multiple.len(), 2);
    assert_eq!(recent_multiple[0].name, "Job2"); // the latest one is at the front
    assert_eq!(recent_multiple[1].name, "Job1"); // the older one is at the back
}

#[test]
fn test_update_field() {
    let mut history = History::new();
    let mut entry = entry(format!("{}/job1", BASE_URL), "Job1");
    let probe = clone_entry(&entry);
    history.upsert_history(&mut entry);

    history.update_field(&probe, Some(3000)).unwrap();

    let updated = history.get_history(&probe, BASE_URL).unwrap();
    assert_eq!(updated.completed_at, Some(3000));
}

#[test]
fn update_field_reports_missing_entry() {
    let mut history = History::new();
    let probe = entry(format!("{}/job1", BASE_URL), "Job1");
    assert!(history.update_field(&probe, Some(1)).is_err());
}

#[test]
fn merge_drops_stale_and_takes_new_default() {
    // A remembered parameter the schema no longer declares disappears, and a
    // newly declared parameter with a default comes in at that default.
    let mut params = ParamsMap::new();
    params.insert("OLD_PARAM".to_string(), "x".to_string(), ParamType::String);
    let mut item = entry(format!("{}/job1", BASE_URL), "Job1");
    item.params = Some(params);

    let schema = vec![schema_param("NEW_PARAM", Some(ParamType::String), Some("d"), None)];
    let merged = History::merge_parameters(&item, &schema);

    assert!(merged.get("OLD_PARAM").is_none());
    let new_binding = merged.get("NEW_PARAM").unwrap();
    assert_eq!(new_binding.0, "d");
    assert_eq!(new_binding.1, ParamType::String);
    assert_eq!(merged.len(), 1);
}

#[test]
fn merge_replaces_invalid_choice_with_default() {
    let mut params = ParamsMap::new();
    params.insert("APP_ENV".to_string(), "sit".to_string(), ParamType::Choice);
    let mut item = entry(format!("{}/job1", BASE_URL), "Job1");
    item.params = Some(params);

    let schema = vec![schema_param(
        "APP_ENV",
        Some(ParamType::Choice),
        Some("prod"),
        Some(vec!["uat", "prod"]),
    )];
    let merged = History::merge_parameters(&item, &schema);
    let binding = merged.get("APP_ENV").unwrap();
    assert_eq!(binding.0, "prod");
    assert_eq!(binding.1, ParamType::Choice);
}

#[test]
fn merge_replaces_invalid_choice_with_first_choice() {
    let mut params = ParamsMap::new();
    params.insert("APP_ENV".to_string(), "sit".to_string(), ParamType::Choice);
    let mut item = entry(format!("{}/job1", BASE_URL), "Job1");
    item.params = Some(params);

    let schema = vec![schema_param(
        "APP_ENV",
        Some(ParamType::Choice),
        None,
        Some(vec!["uat", "prod"]),
    )];
    let merged = History::merge_parameters(&item, &schema);
    let binding = merged.get("APP_ENV").unwrap();
    assert_eq!(binding.0, "uat");
    assert_eq!(binding.1, ParamType::Choice);
}

#[test]
fn merge_keeps_valid_values() {
    let mut params = ParamsMap::new();
    params.insert("APP_ENV".to_string(), "uat".to_string(), ParamType::Choice);
    params.insert("GIT_BRANCH".to_string(), "main".to_string(), ParamType::String);
    let mut item = entry(format!("{}/job1", BASE_URL), "Job1");
    item.params = Some(params);

    let schema = vec![
        schema_param("APP_ENV", Some(ParamType::Choice), None, Some(vec!["uat", "prod"])),
        schema_param("GIT_BRANCH", Some(ParamType::String), Some("master"), None),
    ];
    let merged = History::merge_parameters(&item, &schema);
    assert_eq!(merged.get("APP_ENV").unwrap().0, "uat");
    assert_eq!(merged.get("GIT_BRANCH").unwrap().0, "main");
}

#[test]
fn cleanup_removes_entries_of_vanished_jobs() {
    let mut history = History::new();
    history.entries = vec![
        entry(format!("{}/job1", BASE_URL), "Job1"),
        entry(format!("{}/job2", BASE_URL), "Job2"),
        entry("http://elsewhere.example/jobX".to_string(), "JobX"),
    ];
    let existing = vec!["Job1".to_string()];
    let removed = history.cleanup_obsolete_projects(&existing, BASE_URL);
    assert_eq!(removed, vec!["Job2".to_string()]);
    assert_eq!(history.entries.len(), 2);
    assert_eq!(history.entries[0].name, "Job1");
    assert_eq!(history.entries[1].name, "JobX");
}

#[test]
fn diff_reports_new_missing_and_invalid() {
    let mut params = ParamsMap::new();
    params.insert("GONE".to_string(), "1".to_string(), ParamType::String);
    params.insert("APP_ENV".to_string(), "sit".to_string(), ParamType::Choice);

    let schema = vec![
        schema_param("APP_ENV", Some(ParamType::Choice), None, Some(vec!["uat", "prod"])),
        schema_param("FRESH", Some(ParamType::String), Some("x"), None),
    ];
    let diff = jenkins::history::compute_param_diff(&params, &schema);
    assert_eq!(diff.new_params, vec!["FRESH".to_string()]);
    assert_eq!(diff.missing_params, vec!["GONE".to_string()]);
    assert_eq!(diff.invalid_choices, vec!["APP_ENV".to_string()]);
    assert!(jenkins::history::diff_has_changes(&diff));
    assert!(!jenkins::history::diff_default_answer(&diff));
}

#[test]
fn diff_without_changes_defaults_to_reuse() {
    let mut params = ParamsMap::new();
    params.insert("APP_ENV".to_string(), "uat".to_string(), ParamType::Choice);
    let schema = vec![schema_param(
        "APP_ENV",
        Some(ParamType::Choice),
        None,
        Some(vec!["uat", "prod"]),
    )];
    let diff = jenkins::history::compute_param_diff(&params, &schema);
    assert!(!jenkins::history::diff_has_changes(&diff));
    assert!(jenkins::history::diff_default_answer(&diff));
}
