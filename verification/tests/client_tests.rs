use jenkins::client::{
    build_poll_step, flatten_jobs, generate_tree_param, next_log_offset, poll_control_for,
    prepare_trigger, queue_build_url, queue_location_from, resolve_build_status, u64_to_decimal,
    BuildPollStep, ClientError, JenkinsJob, PollControl,
};
use jenkins::history::ParamsMap;
use jenkins::interrupts::Event;
use jenkins::params::ParamType;
use jenkins::retry::{classify_status, outcome_message, HttpOutcome};
use jenkins::urls::{format_url, simplify_url};

fn leaf(name: &str, class_name: &str) -> JenkinsJob {
    JenkinsJob {
        name: name.to_string(),
        display_name: format!("{} display", name),
        url: format!("http://example.com/job/{}", name),
        class_name: class_name.to_string(),
        jobs: None,
    }
}

fn folder(name: &str, children: Vec<JenkinsJob>) -> JenkinsJob {
    JenkinsJob {
        name: name.to_string(),
        display_name: format!("{} display", name),
        url: format!("http://example.com/job/{}", name),
        class_name: "com.cloudbees.hudson.plugins.folder.Folder".to_string(),
        jobs: Some(children),
    }
}

#[test]
fn flatten_keeps_exactly_the_buildable_jobs() {
    // Folders, auto-build types and buildable types arbitrarily nested: the
    // output holds exactly the buildable jobs under folder-qualified names,
    // and no entry for a folder or auto-build node itself.
    let tree = vec![
        leaf("top", "hudson.model.FreeStyleProject"),
        folder(
            "grp",
            vec![
                leaf("inner", "org.jenkinsci.plugins.workflow.job.WorkflowJob"),
                leaf("auto", "jenkins.branch.OrganizationFolder"),
                folder("deep", vec![leaf("leafjob", "hudson.model.FreeStyleProject")]),
            ],
        ),
        leaf(
            "multi",
            "org.jenkinsci.plugins.workflow.multibranch.WorkflowMultiBranchProject",
        ),
        leaf("odd", "some.unknown.Type"),
    ];
    let flat = flatten_jobs(&tree, "", 5);
    let names: Vec<&str> = flat.iter().map(|j| j.name.as_str()).collect();
    assert_eq!(names, vec!["top", "grp/inner", "grp/deep/leafjob"]);
    for job in &flat {
        assert!(
            job.class_name == "hudson.model.FreeStyleProject"
                || job.class_name == "org.jenkinsci.plugins.workflow.job.WorkflowJob"
        );
    }
}

#[test]
fn flatten_respects_depth() {
    let tree = vec![folder("grp", vec![leaf("inner", "hudson.model.FreeStyleProject")])];
    let flat = flatten_jobs(&tree, "", 0);
    assert!(flat.is_empty());
}

#[test]
fn stale_last_build_still_counts_as_running() {
    // lastBuild.number ahead of lastCompletedBuild.number must read as
    // running, even though the slower endpoint still reports building=false.
    let status = resolve_build_status(Some(12), Some(11), false, false, Some(11), &vec![]);
    assert!(status.building);
    assert_eq!(status.id, Some(12));
}

#[test]
fn idle_job_scans_recent_builds() {
    // Tiers one and two look idle, but the recent-builds list holds a
    // running build: it is reported.
    let builds = vec![(9u32, false), (8u32, true), (7u32, false)];
    let status = resolve_build_status(Some(9), Some(9), false, false, Some(9), &builds);
    assert!(status.building);
    assert_eq!(status.id, Some(8));
}

#[test]
fn fully_idle_job_reports_last_build() {
    let status = resolve_build_status(Some(9), Some(9), false, false, Some(9), &vec![]);
    assert!(!status.building);
    assert_eq!(status.id, Some(9));
}

#[test]
fn trigger_drops_sentinel_values() {
    let mut params = ParamsMap::new();
    params.insert("GIT_BRANCH".to_string(), "main".to_string(), ParamType::String);
    params.insert("PASSWORD".to_string(), "<DEFAULT>".to_string(), ParamType::Password);
    let (form, with_params) = prepare_trigger(&params);
    assert!(with_params);
    assert_eq!(form.len(), 1);
    assert_eq!(form[0].0, "GIT_BRANCH");
    assert_eq!(form[0].1, "main");

    let mut only_default = ParamsMap::new();
    only_default.insert("PASSWORD".to_string(), "<DEFAULT>".to_string(), ParamType::Password);
    let (form, with_params) = prepare_trigger(&only_default);
    assert!(form.is_empty());
    assert!(!with_params);
}

#[test]
fn missing_location_header_is_a_hard_error() {
    assert_eq!(
        queue_location_from(None),
        Err(ClientError::MissingLocationHeader)
    );
    assert_eq!(
        queue_location_from(Some("http://example.com/queue/item/1/".to_string())),
        Ok("http://example.com/queue/item/1/".to_string())
    );
}

#[test]
fn poll_control_semantics() {
    assert_eq!(poll_control_for(Some(Event::StopSpinner)), PollControl::Pause);
    assert_eq!(poll_control_for(Some(Event::ResumeSpinner)), PollControl::Resume);
    assert_eq!(poll_control_for(Some(Event::CancelPolling)), PollControl::Abort);
    assert_eq!(poll_control_for(None), PollControl::Abort);
}

#[test]
fn build_poll_ends_on_result() {
    assert_eq!(build_poll_step(true, None), BuildPollStep::Continue);
    assert_eq!(build_poll_step(false, Some("SUCCESS")), BuildPollStep::Done(true));
    assert_eq!(build_poll_step(false, Some("FAILURE")), BuildPollStep::Done(false));
    assert_eq!(build_poll_step(false, None), BuildPollStep::Done(false));
}

#[test]
fn progressive_log_offset_follows_reported_size() {
    assert_eq!(next_log_offset(Some(2048), 100), 2048);
    assert_eq!(next_log_offset(None, 100), 100);
}

#[test]
fn tree_param_nests_to_depth() {
    assert_eq!(generate_tree_param(0), "jobs[name,displayName,url,_class]");
    assert_eq!(
        generate_tree_param(1),
        "jobs[name,displayName,url,_class,jobs[name,displayName,url,_class]]"
    );
}

#[test]
fn format_url_collapses_path_slashes() {
    assert_eq!(
        format_url("http://example.com//job//x"),
        "http://example.com/job/x"
    );
    assert_eq!(
        format_url("http://example.com/job/x//api/json?tree=a//b"),
        "http://example.com/job/x/api/json?tree=a//b"
    );
    assert_eq!(format_url("no scheme //here"), "no scheme //here");
}

#[test]
fn simplify_url_strips_scheme_and_trailing_slash() {
    assert_eq!(simplify_url("http://example.com/"), "example.com");
    assert_eq!(simplify_url("https://example.com"), "example.com");
    assert_eq!(simplify_url("example.com//"), "example.com");
}

#[test]
fn build_numbers_render_in_decimal() {
    assert_eq!(u64_to_decimal(0), "0");
    assert_eq!(u64_to_decimal(7), "7");
    assert_eq!(u64_to_decimal(3041), "3041");
    assert_eq!(
        queue_build_url("http://example.com/job/x/", 12),
        "http://example.com/job/x/12"
    );
}

#[test]
fn status_codes_classify_exactly() {
    assert_eq!(classify_status(200), HttpOutcome::Success);
    assert_eq!(classify_status(204), HttpOutcome::Success);
    assert_eq!(classify_status(401), HttpOutcome::Unauthorized);
    assert_eq!(classify_status(403), HttpOutcome::Forbidden);
    assert_eq!(classify_status(404), HttpOutcome::NotFound);
    assert_eq!(classify_status(500), HttpOutcome::OtherFailure);
    assert_eq!(
        outcome_message(HttpOutcome::Forbidden),
        "Forbidden (403): insufficient permissions."
    );
    assert_eq!(
        outcome_message(HttpOutcome::Unauthorized),
        "Unauthorized (401): check the credentials."
    );
}
