//! The remote build client's decision logic: flattening the job tree,
//! resolving the build status from its three eventually-consistent sources,
//! preparing a trigger request, and the per-tick decisions of the queue and
//! build polling loops. The HTTP calls live outside; every function here is
//! a pure step from observed data to the next action.

use vstd::prelude::*;


verus! {

/// One node of the server's job tree.
#[derive(Debug)]
pub struct JenkinsJob {
    pub name: String,
    pub display_name: String,
    pub url: String,
    pub class_name: String,
    pub jobs: Option<Vec<JenkinsJob>>,
}

/// A flattened, buildable job: its folder-qualified name and data.
#[derive(Debug)]
pub struct FlatJob {
    pub name: String,
    pub display_name: String,
    pub url: String,
    pub class_name: String,
}

/// The job types an operator can build directly.
pub open spec fn is_buildable_class(c: Seq<char>) -> bool {
    c == "hudson.model.FreeStyleProject"@ || c
        == "org.jenkinsci.plugins.workflow.job.WorkflowJob"@
}

/// The folder type whose children are visited recursively.
pub open spec fn is_folder_class(c: Seq<char>) -> bool {
    c == "com.cloudbees.hudson.plugins.folder.Folder"@
}

/// The automatically-built job types that are skipped.
pub open spec fn is_auto_build_class(c: Seq<char>) -> bool {
    c == "jenkins.branch.OrganizationFolder"@ || c
        == "org.jenkinsci.plugins.workflow.multibranch.WorkflowMultiBranchProject"@
}

/// The flattened output of one job node: the spec-level shape of a
/// `FlatJob`, as (name, display name, url, class).
pub type FlatView = (Seq<char>, Seq<char>, Seq<char>, Seq<char>);

/// The spec-level views of a flattened job list.
pub open spec fn flat_views(s: Seq<FlatJob>) -> Seq<FlatView> {
    Seq::new(s.len(), |i: int| (s[i].name@, s[i].display_name@, s[i].url@, s[i].class_name@))
}

/// The folder-qualified name of a child: `prefix/name`, or plain `name` at
/// the top.
pub open spec fn qualified(prefix: Seq<char>, name: Seq<char>) -> Seq<char> {
    if prefix.len() == 0 {
        name
    } else {
        prefix + seq!['/'] + name
    }
}

/// The flattening of a job forest under a folder prefix, descending at most
/// `depth` folder levels: buildable nodes are emitted with their qualified
/// name, folders contribute only their children, auto-built and unknown
/// types contribute nothing.
pub open spec fn flatten_spec(jobs: Seq<JenkinsJob>, prefix: Seq<char>, depth: nat) -> Seq<
    FlatView,
>
    decreases depth, jobs.len(), 1int,
{
    if jobs.len() == 0 {
        Seq::empty()
    } else {
        flatten_one(jobs[0], prefix, depth) + flatten_spec(jobs.drop_first(), prefix, depth)
    }
}

pub open spec fn flatten_one(job: JenkinsJob, prefix: Seq<char>, depth: nat) -> Seq<FlatView>
    decreases depth, 0nat, 0int,
{
    if is_buildable_class(job.class_name@) {
        seq![
            (qualified(prefix, job.name@), job.display_name@, job.url@, job.class_name@),
        ]
    } else if is_folder_class(job.class_name@) {
        if depth > 0 {
            match job.jobs {
                Some(children) => flatten_spec(
                    children@,
                    qualified(prefix, job.name@),
                    (depth - 1) as nat,
                ),
                None => Seq::empty(),
            }
        } else {
            Seq::empty()
        }
    } else if is_auto_build_class(job.class_name@) {
        Seq::empty()
    } else {
        Seq::empty()
    }
}

/// Law: the flattened tree holds only buildable jobs — folder and
/// auto-built nodes never appear as entries themselves.
pub proof fn lemma_flatten_all_buildable(jobs: Seq<JenkinsJob>, prefix: Seq<char>, depth: nat)
    ensures
        forall|i: int|
            0 <= i < flatten_spec(jobs, prefix, depth).len() ==> is_buildable_class(
                (#[trigger] flatten_spec(jobs, prefix, depth)[i]).3,
            ),
    decreases depth, jobs.len(), 1int,
{
    if jobs.len() > 0 {
        lemma_flatten_one_buildable(jobs[0], prefix, depth);
        lemma_flatten_all_buildable(jobs.drop_first(), prefix, depth);
        let head = flatten_one(jobs[0], prefix, depth);
        let tail = flatten_spec(jobs.drop_first(), prefix, depth);
        assert forall|i: int|
            0 <= i < flatten_spec(jobs, prefix, depth).len() implies is_buildable_class(
            (#[trigger] flatten_spec(jobs, prefix, depth)[i]).3,
        ) by {
            if i < head.len() {
                assert(flatten_spec(jobs, prefix, depth)[i] == head[i]);
            } else {
                assert(flatten_spec(jobs, prefix, depth)[i] == tail[i - head.len()]);
            }
        }
    }
}

proof fn lemma_flatten_one_buildable(job: JenkinsJob, prefix: Seq<char>, depth: nat)
    ensures
        forall|i: int|
            0 <= i < flatten_one(job, prefix, depth).len() ==> is_buildable_class(
                (#[trigger] flatten_one(job, prefix, depth)[i]).3,
            ),
    decreases depth, 0nat, 0int,
{
    if is_buildable_class(job.class_name@) {
    } else if is_folder_class(job.class_name@) && depth > 0 {
        match job.jobs {
            Some(children) => {
                lemma_flatten_all_buildable(children@, qualified(prefix, job.name@), (depth
                    - 1) as nat);
                assert(flatten_one(job, prefix, depth) == flatten_spec(
                    children@,
                    qualified(prefix, job.name@),
                    (depth - 1) as nat,
                ));
            },
            None => {},
        }
    }
}

fn class_is_buildable(c: &str) -> (r: bool)
    ensures
        r == is_buildable_class(c@),
{
    crate::text::str_eq(c, "hudson.model.FreeStyleProject") || crate::text::str_eq(
        c,
        "org.jenkinsci.plugins.workflow.job.WorkflowJob",
    )
}

fn class_is_folder(c: &str) -> (r: bool)
    ensures
        r == is_folder_class(c@),
{
    crate::text::str_eq(c, "com.cloudbees.hudson.plugins.folder.Folder")
}

/// Flatten the job tree the server returned: exactly the buildable jobs,
/// each under its folder-qualified name, nothing for folders or auto-built
/// nodes, descending at most `depth` folder levels.
pub fn flatten_jobs(jobs: &Vec<JenkinsJob>, prefix: &str, depth: u32) -> (r: Vec<FlatJob>)
    ensures
        flat_views(r@) == flatten_spec(jobs@, prefix@, depth as nat),
    decreases depth, jobs@.len(),
{
    let ghost target = flatten_spec(jobs@, prefix@, depth as nat);
    let mut out: Vec<FlatJob> = Vec::new();
    let mut i: usize = 0;
    proof {
        assert(jobs@.skip(0) =~= jobs@);
        assert(flat_views(out@) + target =~= target);
    }
    while i < jobs.len()
        invariant
            i <= jobs@.len(),
            target == flatten_spec(jobs@, prefix@, depth as nat),
            target == flat_views(out@) + flatten_spec(jobs@.skip(i as int), prefix@, depth as nat),
        decreases jobs@.len() - i,
    {
        let ghost out0 = out@;
        proof {
            assert(jobs@.skip(i as int)[0] == jobs@[i as int]);
            assert(jobs@.skip(i as int).drop_first() =~= jobs@.skip(i as int + 1));
            assert(flatten_spec(jobs@.skip(i as int), prefix@, depth as nat) == flatten_one(
                jobs@[i as int],
                prefix@,
                depth as nat,
            ) + flatten_spec(jobs@.skip(i as int + 1), prefix@, depth as nat));
        }
        let job = &jobs[i];
        if class_is_buildable(job.class_name.as_str()) {
            let qualified_name: String = if prefix.unicode_len() == 0 {
                job.name.clone()
            } else {
                let mut qn = String::from_str(prefix);
                qn.append("/");
                qn.append(job.name.as_str());
                proof {
                    reveal_strlit("/");
                    assert("/"@ =~= seq!['/']);
                    assert(qn@ =~= qualified(prefix@, job.name@));
                }
                qn
            };
            out.push(
                FlatJob {
                    name: qualified_name,
                    display_name: job.display_name.clone(),
                    url: job.url.clone(),
                    class_name: job.class_name.clone(),
                },
            );
            proof {
                assert forall|a: int| 0 <= a < out@.len() implies flat_views(out@)[a] == (
                flat_views(out0) + flatten_one(jobs@[i as int], prefix@, depth as nat))[a] by {
                    if a < out0.len() {
                        assert(out@[a] == out0[a]);
                    } else {
                        assert(out@[a].name@ == qualified(prefix@, jobs@[i as int].name@));
                        assert(out@[a].display_name@ == jobs@[i as int].display_name@);
                        assert(out@[a].url@ == jobs@[i as int].url@);
                        assert(out@[a].class_name@ == jobs@[i as int].class_name@);
                    }
                }
                assert(flat_views(out@) =~= flat_views(out0) + flatten_one(
                    jobs@[i as int],
                    prefix@,
                    depth as nat,
                ));
                assert(flat_views(out@) + flatten_spec(jobs@.skip(i as int + 1), prefix@, depth as nat)
                    =~= target);
            }
        } else if class_is_folder(job.class_name.as_str()) && depth > 0 {
            match &job.jobs {
                Some(children) => {
                    let child_prefix: String = if prefix.unicode_len() == 0 {
                        job.name.clone()
                    } else {
                        let mut qn = String::from_str(prefix);
                        qn.append("/");
                        qn.append(job.name.as_str());
                        proof {
                            reveal_strlit("/");
                            assert("/"@ =~= seq!['/']);
                        }
                        qn
                    };
                    proof {
                        assert(child_prefix@ == qualified(prefix@, job.name@));
                    }
                    let sub = flatten_jobs(children, child_prefix.as_str(), depth - 1);
                    let ghost sub0 = sub@;
                    let ghost flat_children = flatten_one(jobs@[i as int], prefix@, depth as nat);
                    proof {
                        assert(flat_children == flatten_spec(
                            children@,
                            qualified(prefix@, job.name@),
                            (depth - 1) as nat,
                        ));
                        assert(flat_views(sub0) == flat_children);
                        assert(flat_views(out@) + flat_children.subrange(0, 0) =~= flat_views(
                            out@,
                        ));
                    }
                    let mut k: usize = 0;
                    while k < sub.len()
                        invariant
                            k <= sub@.len(),
                            sub@ == sub0,
                            flat_views(sub0) == flat_children,
                            flat_views(out@) == flat_views(out0) + flat_children.subrange(
                                0,
                                k as int,
                            ),
                        decreases sub@.len() - k,
                    {
                        let ghost mid = out@;
                        let item = FlatJob {
                            name: sub[k].name.clone(),
                            display_name: sub[k].display_name.clone(),
                            url: sub[k].url.clone(),
                            class_name: sub[k].class_name.clone(),
                        };
                        out.push(item);
                        proof {
                            assert(flat_children.len() == sub0.len());
                            assert(flat_views(mid).len() == mid.len());
                            assert(mid.len() == out0.len() + k);
                            assert(out@.len() == mid.len() + 1);
                            assert forall|a: int| 0 <= a < out@.len() implies flat_views(out@)[a]
                                == (flat_views(out0) + flat_children.subrange(0, k as int + 1))[a] by {
                                if a < mid.len() {
                                    assert(out@[a] == mid[a]);
                                    assert(flat_views(mid)[a] == (flat_views(out0)
                                        + flat_children.subrange(0, k as int))[a]);
                                } else {
                                    assert(out@[a].name@ == sub0[k as int].name@);
                                    assert(out@[a].display_name@ == sub0[k as int].display_name@);
                                    assert(out@[a].url@ == sub0[k as int].url@);
                                    assert(out@[a].class_name@ == sub0[k as int].class_name@);
                                    assert(flat_views(sub0)[k as int] == flat_children[k as int]);
                                }
                            }
                            assert(flat_views(out@) =~= flat_views(out0) + flat_children.subrange(
                                0,
                                k as int + 1,
                            ));
                        }
                        k = k + 1;
                    }
                    proof {
                        assert(flat_children.subrange(0, flat_children.len() as int)
                            =~= flat_children);
                        assert(flat_views(out@) + flatten_spec(
                            jobs@.skip(i as int + 1),
                            prefix@,
                            depth as nat,
                        ) =~= target);
                    }
                },
                None => {
                    proof {
                        assert(flatten_one(jobs@[i as int], prefix@, depth as nat) =~= Seq::<
                            FlatView,
                        >::empty());
                        assert(flat_views(out@) + flatten_spec(
                            jobs@.skip(i as int + 1),
                            prefix@,
                            depth as nat,
                        ) =~= target);
                    }
                },
            }
        } else {
            proof {
                assert(flatten_one(jobs@[i as int], prefix@, depth as nat) =~= Seq::<
                    FlatView,
                >::empty());
                assert(flat_views(out@) + flatten_spec(
                    jobs@.skip(i as int + 1),
                    prefix@,
                    depth as nat,
                ) =~= target);
            }
        }
        i = i + 1;
    }
    proof {
        assert(jobs@.skip(jobs@.len() as int) =~= Seq::<JenkinsJob>::empty());
        assert(flat_views(out@) + Seq::<FlatView>::empty() =~= flat_views(out@));
    }
    out
}

/// One snapshot of a job's build state, as the cancel flow consumes it.
#[derive(Copy, Clone, PartialEq, Eq, Structural, Debug)]
pub struct BuildStatus {
    pub building: bool,
    pub id: Option<u32>,
    pub last_build: Option<u32>,
    pub last_completed: Option<u32>,
    pub in_queue: bool,
}

/// What the tree query (`inQueue`, `lastBuild`, `lastCompletedBuild`)
/// decides on its own: when the last build number is ahead of the last
/// completed one, a build is running, whatever the slower endpoints say.
pub fn status_from_tree(last_build: Option<u32>, last_completed: Option<u32>, in_queue: bool)
    -> (r: Option<BuildStatus>)
    ensures
        r is Some <==> (last_build is Some && last_completed is Some
            && last_build.unwrap() > last_completed.unwrap()),
        r is Some ==> r.unwrap() == (BuildStatus {
            building: true,
            id: last_build,
            last_build,
            last_completed,
            in_queue,
        }),
{
    match (last_build, last_completed) {
        (Some(last), Some(completed)) => {
            if last > completed {
                Some(
                    BuildStatus {
                        building: true,
                        id: Some(last),
                        last_build,
                        last_completed,
                        in_queue,
                    },
                )
            } else {
                None
            }
        },
        _ => None,
    }
}

/// Resolve the build status from the three eventually-consistent sources:
/// the tree query decides first; otherwise the last-build endpoint; and
/// when that still looks idle and nothing is queued, a scan of the recent
/// builds list catches a build that is running but not yet the last one.
/// The tree result wins even when the last-build endpoint still reports an
/// idle build — that endpoint lags right after a trigger.
pub fn resolve_build_status(
    last_build: Option<u32>,
    last_completed: Option<u32>,
    in_queue: bool,
    lb_building: bool,
    lb_number: Option<u32>,
    builds: &Vec<(u32, bool)>,
) -> (r: BuildStatus)
    ensures
        last_build is Some && last_completed is Some && last_build.unwrap()
            > last_completed.unwrap() ==> r == (BuildStatus {
            building: true,
            id: last_build,
            last_build,
            last_completed,
            in_queue,
        }),
        !(last_build is Some && last_completed is Some && last_build.unwrap()
            > last_completed.unwrap()) ==> {
            if !lb_building && !in_queue && (exists|i: int|
                0 <= i < builds@.len() && (#[trigger] builds@[i]).1) {
                r == (BuildStatus {
                    building: true,
                    id: Some(builds@[first_running(builds@)].0),
                    last_build,
                    last_completed,
                    in_queue,
                })
            } else {
                r == (BuildStatus {
                    building: lb_building,
                    id: lb_number,
                    last_build,
                    last_completed,
                    in_queue,
                })
            }
        },
{
    match status_from_tree(last_build, last_completed, in_queue) {
        Some(st) => st,
        None => {
            if !lb_building && !in_queue {
                let mut i: usize = 0;
                while i < builds.len()
                    invariant
                        i <= builds@.len(),
                        !lb_building,
                        !in_queue,
                        !(last_build is Some && last_completed is Some && last_build.unwrap()
                            > last_completed.unwrap()),
                        forall|k: int| 0 <= k < i ==> !(#[trigger] builds@[k]).1,
                    decreases builds@.len() - i,
                {
                    if builds[i].1 {
                        proof {
                            lemma_first_running_at(builds@, i as int);
                            assert((builds@[i as int]).1);
                        }
                        return BuildStatus {
                            building: true,
                            id: Some(builds[i].0),
                            last_build,
                            last_completed,
                            in_queue,
                        };
                    }
                    i = i + 1;
                }
                proof {
                    assert(forall|k: int| 0 <= k < builds@.len() ==> !(#[trigger] builds@[k]).1);
                }
            }
            BuildStatus { building: lb_building, id: lb_number, last_build, last_completed, in_queue }
        },
    }
}

/// Index of the first running entry of the recent-builds list.
pub open spec fn first_running(builds: Seq<(u32, bool)>) -> int
    decreases builds.len(),
{
    if builds.len() == 0 {
        0
    } else if builds[0].1 {
        0
    } else {
        1 + first_running(builds.drop_first())
    }
}

proof fn lemma_first_running_at(builds: Seq<(u32, bool)>, i: int)
    requires
        0 <= i < builds.len(),
        builds[i].1,
        forall|k: int| 0 <= k < i ==> !(#[trigger] builds[k]).1,
    ensures
        first_running(builds) == i,
    decreases builds.len(),
{
    if i > 0 {
        assert(forall|k: int|
            0 <= k < builds.drop_first().len() ==> #[trigger] builds.drop_first()[k] == builds[k
                + 1]);
        lemma_first_running_at(builds.drop_first(), i - 1);
    }
}

/// The parameters a trigger actually sends: entries whose value is the
/// keep-the-default sentinel are dropped, and only the values travel.
pub open spec fn trigger_form(
    entries: Seq<(Seq<char>, crate::history::ParamBinding)>,
) -> Seq<(Seq<char>, Seq<char>)>
    decreases entries.len(),
{
    if entries.len() == 0 {
        Seq::empty()
    } else {
        let rest = trigger_form(entries.drop_first());
        if entries[0].1.0 == "<DEFAULT>"@ {
            rest
        } else {
            seq![(entries[0].0, entries[0].1.0)] + rest
        }
    }
}

/// Prepare a trigger: the form fields to send, with sentinel-valued
/// password entries dropped; the endpoint is `build` when no field
/// remains and `buildWithParameters` otherwise.
pub fn prepare_trigger(parameters: &crate::history::ParamsMap) -> (r: (Vec<(String, String)>, bool))
    ensures
        Seq::new(r.0@.len(), |i: int| ((#[trigger] r.0@[i]).0@, r.0@[i].1@)) == trigger_form(
            parameters.entries_seq(),
        ),
        r.1 == (trigger_form(parameters.entries_seq()).len() > 0),
{
    let ghost es = parameters.entries_seq();
    let mut form: Vec<(String, String)> = Vec::new();
    let mut i: usize = 0;
    proof {
        assert(es.skip(0) =~= es);
        assert(Seq::new(form@.len(), |k: int| ((#[trigger] form@[k]).0@, form@[k].1@))
            + trigger_form(es) =~= trigger_form(es));
    }
    while i < parameters.entries.len()
        invariant
            i <= parameters.entries@.len(),
            es == parameters.entries_seq(),
            trigger_form(es) == Seq::new(
                form@.len(),
                |k: int| ((#[trigger] form@[k]).0@, form@[k].1@),
            ) + trigger_form(es.skip(i as int)),
        decreases parameters.entries@.len() - i,
    {
        let ghost f0 = Seq::new(form@.len(), |k: int| ((#[trigger] form@[k]).0@, form@[k].1@));
        proof {
            assert(es.skip(i as int)[0] == es[i as int]);
            assert(es.skip(i as int).drop_first() =~= es.skip(i as int + 1));
        }
        if !crate::text::str_eq(
            parameters.entries[i].1.value.as_str(),
            crate::params::default_param_value(),
        ) {
            form.push(
                (parameters.entries[i].0.clone(), parameters.entries[i].1.value.clone()),
            );
            proof {
                assert(Seq::new(form@.len(), |k: int| ((#[trigger] form@[k]).0@, form@[k].1@))
                    =~= f0.push((es[i as int].0, es[i as int].1.0)));
                assert(f0.push((es[i as int].0, es[i as int].1.0)) + trigger_form(
                    es.skip(i as int + 1),
                ) =~= f0 + (seq![(es[i as int].0, es[i as int].1.0)] + trigger_form(
                    es.skip(i as int + 1),
                )));
            }
        }
        i = i + 1;
    }
    proof {
        assert(es.skip(es.len() as int) =~= Seq::<(Seq<char>, crate::history::ParamBinding)>::empty());
        assert(Seq::new(form@.len(), |k: int| ((#[trigger] form@[k]).0@, form@[k].1@)) + Seq::<
            (Seq<char>, Seq<char>),
        >::empty() =~= Seq::new(form@.len(), |k: int| ((#[trigger] form@[k]).0@, form@[k].1@)));
    }
    let with_params = form.len() > 0;
    (form, with_params)
}

/// The trigger's outcome is read from the response's `Location` header: its
/// absence is a hard error, since nothing else identifies the queue item.
pub fn queue_location_from(location_header: Option<String>) -> (r: Result<String, ClientError>)
    ensures
        r is Ok <==> location_header is Some,
        r is Ok ==> r.unwrap()@ == location_header.unwrap()@,
        r is Err ==> r.unwrap_err() == ClientError::MissingLocationHeader,
{
    match location_header {
        Some(l) => Ok(l),
        None => Err(ClientError::MissingLocationHeader),
    }
}

/// The errors the client's decision logic itself reports.
#[derive(Copy, Clone, PartialEq, Eq, Structural, Debug)]
pub enum ClientError {
    MissingLocationHeader,
}

/// The character of one decimal digit.
pub open spec fn digit_text(d: nat) -> char {
    ((d + 48) as u8) as char
}

/// The decimal text of a number, most significant digit first.
pub open spec fn decimal_text(n: nat) -> Seq<char>
    decreases n,
{
    if n < 10 {
        seq![digit_text(n)]
    } else {
        decimal_text(n / 10) + seq![digit_text(n % 10)]
    }
}

/// Render a build number in decimal.
pub fn u64_to_decimal(n: u64) -> (r: String)
    ensures
        r@ == decimal_text(n as nat),
{
    if n < 10 {
        let d = ((48 + n) as u8) as char;
        let mut v: Vec<char> = Vec::new();
        v.push(d);
        proof {
            assert(v@ =~= decimal_text(n as nat));
        }
        return crate::text::string_from_chars(&v);
    }
    let mut rem = n;
    let mut acc: Vec<char> = Vec::new();
    proof {
        assert(acc@.reverse() =~= Seq::<char>::empty());
        assert(decimal_text(n as nat) + Seq::<char>::empty() =~= decimal_text(n as nat));
    }
    while rem > 0
        invariant
            rem > 0 ==> decimal_text(n as nat) == decimal_text(rem as nat) + acc@.reverse(),
            rem == 0 ==> decimal_text(n as nat) == acc@.reverse(),
        decreases rem,
    {
        let ghost acc0 = acc@;
        let d = rem % 10;
        let c = ((48 + d) as u8) as char;
        acc.push(c);
        proof {
            assert(c == digit_text((rem % 10) as nat));
            assert(acc@.reverse() =~= seq![c] + acc0.reverse());
            if rem >= 10 {
                assert(decimal_text(rem as nat) == decimal_text((rem / 10) as nat) + seq![
                    digit_text((rem % 10) as nat),
                ]);
                assert(decimal_text((rem / 10) as nat) + (seq![c] + acc0.reverse())
                    =~= decimal_text(rem as nat) + acc0.reverse());
            } else {
                assert(decimal_text(rem as nat) =~= seq![c]);
                assert(seq![c] + acc0.reverse() =~= decimal_text(rem as nat) + acc0.reverse());
            }
            assert(rem / 10 < rem) by (nonlinear_arith)
                requires
                    rem >= 1,
            ;
        }
        rem = rem / 10;
    }
    let mut out: Vec<char> = Vec::new();
    let mut i: usize = acc.len();
    while i > 0
        invariant
            i <= acc@.len(),
            out@ == acc@.subrange(i as int, acc@.len() as int).reverse(),
        decreases i,
    {
        i = i - 1;
        out.push(acc[i]);
        proof {
            assert(out@ =~= acc@.subrange(i as int, acc@.len() as int).reverse());
        }
    }
    proof {
        assert(acc@.subrange(0, acc@.len() as int) =~= acc@);
        assert(out@ =~= decimal_text(n as nat));
    }
    crate::text::string_from_chars(&out)
}

/// The numbered build URL a finished queue item denotes: the job URL, a
/// slash and the executable's number, normalized.
pub fn queue_build_url(job_url: &str, number: u64) -> (r: String)
    ensures
        r@ == crate::urls::format_url_spec(job_url@ + seq!['/'] + decimal_text(number as nat)),
{
    let mut raw = String::from_str(job_url);
    raw.append("/");
    let digits = u64_to_decimal(number);
    raw.append(digits.as_str());
    proof {
        reveal_strlit("/");
        assert("/"@ =~= seq!['/']);
        assert(raw@ =~= job_url@ + seq!['/'] + decimal_text(number as nat));
    }
    crate::urls::format_url(raw.as_str())
}

/// What one control event means for a poll loop: pause and resume toggle
/// the cosmetic spinner only; a cancel event (or a closed channel, handed
/// in as `None`) aborts the poll with the distinct cancelled error.
#[derive(Copy, Clone, PartialEq, Eq, Structural, Debug)]
pub enum PollControl {
    Pause,
    Resume,
    Abort,
}

pub fn poll_control_for(event: Option<crate::interrupts::Event>) -> (r: PollControl)
    ensures
        event == Some(crate::interrupts::Event::StopSpinner) ==> r == PollControl::Pause,
        event == Some(crate::interrupts::Event::ResumeSpinner) ==> r == PollControl::Resume,
        event == Some(crate::interrupts::Event::CancelPolling) || event is None ==> r
            == PollControl::Abort,
{
    match event {
        Some(crate::interrupts::Event::StopSpinner) => PollControl::Pause,
        Some(crate::interrupts::Event::ResumeSpinner) => PollControl::Resume,
        Some(crate::interrupts::Event::CancelPolling) => PollControl::Abort,
        None => PollControl::Abort,
    }
}

/// One tick of the build poll, given the build's `building` flag and its
/// `result` text: still building keeps polling; otherwise the poll ends,
/// successfully exactly when the result text is `SUCCESS`.
#[derive(PartialEq, Eq, Structural, Debug)]
pub enum BuildPollStep {
    Continue,
    Done(bool),
}

pub fn build_poll_step(building: bool, result: Option<&str>) -> (r: BuildPollStep)
    ensures
        building ==> r == BuildPollStep::Continue,
        !building ==> r == BuildPollStep::Done(
            result is Some && result.unwrap()@ == "SUCCESS"@,
        ),
{
    if building {
        BuildPollStep::Continue
    } else {
        match result {
            Some(t) => BuildPollStep::Done(crate::text::str_eq(t, "SUCCESS")),
            None => BuildPollStep::Done(false),
        }
    }
}

/// The next progressive-log offset: the size the server echoed back in
/// `X-Text-Size`, or the old offset when the header is absent or unreadable.
pub fn next_log_offset(reported: Option<usize>, start: usize) -> (r: usize)
    ensures
        r == match reported {
            Some(n) => n,
            None => start,
        },
{
    match reported {
        Some(n) => n,
        None => start,
    }
}

/// The `tree` query parameter for a job listing of the given depth: nested
/// `jobs[...]` levels around the listed fields.
pub open spec fn tree_param_spec(depth: nat) -> Seq<char>
    decreases depth,
{
    if depth == 0 {
        "jobs["@ + "name,displayName,url,_class"@ + "]"@
    } else {
        "jobs["@ + "name,displayName,url,_class"@ + ","@ + tree_param_spec((depth - 1) as nat)
            + "]"@
    }
}

/// Build the `tree` query parameter for the job listing.
pub fn generate_tree_param(depth: u32) -> (r: String)
    ensures
        r@ == tree_param_spec(depth as nat),
    decreases depth,
{
    let mut s = String::from_str("jobs[");
    s.append("name,displayName,url,_class");
    if depth == 0 {
        s.append("]");
        proof {
            assert(s@ =~= tree_param_spec(0));
        }
        s
    } else {
        s.append(",");
        let inner = generate_tree_param(depth - 1);
        s.append(inner.as_str());
        s.append("]");
        proof {
            assert(s@ =~= tree_param_spec(depth as nat));
        }
        s
    }
}

} // verus!
