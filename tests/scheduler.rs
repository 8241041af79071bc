use std::collections::VecDeque;

use install_scheduler::install::{
    cask_batch_result, cask_steps, exit_code, install_step, run_result, CaskStep, ErrKind, Install,
    ResolveError, CASK_CHILD_PARALLELISM, DEFAULT_MAX_CONCURRENT,
};
use install_scheduler::plan::{
    build_scheduler, edge_is_effective, DepEdge, DepTags, PackageKind, PackageSpec, PlanError,
    PlanOptions, ResolutionStatus,
};
use install_scheduler::schedule::{Action, Node, NodeState, Scheduler, TaskError};

fn tags() -> DepTags {
    DepTags { required: true, recommended: false, optional: false, test: false, build: false }
}

fn spec_with(name: &str, deps: Vec<DepEdge>, installed: bool) -> PackageSpec {
    PackageSpec {
        name: name.to_string(),
        kind: PackageKind::Bottle,
        deps,
        status: if installed { ResolutionStatus::Installed } else { ResolutionStatus::Missing },
    }
}

fn spec(name: &str, deps: &[&str]) -> PackageSpec {
    let edges = deps.iter().map(|d| DepEdge { name: d.to_string(), tags: tags() }).collect();
    spec_with(name, edges, false)
}

fn opts() -> PlanOptions {
    PlanOptions { include_optional: false, skip_recommended: false }
}

fn build(plan: &Vec<PackageSpec>, p: usize) -> Scheduler {
    match build_scheduler(plan, &opts(), p) {
        Ok(s) => s,
        Err(_) => panic!("plan should be consistent"),
    }
}

fn id_of(s: &Scheduler, name: &str) -> usize {
    s.nodes.iter().position(|n| n.name == name).unwrap()
}

fn state_of(s: &Scheduler, name: &str) -> String {
    match &s.states[id_of(s, name)] {
        NodeState::Pending => "pending".to_string(),
        NodeState::Ready => "ready".to_string(),
        NodeState::Running => "running".to_string(),
        NodeState::Succeeded(p) => format!("ok:{}", p),
        NodeState::Failed(m) => format!("failed:{}", m),
    }
}

fn running_count(s: &Scheduler) -> usize {
    s.states.iter().filter(|st| matches!(st, NodeState::Running)).count()
}

fn check_succeeded_prereqs(s: &Scheduler) {
    for (k, st) in s.states.iter().enumerate() {
        if let NodeState::Succeeded(_) = st {
            for &p in &s.nodes[k].prereqs {
                assert!(matches!(s.states[p], NodeState::Succeeded(_)));
            }
        }
    }
}

struct Trace {
    spawned: Vec<String>,
    completed: Vec<String>,
    peak: usize,
    stalled: bool,
}

/// Drives the scheduler to the end; running tasks complete in spawn order;
/// `fail` names the nodes whose task fails, with the kind and reason.
fn drive(s: &mut Scheduler, fail: &[(&str, ErrKind, &str)]) -> Trace {
    let mut running: VecDeque<usize> = VecDeque::new();
    let mut t = Trace { spawned: vec![], completed: vec![], peak: 0, stalled: false };
    loop {
        match s.next_action() {
            Action::Spawn(id) => {
                running.push_back(id);
                t.spawned.push(s.nodes[id].name.clone());
                t.peak = t.peak.max(s.in_flight);
                assert!(running_count(s) <= s.max_concurrent);
                assert_eq!(running_count(s), s.in_flight);
            }
            Action::AwaitCompletion => {
                let id = running.pop_front().unwrap();
                let name = s.nodes[id].name.clone();
                let outcome = match fail.iter().find(|(n, _, _)| *n == name) {
                    Some((_, kind, why)) => Err(TaskError { kind: *kind, message: why.to_string() }),
                    None => Ok(format!("/opt/{}", name)),
                };
                s.process_task_outcome(id, outcome);
                t.completed.push(name);
                check_succeeded_prereqs(s);
            }
            Action::Finished => {
                for st in &s.states {
                    assert!(matches!(st, NodeState::Succeeded(_) | NodeState::Failed(_)));
                }
                return t;
            }
            Action::Stalled => {
                t.stalled = true;
                return t;
            }
        }
    }
}

fn diamond() -> Vec<PackageSpec> {
    vec![spec("D", &[]), spec("B", &["D"]), spec("C", &["D"]), spec("A", &["B", "C"])]
}

#[test]
fn empty_plan_succeeds_without_tasks() {
    let plan: Vec<PackageSpec> = vec![];
    let mut s = build(&plan, 4);
    let t = drive(&mut s, &[]);
    assert!(t.spawned.is_empty());
    assert!(!t.stalled);
    assert_eq!(run_result(&s.report()), Ok(()));
}

#[test]
fn single_root_without_deps() {
    let plan = vec![spec("solo", &[])];
    let mut s = build(&plan, 4);
    assert_eq!(state_of(&s, "solo"), "ready");
    let t = drive(&mut s, &[]);
    assert_eq!(t.completed, vec!["solo"]);
    assert_eq!(state_of(&s, "solo"), "ok:/opt/solo");
    assert_eq!(run_result(&s.report()), Ok(()));
}

#[test]
fn one_permit_serialises_all_work() {
    let plan = vec![spec("x", &[]), spec("y", &[]), spec("z", &["x"]), spec("w", &[])];
    let mut s = build(&plan, 1);
    let t = drive(&mut s, &[]);
    assert_eq!(t.peak, 1);
    assert_eq!(t.completed.len(), 4);
}

#[test]
fn diamond_success() {
    let plan = diamond();
    let mut s = build(&plan, 2);
    let t = drive(&mut s, &[]);
    assert_eq!(t.completed.len(), 4);
    assert_eq!(t.completed[0], "D");
    assert_eq!(t.completed[3], "A");
    assert_eq!(t.peak, 2);
    assert_eq!(t.spawned.iter().filter(|n| *n == "D").count(), 1);
    let report = s.report();
    assert_eq!(report.succeeded.len(), 4);
    assert!(report.failed.is_empty());
}

#[test]
fn leaf_failure_cascade() {
    let plan = diamond();
    let mut s = build(&plan, 2);
    let t = drive(&mut s, &[("D", ErrKind::FetchError, "fetch 404")]);
    assert!(!t.stalled);
    assert_eq!(t.spawned, vec!["D"]);
    assert_eq!(state_of(&s, "D"), "failed:fetch 404");
    assert_eq!(state_of(&s, "B"), "failed:dependency 'D' failed: fetch 404");
    assert_eq!(state_of(&s, "C"), "failed:dependency 'D' failed: fetch 404");
    assert_eq!(
        state_of(&s, "A"),
        "failed:dependency 'B' failed: dependency 'D' failed: fetch 404"
    );
    let report = s.report();
    assert_eq!(report.failed.len(), 4);
    let r = run_result(&report);
    assert_eq!(r, Err(ErrKind::FetchError));
    assert_eq!(exit_code(r.unwrap_err()), 3);
}

#[test]
fn partial_success() {
    let plan = vec![spec("X", &[]), spec("Y", &[]), spec("Z", &["Y"])];
    let mut s = build(&plan, 2);
    drive(&mut s, &[("Y", ErrKind::InstallError, "boom")]);
    assert_eq!(state_of(&s, "X"), "ok:/opt/X");
    assert_eq!(state_of(&s, "Y"), "failed:boom");
    assert_eq!(state_of(&s, "Z"), "failed:dependency 'Y' failed: boom");
    let report = s.report();
    assert_eq!(report.succeeded.len(), 1);
    assert_eq!(report.failed.len(), 2);
    assert!(run_result(&report).is_err());
}

#[test]
fn failing_leaf_fails_exactly_its_ancestors() {
    let plan = vec![spec("D", &[]), spec("B", &["D"]), spec("C", &[]), spec("A", &["B"])];
    let mut s = build(&plan, 4);
    drive(&mut s, &[("D", ErrKind::InstallError, "bad bottle")]);
    assert!(state_of(&s, "D").starts_with("failed:"));
    assert!(state_of(&s, "B").starts_with("failed:"));
    assert!(state_of(&s, "A").starts_with("failed:"));
    assert_eq!(state_of(&s, "C"), "ok:/opt/C");
}

#[test]
fn failing_root_leaves_others_untouched() {
    let plan = vec![spec("lib", &[]), spec("app", &["lib"]), spec("other", &[])];
    let mut s = build(&plan, 4);
    drive(&mut s, &[("app", ErrKind::InstallError, "link error")]);
    assert_eq!(state_of(&s, "app"), "failed:link error");
    assert_eq!(state_of(&s, "lib"), "ok:/opt/lib");
    assert_eq!(state_of(&s, "other"), "ok:/opt/other");
    assert_eq!(s.report().failed.len(), 1);
}

#[test]
fn cascade_reaches_every_transitive_dependent() {
    let plan = vec![
        spec("a", &[]),
        spec("b", &["a"]),
        spec("c", &["b"]),
        spec("d", &["c"]),
        spec("e", &["d", "a"]),
    ];
    let mut s = build(&plan, 3);
    let t = drive(&mut s, &[("a", ErrKind::FetchError, "x")]);
    assert!(!t.stalled);
    assert_eq!(state_of(&s, "d"), "failed:dependency 'c' failed: dependency 'b' failed: dependency 'a' failed: x");
    assert!(state_of(&s, "e").starts_with("failed:dependency '"));
    assert_eq!(t.spawned, vec!["a"]);
}

#[test]
fn single_permit_run_is_deterministic_and_topological() {
    let plan = vec![
        spec("app", &["lib", "util"]),
        spec("util", &["base"]),
        spec("lib", &["base"]),
        spec("base", &[]),
        spec("tool", &[]),
    ];
    let mut s1 = build(&plan, 1);
    let t1 = drive(&mut s1, &[]);
    let mut s2 = build(&plan, 1);
    let t2 = drive(&mut s2, &[]);
    assert_eq!(t1.completed, t2.completed);
    assert_eq!(t1.completed, vec!["base", "tool", "util", "lib", "app"]);
}

#[test]
fn rerun_after_success_is_a_no_op() {
    let plan = vec![spec_with("a", vec![], true), spec_with("b", vec![], true)];
    let mut s = build(&plan, 4);
    assert!(s.nodes.is_empty());
    assert!(matches!(s.next_action(), Action::Finished));
    assert_eq!(run_result(&s.report()), Ok(()));
}

fn request(names: &[&str], cask: bool) -> Install {
    Install {
        names: names.iter().map(|n| n.to_string()).collect(),
        skip_deps: false,
        cask,
        include_optional: false,
        skip_recommended: false,
        max_concurrent_installs: 4,
    }
}

#[test]
fn auto_fallback_to_cask() {
    let req = request(&["foo"], false);
    assert!(req.falls_back_to_cask(&ResolveError::NotFound("foo".to_string())));
    assert!(!req.falls_back_to_cask(&ResolveError::NotFound("bar".to_string())));
    assert!(!req.falls_back_to_cask(&ResolveError::Other("Formula 'foo' not found".to_string())));
    assert!(!request(&["foo"], true).falls_back_to_cask(&ResolveError::NotFound("foo".to_string())));
    // the catalog not finding the cask either ends the run as a resolve error
    let batch = cask_batch_result(&vec![Err(ErrKind::ResolveError)]);
    assert_eq!(batch, Err(ErrKind::ResolveError));
    assert_eq!(exit_code(batch.unwrap_err()), 2);
}

#[test]
fn no_fallback_unless_every_name_is_missing() {
    let req = request(&["foo", "bar"], false);
    assert!(!req.falls_back_to_cask(&ResolveError::NotFound("foo".to_string())));
    let empty = request(&[], false);
    assert!(!empty.falls_back_to_cask(&ResolveError::NotFound("foo".to_string())));
}

#[test]
fn cask_with_formula_dep() {
    let steps = cask_steps(vec!["libbaz".to_string()], vec![]);
    assert_eq!(steps.len(), 2);
    assert!(matches!(&steps[0], CaskStep::InstallFormulae(f) if f == &vec!["libbaz".to_string()]));
    assert!(matches!(steps[1], CaskStep::InstallUnlessPresent));
    assert!(matches!(install_step(false), CaskStep::DownloadAndInstall));
    let formulae = Install::for_cask_formulae(vec!["libbaz".to_string()]);
    assert_eq!(formulae.max_concurrent_installs, DEFAULT_MAX_CONCURRENT);
    assert!(!formulae.cask);
}

#[test]
fn cask_dependencies_use_reduced_parallelism() {
    let steps = cask_steps(vec!["f".to_string()], vec!["c1".to_string(), "c2".to_string()]);
    assert_eq!(steps.len(), 3);
    assert!(matches!(&steps[1], CaskStep::InstallCasks(c, 2) if c.len() == 2));
    assert!(matches!(steps[2], CaskStep::InstallUnlessPresent));
    assert_eq!(CASK_CHILD_PARALLELISM, 2);
    let only_self = cask_steps(vec![], vec![]);
    assert_eq!(only_self.len(), 1);
    assert!(matches!(install_step(true), CaskStep::Skip));
}

#[test]
fn first_failure_kind_decides_the_run() {
    let plan = vec![spec("a", &[]), spec("b", &[])];
    let mut s = build(&plan, 1);
    drive(&mut s, &[("a", ErrKind::InstallError, "pour"), ("b", ErrKind::FetchError, "404")]);
    assert_eq!(run_result(&s.report()), Err(ErrKind::InstallError));
}

#[test]
fn stall_detection() {
    let mut s = Scheduler {
        nodes: vec![Node { name: "orphan".to_string(), prereqs: vec![], dependents: vec![] }],
        states: vec![NodeState::Pending],
        remaining: vec![0],
        queue: VecDeque::new(),
        in_flight: 0,
        max_concurrent: 2,
        first_failure: None,
    };
    assert!(matches!(s.next_action(), Action::Stalled));
    assert_eq!(exit_code(ErrKind::Stalled), 5);
}

#[test]
fn inconsistent_plan_is_rejected() {
    let plan = vec![spec("a", &["ghost"])];
    match build_scheduler(&plan, &opts(), 2) {
        Err(PlanError::Inconsistent(name)) => assert_eq!(name, "ghost"),
        Ok(_) => panic!("expected an inconsistent plan"),
    }
}

#[test]
fn ignored_edges_may_name_unknown_packages() {
    let test_only = DepTags { test: true, ..tags() };
    let plan = vec![spec_with("a", vec![DepEdge { name: "ghost".to_string(), tags: test_only }], false)];
    let s = build(&plan, 2);
    assert_eq!(state_of(&s, "a"), "ready");
}

#[test]
fn edge_filtering_follows_options() {
    let optional = DepTags { optional: true, ..tags() };
    let recommended = DepTags { recommended: true, ..tags() };
    let plain = PlanOptions { include_optional: false, skip_recommended: false };
    let wide = PlanOptions { include_optional: true, skip_recommended: true };
    assert!(!edge_is_effective(&optional, &plain));
    assert!(edge_is_effective(&optional, &wide));
    assert!(edge_is_effective(&recommended, &plain));
    assert!(!edge_is_effective(&recommended, &wide));
    assert!(edge_is_effective(&tags(), &plain));

    let plan = vec![
        spec("opt", &[]),
        spec_with("a", vec![DepEdge { name: "opt".to_string(), tags: optional }], false),
    ];
    let s = build_scheduler(&plan, &plain, 2).ok().unwrap();
    assert_eq!(state_of(&s, "a"), "ready");
    let s = build_scheduler(&plan, &wide, 2).ok().unwrap();
    assert_eq!(state_of(&s, "a"), "pending");
    assert_eq!(s.remaining[id_of(&s, "a")], 1);
}

#[test]
fn installed_dependencies_are_dropped() {
    let plan = vec![spec_with("base", vec![], true), spec("app", &["base"])];
    let s = build(&plan, 2);
    assert_eq!(s.nodes.len(), 1);
    assert_eq!(state_of(&s, "app"), "ready");
    assert_eq!(s.queue.iter().copied().collect::<Vec<_>>(), vec![0]);
}

#[test]
fn graph_has_reverse_edges_and_plan_order_queue() {
    let plan = diamond();
    let s = build(&plan, 2);
    let d = id_of(&s, "D");
    let mut deps: Vec<String> = s.nodes[d].dependents.iter().map(|&k| s.nodes[k].name.clone()).collect();
    deps.sort();
    assert_eq!(deps, vec!["B", "C"]);
    assert_eq!(s.remaining[id_of(&s, "A")], 2);
    assert_eq!(s.queue.iter().copied().collect::<Vec<_>>(), vec![d]);
    let plan2 = vec![spec("q", &[]), spec("p", &[]), spec("r", &["q"])];
    let s2 = build(&plan2, 2);
    let order: Vec<String> = s2.queue.iter().map(|&k| s2.nodes[k].name.clone()).collect();
    assert_eq!(order, vec!["q", "p"]);
}

#[test]
fn exit_codes_are_stable() {
    assert_eq!(exit_code(ErrKind::ResolveError), 2);
    assert_eq!(exit_code(ErrKind::FetchError), 3);
    assert_eq!(exit_code(ErrKind::InstallError), 4);
    assert_eq!(exit_code(ErrKind::Stalled), 5);
    assert_eq!(exit_code(ErrKind::InternalInvariant), 6);
    assert_eq!(exit_code(ErrKind::PlanInconsistent), 6);
}

#[test]
fn cask_batch_fails_when_any_cask_fails() {
    assert_eq!(cask_batch_result(&vec![Ok(()), Ok(())]), Ok(()));
    assert_eq!(cask_batch_result(&vec![]), Ok(()));
    assert_eq!(
        cask_batch_result(&vec![Ok(()), Err(ErrKind::FetchError), Err(ErrKind::InstallError)]),
        Err(ErrKind::FetchError)
    );
}

#[test]
fn report_lists_names_with_paths_and_reasons() {
    let plan = vec![spec("ok1", &[]), spec("bad", &[])];
    let mut s = build(&plan, 2);
    drive(&mut s, &[("bad", ErrKind::InstallError, "disk full")]);
    let r = s.report();
    assert_eq!(r.succeeded, vec![("ok1".to_string(), "/opt/ok1".to_string())]);
    assert_eq!(r.failed, vec![("bad".to_string(), "disk full".to_string())]);
}

#[test]
fn plan_options_mirror_request() {
    let req = Install {
        names: vec![],
        skip_deps: true,
        cask: false,
        include_optional: true,
        skip_recommended: false,
        max_concurrent_installs: 1,
    };
    let o = req.plan_options();
    assert!(o.include_optional);
    assert!(!o.skip_recommended);
}
