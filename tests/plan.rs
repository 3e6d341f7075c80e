use buildomat_at_home::input::Input;
use buildomat_at_home::order::{is_sorted_by_input, sort_facts};
use buildomat_at_home::plan::{
    clone_destination, input_mounts, job_root, Dependency, FrontMatter, InputFacts, Plan, PlanError,
    PoolState, SourceState,
};
use buildomat_at_home::step::{DownloadArtefact, Step};

const SCRIPT: &str = "/src/repo/.github/buildomat/jobs/test.sh";

fn frontmatter(deps: &[(&str, &str)]) -> FrontMatter {
    FrontMatter {
        name: "test".into(),
        dependencies: deps
            .iter()
            .map(|(k, j)| Dependency { key: k.to_string(), job: j.to_string() })
            .collect(),
        skip_clone: true,
    }
}

fn ready_pool() -> PoolState {
    PoolState { home_exists: true, mounted: vec![], input_exists: true, work_exists: false }
}

fn local(id: u128, job: &str) -> InputFacts {
    InputFacts {
        input: Input::LocalBuild { id },
        job_name: Some(job.into()),
        dataset_exists: true,
        readonly_off: false,
        artefacts: vec![],
    }
}

fn remote(run_id: &str, job: &str, exists: bool, readonly_off: bool) -> InputFacts {
    InputFacts {
        input: Input::GitHubRun { owner: "o".into(), repo: "r".into(), run_id: run_id.into() },
        job_name: Some(job.into()),
        dataset_exists: exists,
        readonly_off,
        artefacts: vec![("/out/bin".into(), format!("http://x/{}", run_id))],
    }
}

fn build(fm: &FrontMatter, pool: &PoolState, facts: &Vec<InputFacts>) -> Result<Plan, PlanError> {
    Plan::build(SCRIPT, fm, pool, "me:staff", facts, &None, 1)
}

fn steps(r: Result<Plan, PlanError>) -> Vec<Step> {
    match r {
        Ok(p) => p.0,
        Err(e) => panic!("{}", e.message()),
    }
}

#[test]
fn missing_dependency_is_named() {
    let fm = frontmatter(&[("compiled", "build"), ("docs", "doc")]);
    let err = build(&fm, &ready_pool(), &vec![local(5, "build")]).unwrap_err();
    assert_eq!(err, PlanError::MissingInputs(vec!["docs".into()]));
    assert_eq!(err.message(), "required input not provided: docs");
}

#[test]
fn undeclared_input_is_named() {
    let fm = frontmatter(&[("compiled", "build")]);
    let err = build(&fm, &ready_pool(), &vec![local(5, "build"), remote("9", "lint", false, false)]).unwrap_err();
    assert_eq!(
        err,
        PlanError::NotAnInput(Input::GitHubRun { owner: "o".into(), repo: "r".into(), run_id: "9".into() })
    );
    assert_eq!(err.message(), "github/o/r/9 is not an input to this job");
}

#[test]
fn local_input_not_found() {
    let fm = frontmatter(&[("compiled", "build")]);
    let mut f = local(5, "build");
    f.job_name = None;
    let err = build(&fm, &ready_pool(), &vec![f]).unwrap_err();
    assert_eq!(err, PlanError::InputNotFound(Input::LocalBuild { id: 5 }));
    assert_eq!(err.message(), "input local/00000000000000000000000005 not found");
}

#[test]
fn misplaced_script_is_refused() {
    let fm = frontmatter(&[]);
    let r = Plan::build("/src/repo/jobs/test.sh", &fm, &ready_pool(), "me:staff", &vec![], &None, 1);
    assert_eq!(r.unwrap_err(), PlanError::MisplacedScript);
    assert_eq!(
        PlanError::MisplacedScript.message(),
        "script path not within `.github/buildomat/jobs`"
    );
}

#[test]
fn complete_dataset_only_moves_mountpoint() {
    let fm = frontmatter(&[("compiled", "build")]);
    let s = steps(build(&fm, &ready_pool(), &vec![remote("1", "build", true, false)]));
    assert!(!s.iter().any(|x| matches!(x, Step::DownloadArtefacts(_))));
    assert!(!s.iter().any(|x| matches!(x, Step::SetDatasetReadOnly { .. } | Step::DestroyDataset { .. })));
    assert!(!s.iter().any(|x| matches!(x, Step::CreateDataset { create_parents: true, .. })));
    assert!(s.contains(&Step::SetDatasetMountpoint {
        dataset: "rpool/buildomat-at-home/github/o/r/1".into(),
        mountpoint: "/input/compiled".into(),
    }));
}

#[test]
fn complete_dataset_already_mounted_needs_nothing() {
    let fm = frontmatter(&[("compiled", "build")]);
    let mut pool = ready_pool();
    pool.mounted = vec![
        ("rpool/buildomat-at-home/github/o/r/1".into(), "/input/compiled".into()),
        ("rpool/buildomat-at-home/github/o/r/0".into(), "/input/old".into()),
    ];
    let s = steps(build(&fm, &pool, &vec![remote("1", "build", true, false)]));
    assert!(!s.iter().any(|x| matches!(x, Step::SetDatasetMountpoint { .. } | Step::DownloadArtefacts(_))));
    let unmounts: Vec<&Step> = s.iter().filter(|x| matches!(x, Step::InheritDatasetMountpoint { .. })).collect();
    assert_eq!(
        unmounts,
        vec![&Step::InheritDatasetMountpoint { dataset: "rpool/buildomat-at-home/github/o/r/0".into() }]
    );
}

#[test]
fn interrupted_dataset_is_redone() {
    let fm = frontmatter(&[("compiled", "build")]);
    let s = steps(build(&fm, &ready_pool(), &vec![remote("1", "build", true, true)]));
    let ds = "rpool/buildomat-at-home/github/o/r/1".to_string();
    let pos = |want: &Step| s.iter().position(|x| x == want).expect("step present");
    let destroy = pos(&Step::DestroyDataset { dataset: ds.clone() });
    let create = pos(&Step::CreateDataset {
        dataset: ds.clone(),
        mountpoint: Some("/input/compiled".into()),
        create_parents: true,
        chown: "me:staff".into(),
    });
    let download = pos(&Step::DownloadArtefacts(vec![DownloadArtefact {
        path: "/input/compiled/out/bin".into(),
        url: "http://x/1".into(),
    }]));
    let readonly = pos(&Step::SetDatasetReadOnly { dataset: ds });
    assert!(destroy < create && create < download && download < readonly);
    assert_eq!(s[download - 1], Step::Comment("download 1 artifacts".into()));
}

#[test]
fn full_plan_for_fresh_machine() {
    let fm = FrontMatter {
        name: "build".into(),
        dependencies: vec![Dependency { key: "tools".into(), job: "fetch".into() }],
        skip_clone: false,
    };
    let pool = PoolState { home_exists: false, mounted: vec![], input_exists: false, work_exists: true };
    let source = Some(SourceState {
        treeish: "abc".into(),
        remote: "git@github.com:oxidecomputer/buildomat-at-home.git".into(),
    });
    let facts = vec![remote("3", "fetch", false, false)];
    let plan = Plan::build(SCRIPT, &fm, &pool, "me:staff", &facts, &source, 1).unwrap();
    let ds = "rpool/buildomat-at-home/github/o/r/3".to_string();
    let saved = "rpool/buildomat-at-home/local/00000000000000000000000001".to_string();
    assert_eq!(
        plan.0,
        vec![
            Step::Comment("create rpool/buildomat-at-home".into()),
            Step::CreateDataset { dataset: "rpool/buildomat-at-home".into(), mountpoint: None, create_parents: false, chown: "me:staff".into() },
            Step::Comment("create rpool/input (at /input)".into()),
            Step::CreateDataset { dataset: "rpool/input".into(), mountpoint: Some("/input".into()), create_parents: false, chown: "me:staff".into() },
            Step::Comment("recreate rpool/work (at /work)".into()),
            Step::DestroyDataset { dataset: "rpool/work".into() },
            Step::CreateDataset { dataset: "rpool/work".into(), mountpoint: Some("/work".into()), create_parents: false, chown: "me:staff".into() },
            Step::Comment("set up datasets for /input".into()),
            Step::CreateDataset { dataset: ds.clone(), mountpoint: Some("/input/tools".into()), create_parents: true, chown: "me:staff".into() },
            Step::Comment("download 1 artifacts".into()),
            Step::DownloadArtefacts(vec![DownloadArtefact { path: "/input/tools/out/bin".into(), url: "http://x/3".into() }]),
            Step::Comment("mark /input datasets read-only".into()),
            Step::SetDatasetReadOnly { dataset: ds },
            Step::Comment("clone repository into /work".into()),
            Step::CloneRepo { src: "/src/repo".into(), treeish: "abc".into(), dest: "/work/oxidecomputer/buildomat-at-home".into() },
            Step::Comment("run job script".into()),
            Step::RunScript { script: SCRIPT.into(), workdir: "/work/oxidecomputer/buildomat-at-home".into() },
            Step::Comment("save /work as local/00000000000000000000000001".into()),
            Step::SaveWorkAsInput { work_dataset: "rpool/work".into(), new_dataset: saved, job_name: "build".into(), input: Input::LocalBuild { id: 1 } },
        ]
    );
}

#[test]
fn sorted_permutations_give_one_plan() {
    let fm = frontmatter(&[("a", "ja"), ("b", "jb"), ("c", "jc")]);
    let mut first = vec![remote("2", "jb", false, false), local(7, "ja"), remote("1", "jc", false, false)];
    let mut second = vec![remote("1", "jc", false, false), remote("2", "jb", false, false), local(7, "ja")];
    first = sort_facts(first);
    second = sort_facts(second);
    assert_eq!(steps(build(&fm, &ready_pool(), &first)), steps(build(&fm, &ready_pool(), &second)));
}

#[test]
fn end_to_end_dependency_scenario() {
    let fm = frontmatter(&[("compiled", "build")]);
    let script = ".github/buildomat/jobs/build.sh";
    let err = Plan::build(script, &fm, &ready_pool(), "me:staff", &vec![], &None, 1).unwrap_err();
    assert_eq!(err.message(), "required input not provided: compiled");
    let ok = Plan::build(script, &fm, &ready_pool(), "me:staff", &vec![local(5, "build")], &None, 1);
    assert!(ok.is_ok());
}

#[test]
fn repository_root_of_script() {
    assert_eq!(job_root(SCRIPT), Some("/src/repo".to_string()));
    assert_eq!(job_root(".github/buildomat/jobs/build.sh"), Some("".to_string()));
    assert_eq!(job_root("/src/repo/.github/jobs/x/test.sh"), None);
    assert_eq!(job_root("/a/b"), None);
}

#[test]
fn clone_destinations() {
    assert_eq!(clone_destination("git@github.com:oxidecomputer/omicron.git"), "/work/oxidecomputer/omicron");
    assert_eq!(clone_destination("https://github.com/o/r"), "/work/o/r");
    assert_eq!(clone_destination("plain"), "/work");
    assert_eq!(clone_destination(""), "/work");
}

#[test]
fn listing_keeps_input_mounts() {
    let listing = "rpool/buildomat-at-home\t/rpool/buildomat-at-home\nrpool/buildomat-at-home/github/o/r/1\t/input/compiled\nrpool/buildomat-at-home/local/X\tnone";
    assert_eq!(
        input_mounts(listing),
        vec![("rpool/buildomat-at-home/github/o/r/1".to_string(), "/input/compiled".to_string())]
    );
    assert!(input_mounts("").is_empty());
}

#[test]
fn complete_dataset_mounted_elsewhere_is_moved_not_dropped() {
    let fm = frontmatter(&[("compiled", "build")]);
    let mut pool = ready_pool();
    let ds = "rpool/buildomat-at-home/github/o/r/1".to_string();
    pool.mounted = vec![(ds.clone(), "/input/other".into())];
    let s = steps(build(&fm, &pool, &vec![remote("1", "build", true, false)]));
    assert!(!s.contains(&Step::InheritDatasetMountpoint { dataset: ds.clone() }));
    let moves: Vec<&Step> = s.iter().filter(|x| matches!(x, Step::SetDatasetMountpoint { .. })).collect();
    assert_eq!(
        moves,
        vec![&Step::SetDatasetMountpoint { dataset: ds, mountpoint: "/input/compiled".into() }]
    );
}

#[test]
fn local_build_is_mounted_at_its_key() {
    let fm = frontmatter(&[("compiled", "build")]);
    let s = steps(build(&fm, &ready_pool(), &vec![local(5, "build")]));
    assert!(s.contains(&Step::SetDatasetMountpoint {
        dataset: "rpool/buildomat-at-home/local/00000000000000000000000005".into(),
        mountpoint: "/input/compiled".into(),
    }));
    assert!(!s.iter().any(|x| matches!(x, Step::DownloadArtefacts(_) | Step::CreateDataset { create_parents: true, .. })));
}

#[test]
fn mounted_local_build_stays_mounted() {
    let fm = frontmatter(&[("compiled", "build")]);
    let ds = "rpool/buildomat-at-home/local/00000000000000000000000005".to_string();
    let mut pool = ready_pool();
    pool.mounted = vec![(ds.clone(), "/input/compiled".into())];
    let s = steps(build(&fm, &pool, &vec![local(5, "build")]));
    assert!(!s.iter().any(|x| matches!(x, Step::InheritDatasetMountpoint { .. } | Step::SetDatasetMountpoint { .. })));
}

#[test]
fn sortedness_check() {
    assert!(is_sorted_by_input(&vec![local(1, "a"), local(2, "b"), remote("1", "c", false, false)]));
    assert!(!is_sorted_by_input(&vec![remote("1", "c", false, false), local(1, "a")]));
    assert!(is_sorted_by_input(&vec![]));
}
