use buildomat_at_home::input::Input;
use buildomat_at_home::step::{kept_env_names, transfers_to_start, DownloadArtefact, Step, DOWNLOAD_CONCURRENCY};

fn lines(step: &Step) -> Vec<String> {
    step.commands_for_approval()
}

#[test]
fn create_dataset_with_mountpoint() {
    let step = Step::CreateDataset {
        dataset: "rpool/buildomat-at-home/github/o/r/1".into(),
        mountpoint: Some("/input/compiled".into()),
        create_parents: true,
        chown: "me:staff".into(),
    };
    assert_eq!(
        lines(&step),
        vec![
            "pfexec zfs create -p -o 'mountpoint=/input/compiled' rpool/buildomat-at-home/github/o/r/1",
            "pfexec chown me:staff /input/compiled",
        ]
    );
}

#[test]
fn create_dataset_inheriting_mountpoint() {
    let step = Step::CreateDataset {
        dataset: "rpool/buildomat-at-home".into(),
        mountpoint: None,
        create_parents: false,
        chown: "me:staff".into(),
    };
    assert_eq!(lines(&step), vec!["pfexec zfs create rpool/buildomat-at-home"]);
}

#[test]
fn dataset_property_steps() {
    assert_eq!(lines(&Step::DestroyDataset { dataset: "rpool/work".into() }), vec!["pfexec zfs destroy rpool/work"]);
    assert_eq!(
        lines(&Step::InheritDatasetMountpoint { dataset: "d".into() }),
        vec!["pfexec zfs inherit mountpoint d"]
    );
    assert_eq!(
        lines(&Step::SetDatasetMountpoint { dataset: "d".into(), mountpoint: "/input/x".into() }),
        vec!["pfexec zfs set 'mountpoint=/input/x' d"]
    );
    assert_eq!(lines(&Step::SetDatasetReadOnly { dataset: "d".into() }), vec!["pfexec zfs set 'readonly=on' d"]);
}

#[test]
fn comment_and_download_lines() {
    assert_eq!(lines(&Step::Comment("run job script".into())), vec!["### run job script"]);
    let dl = Step::DownloadArtefacts(vec![DownloadArtefact { path: "/input/a/b".into(), url: "http://x".into() }]);
    assert!(lines(&dl).is_empty());
    assert!(dl.commands(&vec![]).is_empty());
}

#[test]
fn clone_repo_commands_quote_paths() {
    let step = Step::CloneRepo {
        src: "/home/me/my repo".into(),
        treeish: "abc123".into(),
        dest: "/work/o/r".into(),
    };
    assert_eq!(
        lines(&step),
        vec![
            "git -C /work/o/r init",
            "git -C /work/o/r remote add origin '/home/me/my repo'",
            "git -C /work/o/r fetch origin abc123",
            "git -C /work/o/r checkout abc123",
        ]
    );
}

#[test]
fn run_script_environment() {
    let step = Step::RunScript { script: "/r/.github/buildomat/jobs/build.sh".into(), workdir: "/work/o/r".into() };
    let env = vec![("HOME".to_string(), "/home/me".to_string())];
    let cmds = step.commands(&env);
    assert_eq!(cmds.len(), 1);
    let c = &cmds[0];
    assert_eq!(c.program, "/bin/bash");
    assert_eq!(c.args, vec!["/r/.github/buildomat/jobs/build.sh".to_string()]);
    assert_eq!(c.workdir.as_deref(), Some("/work/o/r"));
    assert!(c.null_stdin);
    assert_eq!(
        c.env,
        Some(vec![
            ("HOME".to_string(), "/home/me".to_string()),
            ("PATH".to_string(), "/usr/bin:/bin:/usr/sbin:/sbin:/opt/ooce/bin:/opt/ooce/sbin".to_string()),
        ])
    );
    assert_eq!(lines(&step), vec!["/bin/bash /r/.github/buildomat/jobs/build.sh"]);
}

#[test]
fn save_work_commands() {
    let step = Step::SaveWorkAsInput {
        work_dataset: "rpool/work".into(),
        new_dataset: "rpool/buildomat-at-home/local/00000000000000000000000001".into(),
        job_name: "build".into(),
        input: Input::LocalBuild { id: 1 },
    };
    assert_eq!(
        lines(&step),
        vec![
            "pfexec zfs snapshot rpool/work@snapshot",
            "pfexec zfs clone -p -o 'readonly=on' -o 'computer.oxide.eng.buildomat-at-home:job_name=build' rpool/work@snapshot rpool/buildomat-at-home/local/00000000000000000000000001",
            "pfexec zfs promote rpool/buildomat-at-home/local/00000000000000000000000001",
        ]
    );
}

#[test]
fn kept_environment_names() {
    assert_eq!(kept_env_names(), vec!["HOME", "USER", "LOGNAME", "TERM"]);
}

#[test]
fn transfers_fill_the_bound() {
    assert_eq!(DOWNLOAD_CONCURRENCY, 4);
    assert_eq!(transfers_to_start(0, 10), 4);
    assert_eq!(transfers_to_start(3, 10), 1);
    assert_eq!(transfers_to_start(4, 10), 0);
    assert_eq!(transfers_to_start(1, 2), 2);
    assert_eq!(transfers_to_start(0, 0), 0);
}

#[test]
fn transfers_never_exceed_the_bound() {
    // Simulate a batch where one transfer finishes per round.
    let mut waiting = 11;
    let mut in_flight = 0;
    while waiting > 0 || in_flight > 0 {
        let start = transfers_to_start(in_flight, waiting);
        waiting -= start;
        in_flight += start;
        assert!(in_flight <= DOWNLOAD_CONCURRENCY);
        in_flight -= 1;
    }
}
