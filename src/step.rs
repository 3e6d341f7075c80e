use crate::command::{CommandModel, CommandSpec, command_line, pairs_view, strings_view};
use crate::input::{Input, InputModel};
use vstd::prelude::*;
use vstd::string::*;

verus! {

/// The dataset property that tags a captured input with its job's name.
pub const JOB_NAME_PROPERTY: &'static str = "computer.oxide.eng.buildomat-at-home:job_name";

/// The search path a job script runs with.
pub const SCRIPT_PATH: &'static str = "/usr/bin:/bin:/usr/sbin:/sbin:/opt/ooce/bin:/opt/ooce/sbin";

/// How many artefact transfers may be in flight at once.
pub const DOWNLOAD_CONCURRENCY: usize = 4;

/// How many more transfers to start when `in_flight` are running and
/// `waiting` have not started: as many as the bound leaves room for.
pub fn transfers_to_start(in_flight: usize, waiting: usize) -> (r: usize)
    requires
        in_flight <= DOWNLOAD_CONCURRENCY,
    ensures
        r <= waiting,
        in_flight + r <= DOWNLOAD_CONCURRENCY,
        r == waiting || in_flight + r == DOWNLOAD_CONCURRENCY,
{
    let room = DOWNLOAD_CONCURRENCY - in_flight;
    if waiting < room {
        waiting
    } else {
        room
    }
}

/// Where a downloaded artefact goes, and where it comes from.
#[derive(Debug, Clone, PartialEq, Eq)]
pub struct DownloadArtefact {
    pub path: String,
    pub url: String,
}

/// One action of a plan, holding what it needs to act and to be shown.
#[derive(Debug, Clone, PartialEq, Eq)]
pub enum Step {
    Comment(String),
    CloneRepo { src: String, treeish: String, dest: String },
    /// `mountpoint` `None` inherits the mountpoint property.
    CreateDataset { dataset: String, mountpoint: Option<String>, create_parents: bool, chown: String },
    DestroyDataset { dataset: String },
    DownloadArtefacts(Vec<DownloadArtefact>),
    InheritDatasetMountpoint { dataset: String },
    RunScript { script: String, workdir: String },
    SaveWorkAsInput { work_dataset: String, new_dataset: String, job_name: String, input: Input },
    SetDatasetMountpoint { dataset: String, mountpoint: String },
    SetDatasetReadOnly { dataset: String },
}

pub open spec fn plain(program: Seq<char>, args: Seq<Seq<char>>) -> CommandModel {
    CommandModel { program, args, workdir: None, env: None, null_stdin: false }
}

/// `zfs` with arguments, run with privileges.
pub open spec fn zfs(args: Seq<Seq<char>>) -> CommandModel {
    plain("pfexec"@, seq!["zfs"@] + args)
}

/// `git` with arguments, run on the repository at `dest`.
pub open spec fn git_in(dest: Seq<char>, args: Seq<Seq<char>>) -> CommandModel {
    plain("git"@, seq!["-C"@, dest] + args)
}

pub open spec fn create_args(
    dataset: Seq<char>,
    mountpoint: Option<Seq<char>>,
    create_parents: bool,
) -> Seq<Seq<char>> {
    seq!["create"@] + (if create_parents {
        seq!["-p"@]
    } else {
        Seq::<Seq<char>>::empty()
    }) + match mountpoint {
        Some(m) => seq!["-o"@, "mountpoint="@ + m],
        None => Seq::<Seq<char>>::empty(),
    } + seq![dataset]
}

pub open spec fn opt_view(o: Option<String>) -> Option<Seq<char>> {
    match o {
        Some(s) => Some(s@),
        None => None,
    }
}

/// The mathematical value of a [`Step`].
pub ghost enum StepModel {
    Comment(Seq<char>),
    CloneRepo { src: Seq<char>, treeish: Seq<char>, dest: Seq<char> },
    CreateDataset {
        dataset: Seq<char>,
        mountpoint: Option<Seq<char>>,
        create_parents: bool,
        chown: Seq<char>,
    },
    DestroyDataset { dataset: Seq<char> },
    DownloadArtefacts(Seq<(Seq<char>, Seq<char>)>),
    InheritDatasetMountpoint { dataset: Seq<char> },
    RunScript { script: Seq<char>, workdir: Seq<char> },
    SaveWorkAsInput {
        work_dataset: Seq<char>,
        new_dataset: Seq<char>,
        job_name: Seq<char>,
        input: InputModel,
    },
    SetDatasetMountpoint { dataset: Seq<char>, mountpoint: Seq<char> },
    SetDatasetReadOnly { dataset: Seq<char> },
}

pub open spec fn artefacts_view(v: Seq<DownloadArtefact>) -> Seq<(Seq<char>, Seq<char>)> {
    v.map_values(|a: DownloadArtefact| (a.path@, a.url@))
}

impl Step {
    pub open spec fn model(&self) -> StepModel {
        match self {
            Step::Comment(c) => StepModel::Comment(c@),
            Step::CloneRepo { src, treeish, dest } => StepModel::CloneRepo {
                src: src@,
                treeish: treeish@,
                dest: dest@,
            },
            Step::CreateDataset { dataset, mountpoint, create_parents, chown } =>
                StepModel::CreateDataset {
                dataset: dataset@,
                mountpoint: opt_view(*mountpoint),
                create_parents: *create_parents,
                chown: chown@,
            },
            Step::DestroyDataset { dataset } => StepModel::DestroyDataset { dataset: dataset@ },
            Step::DownloadArtefacts(v) => StepModel::DownloadArtefacts(artefacts_view(v@)),
            Step::InheritDatasetMountpoint { dataset } => StepModel::InheritDatasetMountpoint {
                dataset: dataset@,
            },
            Step::RunScript { script, workdir } => StepModel::RunScript {
                script: script@,
                workdir: workdir@,
            },
            Step::SaveWorkAsInput { work_dataset, new_dataset, job_name, input } =>
                StepModel::SaveWorkAsInput {
                work_dataset: work_dataset@,
                new_dataset: new_dataset@,
                job_name: job_name@,
                input: input.model(),
            },
            Step::SetDatasetMountpoint { dataset, mountpoint } => StepModel::SetDatasetMountpoint {
                dataset: dataset@,
                mountpoint: mountpoint@,
            },
            Step::SetDatasetReadOnly { dataset } => StepModel::SetDatasetReadOnly {
                dataset: dataset@,
            },
        }
    }
}

pub open spec fn steps_view(v: Seq<Step>) -> Seq<StepModel> {
    v.map_values(|s: Step| s.model())
}

/// The commands a step runs; `env` is the part of the caller's environment
/// that a job script keeps.
pub open spec fn step_commands(s: Step, env: Seq<(Seq<char>, Seq<char>)>) -> Seq<CommandModel> {
    match s {
        Step::Comment(_) => Seq::empty(),
        Step::DownloadArtefacts(_) => Seq::empty(),
        Step::CloneRepo { src, treeish, dest } => seq![
            git_in(dest@, seq!["init"@]),
            git_in(dest@, seq!["remote"@, "add"@, "origin"@, src@]),
            git_in(dest@, seq!["fetch"@, "origin"@, treeish@]),
            git_in(dest@, seq!["checkout"@, treeish@]),
        ],
        Step::CreateDataset { dataset, mountpoint, create_parents, chown } => {
            let create = zfs(create_args(dataset@, opt_view(mountpoint), create_parents));
            match mountpoint {
                Some(m) => seq![create, plain("pfexec"@, seq!["chown"@, chown@, m@])],
                None => seq![create],
            }
        },
        Step::DestroyDataset { dataset } => seq![zfs(seq!["destroy"@, dataset@])],
        Step::InheritDatasetMountpoint { dataset } => seq![
            zfs(seq!["inherit"@, "mountpoint"@, dataset@]),
        ],
        Step::RunScript { script, workdir } => seq![
            CommandModel {
                program: "/bin/bash"@,
                args: seq![script@],
                workdir: Some(workdir@),
                env: Some(env.push(("PATH"@, SCRIPT_PATH@))),
                null_stdin: true,
            },
        ],
        Step::SaveWorkAsInput { work_dataset, new_dataset, job_name, .. } => {
            let snap = work_dataset@ + "@snapshot"@;
            seq![
                zfs(seq!["snapshot"@, snap]),
                zfs(
                    seq![
                        "clone"@,
                        "-p"@,
                        "-o"@,
                        "readonly=on"@,
                        "-o"@,
                        JOB_NAME_PROPERTY@ + "="@ + job_name@,
                        snap,
                        new_dataset@,
                    ],
                ),
                zfs(seq!["promote"@, new_dataset@]),
            ]
        },
        Step::SetDatasetMountpoint { dataset, mountpoint } => seq![
            zfs(seq!["set"@, "mountpoint="@ + mountpoint@, dataset@]),
        ],
        Step::SetDatasetReadOnly { dataset } => seq![zfs(seq!["set"@, "readonly=on"@, dataset@])],
    }
}

/// The lines shown for a step before approval.
pub open spec fn approval_lines(s: Step) -> Seq<Seq<char>> {
    match s {
        Step::Comment(c) => seq!["### "@ + c@],
        _ => step_commands(s, Seq::empty()).map_values(|c: CommandModel| command_line(c)),
    }
}

pub open spec fn commands_view(v: Seq<CommandSpec>) -> Seq<CommandModel> {
    v.map_values(|c: CommandSpec| c.model())
}

pub(crate) fn push_str(v: &mut Vec<String>, s: &str)
    ensures
        strings_view(final(v)@) == strings_view(old(v)@).push(s@),
{
    v.push(s.to_owned());
    proof {
        assert(strings_view(final(v)@) =~= strings_view(old(v)@).push(s@));
    }
}

pub(crate) fn concat(a: &str, b: &str) -> (r: String)
    ensures
        r@ == a@ + b@,
{
    let mut r = a.to_owned();
    r.append(b);
    r
}

fn zfs_command(args: Vec<String>) -> (r: CommandSpec)
    ensures
        r.model() == zfs(strings_view(args@)),
{
    let mut all: Vec<String> = Vec::new();
    push_str(&mut all, "zfs");
    let mut i: usize = 0;
    while i < args.len()
        invariant
            i <= args@.len(),
            strings_view(all@) == seq!["zfs"@] + strings_view(args@).take(i as int),
        decreases args@.len() - i,
    {
        push_str(&mut all, args[i].as_str());
        proof {
            assert(strings_view(args@).take(i as int + 1) =~= strings_view(args@).take(i as int).push(
                args@[i as int]@,
            ));
        }
        i += 1;
    }
    proof {
        assert(strings_view(args@).take(args@.len() as int) =~= strings_view(args@));
    }
    CommandSpec::new("pfexec", all)
}

fn git_command(dest: &str, args: Vec<String>) -> (r: CommandSpec)
    ensures
        r.model() == git_in(dest@, strings_view(args@)),
{
    let mut all: Vec<String> = Vec::new();
    push_str(&mut all, "-C");
    push_str(&mut all, dest);
    let mut i: usize = 0;
    while i < args.len()
        invariant
            i <= args@.len(),
            strings_view(all@) == seq!["-C"@, dest@] + strings_view(args@).take(i as int),
        decreases args@.len() - i,
    {
        push_str(&mut all, args[i].as_str());
        proof {
            assert(strings_view(args@).take(i as int + 1) =~= strings_view(args@).take(i as int).push(
                args@[i as int]@,
            ));
        }
        i += 1;
    }
    proof {
        assert(strings_view(args@).take(args@.len() as int) =~= strings_view(args@));
    }
    CommandSpec::new("git", all)
}

pub(crate) fn copy_pairs(v: &Vec<(String, String)>) -> (r: Vec<(String, String)>)
    ensures
        pairs_view(r@) == pairs_view(v@),
{
    let mut r: Vec<(String, String)> = Vec::new();
    let mut i: usize = 0;
    while i < v.len()
        invariant
            i <= v@.len(),
            pairs_view(r@) == pairs_view(v@).take(i as int),
        decreases v@.len() - i,
    {
        let ghost before = r@;
        r.push((v[i].0.clone(), v[i].1.clone()));
        proof {
            assert(pairs_view(r@) =~= pairs_view(before).push((v@[i as int].0@, v@[i as int].1@)));
            assert(pairs_view(v@).take(i as int + 1) =~= pairs_view(v@).take(i as int).push(
                (v@[i as int].0@, v@[i as int].1@),
            ));
        }
        i += 1;
    }
    proof {
        assert(pairs_view(v@).take(v@.len() as int) =~= pairs_view(v@));
    }
    r
}


/// The variables a job script keeps from the caller's environment, when set.
pub fn kept_env_names() -> (r: Vec<String>)
    ensures
        strings_view(r@) == seq!["HOME"@, "USER"@, "LOGNAME"@, "TERM"@],
{
    let mut r: Vec<String> = Vec::new();
    push_str(&mut r, "HOME");
    push_str(&mut r, "USER");
    push_str(&mut r, "LOGNAME");
    push_str(&mut r, "TERM");
    proof {
        assert(strings_view(r@) =~= seq!["HOME"@, "USER"@, "LOGNAME"@, "TERM"@]);
    }
    r
}

impl Step {
    /// The commands this step runs, in order. `env` holds the variables of
    /// [`kept_env_names`] that the caller has set.
    pub fn commands(&self, env: &Vec<(String, String)>) -> (r: Vec<CommandSpec>)
        ensures
            commands_view(r@) == step_commands(*self, pairs_view(env@)),
    {
        let mut out: Vec<CommandSpec> = Vec::new();
        match self {
            Step::Comment(_) => {},
            Step::DownloadArtefacts(_) => {},
            Step::CloneRepo { src, treeish, dest } => {
                let mut a: Vec<String> = Vec::new();
                push_str(&mut a, "init");
                proof {
                    assert(strings_view(a@) =~= seq!["init"@]);
                }
                out.push(git_command(dest.as_str(), a));
                let mut a: Vec<String> = Vec::new();
                push_str(&mut a, "remote");
                push_str(&mut a, "add");
                push_str(&mut a, "origin");
                push_str(&mut a, src.as_str());
                proof {
                    assert(strings_view(a@) =~= seq!["remote"@, "add"@, "origin"@, src@]);
                }
                out.push(git_command(dest.as_str(), a));
                let mut a: Vec<String> = Vec::new();
                push_str(&mut a, "fetch");
                push_str(&mut a, "origin");
                push_str(&mut a, treeish.as_str());
                proof {
                    assert(strings_view(a@) =~= seq!["fetch"@, "origin"@, treeish@]);
                }
                out.push(git_command(dest.as_str(), a));
                let mut a: Vec<String> = Vec::new();
                push_str(&mut a, "checkout");
                push_str(&mut a, treeish.as_str());
                proof {
                    assert(strings_view(a@) =~= seq!["checkout"@, treeish@]);
                }
                out.push(git_command(dest.as_str(), a));
            },
            Step::CreateDataset { dataset, mountpoint, create_parents, chown } => {
                let mut a: Vec<String> = Vec::new();
                push_str(&mut a, "create");
                if *create_parents {
                    push_str(&mut a, "-p");
                }
                match mountpoint {
                    Some(m) => {
                        push_str(&mut a, "-o");
                        let mp = concat("mountpoint=", m.as_str());
                        push_str(&mut a, mp.as_str());
                    },
                    None => {},
                }
                push_str(&mut a, dataset.as_str());
                proof {
                    assert(strings_view(a@) =~= create_args(
                        dataset@,
                        opt_view(*mountpoint),
                        *create_parents,
                    ));
                }
                out.push(zfs_command(a));
                match mountpoint {
                    Some(m) => {
                        let mut c: Vec<String> = Vec::new();
                        push_str(&mut c, "chown");
                        push_str(&mut c, chown.as_str());
                        push_str(&mut c, m.as_str());
                        proof {
                            assert(strings_view(c@) =~= seq!["chown"@, chown@, m@]);
                        }
                        out.push(CommandSpec::new("pfexec", c));
                    },
                    None => {},
                }
            },
            Step::DestroyDataset { dataset } => {
                let mut a: Vec<String> = Vec::new();
                push_str(&mut a, "destroy");
                push_str(&mut a, dataset.as_str());
                proof {
                    assert(strings_view(a@) =~= seq!["destroy"@, dataset@]);
                }
                out.push(zfs_command(a));
            },
            Step::InheritDatasetMountpoint { dataset } => {
                let mut a: Vec<String> = Vec::new();
                push_str(&mut a, "inherit");
                push_str(&mut a, "mountpoint");
                push_str(&mut a, dataset.as_str());
                proof {
                    assert(strings_view(a@) =~= seq!["inherit"@, "mountpoint"@, dataset@]);
                }
                out.push(zfs_command(a));
            },
            Step::RunScript { script, workdir } => {
                let mut a: Vec<String> = Vec::new();
                push_str(&mut a, script.as_str());
                proof {
                    assert(strings_view(a@) =~= seq![script@]);
                }
                let mut vars = copy_pairs(env);
                let ghost before = vars@;
                vars.push(("PATH".to_owned(), SCRIPT_PATH.to_owned()));
                proof {
                    assert(pairs_view(vars@) =~= pairs_view(before).push(("PATH"@, SCRIPT_PATH@)));
                }
                out.push(
                    CommandSpec {
                        program: "/bin/bash".to_owned(),
                        args: a,
                        workdir: Some(workdir.clone()),
                        env: Some(vars),
                        null_stdin: true,
                    },
                );
            },
            Step::SaveWorkAsInput { work_dataset, new_dataset, job_name, .. } => {
                let snap = concat(work_dataset.as_str(), "@snapshot");
                let mut a: Vec<String> = Vec::new();
                push_str(&mut a, "snapshot");
                push_str(&mut a, snap.as_str());
                proof {
                    assert(strings_view(a@) =~= seq!["snapshot"@, snap@]);
                }
                out.push(zfs_command(a));
                let key = concat(JOB_NAME_PROPERTY, "=");
                let prop = concat(key.as_str(), job_name.as_str());
                let mut a: Vec<String> = Vec::new();
                push_str(&mut a, "clone");
                push_str(&mut a, "-p");
                push_str(&mut a, "-o");
                push_str(&mut a, "readonly=on");
                push_str(&mut a, "-o");
                push_str(&mut a, prop.as_str());
                push_str(&mut a, snap.as_str());
                push_str(&mut a, new_dataset.as_str());
                proof {
                    assert(strings_view(a@) =~= seq!["clone"@, "-p"@, "-o"@, "readonly=on"@, "-o"@, prop@, snap@, new_dataset@]);
                }
                out.push(zfs_command(a));
                let mut a: Vec<String> = Vec::new();
                push_str(&mut a, "promote");
                push_str(&mut a, new_dataset.as_str());
                proof {
                    assert(strings_view(a@) =~= seq!["promote"@, new_dataset@]);
                }
                out.push(zfs_command(a));
            },
            Step::SetDatasetMountpoint { dataset, mountpoint } => {
                let mp = concat("mountpoint=", mountpoint.as_str());
                let mut a: Vec<String> = Vec::new();
                push_str(&mut a, "set");
                push_str(&mut a, mp.as_str());
                push_str(&mut a, dataset.as_str());
                proof {
                    assert(strings_view(a@) =~= seq!["set"@, mp@, dataset@]);
                }
                out.push(zfs_command(a));
            },
            Step::SetDatasetReadOnly { dataset } => {
                let mut a: Vec<String> = Vec::new();
                push_str(&mut a, "set");
                push_str(&mut a, "readonly=on");
                push_str(&mut a, dataset.as_str());
                proof {
                    assert(strings_view(a@) =~= seq!["set"@, "readonly=on"@, dataset@]);
                }
                out.push(zfs_command(a));
            },
        }
        proof {
            assert(commands_view(out@) =~= step_commands(*self, pairs_view(env@)));
        }
        out
    }

    /// The lines shown for this step before approval: a comment as `### text`,
    /// any other step as its command lines.
    pub fn commands_for_approval(&self) -> (r: Vec<String>)
        ensures
            strings_view(r@) == approval_lines(*self),
    {
        let mut out: Vec<String> = Vec::new();
        if let Step::Comment(c) = self {
            out.push(concat("### ", c.as_str()));
            proof {
                assert(strings_view(out@) =~= approval_lines(*self));
            }
            return out;
        }
        let none: Vec<(String, String)> = Vec::new();
        proof {
            assert(pairs_view(none@) =~= Seq::<(Seq<char>, Seq<char>)>::empty());
        }
        let cmds = self.commands(&none);
        let mut i: usize = 0;
        while i < cmds.len()
            invariant
                i <= cmds@.len(),
                commands_view(cmds@) == step_commands(*self, Seq::empty()),
                strings_view(out@) == commands_view(cmds@).take(i as int).map_values(
                    |c: CommandModel| command_line(c),
                ),
            decreases cmds@.len() - i,
        {
            let ghost before = out@;
            out.push(cmds[i].to_string());
            proof {
                assert(commands_view(cmds@)[i as int] == cmds@[i as int].model());
                assert(strings_view(out@) =~= strings_view(before).push(
                    command_line(cmds@[i as int].model()),
                ));
                assert(commands_view(cmds@).take(i as int + 1).map_values(
                    |c: CommandModel| command_line(c),
                ) =~= commands_view(cmds@).take(i as int).map_values(
                    |c: CommandModel| command_line(c),
                ).push(command_line(cmds@[i as int].model())));
            }
            i += 1;
        }
        proof {
            assert(commands_view(cmds@).take(cmds@.len() as int) =~= commands_view(cmds@));
            assert(strings_view(out@) =~= approval_lines(*self));
        }
        out
    }
}

} // verus!
