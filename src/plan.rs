use crate::command::{pairs_view, strings_view};
use crate::frontmatter::{lines_of, text_lines};
use crate::order::sorted_by_input;
use crate::input::{Input, InputModel, has_prefix, same_text, starts_with, text_of};
use crate::path::{path_join, joined_path, path_parent, path_parent_of};
use crate::step::{
    DownloadArtefact, Step, StepModel, artefacts_view, concat, copy_pairs, opt_view, push_str,
    steps_view,
};
use vstd::prelude::*;
use vstd::string::*;

verus! {

/// The dataset under which this tool keeps its inputs.
pub const HOME_DATASET: &'static str = "rpool/buildomat-at-home";

/// The dataset mounted at [`INPUT_ROOT`].
pub const INPUT_DATASET: &'static str = "rpool/input";

/// The dataset mounted at [`WORK_ROOT`], recreated for every job.
pub const WORK_DATASET: &'static str = "rpool/work";

/// Where inputs are mounted, one directory per dependency.
pub const INPUT_ROOT: &'static str = "/input";

/// Where a job runs.
pub const WORK_ROOT: &'static str = "/work";

/// A dependency a job declares: the name it is mounted under, and the job
/// whose output it is.
#[derive(Debug, Clone)]
pub struct Dependency {
    pub key: String,
    pub job: String,
}

/// The metadata at the head of a job script.
#[derive(Debug, Clone)]
pub struct FrontMatter {
    pub name: String,
    pub dependencies: Vec<Dependency>,
    pub skip_clone: bool,
}

/// What was found of the dataset tree before planning.
#[derive(Debug, Clone)]
pub struct PoolState {
    pub home_exists: bool,
    /// Datasets under [`HOME_DATASET`] mounted below [`INPUT_ROOT`], with their
    /// mountpoints.
    pub mounted: Vec<(String, String)>,
    pub input_exists: bool,
    pub work_exists: bool,
}

/// What was found of one input before planning.
#[derive(Debug, Clone)]
pub struct InputFacts {
    pub input: Input,
    /// The job that produced the input: for a local build its dataset's
    /// job-name property, for a remote run the check run's name. `None`: the
    /// input was not found.
    pub job_name: Option<String>,
    /// Whether the input's dataset exists (remote runs).
    pub dataset_exists: bool,
    /// Whether the input's dataset has `readonly=off`: a download that did not
    /// finish (remote runs).
    pub readonly_off: bool,
    /// The artefacts of the check run, as (relative path, URL).
    pub artefacts: Vec<(String, String)>,
}

/// The state of the repository a job is cloned from.
#[derive(Debug, Clone)]
pub struct SourceState {
    /// The commit to check out.
    pub treeish: String,
    /// The URL of the `origin` remote.
    pub remote: String,
}

/// The steps that bring the machine to a job's state, run it and keep its output.
#[derive(Debug, Clone, PartialEq, Eq)]
pub struct Plan(pub Vec<Step>);

/// Why no plan can be made.
#[derive(Debug, Clone, PartialEq, Eq)]
pub enum PlanError {
    /// The script is not in `.github/buildomat/jobs` of a repository.
    MisplacedScript,
    /// A local build has no dataset with a job name.
    InputNotFound(Input),
    /// An input comes from a job that the script does not depend on.
    NotAnInput(Input),
    /// Dependencies (by key) that no input provides.
    MissingInputs(Vec<String>),
}

pub ghost enum PlanErrorModel {
    MisplacedScript,
    InputNotFound(InputModel),
    NotAnInput(InputModel),
    MissingInputs(Seq<Seq<char>>),
}

impl PlanError {
    pub open spec fn model(&self) -> PlanErrorModel {
        match self {
            PlanError::MisplacedScript => PlanErrorModel::MisplacedScript,
            PlanError::InputNotFound(i) => PlanErrorModel::InputNotFound(i.model()),
            PlanError::NotAnInput(i) => PlanErrorModel::NotAnInput(i.model()),
            PlanError::MissingInputs(v) => PlanErrorModel::MissingInputs(strings_view(v@)),
        }
    }
}

pub open spec fn deps_view(v: Seq<Dependency>) -> Seq<(Seq<char>, Seq<char>)> {
    v.map_values(|d: Dependency| (d.key@, d.job@))
}

/// The key of the first dependency on `job`.
pub open spec fn dep_key(deps: Seq<(Seq<char>, Seq<char>)>, job: Seq<char>) -> Option<Seq<char>>
    decreases deps.len(),
{
    if deps.len() == 0 {
        None
    } else if deps[0].1 == job {
        Some(deps[0].0)
    } else {
        dep_key(deps.drop_first(), job)
    }
}

/// The keys of the dependencies whose job is not in `matched`, in order.
pub open spec fn missing_keys(deps: Seq<(Seq<char>, Seq<char>)>, matched: Seq<Seq<char>>) -> Seq<
    Seq<char>,
>
    decreases deps.len(),
{
    if deps.len() == 0 {
        Seq::empty()
    } else {
        let rest = missing_keys(deps.drop_last(), matched);
        if matched.contains(deps.last().1) {
            rest
        } else {
            rest.push(deps.last().0)
        }
    }
}

/// The mounts without those of `ds`.
pub open spec fn unmount(m: Seq<(Seq<char>, Seq<char>)>, ds: Seq<char>) -> Seq<(Seq<char>, Seq<char>)>
    decreases m.len(),
{
    if m.len() == 0 {
        m
    } else {
        let rest = unmount(m.drop_last(), ds);
        if m.last().0 == ds {
            rest
        } else {
            rest.push(m.last())
        }
    }
}

/// Where `ds` is mounted, by its last entry.
pub open spec fn mount_of(m: Seq<(Seq<char>, Seq<char>)>, ds: Seq<char>) -> Option<Seq<char>>
    decreases m.len(),
{
    if m.len() == 0 {
        None
    } else if m.last().0 == ds {
        Some(m.last().1)
    } else {
        mount_of(m.drop_last(), ds)
    }
}

/// The dataset that holds an input.
pub open spec fn input_dataset(i: InputModel) -> Seq<char> {
    HOME_DATASET@ + "/"@ + text_of(i)
}

/// What the per-input pass has gathered so far.
pub ghost struct Resolution {
    /// Mounts below the input root that no input has claimed.
    pub mounted: Seq<(Seq<char>, Seq<char>)>,
    /// Datasets of interrupted downloads, destroyed.
    pub cleanup: Seq<StepModel>,
    /// Datasets created or moved to their mountpoint.
    pub mount: Seq<StepModel>,
    pub downloads: Seq<(Seq<char>, Seq<char>)>,
    /// Datasets marked read-only once every download is done.
    pub readonly: Seq<StepModel>,
    /// Jobs that some input comes from.
    pub matched: Seq<Seq<char>>,
}

/// The artefacts of a check run, placed below a mountpoint.
pub open spec fn placed(mp: Seq<char>, arts: Seq<(Seq<char>, Seq<char>)>) -> Seq<
    (Seq<char>, Seq<char>),
> {
    arts.map_values(|a: (Seq<char>, Seq<char>)| (mp + a.0, a.1))
}

/// One input taken into account.
pub open spec fn resolve_one(st: Resolution, f: InputFacts, deps: Seq<(Seq<char>, Seq<char>)>, chown: Seq<char>) -> Result<Resolution, PlanErrorModel> {
    match f.job_name {
        None => Err(PlanErrorModel::InputNotFound(f.input.model())),
        Some(job) => match dep_key(deps, job@) {
            None => Err(PlanErrorModel::NotAnInput(f.input.model())),
            Some(k) => {
                let matched = st.matched.push(job@);
                let ds = input_dataset(f.input.model());
                let mp = joined_path(INPUT_ROOT@, k);
                let mounted = unmount(st.mounted, ds);
                if f.input is LocalBuild || (f.dataset_exists && !f.readonly_off) {
                    Ok(
                        Resolution {
                            matched,
                            mounted,
                            mount: if mount_of(st.mounted, ds) == Some(mp) {
                                st.mount
                            } else {
                                st.mount.push(
                                    StepModel::SetDatasetMountpoint { dataset: ds, mountpoint: mp },
                                )
                            },
                            ..st
                        },
                    )
                } else {
                    Ok(
                        Resolution {
                            mounted,
                            cleanup: if f.dataset_exists {
                                st.cleanup.push(StepModel::DestroyDataset { dataset: ds })
                            } else {
                                st.cleanup
                            },
                            mount: st.mount.push(
                                StepModel::CreateDataset {
                                    dataset: ds,
                                    mountpoint: Some(mp),
                                    create_parents: true,
                                    chown,
                                },
                            ),
                            downloads: st.downloads + placed(mp, pairs_view(f.artefacts@)),
                            readonly: st.readonly.push(StepModel::SetDatasetReadOnly { dataset: ds }),
                            matched,
                        },
                    )
                }
            },
        },
    }
}

pub open spec fn initial_resolution(pool: PoolState) -> Resolution {
    Resolution {
        mounted: if pool.home_exists {
            pairs_view(pool.mounted@)
        } else {
            Seq::empty()
        },
        cleanup: Seq::empty(),
        mount: Seq::empty(),
        downloads: Seq::empty(),
        readonly: Seq::empty(),
        matched: Seq::empty(),
    }
}

/// The first `n` inputs taken into account, in order; the first error stops.
pub open spec fn resolve_prefix(
    facts: Seq<InputFacts>,
    n: nat,
    pool: PoolState,
    deps: Seq<(Seq<char>, Seq<char>)>,
    chown: Seq<char>,
) -> Result<Resolution, PlanErrorModel>
    decreases n,
{
    if n == 0 {
        Ok(initial_resolution(pool))
    } else {
        match resolve_prefix(facts, (n - 1) as nat, pool, deps, chown) {
            Err(e) => Err(e),
            Ok(st) => resolve_one(st, facts[n - 1], deps, chown),
        }
    }
}


pub open spec fn digit_of(d: nat) -> char {
    if d == 0 {
        '0'
    } else if d == 1 {
        '1'
    } else if d == 2 {
        '2'
    } else if d == 3 {
        '3'
    } else if d == 4 {
        '4'
    } else if d == 5 {
        '5'
    } else if d == 6 {
        '6'
    } else if d == 7 {
        '7'
    } else if d == 8 {
        '8'
    } else {
        '9'
    }
}

/// The decimal digits of `n`.
pub open spec fn decimal_of(n: nat) -> Seq<char>
    decreases n,
{
    if n < 10 {
        seq![digit_of(n)]
    } else {
        decimal_of(n / 10).push(digit_of(n % 10))
    }
}

pub open spec fn bootstrap(pool: PoolState, chown: Seq<char>) -> Seq<StepModel> {
    (if !pool.home_exists {
        seq![
            StepModel::Comment("create rpool/buildomat-at-home"@),
            StepModel::CreateDataset {
                dataset: HOME_DATASET@,
                mountpoint: None,
                create_parents: false,
                chown,
            },
        ]
    } else {
        Seq::empty()
    }) + (if !pool.input_exists {
        seq![
            StepModel::Comment("create rpool/input (at /input)"@),
            StepModel::CreateDataset {
                dataset: INPUT_DATASET@,
                mountpoint: Some(INPUT_ROOT@),
                create_parents: false,
                chown,
            },
        ]
    } else {
        Seq::empty()
    }) + (if pool.work_exists {
        seq![
            StepModel::Comment("recreate rpool/work (at /work)"@),
            StepModel::DestroyDataset { dataset: WORK_DATASET@ },
        ]
    } else {
        seq![StepModel::Comment("create rpool/work (at /work)"@)]
    }) + seq![
        StepModel::CreateDataset {
            dataset: WORK_DATASET@,
            mountpoint: Some(WORK_ROOT@),
            create_parents: false,
            chown,
        },
    ]
}

/// Steps under a heading, or nothing when there are none.
pub open spec fn section(title: Seq<char>, steps: Seq<StepModel>) -> Seq<StepModel> {
    if steps.len() == 0 {
        Seq::empty()
    } else {
        seq![StepModel::Comment(title)] + steps
    }
}

pub open spec fn unmount_steps(m: Seq<(Seq<char>, Seq<char>)>) -> Seq<StepModel> {
    m.map_values(|p: (Seq<char>, Seq<char>)| StepModel::InheritDatasetMountpoint { dataset: p.0 })
}

pub open spec fn download_section(d: Seq<(Seq<char>, Seq<char>)>) -> Seq<StepModel> {
    if d.len() == 0 {
        Seq::empty()
    } else {
        seq![
            StepModel::Comment("download "@ + decimal_of(d.len()) + " artifacts"@),
            StepModel::DownloadArtefacts(d),
        ]
    }
}

pub open spec fn is_sep(c: char) -> bool {
    c == '/' || c == ':'
}

/// The index of the last `/` or `:` of `s`.
pub open spec fn last_sep(s: Seq<char>) -> Option<int>
    decreases s.len(),
{
    if s.len() == 0 {
        None
    } else if is_sep(s.last()) {
        Some(s.len() - 1)
    } else {
        last_sep(s.drop_last())
    }
}

pub open spec fn strip_git(s: Seq<char>) -> Seq<char> {
    if s.len() >= 4 && s.subrange(s.len() - 4, s.len() as int) == ".git"@ {
        s.subrange(0, s.len() - 4)
    } else {
        s
    }
}

/// Where a clone goes: `/work/<owner>/<repo>` from the last two parts of the
/// remote URL (without `.git`), or `/work` when it has one part only.
pub open spec fn clone_dest(remote: Seq<char>) -> Seq<char> {
    match last_sep(remote) {
        None => WORK_ROOT@,
        Some(i) => {
            let head = remote.subrange(0, i);
            let owner = match last_sep(head) {
                None => head,
                Some(j) => head.subrange(j + 1, i),
            };
            joined_path(joined_path(WORK_ROOT@, owner), strip_git(remote.subrange(i + 1, remote.len() as int)))
        },
    }
}

/// The `n`-th ancestor of a path, the path itself first.
pub open spec fn ancestor(p: Seq<char>, n: nat) -> Option<Seq<char>>
    decreases n,
{
    if n == 0 {
        Some(p)
    } else {
        match ancestor(p, (n - 1) as nat) {
            None => None,
            Some(q) => path_parent_of(q),
        }
    }
}

/// The repository of a script in `<root>/.github/buildomat/jobs`.
pub open spec fn job_root_of(script: Seq<char>) -> Option<Seq<char>> {
    match ancestor(script, 4) {
        None => None,
        Some(root) => if Some(
            joined_path(joined_path(joined_path(root, ".github"@), "buildomat"@), "jobs"@),
        ) == path_parent_of(script) {
            Some(root)
        } else {
            None
        },
    }
}

pub open spec fn clones(fm: FrontMatter, source: Option<SourceState>) -> bool {
    !fm.skip_clone && source is Some
}

pub open spec fn workdir_of(fm: FrontMatter, source: Option<SourceState>) -> Seq<char> {
    if clones(fm, source) {
        clone_dest(source->Some_0.remote@)
    } else {
        WORK_ROOT@
    }
}

/// Clone, run and save.
pub open spec fn tail_steps(
    script: Seq<char>,
    root: Seq<char>,
    fm: FrontMatter,
    source: Option<SourceState>,
    new_id: u128,
) -> Seq<StepModel> {
    let saved = InputModel::LocalBuild { id: new_id };
    (if clones(fm, source) {
        seq![
            StepModel::Comment("clone repository into /work"@),
            StepModel::CloneRepo {
                src: root,
                treeish: source->Some_0.treeish@,
                dest: clone_dest(source->Some_0.remote@),
            },
        ]
    } else {
        Seq::empty()
    }) + seq![
        StepModel::Comment("run job script"@),
        StepModel::RunScript { script, workdir: workdir_of(fm, source) },
        StepModel::Comment("save /work as "@ + text_of(saved)),
        StepModel::SaveWorkAsInput {
            work_dataset: WORK_DATASET@,
            new_dataset: input_dataset(saved),
            job_name: fm.name@,
            input: saved,
        },
    ]
}

/// The plan for a job, or why there is none.
pub open spec fn plan_of(
    script: Seq<char>,
    fm: FrontMatter,
    pool: PoolState,
    chown: Seq<char>,
    facts: Seq<InputFacts>,
    source: Option<SourceState>,
    new_id: u128,
) -> Result<Seq<StepModel>, PlanErrorModel> {
    let deps = deps_view(fm.dependencies@);
    match job_root_of(script) {
        None => Err(PlanErrorModel::MisplacedScript),
        Some(root) => match resolve_prefix(facts, facts.len(), pool, deps, chown) {
            Err(e) => Err(e),
            Ok(st) => {
                let missing = missing_keys(deps, st.matched);
                if missing.len() > 0 {
                    Err(PlanErrorModel::MissingInputs(missing))
                } else {
                    Ok(
                        bootstrap(pool, chown) + section(
                            "remove inputs from a previous job from /input"@,
                            unmount_steps(st.mounted),
                        ) + section("remove incomplete /input datasets"@, st.cleanup) + section(
                            "set up datasets for /input"@,
                            st.mount,
                        ) + download_section(st.downloads) + section(
                            "mark /input datasets read-only"@,
                            st.readonly,
                        ) + tail_steps(script, root, fm, source, new_id),
                    )
                }
            },
        },
    }
}


/// The index of the first dependency on `job`.
fn find_dep(deps: &Vec<Dependency>, job: &str) -> (r: Option<usize>)
    ensures
        match r {
            Some(i) => i < deps@.len() && dep_key(deps_view(deps@), job@) == Some(deps@[i as int].key@),
            None => dep_key(deps_view(deps@), job@) is None,
        },
{
    let ghost dv = deps_view(deps@);
    let mut i: usize = 0;
    assert(dv.skip(0) =~= dv);
    while i < deps.len()
        invariant
            i <= deps@.len(),
            dv == deps_view(deps@),
            dep_key(dv, job@) == dep_key(dv.skip(i as int), job@),
        decreases deps@.len() - i,
    {
        assert(dv.skip(i as int)[0] == dv[i as int]);
        if same_text(deps[i].job.as_str(), job) {
            return Some(i);
        }
        assert(dv.skip(i as int).drop_first() =~= dv.skip(i as int + 1));
        i += 1;
    }
    None
}

/// Whether `x` is one of `v`.
fn contains_text(v: &Vec<String>, x: &str) -> (r: bool)
    ensures
        r == strings_view(v@).contains(x@),
{
    let mut i: usize = 0;
    while i < v.len()
        invariant
            i <= v@.len(),
            forall|j: int| 0 <= j < i ==> v@[j]@ != x@,
        decreases v@.len() - i,
    {
        if same_text(v[i].as_str(), x) {
            assert(strings_view(v@)[i as int] == x@);
            return true;
        }
        i += 1;
    }
    assert(!strings_view(v@).contains(x@)) by {
        if strings_view(v@).contains(x@) {
            let j = choose|j: int| 0 <= j < strings_view(v@).len() && strings_view(v@)[j] == x@;
            assert(v@[j]@ == x@);
        }
    }
    false
}

/// The keys of dependencies on jobs that no input comes from.
fn missing_deps(deps: &Vec<Dependency>, matched: &Vec<String>) -> (r: Vec<String>)
    ensures
        strings_view(r@) == missing_keys(deps_view(deps@), strings_view(matched@)),
{
    let ghost dv = deps_view(deps@);
    let mut r: Vec<String> = Vec::new();
    let mut i: usize = 0;
    while i < deps.len()
        invariant
            i <= deps@.len(),
            dv == deps_view(deps@),
            strings_view(r@) == missing_keys(dv.take(i as int), strings_view(matched@)),
        decreases deps@.len() - i,
    {
        assert(dv.take(i as int + 1).drop_last() =~= dv.take(i as int));
        assert(dv.take(i as int + 1).last() == dv[i as int]);
        if !contains_text(matched, deps[i].job.as_str()) {
            push_str(&mut r, deps[i].key.as_str());
        }
        i += 1;
    }
    assert(dv.take(deps@.len() as int) =~= dv);
    r
}

/// The mounts without those of `ds`.
fn without_mount(m: &Vec<(String, String)>, ds: &str) -> (r: Vec<(String, String)>)
    ensures
        pairs_view(r@) == unmount(pairs_view(m@), ds@),
{
    let ghost mv = pairs_view(m@);
    let mut r: Vec<(String, String)> = Vec::new();
    let mut i: usize = 0;
    while i < m.len()
        invariant
            i <= m@.len(),
            mv == pairs_view(m@),
            pairs_view(r@) == unmount(mv.take(i as int), ds@),
        decreases m@.len() - i,
    {
        assert(mv.take(i as int + 1).drop_last() =~= mv.take(i as int));
        assert(mv.take(i as int + 1).last() == mv[i as int]);
        if !same_text(m[i].0.as_str(), ds) {
            let ghost before = r@;
            r.push((m[i].0.clone(), m[i].1.clone()));
            assert(pairs_view(r@) =~= pairs_view(before).push(mv[i as int]));
        }
        i += 1;
    }
    assert(mv.take(m@.len() as int) =~= mv);
    r
}

/// Whether `ds` is mounted at `mp`.
fn mounted_at(m: &Vec<(String, String)>, ds: &str, mp: &str) -> (r: bool)
    ensures
        r == (mount_of(pairs_view(m@), ds@) == Some(mp@)),
{
    let ghost mv = pairs_view(m@);
    let mut found: Option<usize> = None;
    let mut i: usize = 0;
    while i < m.len()
        invariant
            i <= m@.len(),
            mv == pairs_view(m@),
            match found {
                Some(j) => j < i && mount_of(mv.take(i as int), ds@) == Some(mv[j as int].1),
                None => mount_of(mv.take(i as int), ds@) is None,
            },
        decreases m@.len() - i,
    {
        assert(mv.take(i as int + 1).drop_last() =~= mv.take(i as int));
        assert(mv.take(i as int + 1).last() == mv[i as int]);
        if same_text(m[i].0.as_str(), ds) {
            found = Some(i);
        }
        i += 1;
    }
    assert(mv.take(m@.len() as int) =~= mv);
    match found {
        Some(j) => same_text(m[j].1.as_str(), mp),
        None => false,
    }
}

fn digit_text(d: usize) -> (r: &'static str)
    requires
        d < 10,
    ensures
        r@ == seq![digit_of(d as nat)],
{
    proof {
        reveal_strlit("0");
        reveal_strlit("1");
        reveal_strlit("2");
        reveal_strlit("3");
        reveal_strlit("4");
        reveal_strlit("5");
        reveal_strlit("6");
        reveal_strlit("7");
        reveal_strlit("8");
        reveal_strlit("9");
    }
    let r = if d == 0 {
        "0"
    } else if d == 1 {
        "1"
    } else if d == 2 {
        "2"
    } else if d == 3 {
        "3"
    } else if d == 4 {
        "4"
    } else if d == 5 {
        "5"
    } else if d == 6 {
        "6"
    } else if d == 7 {
        "7"
    } else if d == 8 {
        "8"
    } else {
        "9"
    };
    assert(r@ =~= seq![digit_of(d as nat)]);
    r
}

/// The decimal digits of `n`.
fn decimal(n: usize) -> (r: String)
    ensures
        r@ == decimal_of(n as nat),
    decreases n,
{
    if n < 10 {
        digit_text(n).to_owned()
    } else {
        let mut r = decimal(n / 10);
        r.append(digit_text(n % 10));
        assert(r@ =~= decimal_of(n as nat));
        r
    }
}

/// The index of the last `/` or `:` before `end`.
fn find_last_sep(s: &str, end: usize) -> (r: Option<usize>)
    requires
        end <= s@.len(),
    ensures
        match r {
            Some(i) => last_sep(s@.subrange(0, end as int)) == Some(i as int),
            None => last_sep(s@.subrange(0, end as int)) is None,
        },
{
    let mut found: Option<usize> = None;
    let mut i: usize = 0;
    assert(s@.subrange(0, 0).len() == 0);
    while i < end
        invariant
            i <= end <= s@.len(),
            match found {
                Some(j) => last_sep(s@.subrange(0, i as int)) == Some(j as int),
                None => last_sep(s@.subrange(0, i as int)) is None,
            },
        decreases end - i,
    {
        let c = s.get_char(i);
        assert(s@.subrange(0, i as int + 1).drop_last() =~= s@.subrange(0, i as int));
        assert(s@.subrange(0, i as int + 1).last() == c);
        if c == '/' || c == ':' {
            found = Some(i);
        }
        i += 1;
    }
    found
}

proof fn lemma_last_sep_bounds(s: Seq<char>)
    ensures
        match last_sep(s) {
            Some(i) => 0 <= i < s.len(),
            None => true,
        },
    decreases s.len(),
{
    if s.len() > 0 {
        lemma_last_sep_bounds(s.drop_last());
    }
}

/// A name without its `.git` ending.
fn without_git(s: &str) -> (r: String)
    ensures
        r@ == strip_git(s@),
{
    let n = s.unicode_len();
    if n >= 4 && same_text(s.substring_char(n - 4, n), ".git") {
        s.substring_char(0, n - 4).to_owned()
    } else {
        s.to_owned()
    }
}

/// Where the repository is cloned to for a remote URL.
pub fn clone_destination(remote: &str) -> (r: String)
    ensures
        r@ == clone_dest(remote@),
{
    let n = remote.unicode_len();
    assert(remote@.subrange(0, n as int) =~= remote@);
    proof {
        lemma_last_sep_bounds(remote@);
    }
    match find_last_sep(remote, n) {
        None => WORK_ROOT.to_owned(),
        Some(i) => {
            proof {
                lemma_last_sep_bounds(remote@.subrange(0, i as int));
            }
            let owner = match find_last_sep(remote, i) {
                None => remote.substring_char(0, i),
                Some(j) => {
                    assert(remote@.subrange(j as int + 1, i as int) =~= remote@.subrange(0, i as int).subrange(j as int + 1, i as int));
                    remote.substring_char(j + 1, i)
                },
            };
            let repo = without_git(remote.substring_char(i + 1, n));
            let base = path_join(WORK_ROOT, owner);
            path_join(base.as_str(), repo.as_str())
        },
    }
}

proof fn lemma_ancestor_none(p: Seq<char>, m: nat, n: nat)
    requires
        m <= n,
        ancestor(p, m) is None,
    ensures
        ancestor(p, n) is None,
    decreases n - m,
{
    if m < n {
        lemma_ancestor_none(p, m, (n - 1) as nat);
    }
}

/// The repository of a script in `<root>/.github/buildomat/jobs`, or `None`
/// when the script lies elsewhere.
pub fn job_root(script: &str) -> (r: Option<String>)
    ensures
        opt_view(r) == job_root_of(script@),
{
    let mut cur = script.to_owned();
    let mut k: usize = 0;
    while k < 4
        invariant
            k <= 4,
            ancestor(script@, k as nat) == Some(cur@),
        decreases 4 - k,
    {
        match path_parent(cur.as_str()) {
            None => {
                proof {
                    lemma_ancestor_none(script@, (k + 1) as nat, 4);
                }
                return None;
            },
            Some(p) => {
                cur = p;
            },
        }
        k += 1;
    }
    let a = path_join(cur.as_str(), ".github");
    let b = path_join(a.as_str(), "buildomat");
    let c = path_join(b.as_str(), "jobs");
    match path_parent(script) {
        Some(p) => if same_text(c.as_str(), p.as_str()) {
            Some(cur)
        } else {
            None
        },
        None => None,
    }
}


/// What the per-input pass has gathered so far.
struct Gathered {
    mounted: Vec<(String, String)>,
    cleanup: Vec<Step>,
    mount: Vec<Step>,
    downloads: Vec<DownloadArtefact>,
    readonly: Vec<Step>,
    matched: Vec<String>,
}

impl Gathered {
    spec fn model(&self) -> Resolution {
        Resolution {
            mounted: pairs_view(self.mounted@),
            cleanup: steps_view(self.cleanup@),
            mount: steps_view(self.mount@),
            downloads: artefacts_view(self.downloads@),
            readonly: steps_view(self.readonly@),
            matched: strings_view(self.matched@),
        }
    }
}

fn push_step(v: &mut Vec<Step>, s: Step)
    ensures
        steps_view(final(v)@) == steps_view(old(v)@).push(s.model()),
{
    v.push(s);
    assert(steps_view(final(v)@) =~= steps_view(old(v)@).push(s.model()));
}

/// The artefacts of a check run, placed below `mp`, added to `out`.
fn place_artefacts(out: &mut Vec<DownloadArtefact>, mp: &str, arts: &Vec<(String, String)>)
    ensures
        artefacts_view(final(out)@) == artefacts_view(old(out)@) + placed(mp@, pairs_view(arts@)),
{
    let ghost start = artefacts_view(out@);
    let ghost av = pairs_view(arts@);
    let mut i: usize = 0;
    assert(placed(mp@, av.take(0)) =~= Seq::<(Seq<char>, Seq<char>)>::empty());
    assert(start + placed(mp@, av.take(0)) =~= start);
    while i < arts.len()
        invariant
            i <= arts@.len(),
            av == pairs_view(arts@),
            artefacts_view(out@) == start + placed(mp@, av.take(i as int)),
        decreases arts@.len() - i,
    {
        let ghost before = out@;
        out.push(DownloadArtefact { path: concat(mp, arts[i].0.as_str()), url: arts[i].1.clone() });
        assert(placed(mp@, av.take(i as int + 1)) =~= placed(mp@, av.take(i as int)).push(
            (mp@ + av[i as int].0, av[i as int].1),
        ));
        assert(artefacts_view(out@) =~= artefacts_view(before).push(
            (mp@ + av[i as int].0, av[i as int].1),
        ));
        i += 1;
    }
    assert(av.take(arts@.len() as int) =~= av);
}

/// The dataset that holds an input.
pub fn dataset_of(input: &Input) -> (r: String)
    ensures
        r@ == input_dataset(input.model()),
{
    let t = input.to_string();
    let mut r = concat(HOME_DATASET, "/");
    r.append(t.as_str());
    r
}

/// One input taken into account.
fn resolve_input(
    st: &mut Gathered,
    f: &InputFacts,
    deps: &Vec<Dependency>,
    chown: &str,
) -> (r: Result<(), PlanError>)
    ensures
        match r {
            Ok(()) => resolve_one(old(st).model(), *f, deps_view(deps@), chown@) == Ok::<
                Resolution,
                PlanErrorModel,
            >(final(st).model()),
            Err(e) => resolve_one(old(st).model(), *f, deps_view(deps@), chown@) == Err::<
                Resolution,
                PlanErrorModel,
            >(e.model()),
        },
{
    let job = match &f.job_name {
        None => {
            return Err(PlanError::InputNotFound(f.input.duplicate()));
        },
        Some(j) => j,
    };
    let k = match find_dep(deps, job.as_str()) {
        None => {
            return Err(PlanError::NotAnInput(f.input.duplicate()));
        },
        Some(i) => i,
    };
    push_str(&mut st.matched, job.as_str());
    let ds = dataset_of(&f.input);
    let mp = path_join(INPUT_ROOT, deps[k].key.as_str());
    let in_place = mounted_at(&st.mounted, ds.as_str(), mp.as_str());
    st.mounted = without_mount(&st.mounted, ds.as_str());
    let local = match &f.input {
        Input::LocalBuild { .. } => true,
        Input::GitHubRun { .. } => false,
    };
    if local || (f.dataset_exists && !f.readonly_off) {
        if !in_place {
            push_step(&mut st.mount, Step::SetDatasetMountpoint { dataset: ds, mountpoint: mp });
        }
        return Ok(());
    }
    if f.dataset_exists {
        push_step(&mut st.cleanup, Step::DestroyDataset { dataset: ds.clone() });
    }
    place_artefacts(&mut st.downloads, mp.as_str(), &f.artefacts);
    push_step(
        &mut st.mount,
        Step::CreateDataset {
            dataset: ds.clone(),
            mountpoint: Some(mp),
            create_parents: true,
            chown: chown.to_owned(),
        },
    );
    push_step(&mut st.readonly, Step::SetDatasetReadOnly { dataset: ds });
    Ok(())
}


proof fn lemma_resolve_err(
    facts: Seq<InputFacts>,
    m: nat,
    n: nat,
    pool: PoolState,
    deps: Seq<(Seq<char>, Seq<char>)>,
    chown: Seq<char>,
)
    requires
        m <= n,
        resolve_prefix(facts, m, pool, deps, chown) is Err,
    ensures
        resolve_prefix(facts, n, pool, deps, chown) == resolve_prefix(facts, m, pool, deps, chown),
    decreases n - m,
{
    if m < n {
        lemma_resolve_err(facts, m, (n - 1) as nat, pool, deps, chown);
    }
}

/// Steps under a heading, added to `plan` when there are any.
fn push_section(plan: &mut Vec<Step>, title: &str, steps: Vec<Step>)
    ensures
        steps_view(final(plan)@) == steps_view(old(plan)@) + section(title@, steps_view(steps@)),
{
    if steps.len() == 0 {
        assert(steps_view(old(plan)@) + section(title@, steps_view(steps@)) =~= steps_view(old(plan)@));
        return;
    }
    push_step(plan, Step::Comment(title.to_owned()));
    let ghost mid = plan@;
    let mut steps = steps;
    let ghost all = steps@;
    plan.append(&mut steps);
    assert(steps_view(mid + all) =~= steps_view(mid) + steps_view(all));
    assert(steps_view(final(plan)@) =~= steps_view(old(plan)@) + section(title@, steps_view(all)));
}

fn push_bootstrap(plan: &mut Vec<Step>, pool: &PoolState, chown: &str)
    ensures
        steps_view(final(plan)@) == steps_view(old(plan)@) + bootstrap(*pool, chown@),
{
    let ghost start = steps_view(plan@);
    if !pool.home_exists {
        push_step(plan, Step::Comment("create rpool/buildomat-at-home".to_owned()));
        push_step(
            plan,
            Step::CreateDataset {
                dataset: HOME_DATASET.to_owned(),
                mountpoint: None,
                create_parents: false,
                chown: chown.to_owned(),
            },
        );
    }
    if !pool.input_exists {
        push_step(plan, Step::Comment("create rpool/input (at /input)".to_owned()));
        push_step(
            plan,
            Step::CreateDataset {
                dataset: INPUT_DATASET.to_owned(),
                mountpoint: Some(INPUT_ROOT.to_owned()),
                create_parents: false,
                chown: chown.to_owned(),
            },
        );
    }
    if pool.work_exists {
        push_step(plan, Step::Comment("recreate rpool/work (at /work)".to_owned()));
        push_step(plan, Step::DestroyDataset { dataset: WORK_DATASET.to_owned() });
    } else {
        push_step(plan, Step::Comment("create rpool/work (at /work)".to_owned()));
    }
    push_step(
        plan,
        Step::CreateDataset {
            dataset: WORK_DATASET.to_owned(),
            mountpoint: Some(WORK_ROOT.to_owned()),
            create_parents: false,
            chown: chown.to_owned(),
        },
    );
    assert(steps_view(plan@) =~= start + bootstrap(*pool, chown@));
}

/// Unmount steps for mounts that no input claimed.
fn unmount_all(m: &Vec<(String, String)>) -> (r: Vec<Step>)
    ensures
        steps_view(r@) == unmount_steps(pairs_view(m@)),
{
    let ghost mv = pairs_view(m@);
    let mut r: Vec<Step> = Vec::new();
    let mut i: usize = 0;
    while i < m.len()
        invariant
            i <= m@.len(),
            mv == pairs_view(m@),
            steps_view(r@) == unmount_steps(mv.take(i as int)),
        decreases m@.len() - i,
    {
        push_step(&mut r, Step::InheritDatasetMountpoint { dataset: m[i].0.clone() });
        assert(unmount_steps(mv.take(i as int + 1)) =~= unmount_steps(mv.take(i as int)).push(
            StepModel::InheritDatasetMountpoint { dataset: mv[i as int].0 },
        ));
        i += 1;
    }
    assert(mv.take(m@.len() as int) =~= mv);
    r
}

fn push_downloads(plan: &mut Vec<Step>, downloads: Vec<DownloadArtefact>)
    ensures
        steps_view(final(plan)@) == steps_view(old(plan)@) + download_section(
            artefacts_view(downloads@),
        ),
{
    if downloads.len() == 0 {
        assert(steps_view(old(plan)@) + download_section(artefacts_view(downloads@)) =~= steps_view(
            old(plan)@,
        ));
        return;
    }
    let ghost start = steps_view(plan@);
    let n = decimal(downloads.len());
    let mut c = concat("download ", n.as_str());
    c.append(" artifacts");
    push_step(plan, Step::Comment(c));
    let ghost dv = artefacts_view(downloads@);
    push_step(plan, Step::DownloadArtefacts(downloads));
    assert(steps_view(plan@) =~= start + download_section(dv));
}

fn push_tail(
    plan: &mut Vec<Step>,
    script: &str,
    root: String,
    frontmatter: &FrontMatter,
    source: &Option<SourceState>,
    new_id: u128,
)
    ensures
        steps_view(final(plan)@) == steps_view(old(plan)@) + tail_steps(
            script@,
            root@,
            *frontmatter,
            *source,
            new_id,
        ),
{
    let ghost start = steps_view(plan@);
    let workdir = match source {
        Some(src) if !frontmatter.skip_clone => {
            let dest = clone_destination(src.remote.as_str());
            push_step(plan, Step::Comment("clone repository into /work".to_owned()));
            push_step(
                plan,
                Step::CloneRepo { src: root, treeish: src.treeish.clone(), dest: dest.clone() },
            );
            dest
        },
        _ => WORK_ROOT.to_owned(),
    };
    push_step(plan, Step::Comment("run job script".to_owned()));
    push_step(plan, Step::RunScript { script: script.to_owned(), workdir });
    let saved = Input::LocalBuild { id: new_id };
    let text = saved.to_string();
    push_step(plan, Step::Comment(concat("save /work as ", text.as_str())));
    let new_dataset = dataset_of(&saved);
    push_step(
        plan,
        Step::SaveWorkAsInput {
            work_dataset: WORK_DATASET.to_owned(),
            new_dataset,
            job_name: frontmatter.name.clone(),
            input: saved,
        },
    );
    assert(steps_view(plan@) =~= start + tail_steps(script@, root@, *frontmatter, *source, new_id));
}

impl Plan {
    pub open spec fn model(&self) -> Seq<StepModel> {
        steps_view(self.0@)
    }

    /// The plan for the job in `script`, from what was found of the dataset
    /// tree (`pool`), of each input (`facts`, sorted by input, see
    /// [`crate::order::sort_facts`]) and of the repository (`source`);
    /// `chown` is the owner given to new mountpoints and `new_id` names the
    /// input the job's output becomes.
    pub fn build(
        script: &str,
        frontmatter: &FrontMatter,
        pool: &PoolState,
        chown: &str,
        facts: &Vec<InputFacts>,
        source: &Option<SourceState>,
        new_id: u128,
    ) -> (r: Result<Plan, PlanError>)
        requires
            sorted_by_input(facts@),
        ensures
            match r {
                Ok(p) => plan_of(script@, *frontmatter, *pool, chown@, facts@, *source, new_id)
                    == Ok::<Seq<StepModel>, PlanErrorModel>(p.model()),
                Err(e) => plan_of(script@, *frontmatter, *pool, chown@, facts@, *source, new_id)
                    == Err::<Seq<StepModel>, PlanErrorModel>(e.model()),
            },
    {
        let root = match job_root(script) {
            None => {
                return Err(PlanError::MisplacedScript);
            },
            Some(r) => r,
        };
        let ghost deps = deps_view(frontmatter.dependencies@);
        let mounted = if pool.home_exists {
            copy_pairs(&pool.mounted)
        } else {
            Vec::new()
        };
        let mut st = Gathered {
            mounted,
            cleanup: Vec::new(),
            mount: Vec::new(),
            downloads: Vec::new(),
            readonly: Vec::new(),
            matched: Vec::new(),
        };
        proof {
            let m = st.model();
            let z = initial_resolution(*pool);
            assert(m.mounted =~= z.mounted);
            assert(m.cleanup =~= z.cleanup);
            assert(m.mount =~= z.mount);
            assert(m.downloads =~= z.downloads);
            assert(m.readonly =~= z.readonly);
            assert(m.matched =~= z.matched);
        }
        let mut i: usize = 0;
        while i < facts.len()
            invariant
                i <= facts@.len(),
                deps == deps_view(frontmatter.dependencies@),
                job_root_of(script@) == Some(root@),
                resolve_prefix(facts@, i as nat, *pool, deps, chown@) == Ok::<
                    Resolution,
                    PlanErrorModel,
                >(st.model()),
            decreases facts@.len() - i,
        {
            let ghost before = st.model();
            match resolve_input(&mut st, &facts[i], &frontmatter.dependencies, chown) {
                Err(e) => {
                    proof {
                        assert(resolve_one(before, facts@[i as int], deps, chown@) == Err::<
                            Resolution,
                            PlanErrorModel,
                        >(e.model()));
                        assert(resolve_prefix(facts@, (i + 1) as nat, *pool, deps, chown@) == Err::<
                            Resolution,
                            PlanErrorModel,
                        >(e.model()));
                        lemma_resolve_err(
                            facts@,
                            (i + 1) as nat,
                            facts@.len(),
                            *pool,
                            deps,
                            chown@,
                        );
                    }
                    return Err(e);
                },
                Ok(()) => {},
            }
            i += 1;
        }
        let missing = missing_deps(&frontmatter.dependencies, &st.matched);
        if missing.len() > 0 {
            return Err(PlanError::MissingInputs(missing));
        }
        let mut plan: Vec<Step> = Vec::new();
        push_bootstrap(&mut plan, pool, chown);
        let unmounts = unmount_all(&st.mounted);
        push_section(&mut plan, "remove inputs from a previous job from /input", unmounts);
        push_section(&mut plan, "remove incomplete /input datasets", st.cleanup);
        push_section(&mut plan, "set up datasets for /input", st.mount);
        push_downloads(&mut plan, st.downloads);
        push_section(&mut plan, "mark /input datasets read-only", st.readonly);
        push_tail(&mut plan, script, root, frontmatter, source, new_id);
        proof {
            assert(steps_view(Seq::<Step>::empty()) =~= Seq::<StepModel>::empty());
            assert(Seq::<StepModel>::empty() + bootstrap(*pool, chown@) =~= bootstrap(*pool, chown@));
        }
        Ok(Plan(plan))
    }
}


/// No input comes from `job`.
pub open spec fn no_input_from(facts: Seq<InputFacts>, job: Seq<char>) -> bool {
    forall|i: int|
        0 <= i < facts.len() ==> match #[trigger] facts[i].job_name {
            Some(j) => j@ != job,
            None => true,
        }
}

proof fn lemma_unmatched_job(
    facts: Seq<InputFacts>,
    n: nat,
    pool: PoolState,
    deps: Seq<(Seq<char>, Seq<char>)>,
    chown: Seq<char>,
    job: Seq<char>,
)
    requires
        n <= facts.len(),
        no_input_from(facts, job),
        resolve_prefix(facts, n, pool, deps, chown) is Ok,
    ensures
        !resolve_prefix(facts, n, pool, deps, chown)->Ok_0.matched.contains(job),
    decreases n,
{
    if n > 0 {
        let prev = resolve_prefix(facts, (n - 1) as nat, pool, deps, chown);
        if prev is Err {
            assert(resolve_prefix(facts, n, pool, deps, chown) is Err);
        }
        lemma_unmatched_job(facts, (n - 1) as nat, pool, deps, chown, job);
        let f = facts[n - 1];
        let st = prev->Ok_0;
        let j = f.job_name->Some_0@;
        assert(j != job);
        let m2 = st.matched.push(j);
        assert(!m2.contains(job)) by {
            if m2.contains(job) {
                let k = choose|k: int| 0 <= k < m2.len() && m2[k] == job;
                if k < st.matched.len() {
                    assert(st.matched[k] == job);
                }
            }
        }
    } else {
        assert(!Seq::<Seq<char>>::empty().contains(job));
    }
}

proof fn lemma_missing_key(deps: Seq<(Seq<char>, Seq<char>)>, matched: Seq<Seq<char>>, d: int)
    requires
        0 <= d < deps.len(),
        !matched.contains(deps[d].1),
    ensures
        missing_keys(deps, matched).contains(deps[d].0),
    decreases deps.len(),
{
    let rest = missing_keys(deps.drop_last(), matched);
    if d == deps.len() - 1 {
        assert(rest.push(deps[d].0)[rest.len() as int] == deps[d].0);
    } else {
        assert(deps.drop_last()[d] == deps[d]);
        lemma_missing_key(deps.drop_last(), matched, d);
        let k = choose|k: int| 0 <= k < rest.len() && rest[k] == deps[d].0;
        if !matched.contains(deps.last().1) {
            assert(rest.push(deps.last().0)[k] == deps[d].0);
        }
    }
}

/// A declared dependency that no input comes from makes planning fail with an
/// error that names its key (once the script is in place and every input is
/// found and declared).
pub proof fn law_missing_dependency_is_named(
    script: Seq<char>,
    fm: FrontMatter,
    pool: PoolState,
    chown: Seq<char>,
    facts: Seq<InputFacts>,
    source: Option<SourceState>,
    new_id: u128,
    d: int,
)
    requires
        0 <= d < fm.dependencies@.len(),
        no_input_from(facts, fm.dependencies@[d].job@),
        job_root_of(script) is Some,
        resolve_prefix(facts, facts.len(), pool, deps_view(fm.dependencies@), chown) is Ok,
    ensures
        match plan_of(script, fm, pool, chown, facts, source, new_id) {
            Err(PlanErrorModel::MissingInputs(keys)) => keys.contains(fm.dependencies@[d].key@),
            _ => false,
        },
{
    let deps = deps_view(fm.dependencies@);
    lemma_unmatched_job(facts, facts.len(), pool, deps, chown, fm.dependencies@[d].job@);
    let st = resolve_prefix(facts, facts.len(), pool, deps, chown)->Ok_0;
    assert(deps[d] == (fm.dependencies@[d].key@, fm.dependencies@[d].job@));
    lemma_missing_key(deps, st.matched, d);
}

/// An input from a job that the script does not depend on makes planning
/// fail; when the inputs before it are all found and declared, the error names
/// it.
pub proof fn law_undeclared_input_is_named(
    script: Seq<char>,
    fm: FrontMatter,
    pool: PoolState,
    chown: Seq<char>,
    facts: Seq<InputFacts>,
    source: Option<SourceState>,
    new_id: u128,
    i: int,
)
    requires
        0 <= i < facts.len(),
        facts[i].job_name is Some,
        dep_key(deps_view(fm.dependencies@), facts[i].job_name->Some_0@) is None,
    ensures
        plan_of(script, fm, pool, chown, facts, source, new_id) is Err,
        job_root_of(script) is Some && resolve_prefix(
            facts,
            i as nat,
            pool,
            deps_view(fm.dependencies@),
            chown,
        ) is Ok ==> plan_of(script, fm, pool, chown, facts, source, new_id) == Err::<
            Seq<StepModel>,
            PlanErrorModel,
        >(PlanErrorModel::NotAnInput(facts[i].input.model())),
{
    let deps = deps_view(fm.dependencies@);
    if resolve_prefix(facts, i as nat, pool, deps, chown) is Ok {
        assert(resolve_prefix(facts, (i + 1) as nat, pool, deps, chown) is Err);
        lemma_resolve_err(facts, (i + 1) as nat, facts.len(), pool, deps, chown);
    } else {
        lemma_resolve_err(facts, i as nat, facts.len(), pool, deps, chown);
    }
}

/// An input whose data is already here (a local build, or a remote run whose
/// dataset exists and is complete) is not fetched again: nothing is destroyed,
/// created, downloaded or marked for it, it stays off the list of mounts to
/// drop, and it is moved to its mountpoint exactly when it is not there yet.
pub proof fn law_present_input_is_only_mounted(
    st: Resolution,
    f: InputFacts,
    deps: Seq<(Seq<char>, Seq<char>)>,
    chown: Seq<char>,
)
    requires
        f.job_name is Some,
        dep_key(deps, f.job_name->Some_0@) is Some,
        f.input is LocalBuild || (f.dataset_exists && !f.readonly_off),
    ensures
        ({
            let r = resolve_one(st, f, deps, chown)->Ok_0;
            let ds = input_dataset(f.input.model());
            let mp = joined_path(INPUT_ROOT@, dep_key(deps, f.job_name->Some_0@)->Some_0);
            &&& resolve_one(st, f, deps, chown) is Ok
            &&& r.downloads == st.downloads
            &&& r.cleanup == st.cleanup
            &&& r.readonly == st.readonly
            &&& r.mounted == unmount(st.mounted, ds)
            &&& r.mount == if mount_of(st.mounted, ds) == Some(mp) {
                st.mount
            } else {
                st.mount.push(StepModel::SetDatasetMountpoint { dataset: ds, mountpoint: mp })
            }
        }),
{
}

/// A remote run whose dataset exists but was left writable by an interrupted
/// download is destroyed, created again, fetched again and then marked
/// read-only.
pub proof fn law_interrupted_dataset_is_redone(
    st: Resolution,
    f: InputFacts,
    deps: Seq<(Seq<char>, Seq<char>)>,
    chown: Seq<char>,
)
    requires
        f.input is GitHubRun,
        f.job_name is Some,
        dep_key(deps, f.job_name->Some_0@) is Some,
        f.dataset_exists,
        f.readonly_off,
    ensures
        ({
            let r = resolve_one(st, f, deps, chown)->Ok_0;
            let ds = input_dataset(f.input.model());
            let mp = joined_path(INPUT_ROOT@, dep_key(deps, f.job_name->Some_0@)->Some_0);
            &&& resolve_one(st, f, deps, chown) is Ok
            &&& r.cleanup == st.cleanup.push(StepModel::DestroyDataset { dataset: ds })
            &&& r.mount == st.mount.push(
                StepModel::CreateDataset {
                    dataset: ds,
                    mountpoint: Some(mp),
                    create_parents: true,
                    chown,
                },
            )
            &&& r.downloads == st.downloads + placed(mp, pairs_view(f.artefacts@))
            &&& r.readonly == st.readonly.push(StepModel::SetDatasetReadOnly { dataset: ds })
        }),
{
}


/// The index of the first `c` in `s`.
pub open spec fn first_index(s: Seq<char>, c: char) -> Option<int>
    decreases s.len(),
{
    if s.len() == 0 {
        None
    } else {
        match first_index(s.drop_last(), c) {
            Some(i) => Some(i),
            None => if s.last() == c {
                Some(s.len() - 1)
            } else {
                None
            },
        }
    }
}

/// A line `<dataset>\t<mountpoint>` of a listing, kept when the mountpoint is
/// below the input root.
pub open spec fn mount_entry(l: Seq<char>) -> Option<(Seq<char>, Seq<char>)> {
    match first_index(l, '\t') {
        None => None,
        Some(i) => {
            let mp = l.subrange(i + 1, l.len() as int);
            if starts_with(mp, INPUT_ROOT@) {
                Some((l.subrange(0, i), mp))
            } else {
                None
            }
        },
    }
}

pub open spec fn mount_entries(ls: Seq<Seq<char>>) -> Seq<(Seq<char>, Seq<char>)>
    decreases ls.len(),
{
    if ls.len() == 0 {
        Seq::empty()
    } else {
        let r = mount_entries(ls.drop_last());
        match mount_entry(ls.last()) {
            Some(e) => r.push(e),
            None => r,
        }
    }
}

proof fn lemma_first_index_bounds(s: Seq<char>, c: char)
    ensures
        match first_index(s, c) {
            Some(i) => 0 <= i < s.len(),
            None => true,
        },
    decreases s.len(),
{
    if s.len() > 0 {
        lemma_first_index_bounds(s.drop_last(), c);
    }
}

fn find_tab(s: &str) -> (r: Option<usize>)
    ensures
        match r {
            Some(i) => first_index(s@, '\t') == Some(i as int),
            None => first_index(s@, '\t') is None,
        },
{
    let n = s.unicode_len();
    let mut found: Option<usize> = None;
    let mut i: usize = 0;
    while i < n
        invariant
            i <= n == s@.len(),
            match found {
                Some(j) => first_index(s@.subrange(0, i as int), '\t') == Some(j as int),
                None => first_index(s@.subrange(0, i as int), '\t') is None,
            },
        decreases n - i,
    {
        let c = s.get_char(i);
        assert(s@.subrange(0, i as int + 1).drop_last() =~= s@.subrange(0, i as int));
        assert(s@.subrange(0, i as int + 1).last() == c);
        if found.is_none() && c == '\t' {
            found = Some(i);
        }
        i += 1;
    }
    assert(s@.subrange(0, n as int) =~= s@);
    found
}

/// The datasets mounted below the input root, from the lines
/// `<dataset>\t<mountpoint>` of a dataset listing, in order.
pub fn input_mounts(listing: &str) -> (r: Vec<(String, String)>)
    ensures
        pairs_view(r@) == mount_entries(lines_of(listing@)),
{
    let ls = text_lines(listing);
    let ghost lv = strings_view(ls@);
    let mut r: Vec<(String, String)> = Vec::new();
    let mut i: usize = 0;
    while i < ls.len()
        invariant
            i <= ls@.len(),
            lv == strings_view(ls@),
            pairs_view(r@) == mount_entries(lv.take(i as int)),
        decreases ls@.len() - i,
    {
        assert(lv.take(i as int + 1).drop_last() =~= lv.take(i as int));
        assert(lv.take(i as int + 1).last() == lv[i as int]);
        let l = ls[i].as_str();
        proof {
            lemma_first_index_bounds(l@, '\t');
        }
        if let Some(t) = find_tab(l) {
            let n = l.unicode_len();
            let mp = l.substring_char(t + 1, n);
            if has_prefix(mp, INPUT_ROOT) {
                let ghost before = r@;
                r.push((l.substring_char(0, t).to_owned(), mp.to_owned()));
                assert(pairs_view(r@) =~= pairs_view(before).push(mount_entry(lv[i as int])->Some_0));
            }
        }
        i += 1;
    }
    assert(lv.take(ls@.len() as int) =~= lv);
    r
}


/// Names joined by `, `.
pub open spec fn join_names(ls: Seq<Seq<char>>) -> Seq<char>
    decreases ls.len(),
{
    if ls.len() == 0 {
        Seq::empty()
    } else if ls.len() == 1 {
        ls[0]
    } else {
        join_names(ls.drop_last()) + ", "@ + ls.last()
    }
}

/// What is shown for a plan error.
pub open spec fn error_message(e: PlanErrorModel) -> Seq<char> {
    match e {
        PlanErrorModel::MisplacedScript => "script path not within `.github/buildomat/jobs`"@,
        PlanErrorModel::InputNotFound(i) => "input "@ + text_of(i) + " not found"@,
        PlanErrorModel::NotAnInput(i) => text_of(i) + " is not an input to this job"@,
        PlanErrorModel::MissingInputs(keys) => "required input not provided: "@ + join_names(keys),
    }
}

impl PlanError {
    /// The message shown for this error.
    pub fn message(&self) -> (r: String)
        ensures
            r@ == error_message(self.model()),
    {
        match self {
            PlanError::MisplacedScript => "script path not within `.github/buildomat/jobs`".to_owned(),
            PlanError::InputNotFound(i) => {
                let mut r = concat("input ", i.to_string().as_str());
                r.append(" not found");
                r
            },
            PlanError::NotAnInput(i) => {
                let mut r = i.to_string();
                r.append(" is not an input to this job");
                r
            },
            PlanError::MissingInputs(keys) => {
                let ghost kv = strings_view(keys@);
                let mut names = String::new();
                let mut j: usize = 0;
                proof {
                    assert(kv.take(0) =~= Seq::<Seq<char>>::empty());
                }
                while j < keys.len()
                    invariant
                        j <= keys@.len(),
                        kv == strings_view(keys@),
                        names@ == join_names(kv.take(j as int)),
                    decreases keys@.len() - j,
                {
                    assert(kv.take(j as int + 1).drop_last() =~= kv.take(j as int));
                    if j > 0 {
                        names.append(", ");
                    } else {
                        assert(kv.take(1) =~= seq![kv[0]]);
                    }
                    names.append(keys[j].as_str());
                    proof {
                        if j == 0 {
                            assert(names@ =~= kv[0]);
                        } else {
                            assert(names@ =~= join_names(kv.take(j as int + 1)));
                        }
                    }
                    j += 1;
                }
                assert(kv.take(keys@.len() as int) =~= kv);
                let mut r = "required input not provided: ".to_owned();
                r.append(names.as_str());
                r
            },
        }
    }
}


/// `a` is `b` followed by more.
pub open spec fn extends<A>(b: Seq<A>, a: Seq<A>) -> bool {
    b.len() <= a.len() && a.take(b.len() as int) == b
}

proof fn lemma_extends_push<A>(b: Seq<A>, a: Seq<A>, x: A)
    requires
        extends(b, a),
    ensures
        extends(b, a.push(x)),
{
    assert(a.push(x).take(b.len() as int) =~= a.take(b.len() as int));
}

proof fn lemma_extends_concat<A>(b: Seq<A>, a: Seq<A>, c: Seq<A>)
    requires
        extends(b, a),
    ensures
        extends(b, a + c),
{
    assert((a + c).take(b.len() as int) =~= a.take(b.len() as int));
}

/// Later inputs only add to what earlier ones planned to destroy, create,
/// download and mark.
proof fn lemma_resolve_grows(
    facts: Seq<InputFacts>,
    m: nat,
    n: nat,
    pool: PoolState,
    deps: Seq<(Seq<char>, Seq<char>)>,
    chown: Seq<char>,
)
    requires
        m <= n <= facts.len(),
        resolve_prefix(facts, n, pool, deps, chown) is Ok,
    ensures
        resolve_prefix(facts, m, pool, deps, chown) is Ok,
        ({
            let a = resolve_prefix(facts, m, pool, deps, chown)->Ok_0;
            let b = resolve_prefix(facts, n, pool, deps, chown)->Ok_0;
            &&& extends(a.cleanup, b.cleanup)
            &&& extends(a.mount, b.mount)
            &&& extends(a.downloads, b.downloads)
            &&& extends(a.readonly, b.readonly)
        }),
    decreases n - m,
{
    if m == n {
        let a = resolve_prefix(facts, m, pool, deps, chown)->Ok_0;
        assert(a.cleanup.take(a.cleanup.len() as int) =~= a.cleanup);
        assert(a.mount.take(a.mount.len() as int) =~= a.mount);
        assert(a.downloads.take(a.downloads.len() as int) =~= a.downloads);
        assert(a.readonly.take(a.readonly.len() as int) =~= a.readonly);
    } else {
        if resolve_prefix(facts, (n - 1) as nat, pool, deps, chown) is Err {
            assert(resolve_prefix(facts, n, pool, deps, chown) is Err);
        }
        lemma_resolve_grows(facts, m, (n - 1) as nat, pool, deps, chown);
        let a = resolve_prefix(facts, m, pool, deps, chown)->Ok_0;
        let p = resolve_prefix(facts, (n - 1) as nat, pool, deps, chown)->Ok_0;
        let f = facts[n - 1];
        if f.dataset_exists {
            lemma_extends_push(a.cleanup, p.cleanup, StepModel::DestroyDataset {
                dataset: input_dataset(f.input.model()),
            });
        }
        if f.job_name is Some && dep_key(deps, f.job_name->Some_0@) is Some {
            let mp = joined_path(INPUT_ROOT@, dep_key(deps, f.job_name->Some_0@)->Some_0);
            let ds = input_dataset(f.input.model());
            lemma_extends_push(a.mount, p.mount, StepModel::SetDatasetMountpoint {
                dataset: ds,
                mountpoint: mp,
            });
            lemma_extends_push(a.mount, p.mount, StepModel::CreateDataset {
                dataset: ds,
                mountpoint: Some(mp),
                create_parents: true,
                chown,
            });
            lemma_extends_concat(a.downloads, p.downloads, placed(mp, pairs_view(f.artefacts@)));
            lemma_extends_push(a.readonly, p.readonly, StepModel::SetDatasetReadOnly { dataset: ds });
        }
    }
}

/// In the plan, a remote run left writable by an interrupted download has its
/// dataset destroyed, then created again at the dependency's mountpoint, then
/// (when the run has artefacts) every artefact downloaded below that
/// mountpoint, and only then marked read-only.
pub proof fn law_interrupted_dataset_order(
    script: Seq<char>,
    fm: FrontMatter,
    pool: PoolState,
    chown: Seq<char>,
    facts: Seq<InputFacts>,
    source: Option<SourceState>,
    new_id: u128,
    i: int,
)
    requires
        0 <= i < facts.len(),
        facts[i].input is GitHubRun,
        facts[i].dataset_exists,
        facts[i].readonly_off,
        plan_of(script, fm, pool, chown, facts, source, new_id) is Ok,
    ensures
        ({
            let steps = plan_of(script, fm, pool, chown, facts, source, new_id)->Ok_0;
            let ds = input_dataset(facts[i].input.model());
            let mp = joined_path(
                INPUT_ROOT@,
                dep_key(deps_view(fm.dependencies@), facts[i].job_name->Some_0@)->Some_0,
            );
            let arts = pairs_view(facts[i].artefacts@);
            exists|a: int, b: int, d: int|
                #![trigger steps[a], steps[b], steps[d]]
                0 <= a < b < d < steps.len() && steps[a] == StepModel::DestroyDataset { dataset: ds }
                    && steps[b] == StepModel::CreateDataset {
                    dataset: ds,
                    mountpoint: Some(mp),
                    create_parents: true,
                    chown,
                } && steps[d] == StepModel::SetDatasetReadOnly { dataset: ds } && (arts.len() > 0
                    ==> exists|c: int|
                    b < c < d && #[trigger] steps[c] is DownloadArtefacts && forall|k: int|
                        0 <= k < arts.len() ==> steps[c]->DownloadArtefacts_0.contains(
                            (mp + (#[trigger] arts[k]).0, arts[k].1),
                        ))
        }),
{
    let deps = deps_view(fm.dependencies@);
    let n = facts.len();
    let root = job_root_of(script)->Some_0;
    lemma_resolve_grows(facts, i as nat, n, pool, deps, chown);
    lemma_resolve_grows(facts, (i + 1) as nat, n, pool, deps, chown);
    let before = resolve_prefix(facts, i as nat, pool, deps, chown)->Ok_0;
    let after = resolve_prefix(facts, (i + 1) as nat, pool, deps, chown)->Ok_0;
    let st = resolve_prefix(facts, n, pool, deps, chown)->Ok_0;
    let f = facts[i];
    let ds = input_dataset(f.input.model());
    let mp = joined_path(INPUT_ROOT@, dep_key(deps, f.job_name->Some_0@)->Some_0);
    law_interrupted_dataset_is_redone(before, f, deps, chown);
    let kc = before.cleanup.len() as int;
    let km = before.mount.len() as int;
    let kr = before.readonly.len() as int;
    assert(after.cleanup[kc] == StepModel::DestroyDataset { dataset: ds });
    assert(st.cleanup[kc] == after.cleanup.take(after.cleanup.len() as int)[kc]);
    assert(st.mount[km] == after.mount.take(after.mount.len() as int)[km]);
    assert(st.readonly[kr] == after.readonly.take(after.readonly.len() as int)[kr]);
    let b0 = bootstrap(pool, chown);
    let u = section("remove inputs from a previous job from /input"@, unmount_steps(st.mounted));
    let c = section("remove incomplete /input datasets"@, st.cleanup);
    let m = section("set up datasets for /input"@, st.mount);
    let d = download_section(st.downloads);
    let r = section("mark /input datasets read-only"@, st.readonly);
    let t = tail_steps(script, root, fm, source, new_id);
    let steps = b0 + u + c + m + d + r + t;
    assert(plan_of(script, fm, pool, chown, facts, source, new_id)->Ok_0 == steps);
    let ia: int = b0.len() + u.len() + 1 + kc;
    let ib: int = b0.len() + u.len() + c.len() + 1 + km;
    let id: int = b0.len() + u.len() + c.len() + m.len() + d.len() + 1 + kr;
    assert(c[1 + kc] == st.cleanup[kc]);
    assert(m[1 + km] == st.mount[km]);
    assert(r[1 + kr] == st.readonly[kr]);
    assert(steps[ia] == c[1 + kc]);
    assert(steps[ib] == m[1 + km]);
    assert(steps[id] == r[1 + kr]);
    if f.artefacts@.len() > 0 {
        assert(placed(mp, pairs_view(f.artefacts@)).len() > 0);
        assert(after.downloads.len() > 0);
        assert(st.downloads.len() > 0);
        let ic: int = (b0.len() + u.len() + c.len() + m.len() + 1) as int;
        assert(d[1] is DownloadArtefacts);
        assert(steps[ic] == d[1]);
        assert(ib < ic < id);
        let arts = pairs_view(f.artefacts@);
        let kd = before.downloads.len() as int;
        assert forall|k: int| 0 <= k < arts.len() implies st.downloads.contains(
            (mp + (#[trigger] arts[k]).0, arts[k].1),
        ) by {
            assert(after.downloads[kd + k] == placed(mp, arts)[k]);
            assert(st.downloads[kd + k] == after.downloads.take(after.downloads.len() as int)[kd + k]);
        }
        assert(steps[ic]->DownloadArtefacts_0 == st.downloads);
    }
}


proof fn lemma_push_contains<A>(s: Seq<A>, x: A, p: A)
    ensures
        s.push(x).contains(p) <==> (s.contains(p) || p == x),
{
    if s.push(x).contains(p) {
        let j = choose|j: int| 0 <= j < s.push(x).len() && s.push(x)[j] == p;
        if j < s.len() {
            assert(s[j] == p);
        }
    }
    if s.contains(p) {
        let j = choose|j: int| 0 <= j < s.len() && s[j] == p;
        assert(s.push(x)[j] == p);
    }
    if p == x {
        assert(s.push(x)[s.len() as int] == p);
    }
}

proof fn lemma_unmount_contains(m: Seq<(Seq<char>, Seq<char>)>, ds: Seq<char>, p: (Seq<char>, Seq<char>))
    ensures
        unmount(m, ds).contains(p) <==> (m.contains(p) && p.0 != ds),
    decreases m.len(),
{
    if m.len() > 0 {
        lemma_unmount_contains(m.drop_last(), ds, p);
        let r = unmount(m.drop_last(), ds);
        assert(m =~= m.drop_last().push(m.last()));
        lemma_push_contains(m.drop_last(), m.last(), p);
        lemma_push_contains(r, m.last(), p);
    } else {
        assert(!m.contains(p));
    }
}

/// The kinds of step each phase of the per-input pass plans.
pub open spec fn phase_kinds(st: Resolution) -> bool {
    &&& forall|i: int| 0 <= i < st.cleanup.len() ==> #[trigger] st.cleanup[i] is DestroyDataset
    &&& forall|i: int|
        0 <= i < st.mount.len() ==> (#[trigger] st.mount[i] is CreateDataset
            || st.mount[i] is SetDatasetMountpoint)
    &&& forall|i: int| 0 <= i < st.readonly.len() ==> #[trigger] st.readonly[i] is SetDatasetReadOnly
}

/// What the per-input pass leaves to unmount: the mounts found, without those
/// of the inputs taken into account.
proof fn lemma_resolve_mounted(
    facts: Seq<InputFacts>,
    n: nat,
    pool: PoolState,
    deps: Seq<(Seq<char>, Seq<char>)>,
    chown: Seq<char>,
    p: (Seq<char>, Seq<char>),
)
    requires
        n <= facts.len(),
        resolve_prefix(facts, n, pool, deps, chown) is Ok,
    ensures
        phase_kinds(resolve_prefix(facts, n, pool, deps, chown)->Ok_0),
        resolve_prefix(facts, n, pool, deps, chown)->Ok_0.mounted.contains(p) <==> (
        initial_resolution(pool).mounted.contains(p) && forall|i: int|
            0 <= i < n ==> p.0 != input_dataset(#[trigger] facts[i].input.model())),
    decreases n,
{
    if n > 0 {
        if resolve_prefix(facts, (n - 1) as nat, pool, deps, chown) is Err {
            assert(resolve_prefix(facts, n, pool, deps, chown) is Err);
        }
        lemma_resolve_mounted(facts, (n - 1) as nat, pool, deps, chown, p);
        let prev = resolve_prefix(facts, (n - 1) as nat, pool, deps, chown)->Ok_0;
        let f = facts[n - 1];
        let ds = input_dataset(f.input.model());
        lemma_unmount_contains(prev.mounted, ds, p);
        let cur = resolve_prefix(facts, n, pool, deps, chown)->Ok_0;
        assert(phase_kinds(cur)) by {
            assert forall|i: int| 0 <= i < cur.cleanup.len() implies #[trigger] cur.cleanup[i] is DestroyDataset by {
                if i < prev.cleanup.len() {
                    assert(cur.cleanup[i] == prev.cleanup[i]);
                }
            }
            assert forall|i: int| 0 <= i < cur.mount.len() implies (#[trigger] cur.mount[i] is CreateDataset
                || cur.mount[i] is SetDatasetMountpoint) by {
                if i < prev.mount.len() {
                    assert(cur.mount[i] == prev.mount[i]);
                }
            }
            assert forall|i: int| 0 <= i < cur.readonly.len() implies #[trigger] cur.readonly[i] is SetDatasetReadOnly by {
                if i < prev.readonly.len() {
                    assert(cur.readonly[i] == prev.readonly[i]);
                }
            }
        }
        if cur.mounted.contains(p) {
            assert forall|i: int| 0 <= i < n implies p.0 != input_dataset(#[trigger] facts[i].input.model()) by {
                if i < n - 1 {
                } else {
                    assert(facts[i] == f);
                }
            }
        }
        if initial_resolution(pool).mounted.contains(p) && forall|i: int|
            0 <= i < n ==> p.0 != input_dataset(#[trigger] facts[i].input.model()) {
            assert(p.0 != input_dataset(facts[n - 1].input.model()));
            assert forall|i: int| 0 <= i < n - 1 implies p.0 != input_dataset(#[trigger] facts[i].input.model()) by {
                assert(p.0 != input_dataset(facts[i].input.model()));
            }
        }
    } else {
        assert(resolve_prefix(facts, 0, pool, deps, chown)->Ok_0 == initial_resolution(pool));
    }
}

/// No unmount step.
pub open spec fn no_unmount(s: Seq<StepModel>) -> bool {
    forall|i: int| 0 <= i < s.len() ==> !(#[trigger] s[i] is InheritDatasetMountpoint)
}

proof fn lemma_no_unmount_concat(a: Seq<StepModel>, b: Seq<StepModel>)
    requires
        no_unmount(a),
        no_unmount(b),
    ensures
        no_unmount(a + b),
{
    assert forall|i: int| 0 <= i < (a + b).len() implies !(#[trigger] (a + b)[i] is InheritDatasetMountpoint) by {
        if i < a.len() {
            assert((a + b)[i] == a[i]);
        } else {
            assert((a + b)[i] == b[i - a.len()]);
        }
    }
}

/// A dataset found mounted below the input root is unmounted by the plan
/// exactly when no input of the job is held in it.
pub proof fn law_only_unneeded_mounts_are_dropped(
    script: Seq<char>,
    fm: FrontMatter,
    pool: PoolState,
    chown: Seq<char>,
    facts: Seq<InputFacts>,
    source: Option<SourceState>,
    new_id: u128,
    e: Seq<char>,
)
    requires
        plan_of(script, fm, pool, chown, facts, source, new_id) is Ok,
    ensures
        plan_of(script, fm, pool, chown, facts, source, new_id)->Ok_0.contains(
            StepModel::InheritDatasetMountpoint { dataset: e },
        ) <==> ((exists|p: (Seq<char>, Seq<char>)|
            #[trigger] initial_resolution(pool).mounted.contains(p) && p.0 == e) && forall|i: int|
            0 <= i < facts.len() ==> e != input_dataset(#[trigger] facts[i].input.model())),
{
    let deps = deps_view(fm.dependencies@);
    let root = job_root_of(script)->Some_0;
    let st = resolve_prefix(facts, facts.len(), pool, deps, chown)->Ok_0;
    let x = StepModel::InheritDatasetMountpoint { dataset: e };
    let b0 = bootstrap(pool, chown);
    let us = unmount_steps(st.mounted);
    let u = section("remove inputs from a previous job from /input"@, us);
    let c = section("remove incomplete /input datasets"@, st.cleanup);
    let m = section("set up datasets for /input"@, st.mount);
    let d = download_section(st.downloads);
    let r = section("mark /input datasets read-only"@, st.readonly);
    let t = tail_steps(script, root, fm, source, new_id);
    let steps = b0 + u + c + m + d + r + t;
    assert(plan_of(script, fm, pool, chown, facts, source, new_id)->Ok_0 == steps);
    lemma_resolve_mounted(facts, facts.len(), pool, deps, chown, (e, e));
    let rest = c + m + d + r + t;
    assert(no_unmount(b0));
    assert(no_unmount(c)) by {
        assert forall|i: int| 0 <= i < c.len() implies !(#[trigger] c[i] is InheritDatasetMountpoint) by {
            if i > 0 {
                assert(c[i] == st.cleanup[i - 1]);
            }
        }
    }
    assert(no_unmount(m)) by {
        assert forall|i: int| 0 <= i < m.len() implies !(#[trigger] m[i] is InheritDatasetMountpoint) by {
            if i > 0 {
                assert(m[i] == st.mount[i - 1]);
            }
        }
    }
    assert(no_unmount(d));
    assert(no_unmount(r)) by {
        assert forall|i: int| 0 <= i < r.len() implies !(#[trigger] r[i] is InheritDatasetMountpoint) by {
            if i > 0 {
                assert(r[i] == st.readonly[i - 1]);
            }
        }
    }
    assert(no_unmount(t));
    lemma_no_unmount_concat(c, m);
    lemma_no_unmount_concat(c + m, d);
    lemma_no_unmount_concat(c + m + d, r);
    lemma_no_unmount_concat(c + m + d + r, t);
    assert(steps =~= b0 + u + rest);
    // The unmount section holds `x` exactly when some mount left over is of `e`.
    let left = (exists|p: (Seq<char>, Seq<char>)| #[trigger] st.mounted.contains(p) && p.0 == e);
    if steps.contains(x) {
        let k = choose|k: int| 0 <= k < steps.len() && steps[k] == x;
        assert(!(k < b0.len()));
        assert(!(k >= b0.len() + u.len())) by {
            if k >= b0.len() + u.len() {
                assert(steps[k] == rest[k - b0.len() - u.len()]);
            }
        }
        assert(u[k - b0.len()] == x);
        assert(us[k - b0.len() - 1] == x);
        let p = st.mounted[k - b0.len() - 1];
        assert(st.mounted.contains(p));
        lemma_resolve_mounted(facts, facts.len(), pool, deps, chown, p);
    }
    if (exists|p: (Seq<char>, Seq<char>)|
        #[trigger] initial_resolution(pool).mounted.contains(p) && p.0 == e) && forall|i: int|
        0 <= i < facts.len() ==> e != input_dataset(#[trigger] facts[i].input.model()) {
        let p = choose|p: (Seq<char>, Seq<char>)|
            #[trigger] initial_resolution(pool).mounted.contains(p) && p.0 == e;
        lemma_resolve_mounted(facts, facts.len(), pool, deps, chown, p);
        assert(st.mounted.contains(p));
        let j = choose|j: int| 0 <= j < st.mounted.len() && st.mounted[j] == p;
        assert(us[j] == x);
        assert(u[j + 1] == x);
        assert(steps[b0.len() + 1 + j] == x);
    }
}


/// Every input is found and comes from a declared dependency.
pub open spec fn inputs_declared(facts: Seq<InputFacts>, deps: Seq<(Seq<char>, Seq<char>)>) -> bool {
    forall|i: int|
        0 <= i < facts.len() ==> (#[trigger] facts[i]).job_name is Some && dep_key(
            deps,
            facts[i].job_name->Some_0@,
        ) is Some
}

proof fn lemma_resolve_ok(
    facts: Seq<InputFacts>,
    n: nat,
    pool: PoolState,
    deps: Seq<(Seq<char>, Seq<char>)>,
    chown: Seq<char>,
)
    requires
        n <= facts.len(),
        inputs_declared(facts, deps),
    ensures
        resolve_prefix(facts, n, pool, deps, chown) is Ok,
        forall|i: int|
            0 <= i < n ==> resolve_prefix(facts, n, pool, deps, chown)->Ok_0.matched.contains(
                (#[trigger] facts[i]).job_name->Some_0@,
            ),
    decreases n,
{
    if n > 0 {
        lemma_resolve_ok(facts, (n - 1) as nat, pool, deps, chown);
        let prev = resolve_prefix(facts, (n - 1) as nat, pool, deps, chown)->Ok_0;
        let f = facts[n - 1];
        assert(f.job_name is Some && dep_key(deps, f.job_name->Some_0@) is Some);
        let cur = resolve_prefix(facts, n, pool, deps, chown)->Ok_0;
        assert(cur.matched == prev.matched.push(f.job_name->Some_0@));
        assert forall|i: int| 0 <= i < n implies cur.matched.contains(
            (#[trigger] facts[i]).job_name->Some_0@,
        ) by {
            lemma_push_contains(prev.matched, f.job_name->Some_0@, facts[i].job_name->Some_0@);
        }
    }
}

proof fn lemma_no_missing(deps: Seq<(Seq<char>, Seq<char>)>, matched: Seq<Seq<char>>)
    requires
        forall|d: int| 0 <= d < deps.len() ==> matched.contains(#[trigger] deps[d].1),
    ensures
        missing_keys(deps, matched).len() == 0,
    decreases deps.len(),
{
    if deps.len() > 0 {
        assert forall|d: int| 0 <= d < deps.drop_last().len() implies matched.contains(
            #[trigger] deps.drop_last()[d].1,
        ) by {
            assert(deps.drop_last()[d] == deps[d]);
        }
        lemma_no_missing(deps.drop_last(), matched);
        assert(matched.contains(deps[deps.len() - 1].1));
    }
}

/// Planning succeeds when the script is in place, every input is found and
/// comes from a declared dependency, and every declared dependency is
/// provided by some input.
pub proof fn law_plan_succeeds(
    script: Seq<char>,
    fm: FrontMatter,
    pool: PoolState,
    chown: Seq<char>,
    facts: Seq<InputFacts>,
    source: Option<SourceState>,
    new_id: u128,
)
    requires
        job_root_of(script) is Some,
        inputs_declared(facts, deps_view(fm.dependencies@)),
        forall|d: int|
            0 <= d < fm.dependencies@.len() ==> exists|i: int|
                0 <= i < facts.len() && (#[trigger] facts[i]).job_name == Some(
                    #[trigger] fm.dependencies@[d].job,
                ),
    ensures
        plan_of(script, fm, pool, chown, facts, source, new_id) is Ok,
{
    let deps = deps_view(fm.dependencies@);
    lemma_resolve_ok(facts, facts.len(), pool, deps, chown);
    let st = resolve_prefix(facts, facts.len(), pool, deps, chown)->Ok_0;
    assert forall|d: int| 0 <= d < deps.len() implies st.matched.contains(#[trigger] deps[d].1) by {
        assert(deps[d].1 == fm.dependencies@[d].job@);
        let i = choose|i: int|
            0 <= i < facts.len() && (#[trigger] facts[i]).job_name == Some(fm.dependencies@[d].job);
        assert(st.matched.contains(facts[i].job_name->Some_0@));
    }
    lemma_no_missing(deps, st.matched);
}

} // verus!
